//! Building a ballot from a submitted form: the speakers of each team, then
//! the teams, then the ranks that follow from them.
use vstd::prelude::*;
use crate::seqs::{sort_by_key, lemma_insert_by_key_at, views};
use crate::ballots::{BallotRepr, BallotMetadata, BallotScore, BallotTeamRank, team_total, total_of_team};
use crate::draws::{DebateRepr, team_at};
use crate::participants::{TournamentParticipants, speaker_name_or_empty};
use crate::rounds::{Round, Motion, is_elim};
use crate::aggregate::new_id;
use crate::text::{nat_text, u64_to_string};
use crate::tournament::{Tournament, score_within_bounds};

verus! {

/// The message for a score outside the bounds of its speech.
pub open spec fn score_error_text(name: Seq<char>) -> Seq<char> {
    "Error: the score of "@ + name + " is outside the allowed range"@
}

/// The number of speeches a team gives, as the builder counts it.
pub open spec fn speeches_per_team(t: Tournament) -> int {
    (t.substantive_speakers as usize) as int + if t.reply_speakers { 1int } else { 0int }
}

/// Collects the speakers of one team, in speaking order.
pub struct BallotTeamSpeakersBuilder<'a> {
    pub(crate) tournament: &'a Tournament,
    pub(crate) participants: &'a TournamentParticipants,
    pub(crate) records_scores: bool,
    pub(crate) records_positions: bool,
    pub(crate) expected_speakers: usize,
    pub(crate) scores: Vec<(String, Option<i64>)>,
}

impl<'a> BallotTeamSpeakersBuilder<'a> {
    /// A builder expects the speeches of its format, and holds no more
    /// speakers than that.
    #[verifier::type_invariant]
    spec fn well_formed(self) -> bool {
        &&& self.expected_speakers == speeches_per_team(*self.tournament)
        &&& self.scores@.len() <= self.expected_speakers
    }

    /// The number of speeches the team gives.
    pub fn expected_speakers(&self) -> (r: usize)
        ensures
            r == self@.expected_speakers,
    {
        self.expected_speakers
    }
}

/// What a speakers builder holds: the format and participants it was made
/// for, what the round records, how many speeches a team gives, and the
/// speakers collected so far.
pub struct SpeakersBuilderState {
    pub tournament: Tournament,
    pub participants: TournamentParticipants,
    pub records_scores: bool,
    pub records_positions: bool,
    pub expected_speakers: usize,
    pub scores: Seq<(String, Option<i64>)>,
}

impl<'a> View for BallotTeamSpeakersBuilder<'a> {
    type V = SpeakersBuilderState;

    closed spec fn view(&self) -> SpeakersBuilderState {
        SpeakersBuilderState {
            tournament: *self.tournament,
            participants: *self.participants,
            records_scores: self.records_scores,
            records_positions: self.records_positions,
            expected_speakers: self.expected_speakers,
            scores: self.scores@,
        }
    }
}

/// The error, if any, that adding the speaker `id` with score `score` at
/// speaking position `position` of a team gives, in a format expecting
/// `expected` speeches per team, where the round records speaker order
/// (`records_positions`) and scores (`records_scores`) as given.
pub open spec fn speaker_error(
    t: Tournament,
    p: TournamentParticipants,
    records_scores: bool,
    records_positions: bool,
    expected: int,
    position: int,
    id: Seq<char>,
    score: Option<i64>,
) -> Option<Seq<char>> {
    if !records_positions {
        Some("Error: speakers should not be submitted for this round type"@)
    } else if position >= expected {
        Some("Error: too many speakers added"@)
    } else if records_scores && score is Some && !score_within_bounds(
        t,
        score->0 as int,
        position >= (t.substantive_speakers as usize),
    ) {
        Some(score_error_text(speaker_name_or_empty(p, id)))
    } else {
        None
    }
}

/// The outcome of adding a speaker: the error a builder in state `b` gives
/// for speaker `id` with score `score`, if any.
pub open spec fn add_speaker_error(b: BallotTeamSpeakersBuilder, id: Seq<char>, score: Option<i64>) -> Option<
    Seq<char>,
> {
    speaker_error(
        b@.tournament,
        b@.participants,
        b@.records_scores,
        b@.records_positions,
        b@.expected_speakers as int,
        b@.scores.len() as int,
        id,
        score,
    )
}

impl<'a> BallotTeamSpeakersBuilder<'a> {
    /// An empty builder for a team of a format with the given settings.
    pub fn new(
        tournament: &'a Tournament,
        participants: &'a TournamentParticipants,
        records_scores: bool,
        records_positions: bool,
    ) -> (r: Self)
        requires
            speeches_per_team(*tournament) <= usize::MAX,
        ensures
            r@.tournament == *tournament,
            r@.participants == *participants,
            r@.records_scores == records_scores,
            r@.records_positions == records_positions,
            r@.expected_speakers == speeches_per_team(*tournament),
            r@.scores.len() == 0,
    {
        let expected_speakers = tournament.substantive_speakers as usize + if tournament.reply_speakers {
            1
        } else {
            0
        };
        BallotTeamSpeakersBuilder {
            tournament,
            participants,
            records_scores,
            records_positions,
            expected_speakers,
            scores: Vec::new(),
        }
    }

    /// Adds the next speaker, with their score where scores are recorded (a
    /// score is dropped where they are not). Fails where speakers are not
    /// recorded, where the team already has all its speakers, or where the
    /// score is outside the bounds of the speech.
    pub fn add_speaker(self, speaker_id: &String, score: Option<i64>) -> (r: Result<Self, String>)
        ensures
            match add_speaker_error(self, speaker_id@, score) {
                Some(msg) => (r matches Err(e) && e@ == msg),
                None => (r matches Ok(b) && b@ == (SpeakersBuilderState {
                    scores: self@.scores.push((*speaker_id, if self@.records_scores { score } else { None })),
                    ..self@
                })),
            },
    {
        proof {
            reveal_strlit("Error: speakers should not be submitted for this round type");
            reveal_strlit("Error: too many speakers added");
            reveal_strlit("Error: the score of ");
            reveal_strlit(" is outside the allowed range");
        }
        proof {
            use_type_invariant(&self);
        }
        if !self.records_positions {
            return Err(String::from_str("Error: speakers should not be submitted for this round type"));
        }
        let position = self.scores.len();
        if position >= self.expected_speakers {
            return Err(String::from_str("Error: too many speakers added"));
        }
        let kept = if self.records_scores {
            match score {
                Some(v) => {
                    let is_reply = position >= self.tournament.substantive_speakers as usize;
                    if !self.tournament.score_is_valid(v, is_reply) {
                        let name = self.participants.speaker_name(speaker_id);
                        let msg = String::from_str("Error: the score of ").concat(name.as_str()).concat(
                            " is outside the allowed range",
                        );
                        return Err(msg);
                    }
                    Some(v)
                },
                None => None,
            }
        } else {
            None
        };
        let BallotTeamSpeakersBuilder {
            tournament,
            participants,
            records_scores,
            records_positions,
            expected_speakers,
            scores,
        } = self;
        let mut scores = scores;
        scores.push((speaker_id.clone(), kept));
        Ok(BallotTeamSpeakersBuilder { tournament, participants, records_scores, records_positions, expected_speakers, scores })
    }

    /// The speakers collected; fails where speakers are recorded and the
    /// team does not have all of them.
    pub fn build(self) -> (r: Result<Vec<(String, Option<i64>)>, String>)
        ensures
            self@.records_positions && self@.scores.len() != self@.expected_speakers ==> (r matches Err(e)
                && e@ == "Error: missing speaker information"@),
            !(self@.records_positions && self@.scores.len() != self@.expected_speakers) ==> (r matches Ok(v) && v@
                == self@.scores),
    {
        proof {
            reveal_strlit("Error: missing speaker information");
        }
        if self.records_positions && self.scores.len() != self.expected_speakers {
            return Err(String::from_str("Error: missing speaker information"));
        }
        Ok(self.scores)
    }
}

/// The number of teams that advance from a debate of an elimination round:
/// one in a two-team format or in the final of a break category, else half
/// of the teams.
pub open spec fn advancing_count(t: Tournament, is_final: bool) -> int {
    let total = ((t.teams_per_side * 2) as usize) as int;
    if total == 2 {
        1
    } else if is_final {
        1
    } else {
        total / 2
    }
}

/// The number of teams that advance from a debate of an elimination round
/// (see `advancing_count`).
pub fn num_advancing_for_elim_round(tournament: &Tournament, is_final_of_break_category: bool) -> (r: usize)
    requires
        i64::MIN <= tournament.teams_per_side * 2 <= i64::MAX,
    ensures
        r == advancing_count(*tournament, is_final_of_break_category),
{
    let total_teams = #[verifier::truncate] ((tournament.teams_per_side * 2) as usize);
    if total_teams == 2 {
        1
    } else if is_final_of_break_category {
        1
    } else {
        total_teams / 2
    }
}

/// Whether a motion has the given identifier.
pub open spec fn has_motion(d: DebateRepr, id: Seq<char>) -> bool {
    exists|i: int| 0 <= i < d.motions@.len() && (#[trigger] d.motions@[i]).id@ == id
}

fn find_motion(motions: &Vec<Motion>, id: &String) -> (r: bool)
    ensures
        r == exists|i: int| 0 <= i < motions@.len() && (#[trigger] motions@[i]).id@ == id@,
{
    let mut i: usize = 0;
    while i < motions.len()
        invariant
            i <= motions.len(),
            forall|j: int| 0 <= j < i ==> (#[trigger] motions@[j]).id@ != id@,
        decreases motions.len() - i,
    {
        if motions[i].id == *id {
            return true;
        }
        i = i + 1;
    }
    false
}

/// Builds a ballot team by team.
pub struct BallotBuilder<'a> {
    pub(crate) tournament: &'a Tournament,
    pub(crate) debate: &'a DebateRepr,
    pub(crate) participants: &'a TournamentParticipants,
    pub(crate) metadata: BallotMetadata,
    pub(crate) records_positions: bool,
    pub(crate) records_scores: bool,
    pub(crate) is_elim: bool,
    pub(crate) num_advancing: Option<usize>,
    pub(crate) scores: Vec<BallotScore>,
    pub(crate) advancing_team_ids: Vec<String>,
    pub(crate) teams_added: usize,
}

impl<'a> BallotBuilder<'a> {
    /// An elimination ballot knows how many teams advance; a preliminary
    /// one does not.
    #[verifier::type_invariant]
    spec fn well_formed(self) -> bool {
        self.is_elim <==> self.num_advancing is Some
    }

    /// The version the ballot will be stored as.
    pub fn version(&self) -> (r: i64)
        ensures
            r == self@.metadata.version,
    {
        self.metadata.version
    }

    /// Whether the ballot is one of an elimination round.
    pub fn is_elim(&self) -> (r: bool)
        ensures
            r == self@.is_elim,
    {
        self.is_elim
    }

    /// How many teams advance, in an elimination round.
    pub fn num_advancing(&self) -> (r: Option<usize>)
        ensures
            r == self@.num_advancing,
    {
        self.num_advancing
    }
}

/// What a ballot builder holds: the tournament, debate and participants it
/// is for, the ballot's metadata, what the round records, whether it is an
/// elimination round and how many teams advance there, and what the teams
/// added so far gave.
pub struct BallotBuilderState {
    pub tournament: Tournament,
    pub debate: DebateRepr,
    pub participants: TournamentParticipants,
    pub metadata: BallotMetadata,
    pub records_positions: bool,
    pub records_scores: bool,
    pub is_elim: bool,
    pub num_advancing: Option<usize>,
    pub scores: Seq<BallotScore>,
    pub advancing_team_ids: Seq<String>,
    pub teams_added: usize,
}

impl<'a> View for BallotBuilder<'a> {
    type V = BallotBuilderState;

    closed spec fn view(&self) -> BallotBuilderState {
        BallotBuilderState {
            tournament: *self.tournament,
            debate: *self.debate,
            participants: *self.participants,
            metadata: self.metadata,
            records_positions: self.records_positions,
            records_scores: self.records_scores,
            is_elim: self.is_elim,
            num_advancing: self.num_advancing,
            scores: self.scores@,
            advancing_team_ids: self.advancing_team_ids@,
            teams_added: self.teams_added,
        }
    }
}

/// The message for a ballot edited since its editor loaded it.
pub open spec fn stale_version_text() -> Seq<char> {
    "Error: The ballot has been modified since you started editing. Please reload the page to see the latest version."@
}

impl<'a> BallotBuilder<'a> {
    /// Starts a ballot: fails where the submitted version is not the
    /// latest (`expected_version` differs from `prior_version`) or the
    /// motion is not one of the debate's. A submission in a round that
    /// records speaker order and scores as given; an elimination round
    /// records how many teams advance.
    pub fn new(
        tournament: &'a Tournament,
        debate: &'a DebateRepr,
        round: &Round,
        participants: &'a TournamentParticipants,
        metadata: BallotMetadata,
        expected_version: i64,
        prior_version: i64,
        records_positions: bool,
        records_scores: bool,
        is_final_of_break_category: bool,
    ) -> (r: Result<Self, String>)
        requires
            i64::MIN <= tournament.teams_per_side * 2 <= i64::MAX,
        ensures
            expected_version != prior_version ==> (r matches Err(e) && e@ == stale_version_text()),
            expected_version == prior_version && !has_motion(*debate, metadata.motion_id@) ==> (r matches Err(e)
                && e@ == "Error: invalid motion"@),
            expected_version == prior_version && has_motion(*debate, metadata.motion_id@) ==> (r matches Ok(b) && {
                &&& b@.tournament == *tournament
                &&& b@.debate == *debate
                &&& b@.participants == *participants
                &&& b@.metadata == (BallotMetadata { version: expected_version, ..metadata })
                &&& b@.records_positions == records_positions
                &&& b@.records_scores == records_scores
                &&& b@.is_elim == is_elim(*round)
                &&& b@.num_advancing == if is_elim(*round) {
                    Some(advancing_count(*tournament, is_final_of_break_category) as usize)
                } else {
                    None
                }
                &&& b@.scores.len() == 0
                &&& b@.advancing_team_ids.len() == 0
                &&& b@.teams_added == 0
            }),
    {
        proof {
            reveal_strlit(
                "Error: The ballot has been modified since you started editing. Please reload the page to see the latest version.",
            );
            reveal_strlit("Error: invalid motion");
        }
        if expected_version != prior_version {
            return Err(
                String::from_str(
                    "Error: The ballot has been modified since you started editing. Please reload the page to see the latest version.",
                ),
            );
        }
        if !find_motion(&debate.motions, &metadata.motion_id) {
            return Err(String::from_str("Error: invalid motion"));
        }
        let mut metadata = metadata;
        metadata.version = expected_version;
        let elim = round.is_elim();
        let num_advancing = if elim {
            Some(num_advancing_for_elim_round(tournament, is_final_of_break_category))
        } else {
            None
        };
        Ok(
            BallotBuilder {
                tournament,
                debate,
                participants,
                metadata,
                records_positions,
                records_scores,
                is_elim: elim,
                num_advancing,
                scores: Vec::new(),
                advancing_team_ids: Vec::new(),
                teams_added: 0,
            },
        )
    }

    /// A builder for the speakers of one team of this ballot.
    pub fn team_speakers_builder(&self) -> (r: BallotTeamSpeakersBuilder<'a>)
        requires
            speeches_per_team(self@.tournament) <= usize::MAX,
        ensures
            r@.tournament == self@.tournament,
            r@.participants == self@.participants,
            r@.records_scores == self@.records_scores,
            r@.records_positions == self@.records_positions,
            r@.expected_speakers == speeches_per_team(self@.tournament),
            r@.scores.len() == 0,
    {
        BallotTeamSpeakersBuilder::new(self.tournament, self.participants, self.records_scores, self.records_positions)
    }
}

} // verus!

verus! {

/// Whether a score row holds the given values.
pub open spec fn score_row_matches(
    s: BallotScore,
    tournament_id: Seq<char>,
    ballot_id: Seq<char>,
    team_id: Seq<char>,
    speaker: (String, Option<i64>),
    position: int,
) -> bool {
    &&& s.tournament_id@ == tournament_id
    &&& s.ballot_id@ == ballot_id
    &&& s.team_id@ == team_id
    &&& s.speaker_id == speaker.0
    &&& s.speaker_position == position
    &&& s.score == speaker.1
}

/// Whether a rank row holds the given values.
pub open spec fn rank_row_matches(
    r: BallotTeamRank,
    tournament_id: Seq<char>,
    ballot_id: Seq<char>,
    team_id: Seq<char>,
    points: int,
) -> bool {
    &&& r.tournament_id@ == tournament_id
    &&& r.ballot_id@ == ballot_id
    &&& r.team_id@ == team_id
    &&& r.points == points
}

/// The number of teams in a debate of the format.
pub open spec fn teams_in_debate(t: Tournament) -> int {
    ((t.teams_per_side * 2) as usize) as int
}

/// The key by which teams of a debate are ranked from their scores: a
/// higher total ranks first.
pub open spec fn debate_team_descending_total(scores: Seq<BallotScore>) -> spec_fn(crate::draws::DebateTeam) -> int {
    |t: crate::draws::DebateTeam| -team_total(scores, t.team_id@)
}

/// The number of the first `n` teams of `teams` whose total score is below
/// `total`: the teams a team with that total beats.
pub open spec fn teams_beaten(teams: Seq<crate::draws::DebateTeam>, scores: Seq<BallotScore>, total: int, n: int) -> int
    decreases n,
{
    if n <= 0 {
        0
    } else {
        teams_beaten(teams, scores, total, n - 1) + if team_total(scores, teams[n - 1].team_id@) < total {
            1int
        } else {
            0int
        }
    }
}

/// The ranks a preliminary ballot gives: the teams of the debate ordered by
/// descending total score (ties keep the debate's order), each with one
/// point for each team of the debate with a lower total (so tied teams get
/// equal points).
pub open spec fn ranks_from_scores(
    r: Seq<BallotTeamRank>,
    scores: Seq<BallotScore>,
    d: DebateRepr,
    tournament_id: Seq<char>,
    ballot_id: Seq<char>,
) -> bool {
    let sorted = sort_by_key(d.teams_of_debate@, debate_team_descending_total(scores));
    &&& r.len() == sorted.len()
    &&& forall|k: int|
        0 <= k < r.len() ==> rank_row_matches(
            #[trigger] r[k],
            tournament_id,
            ballot_id,
            sorted[k].team_id@,
            (teams_beaten(
                d.teams_of_debate@,
                scores,
                team_total(scores, sorted[k].team_id@),
                d.teams_of_debate@.len() as int,
            ) as i64) as int,
        )
}

/// Counting the teams beaten only counts teams, and counts more with a
/// higher total.
proof fn lemma_teams_beaten_mono(teams: Seq<crate::draws::DebateTeam>, scores: Seq<BallotScore>, a: int, b: int, n: int)
    requires
        a <= b,
    ensures
        0 <= teams_beaten(teams, scores, a, n) <= teams_beaten(teams, scores, b, n),
        n >= 0 ==> teams_beaten(teams, scores, b, n) <= n,
    decreases n,
{
    if n > 0 {
        lemma_teams_beaten_mono(teams, scores, a, b, n - 1);
    }
}

/// A team beats every team with a lower total: where the total of `lo` is
/// below `hi` and `lo` is among the first `n` teams, a team with total `hi`
/// beats strictly more of them than one with total `lo` does.
proof fn lemma_teams_beaten_strict(teams: Seq<crate::draws::DebateTeam>, scores: Seq<BallotScore>, lo: int, hi: int, n: int, m: int)
    requires
        lo < hi,
        0 <= m < n,
        team_total(scores, teams[m].team_id@) == lo,
    ensures
        teams_beaten(teams, scores, lo, n) < teams_beaten(teams, scores, hi, n),
    decreases n,
{
    if m < n - 1 {
        lemma_teams_beaten_strict(teams, scores, lo, hi, n - 1, m);
        lemma_teams_beaten_mono(teams, scores, lo, hi, n - 1);
    } else {
        lemma_teams_beaten_mono(teams, scores, lo, hi, n - 1);
    }
}

/// Teams receive one point for each team that they beat: in the ranks a
/// preliminary ballot gives, a team with a higher total score gets more
/// points than a team with a lower one, and teams with equal totals get
/// equal points.
pub proof fn lemma_points_follow_totals(
    r: Seq<BallotTeamRank>,
    scores: Seq<BallotScore>,
    d: DebateRepr,
    tournament_id: Seq<char>,
    ballot_id: Seq<char>,
)
    requires
        ranks_from_scores(r, scores, d, tournament_id, ballot_id),
        d.teams_of_debate@.len() <= i64::MAX,
    ensures
        forall|i: int, j: int|
            0 <= i < r.len() && 0 <= j < r.len() && team_total(scores, (#[trigger] r[i]).team_id@) > team_total(
                scores,
                (#[trigger] r[j]).team_id@,
            ) ==> r[i].points > r[j].points,
        forall|i: int, j: int|
            0 <= i < r.len() && 0 <= j < r.len() && team_total(scores, (#[trigger] r[i]).team_id@) == team_total(
                scores,
                (#[trigger] r[j]).team_id@,
            ) ==> r[i].points == r[j].points,
{
    let key = debate_team_descending_total(scores);
    let ts = d.teams_of_debate@;
    let sorted = sort_by_key(ts, key);
    let n = ts.len() as int;
    broadcast use vstd::seq_lib::group_to_multiset_ensures;
    crate::seqs::lemma_sort_by_key_multiset(ts, key);
    assert forall|i: int, j: int|
        0 <= i < r.len() && 0 <= j < r.len() && team_total(scores, (#[trigger] r[i]).team_id@) > team_total(
            scores,
            (#[trigger] r[j]).team_id@,
        ) implies r[i].points > r[j].points by {
        let ti = team_total(scores, sorted[i].team_id@);
        let tj = team_total(scores, sorted[j].team_id@);
        assert(rank_row_matches(r[i], tournament_id, ballot_id, sorted[i].team_id@, (teams_beaten(ts, scores, ti, n) as i64) as int));
        assert(rank_row_matches(r[j], tournament_id, ballot_id, sorted[j].team_id@, (teams_beaten(ts, scores, tj, n) as i64) as int));
        assert(sorted.contains(sorted[j]));
        assert(sorted.to_multiset().count(sorted[j]) > 0);
        assert(ts.to_multiset().count(sorted[j]) > 0);
        assert(ts.contains(sorted[j]));
        let m = choose|m: int| 0 <= m < ts.len() && ts[m] == sorted[j];
        lemma_teams_beaten_strict(ts, scores, tj, ti, n, m);
        lemma_teams_beaten_mono(ts, scores, tj, ti, n);
    }
    assert forall|i: int, j: int|
        0 <= i < r.len() && 0 <= j < r.len() && team_total(scores, (#[trigger] r[i]).team_id@) == team_total(
            scores,
            (#[trigger] r[j]).team_id@,
        ) implies r[i].points == r[j].points by {
        let ti = team_total(scores, sorted[i].team_id@);
        assert(rank_row_matches(r[i], tournament_id, ballot_id, sorted[i].team_id@, (teams_beaten(ts, scores, ti, n) as i64) as int));
        assert(rank_row_matches(r[j], tournament_id, ballot_id, sorted[j].team_id@, (teams_beaten(ts, scores, ti, n) as i64) as int));
    }
}

/// Whether `ids` holds team `t`.
pub open spec fn is_advancing(ids: Seq<String>, t: Seq<char>) -> bool {
    exists|i: int| 0 <= i < ids.len() && (#[trigger] ids[i])@ == t
}

/// The ranks an elimination ballot gives: each team of the debate, in order,
/// with one point where it advances and none where it is eliminated.
pub open spec fn ranks_from_advancing(
    r: Seq<BallotTeamRank>,
    advancing: Seq<String>,
    d: DebateRepr,
    tournament_id: Seq<char>,
    ballot_id: Seq<char>,
) -> bool {
    &&& r.len() == d.teams_of_debate@.len()
    &&& forall|k: int|
        0 <= k < r.len() ==> rank_row_matches(
            #[trigger] r[k],
            tournament_id,
            ballot_id,
            d.teams_of_debate@[k].team_id@,
            if is_advancing(advancing, d.teams_of_debate@[k].team_id@) { 1int } else { 0int },
        )
}

fn string_in(ids: &Vec<String>, t: &String) -> (r: bool)
    ensures
        r == is_advancing(ids@, t@),
{
    let mut i: usize = 0;
    while i < ids.len()
        invariant
            i <= ids.len(),
            forall|j: int| 0 <= j < i ==> (#[trigger] ids@[j])@ != t@,
        decreases ids.len() - i,
    {
        if ids[i] == *t {
            return true;
        }
        i = i + 1;
    }
    false
}

/// The ranks of an elimination ballot (see `ranks_from_advancing`).
fn build_team_ranks_from_advancing(
    advancing_team_ids: &Vec<String>,
    ballot_id: &String,
    tournament_id: &String,
    debate: &DebateRepr,
) -> (r: Vec<BallotTeamRank>)
    ensures
        ranks_from_advancing(r@, advancing_team_ids@, *debate, tournament_id@, ballot_id@),
{
    let mut out: Vec<BallotTeamRank> = Vec::new();
    let mut i: usize = 0;
    while i < debate.teams_of_debate.len()
        invariant
            i <= debate.teams_of_debate.len(),
            out@.len() == i,
            forall|k: int|
                0 <= k < i ==> rank_row_matches(
                    #[trigger] out@[k],
                    tournament_id@,
                    ballot_id@,
                    debate.teams_of_debate@[k].team_id@,
                    if is_advancing(advancing_team_ids@, debate.teams_of_debate@[k].team_id@) {
                        1int
                    } else {
                        0int
                    },
                ),
        decreases debate.teams_of_debate.len() - i,
    {
        let dt = &debate.teams_of_debate[i];
        let adv = string_in(advancing_team_ids, &dt.team_id);
        out.push(
            BallotTeamRank {
                id: new_id(),
                tournament_id: tournament_id.clone(),
                ballot_id: ballot_id.clone(),
                team_id: dt.team_id.clone(),
                points: if adv { 1 } else { 0 },
            },
        );
        i = i + 1;
    }
    out
}

/// The ranks of a preliminary ballot (see `ranks_from_scores`).
fn build_team_ranks_from_scores(
    scores: &Vec<BallotScore>,
    ballot_id: &String,
    tournament_id: &String,
    debate: &DebateRepr,
) -> (r: Vec<BallotTeamRank>)
    ensures
        ranks_from_scores(r@, scores@, *debate, tournament_id@, ballot_id@),
{
    let ghost key = debate_team_descending_total(scores@);
    let ghost ts = debate.teams_of_debate@;
    let mut sorted: Vec<crate::draws::DebateTeam> = Vec::new();
    let mut keys: Vec<i128> = Vec::new();
    let mut totals: Vec<i128> = Vec::new();
    let mut i: usize = 0;
    while i < debate.teams_of_debate.len()
        invariant
            i <= debate.teams_of_debate.len(),
            ts == debate.teams_of_debate@,
            key == debate_team_descending_total(scores@),
            sorted@ == sort_by_key(debate.teams_of_debate@.take(i as int), key),
            keys@.len() == sorted@.len(),
            forall|k: int| 0 <= k < keys@.len() ==> keys@[k] as int == key(#[trigger] sorted@[k]),
            forall|k: int| 0 <= k < keys@.len() ==> #[trigger] keys@[k] > i128::MIN,
            totals@.len() == i,
            forall|k: int| 0 <= k < i ==> totals@[k] as int == team_total(scores@, (#[trigger] ts[k]).team_id@),
        decreases debate.teams_of_debate.len() - i,
    {
        let x = debate.teams_of_debate[i].clone();
        let total = total_of_team(scores, &x.team_id);
        let n_scores = scores.len();
        assert(n_scores as int * 0x8000_0000_0000_0000 <= 0x7fff_ffff_ffff_ffff_8000_0000_0000_0000);
        let k_x: i128 = -total;
        let mut j: usize = sorted.len();
        while j > 0 && keys[j - 1] > k_x
            invariant
                j <= sorted.len(),
                keys@.len() == sorted@.len(),
                forall|k: int| 0 <= k < keys@.len() ==> keys@[k] as int == key(#[trigger] sorted@[k]),
                forall|k: int| j <= k < sorted@.len() ==> key(#[trigger] sorted@[k]) > k_x,
            decreases j,
        {
            j = j - 1;
        }
        let ghost s0 = sorted@;
        let ghost k0 = keys@;
        proof {
            if j > 0 {
                assert(keys@[j - 1] as int == key(sorted@[j - 1]));
            }
            lemma_insert_by_key_at(sorted@, x, key, j as int);
            assert(debate.teams_of_debate@.take(i as int + 1).drop_last() =~= debate.teams_of_debate@.take(i as int));
        }
        sorted.insert(j, x);
        keys.insert(j, k_x);
        totals.push(total);
        proof {
            assert forall|k: int| 0 <= k < keys@.len() implies keys@[k] as int == key(#[trigger] sorted@[k]) by {
                if k < j {
                    assert(sorted@[k] == s0[k] && keys@[k] == k0[k]);
                } else if k == j {
                } else {
                    assert(sorted@[k] == s0[k - 1] && keys@[k] == k0[k - 1]);
                }
            }
            assert forall|k: int| 0 <= k < keys@.len() implies #[trigger] keys@[k] > i128::MIN by {
                if k < j {
                    assert(keys@[k] == k0[k]);
                } else if k > j {
                    assert(keys@[k] == k0[k - 1]);
                }
            }
        }
        i = i + 1;
    }
    assert(debate.teams_of_debate@.take(debate.teams_of_debate.len() as int) =~= debate.teams_of_debate@);
    proof {
        crate::seqs::lemma_sort_by_key_multiset(debate.teams_of_debate@, key);
    }
    let n = debate.teams_of_debate.len();
    let mut out: Vec<BallotTeamRank> = Vec::new();
    let mut k: usize = 0;
    while k < sorted.len()
        invariant
            k <= sorted.len(),
            sorted@ == sort_by_key(debate.teams_of_debate@, key),
            ts == debate.teams_of_debate@,
            n == ts.len(),
            keys@.len() == sorted@.len(),
            forall|m: int| 0 <= m < keys@.len() ==> keys@[m] as int == key(#[trigger] sorted@[m]),
            forall|m: int| 0 <= m < keys@.len() ==> #[trigger] keys@[m] > i128::MIN,
            key == debate_team_descending_total(scores@),
            totals@.len() == n,
            forall|m: int| 0 <= m < n ==> totals@[m] as int == team_total(scores@, (#[trigger] ts[m]).team_id@),
            out@.len() == k,
            forall|m: int|
                0 <= m < k ==> rank_row_matches(
                    #[trigger] out@[m],
                    tournament_id@,
                    ballot_id@,
                    sorted@[m].team_id@,
                    (teams_beaten(ts, scores@, team_total(scores@, sorted@[m].team_id@), n as int) as i64) as int,
                ),
        decreases sorted.len() - k,
    {
        let total: i128 = -keys[k];
        proof {
            assert(keys@[k as int] as int == key(sorted@[k as int]));
        }
        let mut beaten: u64 = 0;
        let mut t: usize = 0;
        while t < n
            invariant
                t <= n,
                n == ts.len(),
                totals@.len() == n,
                forall|m: int| 0 <= m < n ==> totals@[m] as int == team_total(scores@, (#[trigger] ts[m]).team_id@),
                beaten == teams_beaten(ts, scores@, total as int, t as int),
                beaten <= t,
            decreases n - t,
        {
            if totals[t] < total {
                beaten = beaten + 1;
            }
            t = t + 1;
        }
        out.push(
            BallotTeamRank {
                id: new_id(),
                tournament_id: tournament_id.clone(),
                ballot_id: ballot_id.clone(),
                team_id: sorted[k].team_id.clone(),
                points: #[verifier::truncate] (beaten as i64),
            },
        );
        k = k + 1;
    }
    out
}

/// The teams that a ballot's ranks give a point.
pub open spec fn teams_with_point(r: Seq<BallotTeamRank>) -> Set<Seq<char>> {
    Set::new(|t: Seq<char>| exists|k: int| 0 <= k < r.len() && (#[trigger] r[k]).team_id@ == t && r[k].points == 1)
}

/// The ranks of an elimination ballot give a point to the teams marked as
/// advancing and to no other: where the advancing teams are distinct teams
/// of the debate, exactly as many teams get a point as were marked.
pub proof fn lemma_advancing_teams_get_points(
    r: Seq<BallotTeamRank>,
    advancing: Seq<String>,
    d: DebateRepr,
    tournament_id: Seq<char>,
    ballot_id: Seq<char>,
)
    requires
        ranks_from_advancing(r, advancing, d, tournament_id, ballot_id),
        views(advancing).no_duplicates(),
        forall|i: int|
            0 <= i < advancing.len() ==> exists|k: int|
                0 <= k < d.teams_of_debate@.len() && (#[trigger] d.teams_of_debate@[k]).team_id@ == (#[trigger] advancing[i])@,
    ensures
        teams_with_point(r) == views(advancing).to_set(),
        teams_with_point(r).len() == advancing.len(),
{
    let teams = d.teams_of_debate@;
    assert forall|t: Seq<char>| teams_with_point(r).contains(t) <==> views(advancing).to_set().contains(t) by {
        if teams_with_point(r).contains(t) {
            let k = choose|k: int| 0 <= k < r.len() && (#[trigger] r[k]).team_id@ == t && r[k].points == 1;
            assert(rank_row_matches(
                r[k],
                tournament_id,
                ballot_id,
                teams[k].team_id@,
                if is_advancing(advancing, teams[k].team_id@) { 1int } else { 0int },
            ));
            assert(is_advancing(advancing, t));
            let i = choose|i: int| 0 <= i < advancing.len() && (#[trigger] advancing[i])@ == t;
            assert(views(advancing)[i] == t);
        }
        if views(advancing).to_set().contains(t) {
            let i = choose|i: int| 0 <= i < views(advancing).len() && views(advancing)[i] == t;
            assert(advancing[i]@ == t);
            let k = choose|k: int| 0 <= k < teams.len() && (#[trigger] teams[k]).team_id@ == advancing[i]@;
            assert(is_advancing(advancing, t));
            assert(rank_row_matches(r[k], tournament_id, ballot_id, teams[k].team_id@, 1int));
        }
    }
    assert(teams_with_point(r) =~= views(advancing).to_set());
    views(advancing).unique_seq_to_set();
}

} // verus!

verus! {

/// The message for an elimination ballot advancing the wrong number of teams.
pub open spec fn advancing_error_text(expected: int, selected: int) -> Seq<char> {
    "Error: expected "@ + nat_text(expected as nat) + " advancing team(s), but "@ + nat_text(selected as nat)
        + " were selected"@
}

impl<'a> BallotBuilder<'a> {
    /// Adds the speakers of the team at position (`side`, `seq`), in
    /// speaking order, and, in an elimination round, whether it advances
    /// (one point). Fails, changing nothing, where speakers are given in a
    /// round that does not record them.
    pub fn add_team(
        &mut self,
        side: usize,
        seq: usize,
        speakers: Vec<(String, Option<i64>)>,
        points: Option<usize>,
    ) -> (r: Result<(), String>)
        requires
            team_at(old(self)@.debate, side as i64 as int, seq as i64 as int) is Some,
            old(self)@.teams_added < usize::MAX,
        ensures
            !old(self)@.records_positions && speakers@.len() > 0 ==> (r matches Err(e)
                && e@ == "Error: speakers should not be submitted for this round type"@ && final(self)@ == old(self)@),
            !(!old(self)@.records_positions && speakers@.len() > 0) ==> {
                let dt = team_at(old(self)@.debate, side as i64 as int, seq as i64 as int)->0;
                &&& r is Ok
                &&& final(self)@.tournament == old(self)@.tournament
                &&& final(self)@.debate == old(self)@.debate
                &&& final(self)@.participants == old(self)@.participants
                &&& final(self)@.metadata == old(self)@.metadata
                &&& final(self)@.records_positions == old(self)@.records_positions
                &&& final(self)@.records_scores == old(self)@.records_scores
                &&& final(self)@.is_elim == old(self)@.is_elim
                &&& final(self)@.num_advancing == old(self)@.num_advancing
                &&& final(self)@.teams_added == old(self)@.teams_added + 1
                &&& final(self)@.advancing_team_ids == if old(self)@.is_elim && points == Some(1usize) {
                    old(self)@.advancing_team_ids.push(dt.team_id)
                } else {
                    old(self)@.advancing_team_ids
                }
                &&& final(self)@.scores.len() == old(self)@.scores.len() + speakers@.len()
                &&& forall|j: int| 0 <= j < old(self)@.scores.len() ==> #[trigger] final(self)@.scores[j] == old(self)@.scores[j]
                &&& forall|j: int|
                    0 <= j < speakers@.len() ==> score_row_matches(
                        #[trigger] final(self)@.scores[old(self)@.scores.len() + j],
                        old(self)@.tournament.id@,
                        old(self)@.metadata.id@,
                        dt.team_id@,
                        speakers@[j],
                        (j as i64) as int,
                    )
            },
    {
        proof {
            reveal_strlit("Error: speakers should not be submitted for this round type");
        }
        let dt = self.debate.team_of_side_and_seq(side as i64, seq as i64);
        if !self.records_positions && speakers.len() > 0 {
            return Err(String::from_str("Error: speakers should not be submitted for this round type"));
        }
        proof {
            use_type_invariant(&*self);
        }
        let team_id = dt.team_id.clone();
        let mut scores: Vec<BallotScore> = Vec::new();
        std::mem::swap(&mut scores, &mut self.scores);
        let ghost base = scores@;
        let mut j: usize = 0;
        while j < speakers.len()
            invariant
                j <= speakers.len(),
                self.tournament == old(self).tournament,
                self.metadata == old(self).metadata,
                base == old(self).scores@,
                team_id@ == team_at(*old(self).debate, side as i64 as int, seq as i64 as int)->0.team_id@,
                scores@.len() == base.len() + j,
                forall|k: int| 0 <= k < base.len() ==> #[trigger] scores@[k] == base[k],
                forall|k: int|
                    0 <= k < j ==> score_row_matches(
                        #[trigger] scores@[base.len() + k],
                        self.tournament.id@,
                        self.metadata.id@,
                        team_id@,
                        speakers@[k],
                        (k as i64) as int,
                    ),
            decreases speakers.len() - j,
        {
            let (speaker_id, score) = (speakers[j].0.clone(), speakers[j].1);
            let row = BallotScore {
                id: new_id(),
                tournament_id: self.tournament.id.clone(),
                ballot_id: self.metadata.id.clone(),
                team_id: team_id.clone(),
                speaker_id,
                speaker_position: #[verifier::truncate] (j as i64),
                score,
            };
            scores.push(row);
            j = j + 1;
        }
        self.scores = scores;
        if self.is_elim {
            match points {
                Some(p) => {
                    if p == 1 {
                        let mut advancing: Vec<String> = Vec::new();
                        std::mem::swap(&mut advancing, &mut self.advancing_team_ids);
                        advancing.push(team_id);
                        self.advancing_team_ids = advancing;
                    }
                },
                None => {},
            }
        }
        self.teams_added = self.teams_added + 1;
        Ok(())
    }

    /// The ballot: fails where the number of teams added is not the
    /// format's, or, in an elimination round, where the number of advancing
    /// teams is not the expected one. Ranks follow from the advancing teams
    /// in an elimination round and from the scores otherwise.
    pub fn build(self) -> (r: Result<BallotRepr, String>)
        requires
            i64::MIN <= self@.tournament.teams_per_side * 2 <= i64::MAX,
        ensures
            self@.teams_added != teams_in_debate(self@.tournament) ==> (r matches Err(e)
                && e@ == "Error: incorrect number of teams submitted"@),
            self@.teams_added == teams_in_debate(self@.tournament) && self@.is_elim
                && self@.advancing_team_ids.len() != self@.num_advancing->0 ==> (r matches Err(e) && e@
                == advancing_error_text(self@.num_advancing->0 as int, self@.advancing_team_ids.len() as int)),
            self@.teams_added == teams_in_debate(self@.tournament) && self@.is_elim
                && self@.advancing_team_ids.len() == self@.num_advancing->0 ==> (r matches Ok(b) && b.metadata
                == self@.metadata && b.scores@ == self@.scores && ranks_from_advancing(
                b.team_ranks@,
                self@.advancing_team_ids,
                self@.debate,
                self@.tournament.id@,
                self@.metadata.id@,
            )),
            self@.teams_added == teams_in_debate(self@.tournament) && !self@.is_elim ==> (r matches Ok(b) && b.metadata
                == self@.metadata && b.scores@ == self@.scores && ranks_from_scores(
                b.team_ranks@,
                self@.scores,
                self@.debate,
                self@.tournament.id@,
                self@.metadata.id@,
            )),
    {
        proof {
            use_type_invariant(&self);
            reveal_strlit("Error: incorrect number of teams submitted");
            reveal_strlit("Error: expected ");
            reveal_strlit(" advancing team(s), but ");
            reveal_strlit(" were selected");
        }
        let expected_teams = #[verifier::truncate] ((self.tournament.teams_per_side * 2) as usize);
        if self.teams_added != expected_teams {
            return Err(String::from_str("Error: incorrect number of teams submitted"));
        }
        let team_ranks = if self.is_elim {
            let num_advancing = self.num_advancing.unwrap();
            if self.advancing_team_ids.len() != num_advancing {
                let msg = String::from_str("Error: expected ").concat(u64_to_string(num_advancing as u64).as_str()).concat(
                    " advancing team(s), but ",
                ).concat(u64_to_string(self.advancing_team_ids.len() as u64).as_str()).concat(" were selected");
                return Err(msg);
            }
            build_team_ranks_from_advancing(
                &self.advancing_team_ids,
                &self.metadata.id,
                &self.tournament.id,
                self.debate,
            )
        } else {
            build_team_ranks_from_scores(&self.scores, &self.metadata.id, &self.tournament.id, self.debate)
        };
        Ok(BallotRepr::new_prelim(self.metadata, self.scores, team_ranks))
    }
}

} // verus!
