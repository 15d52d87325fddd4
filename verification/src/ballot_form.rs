//! The ballot form: what a judge or a tab director fills in, the form
//! prefilled from a stored ballot, and the ballot a submitted form makes.
//! Scores are held in hundredths of a point.
use vstd::prelude::*;
use crate::seqs::{last_match, lemma_last_match_at, lemma_last_match_none, first_match, lemma_first_match_at};
use crate::ballots::{BallotRepr, BallotScore, BallotTeamRank, scores_of, points_of, rank_of_team};
use crate::draws::{DebateRepr, DebateTeam, team_at};
use crate::tournament::Tournament;
use crate::participants::TournamentParticipants;
use crate::ballots::BallotMetadata;
use crate::ballot_builder::{
    speaker_error, speeches_per_team, teams_in_debate, score_row_matches, rank_row_matches, advancing_error_text,
    ranks_from_scores, BallotBuilder, stale_version_text, has_motion, advancing_count, is_advancing,
};
use crate::rounds::{Round, is_elim};
use crate::seqs::views;

verus! {

/// One speaker of a team on the form: who spoke, with the score given.
pub struct BallotFormSingleSpeakerEntry {
    pub id: String,
    pub score: Option<i64>,
}

/// One team on the form: its speakers in speaking order, and its points.
pub struct BallotFormSingleTeamEntry {
    pub speakers: Vec<BallotFormSingleSpeakerEntry>,
    pub points: Option<usize>,
}

/// A ballot as the form holds it: the teams in the order the form lists
/// them, the motion debated, and the version of the ballot the form was
/// filled in against.
pub struct BallotForm {
    pub teams: Vec<BallotFormSingleTeamEntry>,
    pub motion_id: String,
    pub expected_version: i64,
}

/// A speaker entry, seen as its speaker and score.
pub open spec fn speaker_entry_view(e: BallotFormSingleSpeakerEntry) -> (Seq<char>, Option<i64>) {
    (e.id@, e.score)
}

/// Speaker entries, seen as speakers and scores.
pub open spec fn speaker_entries_view(s: Seq<BallotFormSingleSpeakerEntry>) -> Seq<(Seq<char>, Option<i64>)> {
    s.map_values(|e: BallotFormSingleSpeakerEntry| speaker_entry_view(e))
}

/// A team entry, seen as its speakers and points.
pub open spec fn team_entry_view(e: BallotFormSingleTeamEntry) -> (Seq<(Seq<char>, Option<i64>)>, Option<usize>) {
    (speaker_entries_view(e.speakers@), e.points)
}

/// The team entries of a form, seen as speakers and points.
pub open spec fn form_teams_view(teams: Seq<BallotFormSingleTeamEntry>) -> Seq<
    (Seq<(Seq<char>, Option<i64>)>, Option<usize>),
> {
    teams.map_values(|e: BallotFormSingleTeamEntry| team_entry_view(e))
}

/// The identifiers of the teams that advance: for each of the first `n`
/// entries of the form with one point, the team of the debate listed at the
/// same place.
pub open spec fn advancing_ids(teams: Seq<BallotFormSingleTeamEntry>, debate_teams: Seq<DebateTeam>, n: int) -> Seq<
    String,
>
    decreases n,
{
    if n <= 0 {
        seq![]
    } else {
        advancing_ids(teams, debate_teams, n - 1) + if teams[n - 1].points == Some(1usize) {
            seq![debate_teams[n - 1].team_id]
        } else {
            seq![]
        }
    }
}

impl BallotForm {
    /// The teams the form advances: the team of the debate listed at the
    /// place of each entry with one point. Every entry must give points.
    pub fn all_advancing_team_ids(&self, repr: &DebateRepr) -> (r: Vec<String>)
        requires
            forall|i: int| 0 <= i < self.teams@.len() ==> (#[trigger] self.teams@[i]).points is Some,
            forall|i: int|
                0 <= i < self.teams@.len() && (#[trigger] self.teams@[i]).points == Some(1usize) ==> i
                    < repr.teams_of_debate@.len(),
        ensures
            r@ == advancing_ids(self.teams@, repr.teams_of_debate@, self.teams@.len() as int),
    {
        let mut out: Vec<String> = Vec::new();
        let mut i: usize = 0;
        while i < self.teams.len()
            invariant
                i <= self.teams@.len(),
                forall|k: int|
                    0 <= k < self.teams@.len() && (#[trigger] self.teams@[k]).points == Some(1usize) ==> k
                        < repr.teams_of_debate@.len(),
                out@ == advancing_ids(self.teams@, repr.teams_of_debate@, i as int),
            decreases self.teams@.len() - i,
        {
            match self.teams[i].points {
                Some(p) => {
                    if p == 1 {
                        out.push(repr.teams_of_debate[i].team_id.clone());
                    } else {
                        assert(out@ =~= advancing_ids(self.teams@, repr.teams_of_debate@, i as int + 1));
                    }
                },
                None => {
                    assert(out@ =~= advancing_ids(self.teams@, repr.teams_of_debate@, i as int + 1));
                },
            }
            i = i + 1;
        }
        out
    }
}

} // verus!

verus! {

/// The number of speeches a team gives, as the form lists them.
pub open spec fn speaker_count(t: Tournament) -> int {
    t.substantive_speakers + if t.reply_speakers { 1int } else { 0int }
}

/// Whether a score is at speaking position `pos`.
pub open spec fn at_speaking_position(pos: int) -> spec_fn(BallotScore) -> bool {
    |s: BallotScore| s.speaker_position == pos
}

/// The entry the form shows at speaking position `pos`: the last score
/// recorded there, or an empty entry.
pub open spec fn prefilled_speaker(scores: Seq<BallotScore>, pos: int) -> (Seq<char>, Option<i64>) {
    match last_match(scores, at_speaking_position(pos)) {
        Some(s) => (s.speaker_id@, s.score),
        None => (seq![], None),
    }
}

/// The entries of the first `n` speaking positions.
pub open spec fn prefilled_speakers(scores: Seq<BallotScore>, n: int) -> Seq<(Seq<char>, Option<i64>)>
    decreases n,
{
    if n <= 0 {
        seq![]
    } else {
        prefilled_speakers(scores, n - 1).push(prefilled_speaker(scores, n - 1))
    }
}

/// The entry of the team at position (`side`, `seq`): its speakers, and
/// the points the ballot gives it.
pub open spec fn prefilled_team(b: BallotRepr, d: DebateRepr, t: Tournament, side: int, seq: int) -> (
    Seq<(Seq<char>, Option<i64>)>,
    Option<usize>,
) {
    let team = team_at(d, side, seq)->0.team_id@;
    (
        prefilled_speakers(scores_of(b, team), speaker_count(t)),
        match points_of(b, team) {
            Some(p) => Some(p as usize),
            None => None,
        },
    )
}

/// The entries of the teams at the first `n` positions of both sides,
/// position by position, the proposition team before the opposition team:
/// the `i`th entry stands for the team at position `i / 2` of side `i % 2`,
/// as a submitted form is read (see `form_team_id`).
pub open spec fn prefilled_teams_upto(b: BallotRepr, d: DebateRepr, t: Tournament, n: int) -> Seq<
    (Seq<(Seq<char>, Option<i64>)>, Option<usize>),
>
    decreases n,
{
    if n <= 0 {
        seq![]
    } else {
        prefilled_teams_upto(b, d, t, n - 1).push(prefilled_team(b, d, t, 0, n - 1)).push(prefilled_team(b, d, t, 1, n - 1))
    }
}

/// The team entries of the form prefilled from a ballot (see
/// `prefilled_teams_upto`).
pub open spec fn prefilled_teams(b: BallotRepr, d: DebateRepr, t: Tournament) -> Seq<
    (Seq<(Seq<char>, Option<i64>)>, Option<usize>),
> {
    prefilled_teams_upto(b, d, t, t.teams_per_side as int)
}

/// The `i`th prefilled entry is that of the team at position `i / 2` of
/// side `i % 2`.
pub proof fn lemma_prefilled_entry(b: BallotRepr, d: DebateRepr, t: Tournament, n: int, i: int)
    requires
        0 <= i < 2 * n,
    ensures
        prefilled_teams_upto(b, d, t, n).len() == 2 * n,
        prefilled_teams_upto(b, d, t, n)[i] == prefilled_team(b, d, t, i % 2, i / 2),
    decreases n,
{
    let prev = prefilled_teams_upto(b, d, t, n - 1);
    let cur = prefilled_teams_upto(b, d, t, n);
    if n - 1 > 0 {
        lemma_prefilled_entry(b, d, t, n - 1, 0);
    } else {
        assert(prev =~= seq![]);
    }
    assert(cur == prev.push(prefilled_team(b, d, t, 0, n - 1)).push(prefilled_team(b, d, t, 1, n - 1)));
    if i < 2 * (n - 1) {
        lemma_prefilled_entry(b, d, t, n - 1, i);
        assert(cur[i] == prev[i]);
    } else if i == 2 * (n - 1) {
        assert(i % 2 == 0 && i / 2 == n - 1);
    } else {
        assert(i % 2 == 1 && i / 2 == n - 1);
    }
}

/// The last score at a speaking position.
fn last_at_position(scores: &Vec<BallotScore>, pos: i64) -> (r: Option<&BallotScore>)
    ensures
        match last_match(scores@, at_speaking_position(pos as int)) {
            Some(s) => (r matches Some(x) && *x == s),
            None => r is None,
        },
{
    let mut i: usize = scores.len();
    while i > 0
        invariant
            i <= scores@.len(),
            forall|j: int| i <= j < scores@.len() ==> !at_speaking_position(pos as int)(#[trigger] scores@[j]),
        decreases i,
    {
        i = i - 1;
        if scores[i].speaker_position == pos {
            proof {
                lemma_last_match_at(scores@, at_speaking_position(pos as int), i as int);
            }
            return Some(&scores[i]);
        }
    }
    proof {
        lemma_last_match_none(scores@, at_speaking_position(pos as int));
    }
    None
}

/// The points of the first rank of a team.
fn points_in_ranks(ranks: &Vec<BallotTeamRank>, team_id: &String) -> (r: Option<i64>)
    ensures
        r == match first_match(ranks@, rank_of_team(team_id@)) {
            Some(x) => Some(x.points),
            None => None,
        },
{
    let mut i: usize = 0;
    while i < ranks.len()
        invariant
            i <= ranks@.len(),
            forall|j: int| 0 <= j < i ==> !rank_of_team(team_id@)(#[trigger] ranks@[j]),
        decreases ranks@.len() - i,
    {
        if ranks[i].team_id == *team_id {
            proof {
                lemma_first_match_at(ranks@, rank_of_team(team_id@), i as int);
            }
            return Some(ranks[i].points);
        }
        i = i + 1;
    }
    proof {
        lemma_first_match_at(ranks@, rank_of_team(team_id@), i as int);
    }
    None
}

/// The entry of the team at position (`side`, `seq`).
fn prefill_team(repr: &BallotRepr, debate: &DebateRepr, tournament: &Tournament, side: i64, seq: i64) -> (r:
    BallotFormSingleTeamEntry)
    requires
        team_at(*debate, side as int, seq as int) is Some,
        tournament.substantive_speakers < i64::MAX,
    ensures
        team_entry_view(r) == prefilled_team(*repr, *debate, *tournament, side as int, seq as int),
{
    let team_id = &debate.team_of_side_and_seq(side, seq).team_id;
    let team_scores = repr.scores_of_team(team_id);
    let count: i64 = tournament.substantive_speakers + if tournament.reply_speakers {
        1
    } else {
        0
    };
    let mut speakers: Vec<BallotFormSingleSpeakerEntry> = Vec::new();
    let mut position: i64 = 0;
    let ghost scores = team_scores@;
    while position < count
        invariant
            0 <= position,
            count == speaker_count(*tournament),
            position <= count || count <= 0,
            scores == team_scores@,
            count > 0 ==> position <= count,
            count <= 0 ==> position == 0,
            speaker_entries_view(speakers@) == prefilled_speakers(scores, position as int),
        decreases count - position,
    {
        let entry = match last_at_position(&team_scores, position) {
            Some(score) => BallotFormSingleSpeakerEntry { id: score.speaker_id.clone(), score: score.score },
            None => BallotFormSingleSpeakerEntry { id: String::new(), score: None },
        };
        let ghost before = speakers@;
        speakers.push(entry);
        proof {
            assert(speaker_entries_view(speakers@) =~= speaker_entries_view(before).push(
                prefilled_speaker(scores, position as int),
            ));
        }
        position = position + 1;
    }
    proof {
        if count <= 0 {
            assert(prefilled_speakers(scores, speaker_count(*tournament)) =~= seq![]);
        }
    }
    let points = match points_in_ranks(&repr.team_ranks, team_id) {
        Some(p) => Some(#[verifier::truncate] (p as usize)),
        None => None,
    };
    BallotFormSingleTeamEntry { speakers, points }
}

impl BallotForm {
    /// The form filled in with a stored ballot: for each position of the
    /// debate, the proposition team then the opposition team at that
    /// position (so that entry `i` is the team at position `i / 2` of side
    /// `i % 2`, as a submitted form is read), the speaker the ballot records
    /// at each speaking position (the last one where it records several; an
    /// empty entry where it records none) and the points it gives the team;
    /// the ballot's motion and version.
    pub fn from_repr(repr: &BallotRepr, debate: &DebateRepr, tournament: &Tournament) -> (r: BallotForm)
        requires
            forall|side: int, seq: int|
                0 <= side < 2 && 0 <= seq < tournament.teams_per_side ==> #[trigger] team_at(*debate, side, seq) is Some,
            tournament.substantive_speakers < i64::MAX,
        ensures
            form_teams_view(r.teams@) == prefilled_teams(*repr, *debate, *tournament),
            forall|i: int|
                0 <= i < r.teams@.len() ==> team_entry_view(#[trigger] r.teams@[i]) == prefilled_team(
                    *repr,
                    *debate,
                    *tournament,
                    i % 2,
                    i / 2,
                ),
            r.motion_id == repr.metadata.motion_id,
            r.expected_version == repr.metadata.version,
    {
        let mut teams: Vec<BallotFormSingleTeamEntry> = Vec::new();
        let tps = tournament.teams_per_side;
        let mut seq: i64 = 0;
        while seq < tps
            invariant
                0 <= seq,
                tps <= 0 ==> seq == 0,
                tps > 0 ==> seq <= tps,
                tps == tournament.teams_per_side,
                tournament.substantive_speakers < i64::MAX,
                forall|s: int, q: int| 0 <= s < 2 && 0 <= q < tps ==> #[trigger] team_at(*debate, s, q) is Some,
                form_teams_view(teams@) == prefilled_teams_upto(*repr, *debate, *tournament, seq as int),
                teams@.len() == 2 * seq,
            decreases tps - seq,
        {
            let prop = prefill_team(repr, debate, tournament, 0, seq);
            let opp = prefill_team(repr, debate, tournament, 1, seq);
            let ghost before = teams@;
            teams.push(prop);
            teams.push(opp);
            proof {
                assert(form_teams_view(teams@) =~= form_teams_view(before).push(team_entry_view(prop)).push(
                    team_entry_view(opp),
                ));
            }
            seq = seq + 1;
        }
        proof {
            if tps <= 0 {
                assert(prefilled_teams_upto(*repr, *debate, *tournament, tps as int) =~= seq![]);
            }
            assert forall|i: int| 0 <= i < teams@.len() implies team_entry_view(#[trigger] teams@[i]) == prefilled_team(
                *repr,
                *debate,
                *tournament,
                i % 2,
                i / 2,
            ) by {
                lemma_prefilled_entry(*repr, *debate, *tournament, seq as int, i);
                assert(form_teams_view(teams@)[i] == team_entry_view(teams@[i]));
            }
        }
        BallotForm {
            teams,
            motion_id: repr.metadata.motion_id.clone(),
            expected_version: repr.metadata.version,
        }
    }
}

} // verus!

verus! {

/// A team of a submitted form once its speakers are accepted: the speakers
/// as they will be recorded, and the points the form gives the team.
pub type PlannedTeam = (Seq<(String, Option<i64>)>, Option<usize>);

/// The speakers accepted from the entries of a team, in order, or the error
/// of the first entry refused (see `speaker_error`); a score is kept only
/// where scores are recorded.
pub open spec fn accepted_speakers(
    t: Tournament,
    p: TournamentParticipants,
    records_scores: bool,
    records_positions: bool,
    entries: Seq<BallotFormSingleSpeakerEntry>,
) -> Result<Seq<(String, Option<i64>)>, Seq<char>>
    decreases entries.len(),
{
    if entries.len() == 0 {
        Ok(seq![])
    } else {
        match accepted_speakers(t, p, records_scores, records_positions, entries.drop_last()) {
            Err(e) => Err(e),
            Ok(acc) => match speaker_error(
                t,
                p,
                records_scores,
                records_positions,
                speeches_per_team(t),
                acc.len() as int,
                entries.last().id@,
                entries.last().score,
            ) {
                Some(e) => Err(e),
                None => Ok(acc.push((entries.last().id, if records_scores { entries.last().score } else { None }))),
            },
        }
    }
}

/// The speakers of a team, or why they are refused: an entry is refused,
/// or, where speakers are recorded, some speech has no speaker.
pub open spec fn team_speakers_result(
    t: Tournament,
    p: TournamentParticipants,
    records_scores: bool,
    records_positions: bool,
    entries: Seq<BallotFormSingleSpeakerEntry>,
) -> Result<Seq<(String, Option<i64>)>, Seq<char>> {
    match accepted_speakers(t, p, records_scores, records_positions, entries) {
        Err(e) => Err(e),
        Ok(acc) => if records_positions && acc.len() != speeches_per_team(t) {
            Err("Error: missing speaker information"@)
        } else {
            Ok(acc)
        },
    }
}

/// The teams of a submitted form with their accepted speakers, team by
/// team, or the first error.
pub open spec fn form_plan(
    t: Tournament,
    p: TournamentParticipants,
    records_scores: bool,
    records_positions: bool,
    teams: Seq<BallotFormSingleTeamEntry>,
) -> Result<Seq<PlannedTeam>, Seq<char>>
    decreases teams.len(),
{
    if teams.len() == 0 {
        Ok(seq![])
    } else {
        match form_plan(t, p, records_scores, records_positions, teams.drop_last()) {
            Err(e) => Err(e),
            Ok(plan) => match team_speakers_result(t, p, records_scores, records_positions, teams.last().speakers@) {
                Err(e) => Err(e),
                Ok(sp) => if !records_positions && sp.len() > 0 {
                    Err("Error: speakers should not be submitted for this round type"@)
                } else {
                    Ok(plan.push((sp, teams.last().points)))
                },
            },
        }
    }
}

/// The team of the debate the `i`th entry of a form stands for: entries
/// alternate between proposition and opposition, so the `i`th entry is the
/// team at position `i / 2` of side `i % 2`.
pub open spec fn form_team_id(d: DebateRepr, i: int) -> Seq<char> {
    team_at(d, i % 2, i / 2)->0.team_id@
}

/// The number of speakers of the first `n` planned teams.
pub open spec fn plan_len(plan: Seq<PlannedTeam>, n: int) -> int
    decreases n,
{
    if n <= 0 {
        0
    } else {
        plan_len(plan, n - 1) + plan[n - 1].0.len()
    }
}

/// The teams that advance among the first `n` planned teams: those the
/// form gives one point.
pub open spec fn advancing_of_plan(plan: Seq<PlannedTeam>, d: DebateRepr, n: int) -> Seq<Seq<char>>
    decreases n,
{
    if n <= 0 {
        seq![]
    } else {
        advancing_of_plan(plan, d, n - 1) + if plan[n - 1].1 == Some(1usize) {
            seq![form_team_id(d, n - 1)]
        } else {
            seq![]
        }
    }
}

/// The score rows hold the planned speakers, team after team, each team's
/// speakers at positions 0, 1, ... in order.
pub open spec fn plan_rows(
    scores: Seq<BallotScore>,
    plan: Seq<PlannedTeam>,
    d: DebateRepr,
    tournament_id: Seq<char>,
    ballot_id: Seq<char>,
) -> bool {
    &&& scores.len() == plan_len(plan, plan.len() as int)
    &&& forall|i: int, j: int|
        #![trigger plan[i].0[j]]
        0 <= i < plan.len() && 0 <= j < plan[i].0.len() ==> score_row_matches(
            scores[plan_len(plan, i) + j],
            tournament_id,
            ballot_id,
            form_team_id(d, i),
            plan[i].0[j],
            (j as i64) as int,
        )
}

/// The ballot a complete plan gives, or why it is refused: the form must
/// list every team of the format, and, in an elimination round, advance the
/// expected number of teams. Ranks follow from the advancing teams in an
/// elimination round and from the scores otherwise.
pub open spec fn plan_outcome(
    r: Result<BallotRepr, String>,
    plan: Seq<PlannedTeam>,
    t: Tournament,
    d: DebateRepr,
    elim: bool,
    num_advancing: int,
    metadata: BallotMetadata,
) -> bool {
    let advancing = advancing_of_plan(plan, d, plan.len() as int);
    if plan.len() != teams_in_debate(t) {
        r matches Err(e) && e@ == "Error: incorrect number of teams submitted"@
    } else if elim && advancing.len() != num_advancing {
        r matches Err(e) && e@ == advancing_error_text(num_advancing, advancing.len() as int)
    } else {
        r matches Ok(b) && {
            &&& b.metadata == metadata
            &&& plan_rows(b.scores@, plan, d, t.id@, metadata.id@)
            &&& if elim {
                ranks_from_advancing_ids(b.team_ranks@, advancing, d, t.id@, metadata.id@)
            } else {
                ranks_from_scores(b.team_ranks@, b.scores@, d, t.id@, metadata.id@)
            }
        }
    }
}

/// The ranks of an elimination ballot given the advancing teams by
/// identifier (see `ranks_from_advancing`).
pub open spec fn ranks_from_advancing_ids(
    r: Seq<BallotTeamRank>,
    advancing: Seq<Seq<char>>,
    d: DebateRepr,
    tournament_id: Seq<char>,
    ballot_id: Seq<char>,
) -> bool {
    &&& r.len() == d.teams_of_debate@.len()
    &&& forall|k: int|
        0 <= k < r.len() ==> rank_row_matches(
            #[trigger] r[k],
            tournament_id,
            ballot_id,
            d.teams_of_debate@[k].team_id@,
            if advancing.contains(d.teams_of_debate@[k].team_id@) { 1int } else { 0int },
        )
}

} // verus!

verus! {

/// The debate has a team for the `i`th entry of a form.
pub open spec fn form_position_filled(d: DebateRepr, i: int) -> bool {
    team_at(d, i % 2, i / 2) is Some
}

/// An error among the first entries of a team is the error of all of them.
proof fn lemma_accepted_err_prefix(
    t: Tournament,
    p: TournamentParticipants,
    rs: bool,
    rp: bool,
    entries: Seq<BallotFormSingleSpeakerEntry>,
    k: int,
)
    requires
        0 <= k <= entries.len(),
        accepted_speakers(t, p, rs, rp, entries.take(k)) is Err,
    ensures
        accepted_speakers(t, p, rs, rp, entries) == accepted_speakers(t, p, rs, rp, entries.take(k)),
    decreases entries.len(),
{
    if k < entries.len() {
        assert(entries.drop_last().take(k) =~= entries.take(k));
        lemma_accepted_err_prefix(t, p, rs, rp, entries.drop_last(), k);
    } else {
        assert(entries.take(k) =~= entries);
    }
}

/// An error among the first teams of a form is the error of the form.
proof fn lemma_plan_err_prefix(
    t: Tournament,
    p: TournamentParticipants,
    rs: bool,
    rp: bool,
    teams: Seq<BallotFormSingleTeamEntry>,
    k: int,
)
    requires
        0 <= k <= teams.len(),
        form_plan(t, p, rs, rp, teams.take(k)) is Err,
    ensures
        form_plan(t, p, rs, rp, teams) == form_plan(t, p, rs, rp, teams.take(k)),
    decreases teams.len(),
{
    if k < teams.len() {
        assert(teams.drop_last().take(k) =~= teams.take(k));
        lemma_plan_err_prefix(t, p, rs, rp, teams.drop_last(), k);
    } else {
        assert(teams.take(k) =~= teams);
    }
}

/// The plan of the first `i + 1` teams follows from that of the first `i`.
proof fn lemma_plan_step(
    t: Tournament,
    p: TournamentParticipants,
    rs: bool,
    rp: bool,
    teams: Seq<BallotFormSingleTeamEntry>,
    i: int,
)
    requires
        0 <= i < teams.len(),
    ensures
        form_plan(t, p, rs, rp, teams.take(i + 1)) == match form_plan(t, p, rs, rp, teams.take(i)) {
            Err(e) => Err(e),
            Ok(plan) => match team_speakers_result(t, p, rs, rp, teams[i].speakers@) {
                Err(e) => Err(e),
                Ok(sp) => if !rp && sp.len() > 0 {
                    Err("Error: speakers should not be submitted for this round type"@)
                } else {
                    Ok(plan.push((sp, teams[i].points)))
                },
            },
        },
{
    assert(teams.take(i + 1).drop_last() =~= teams.take(i));
    assert(teams.take(i + 1).last() == teams[i]);
}

/// Counting the speakers, or the advancing teams, of the first `n` teams
/// does not look past them.
proof fn lemma_plan_push(plan: Seq<PlannedTeam>, x: PlannedTeam, d: DebateRepr, n: int)
    requires
        0 <= n <= plan.len(),
    ensures
        plan_len(plan.push(x), n) == plan_len(plan, n),
        advancing_of_plan(plan.push(x), d, n) == advancing_of_plan(plan, d, n),
    decreases n,
{
    if n > 0 {
        lemma_plan_push(plan, x, d, n - 1);
        assert(plan.push(x)[n - 1] == plan[n - 1]);
    }
}

/// The speakers of the first teams come before those of the later ones.
proof fn lemma_plan_len_mono(plan: Seq<PlannedTeam>, a: int, b: int)
    requires
        0 <= a <= b,
    ensures
        plan_len(plan, a) <= plan_len(plan, b),
    decreases b,
{
    if a < b {
        lemma_plan_len_mono(plan, a, b - 1);
    }
}

/// A team advances exactly when its identifier is among those of the
/// advancing teams.
proof fn lemma_views_contains(ids: Seq<String>, t: Seq<char>)
    ensures
        is_advancing(ids, t) == views(ids).contains(t),
{
    if is_advancing(ids, t) {
        let i = choose|i: int| 0 <= i < ids.len() && (#[trigger] ids[i])@ == t;
        assert(views(ids)[i] == t);
    }
    if views(ids).contains(t) {
        let i = choose|i: int| 0 <= i < views(ids).len() && views(ids)[i] == t;
        assert(ids[i]@ == t);
    }
}

/// The ballot a submitted form makes. Refused where the ballot changed
/// since the form was filled in (`expected_version` is not
/// `prior_version`) or the motion is not one of the debate's; then team by
/// team, in the form's order (entries alternate between proposition and
/// opposition), where a speaker is refused (see `speaker_error`) or a
/// speech has no speaker; and at the end where the form does not list
/// every team of the format, or, in an elimination round, does not advance
/// the expected number of teams.
pub fn ballot_of_form(
    form: BallotForm,
    tournament: &Tournament,
    round: &Round,
    debate: &DebateRepr,
    participants: &TournamentParticipants,
    metadata: BallotMetadata,
    expected_version: i64,
    prior_version: i64,
    records_positions: bool,
    records_scores: bool,
    is_final_of_break_category: bool,
) -> (r: Result<BallotRepr, String>)
    requires
        i64::MIN <= tournament.teams_per_side * 2 <= i64::MAX,
        speeches_per_team(*tournament) <= usize::MAX,
        forall|i: int| 0 <= i < form.teams@.len() ==> #[trigger] form_position_filled(*debate, i),
    ensures
        expected_version != prior_version ==> (r matches Err(e) && e@ == stale_version_text()),
        expected_version == prior_version && !has_motion(*debate, metadata.motion_id@) ==> (r matches Err(e) && e@
            == "Error: invalid motion"@),
        expected_version == prior_version && has_motion(*debate, metadata.motion_id@) ==> match form_plan(
            *tournament,
            *participants,
            records_scores,
            records_positions,
            form.teams@,
        ) {
            Err(msg) => (r matches Err(e) && e@ == msg),
            Ok(plan) => plan_outcome(
                r,
                plan,
                *tournament,
                *debate,
                is_elim(*round),
                (advancing_count(*tournament, is_final_of_break_category) as usize) as int,
                BallotMetadata { version: expected_version, ..metadata },
            ),
        },
{
    let ghost md = BallotMetadata { version: expected_version, ..metadata };
    let mut builder = match BallotBuilder::new(
        tournament,
        debate,
        round,
        participants,
        metadata,
        expected_version,
        prior_version,
        records_positions,
        records_scores,
        is_final_of_break_category,
    ) {
        Ok(b) => b,
        Err(e) => {
            return Err(e);
        },
    };
    let ghost mut plan: Seq<PlannedTeam> = seq![];
    let ghost elim = is_elim(*round);
    let mut i: usize = 0;
    proof {
        assert(form.teams@.take(0) =~= seq![]);
    }
    while i < form.teams.len()
        invariant
            i <= form.teams@.len(),
            builder@.tournament == *tournament,
            builder@.debate == *debate,
            builder@.participants == *participants,
            builder@.metadata == md,
            builder@.records_positions == records_positions,
            builder@.records_scores == records_scores,
            builder@.is_elim == elim,
            elim == is_elim(*round),
            builder@.num_advancing == if elim {
                Some(advancing_count(*tournament, is_final_of_break_category) as usize)
            } else {
                None::<usize>
            },
            builder@.teams_added == i,
            expected_version == prior_version,
            has_motion(*debate, md.motion_id@),
            md.motion_id == metadata.motion_id,
            form_plan(*tournament, *participants, records_scores, records_positions, form.teams@.take(i as int))
                == Ok::<Seq<PlannedTeam>, Seq<char>>(plan),
            plan.len() == i,
            views(builder@.advancing_team_ids) == if elim {
                advancing_of_plan(plan, *debate, i as int)
            } else {
                Seq::<Seq<char>>::empty()
            },
            plan_rows(builder@.scores, plan, *debate, tournament.id@, md.id@),
            speeches_per_team(*tournament) <= usize::MAX,
            forall|k: int| 0 <= k < form.teams@.len() ==> #[trigger] form_position_filled(*debate, k),
            i64::MIN <= tournament.teams_per_side * 2 <= i64::MAX,
        decreases form.teams@.len() - i,
    {
        proof {
            lemma_plan_step(*tournament, *participants, records_scores, records_positions, form.teams@, i as int);
        }
        let entries = &form.teams[i].speakers;
        let mut sb = builder.team_speakers_builder();
        let mut j: usize = 0;
        proof {
            assert(entries@.take(0) =~= seq![]);
            assert(sb@.scores =~= Seq::<(String, Option<i64>)>::empty());
        }
        while j < entries.len()
            invariant
                i < form.teams@.len(),
                *entries == form.teams@[i as int].speakers,
                j <= entries@.len(),
                sb@.tournament == *tournament,
                sb@.participants == *participants,
                sb@.records_scores == records_scores,
                sb@.records_positions == records_positions,
                sb@.expected_speakers == speeches_per_team(*tournament),
                expected_version == prior_version,
                has_motion(*debate, md.motion_id@),
                md.motion_id == metadata.motion_id,
                accepted_speakers(*tournament, *participants, records_scores, records_positions, entries@.take(j as int))
                    == Ok::<Seq<(String, Option<i64>)>, Seq<char>>(sb@.scores),
                form_plan(*tournament, *participants, records_scores, records_positions, form.teams@.take(i as int))
                    == Ok::<Seq<PlannedTeam>, Seq<char>>(plan),
                form_plan(*tournament, *participants, records_scores, records_positions, form.teams@.take(i as int + 1))
                    == match team_speakers_result(
                    *tournament,
                    *participants,
                    records_scores,
                    records_positions,
                    form.teams@[i as int].speakers@,
                ) {
                    Err(e) => Err(e),
                    Ok(sp) => if !records_positions && sp.len() > 0 {
                        Err("Error: speakers should not be submitted for this round type"@)
                    } else {
                        Ok(plan.push((sp, form.teams@[i as int].points)))
                    },
                },
            decreases entries@.len() - j,
        {
            proof {
                assert(entries@.take(j as int + 1).drop_last() =~= entries@.take(j as int));
                assert(entries@.take(j as int + 1).last() == entries@[j as int]);
            }
            sb = match sb.add_speaker(&entries[j].id, entries[j].score) {
                Ok(b) => b,
                Err(e) => {
                    proof {
                        lemma_accepted_err_prefix(
                            *tournament,
                            *participants,
                            records_scores,
                            records_positions,
                            entries@,
                            j as int + 1,
                        );
                        lemma_plan_err_prefix(
                            *tournament,
                            *participants,
                            records_scores,
                            records_positions,
                            form.teams@,
                            i as int + 1,
                        );
                    }
                    return Err(e);
                },
            };
            j = j + 1;
        }
        proof {
            assert(entries@.take(entries@.len() as int) =~= entries@);
        }
        let speakers = match sb.build() {
            Ok(v) => v,
            Err(e) => {
                proof {
                    lemma_plan_err_prefix(
                        *tournament,
                        *participants,
                        records_scores,
                        records_positions,
                        form.teams@,
                        i as int + 1,
                    );
                }
                return Err(e);
            },
        };
        let ghost sp = speakers@;
        let ghost old_scores = builder@.scores;
        let ghost old_advancing = builder@.advancing_team_ids;
        let side: usize = i % 2;
        let seq: usize = i / 2;
        proof {
            assert(form_position_filled(*debate, i as int));
            assert(seq as i64 as int == seq as int);
        }
        let points = form.teams[i].points;
        match builder.add_team(side, seq, speakers, points) {
            Ok(()) => {},
            Err(e) => {
                proof {
                    lemma_plan_err_prefix(
                        *tournament,
                        *participants,
                        records_scores,
                        records_positions,
                        form.teams@,
                        i as int + 1,
                    );
                }
                return Err(e);
            },
        }
        proof {
            let x: PlannedTeam = (sp, points);
            let next = plan.push(x);
            lemma_plan_push(plan, x, *debate, i as int);
            assert(advancing_of_plan(next, *debate, i as int) == advancing_of_plan(plan, *debate, i as int));
            assert(plan_len(next, i as int + 1) == plan_len(plan, i as int) + sp.len());
            assert forall|a: int, b: int|
                #![trigger next[a].0[b]]
                0 <= a < next.len() && 0 <= b < next[a].0.len() implies score_row_matches(
                builder@.scores[plan_len(next, a) + b],
                tournament.id@,
                md.id@,
                form_team_id(*debate, a),
                next[a].0[b],
                (b as i64) as int,
            ) by {
                if a < i {
                    lemma_plan_push(plan, x, *debate, a);
                    lemma_plan_len_mono(plan, a + 1, i as int);
                    lemma_plan_len_mono(plan, 0, a);
                    assert(next[a] == plan[a]);
                    assert(plan_len(plan, a + 1) == plan_len(plan, a) + plan[a].0.len());
                    assert(old_scores.len() == plan_len(plan, i as int));
                    let k = plan_len(plan, a) + b;
                    assert(0 <= k < old_scores.len());
                    assert(builder@.scores.len() == old_scores.len() + sp.len());
                    assert(builder@.scores[k] == old_scores[k]);
                } else {
                    assert(a == i);
                    assert(next[a] == x);
                    assert(plan_len(next, a) == old_scores.len());
                }
            }
            assert(views(builder@.advancing_team_ids) =~= if elim {
                advancing_of_plan(next, *debate, i as int + 1)
            } else {
                Seq::<Seq<char>>::empty()
            }) by {
                if elim && points == Some(1usize) {
                    assert(views(builder@.advancing_team_ids) =~= views(old_advancing).push(form_team_id(*debate, i as int)));
                }
            }
            plan = next;
        }
        i = i + 1;
    }
    proof {
        assert(form.teams@.take(form.teams@.len() as int) =~= form.teams@);
        assert forall|t: Seq<char>| is_advancing(builder@.advancing_team_ids, t) == views(builder@.advancing_team_ids).contains(t) by {
            lemma_views_contains(builder@.advancing_team_ids, t);
        }
    }
    builder.build()
}

} // verus!

verus! {

/// Planned speakers, seen as who spoke and the score kept.
pub open spec fn planned_view(s: Seq<(String, Option<i64>)>) -> Seq<(Seq<char>, Option<i64>)> {
    s.map_values(|x: (String, Option<i64>)| (x.0@, x.1))
}

/// Speaker entries with their scores kept only where scores are recorded.
pub open spec fn kept_scores(s: Seq<(Seq<char>, Option<i64>)>, records_scores: bool) -> Seq<(Seq<char>, Option<i64>)> {
    s.map_values(|e: (Seq<char>, Option<i64>)| (e.0, if records_scores { e.1 } else { None }))
}

/// Every speaker entry of a team is accepted at its speaking position.
pub open spec fn entries_accepted(
    t: Tournament,
    p: TournamentParticipants,
    records_scores: bool,
    entries: Seq<(Seq<char>, Option<i64>)>,
) -> bool {
    forall|k: int|
        0 <= k < entries.len() ==> speaker_error(
            t,
            p,
            records_scores,
            true,
            speeches_per_team(t),
            k,
            (#[trigger] entries[k]).0,
            entries[k].1,
        ) is None
}

proof fn lemma_accepted_all(
    t: Tournament,
    p: TournamentParticipants,
    rs: bool,
    entries: Seq<BallotFormSingleSpeakerEntry>,
)
    requires
        entries_accepted(t, p, rs, speaker_entries_view(entries)),
    ensures
        accepted_speakers(t, p, rs, true, entries) matches Ok(acc) && planned_view(acc) == kept_scores(
            speaker_entries_view(entries),
            rs,
        ),
    decreases entries.len(),
{
    if entries.len() > 0 {
        let d = entries.drop_last();
        assert(speaker_entries_view(d) =~= speaker_entries_view(entries).drop_last());
        assert forall|k: int| 0 <= k < speaker_entries_view(d).len() implies speaker_error(
            t,
            p,
            rs,
            true,
            speeches_per_team(t),
            k,
            (#[trigger] speaker_entries_view(d)[k]).0,
            speaker_entries_view(d)[k].1,
        ) is None by {
            assert(speaker_entries_view(d)[k] == speaker_entries_view(entries)[k]);
        }
        lemma_accepted_all(t, p, rs, d);
        let acc = accepted_speakers(t, p, rs, true, d)->Ok_0;
        assert(planned_view(acc).len() == acc.len());
        let last = entries.len() - 1;
        assert(speaker_entries_view(entries)[last] == speaker_entry_view(entries.last()));
        let x = (entries.last().id@, if rs { entries.last().score } else { None });
        let next = acc.push((entries.last().id, if rs { entries.last().score } else { None }));
        assert(kept_scores(speaker_entries_view(d), rs).len() == d.len());
        assert(acc.len() == d.len());
        assert(kept_scores(speaker_entries_view(entries), rs) =~= kept_scores(speaker_entries_view(d), rs).push(x));
        assert(planned_view(next) =~= planned_view(acc).push(x));
    } else {
        assert(planned_view(seq![]) =~= kept_scores(speaker_entries_view(entries), rs));
    }
}

/// A filled-in form reads back as it was filled in: where every speaker
/// entry is accepted and each team lists every speech of the format, the
/// form is read team by team into the speakers given, with their scores
/// where scores are recorded, and the points given.
pub proof fn lemma_filled_form_reads_back(
    t: Tournament,
    p: TournamentParticipants,
    records_scores: bool,
    teams: Seq<BallotFormSingleTeamEntry>,
)
    requires
        forall|i: int|
            0 <= i < teams.len() ==> entries_accepted(
                t,
                p,
                records_scores,
                speaker_entries_view((#[trigger] teams[i]).speakers@),
            ) && teams[i].speakers@.len() == speeches_per_team(t),
    ensures
        form_plan(t, p, records_scores, true, teams) matches Ok(plan) && plan.len() == teams.len() && forall|i: int|
            0 <= i < teams.len() ==> planned_view((#[trigger] plan[i]).0) == kept_scores(
                speaker_entries_view(teams[i].speakers@),
                records_scores,
            ) && plan[i].1 == teams[i].points,
    decreases teams.len(),
{
    if teams.len() > 0 {
        let d = teams.drop_last();
        assert forall|i: int| 0 <= i < d.len() implies entries_accepted(
            t,
            p,
            records_scores,
            speaker_entries_view((#[trigger] d[i]).speakers@),
        ) && d[i].speakers@.len() == speeches_per_team(t) by {
            assert(d[i] == teams[i]);
        }
        lemma_filled_form_reads_back(t, p, records_scores, d);
        let last = teams.last();
        assert(last == teams[teams.len() - 1]);
        lemma_accepted_all(t, p, records_scores, last.speakers@);
        let acc = accepted_speakers(t, p, records_scores, true, last.speakers@)->Ok_0;
        assert(planned_view(acc).len() == acc.len());
        assert(kept_scores(speaker_entries_view(last.speakers@), records_scores).len() == last.speakers@.len());
        let plan = form_plan(t, p, records_scores, true, d)->Ok_0;
        assert forall|i: int| 0 <= i < teams.len() implies planned_view(
            (#[trigger] plan.push((acc, last.points))[i]).0,
        ) == kept_scores(speaker_entries_view(teams[i].speakers@), records_scores) && plan.push(
            (acc, last.points),
        )[i].1 == teams[i].points by {
            if i < d.len() {
                assert(plan.push((acc, last.points))[i] == plan[i]);
                assert(d[i] == teams[i]);
            }
        }
    }
}

/// The form prefilled from a stored ballot reads back as the ballot: where
/// every prefilled speaker entry is accepted, the `i`th team read from the
/// form, the team at position `i / 2` of side `i % 2`, gets the speakers
/// the ballot records at each speaking position, with their scores where
/// scores are recorded, and the points the ballot gives it.
pub proof fn lemma_prefilled_form_reads_back(
    b: BallotRepr,
    d: DebateRepr,
    t: Tournament,
    p: TournamentParticipants,
    records_scores: bool,
    teams: Seq<BallotFormSingleTeamEntry>,
)
    requires
        form_teams_view(teams) == prefilled_teams(b, d, t),
        speeches_per_team(t) == speaker_count(t),
        forall|i: int|
            0 <= i < teams.len() ==> entries_accepted(
                t,
                p,
                records_scores,
                (#[trigger] prefilled_team(b, d, t, i % 2, i / 2)).0,
            ),
    ensures
        form_plan(t, p, records_scores, true, teams) matches Ok(plan) && plan.len() == teams.len() && forall|
            i: int,
        |
            0 <= i < plan.len() ==> planned_view((#[trigger] plan[i]).0) == kept_scores(
                prefilled_team(b, d, t, i % 2, i / 2).0,
                records_scores,
            ) && plan[i].1 == prefilled_team(b, d, t, i % 2, i / 2).1,
{
    let n = t.teams_per_side as int;
    if n > 0 {
        lemma_prefilled_entry(b, d, t, n, 0);
    } else {
        assert(prefilled_teams(b, d, t) =~= seq![]);
    }
    assert(form_teams_view(teams).len() == teams.len());
    assert forall|i: int| 0 <= i < teams.len() implies entries_accepted(
        t,
        p,
        records_scores,
        speaker_entries_view((#[trigger] teams[i]).speakers@),
    ) && teams[i].speakers@.len() == speeches_per_team(t) by {
        lemma_prefilled_entry(b, d, t, n, i);
        assert(form_teams_view(teams)[i] == team_entry_view(teams[i]));
        lemma_prefilled_speakers_len(b, d, t, i % 2, i / 2, speaker_count(t));
        assert(speaker_entries_view(teams[i].speakers@).len() == teams[i].speakers@.len());
    }
    lemma_filled_form_reads_back(t, p, records_scores, teams);
    let plan = form_plan(t, p, records_scores, true, teams)->Ok_0;
    assert forall|i: int| 0 <= i < plan.len() implies planned_view((#[trigger] plan[i]).0) == kept_scores(
        prefilled_team(b, d, t, i % 2, i / 2).0,
        records_scores,
    ) && plan[i].1 == prefilled_team(b, d, t, i % 2, i / 2).1 by {
        lemma_prefilled_entry(b, d, t, n, i);
        assert(form_teams_view(teams)[i] == team_entry_view(teams[i]));
    }
}

proof fn lemma_prefilled_speakers_len(b: BallotRepr, d: DebateRepr, t: Tournament, side: int, seq: int, n: int)
    requires
        0 <= n,
    ensures
        prefilled_speakers(scores_of(b, team_at(d, side, seq)->0.team_id@), n).len() == n,
    decreases n,
{
    if n > 0 {
        lemma_prefilled_speakers_len(b, d, t, side, seq, n - 1);
    }
}

} // verus!
