//! Comparison of two ballots of the same debate: where they disagree on the
//! points of a team, on which speaker spoke in a position, or on the score of
//! a position.
use vstd::prelude::*;
use crate::seqs::{first_match, lemma_first_match_at, lemma_first_match_exists};
use crate::ballots::{BallotRepr, BallotScore, BallotTeamRank, rank_of_team};
use crate::draws::{DebateRepr, team_at, judge_of, team_of, speaker_of};
use crate::tournament::Tournament;
use crate::seqs::views;
use crate::sides::{side_name, name_of_side};
use crate::participants::DebateJudge;
use crate::text::{eq_lit, int_text, hundredths_text, i64_to_string, hundredths_to_string};

verus! {

/// A disagreement between two ballots (the first, "this" ballot, and the
/// second, "other" ballot).
pub enum BallotProblem {
    /// The ballots give a team different points.
    Points { team_id: String, points: i64, other_points: i64 },
    /// The ballots name different speakers for a position.
    Speaker { side: i64, position: i64, team_id: String, speaker_id: String, other_speaker_id: String },
    /// The ballots give a position different scores (in hundredths).
    Score {
        side: i64,
        position: i64,
        team_id: String,
        speaker_id: String,
        other_speaker_id: String,
        score: i64,
        other_score: i64,
    },
}

/// Whether a score is the one of team `t` at position `pos`.
pub open spec fn score_at_position(t: Seq<char>, pos: int) -> spec_fn(BallotScore) -> bool {
    |s: BallotScore| s.team_id@ == t && s.speaker_position == pos
}

/// The first score a list records for team `t` at position `pos`.
pub open spec fn score_at(scores: Seq<BallotScore>, t: Seq<char>, pos: int) -> Option<BallotScore> {
    first_match(scores, score_at_position(t, pos))
}

/// The problem, if any, with the points that `a_rank` gives its team.
pub open spec fn points_problem(a_rank: BallotTeamRank, b_ranks: Seq<BallotTeamRank>) -> Seq<BallotProblem> {
    match first_match(b_ranks, rank_of_team(a_rank.team_id@)) {
        Some(b_rank) => if b_rank.points != a_rank.points {
            seq![
                BallotProblem::Points {
                    team_id: a_rank.team_id,
                    points: a_rank.points,
                    other_points: b_rank.points,
                },
            ]
        } else {
            seq![]
        },
        None => seq![],
    }
}

/// For each rank of the first ballot, in order, the disagreement with the
/// second ballot's (first) rank for the same team.
pub open spec fn points_problems(a_ranks: Seq<BallotTeamRank>, b_ranks: Seq<BallotTeamRank>) -> Seq<
    BallotProblem,
>
    decreases a_ranks.len(),
{
    if a_ranks.len() == 0 {
        seq![]
    } else {
        points_problems(a_ranks.drop_last(), b_ranks) + points_problem(a_ranks.last(), b_ranks)
    }
}

/// The disagreements at one speaking position (`side`, team `team`,
/// position `sp`): a different speaker, then a different score.
pub open spec fn problems_at(a: BallotRepr, b: BallotRepr, d: DebateRepr, side: int, team: int, sp: int) -> Seq<
    BallotProblem,
> {
    let dt = team_at(d, side, team)->0;
    let sa = score_at(a.scores@, dt.team_id@, sp)->0;
    let sb = score_at(b.scores@, dt.team_id@, sp)->0;
    (if sa.speaker_id@ != sb.speaker_id@ {
        seq![
            BallotProblem::Speaker {
                side: side as i64,
                position: sp as i64,
                team_id: dt.team_id,
                speaker_id: sa.speaker_id,
                other_speaker_id: sb.speaker_id,
            },
        ]
    } else {
        seq![]
    }) + (if sa.score is Some && sb.score is Some && sa.score->0 != sb.score->0 {
        seq![
            BallotProblem::Score {
                side: side as i64,
                position: sp as i64,
                team_id: dt.team_id,
                speaker_id: sa.speaker_id,
                other_speaker_id: sb.speaker_id,
                score: sa.score->0,
                other_score: sb.score->0,
            },
        ]
    } else {
        seq![]
    })
}

/// The disagreements at the first `n` positions of a team.
pub open spec fn speaker_problems(a: BallotRepr, b: BallotRepr, d: DebateRepr, side: int, team: int, n: int) -> Seq<
    BallotProblem,
>
    decreases n,
{
    if n <= 0 {
        seq![]
    } else {
        speaker_problems(a, b, d, side, team, n - 1) + problems_at(a, b, d, side, team, n - 1)
    }
}

/// The disagreements for the first `m` teams of a side.
pub open spec fn team_problems(a: BallotRepr, b: BallotRepr, t: Tournament, d: DebateRepr, side: int, m: int) -> Seq<
    BallotProblem,
>
    decreases m,
{
    if m <= 0 {
        seq![]
    } else {
        team_problems(a, b, t, d, side, m - 1) + speaker_problems(
            a,
            b,
            d,
            side,
            m - 1,
            t.substantive_speakers as int,
        )
    }
}

/// The disagreements for the first `s` sides.
pub open spec fn side_problems(a: BallotRepr, b: BallotRepr, t: Tournament, d: DebateRepr, s: int) -> Seq<
    BallotProblem,
>
    decreases s,
{
    if s <= 0 {
        seq![]
    } else {
        side_problems(a, b, t, d, s - 1) + team_problems(a, b, t, d, s - 1, t.teams_per_side as int)
    }
}

/// The disagreements between two ballots: first on points, in the order of
/// the first ballot's ranks; then, when both ballots record speakers, on
/// each position, proposition before opposition, team by team, speaker by
/// speaker.
pub open spec fn ballot_problems(a: BallotRepr, b: BallotRepr, t: Tournament, d: DebateRepr) -> Seq<
    BallotProblem,
> {
    points_problems(a.team_ranks@, b.team_ranks@) + if a.scores@.len() > 0 && b.scores@.len() > 0 {
        side_problems(a, b, t, d, 2)
    } else {
        seq![]
    }
}

/// Both ballots record the position and the debate has a team there.
pub open spec fn position_recorded(a: BallotRepr, b: BallotRepr, d: DebateRepr, side: int, team: int, sp: int) -> bool {
    &&& team_at(d, side, team) is Some
    &&& score_at(a.scores@, team_at(d, side, team)->0.team_id@, sp) is Some
    &&& score_at(b.scores@, team_at(d, side, team)->0.team_id@, sp) is Some
}

/// Every position of the format is recorded by both ballots (where both
/// record speakers).
pub open spec fn positions_recorded(a: BallotRepr, b: BallotRepr, t: Tournament, d: DebateRepr) -> bool {
    a.scores@.len() > 0 && b.scores@.len() > 0 ==> forall|side: int, team: int, sp: int|
        0 <= side < 2 && 0 <= team < t.teams_per_side && 0 <= sp < t.substantive_speakers
            ==> #[trigger] position_recorded(a, b, d, side, team, sp)
}

/// The first score recorded for team `team_id` at position `pos`.
pub fn find_score_at<'a>(scores: &'a Vec<BallotScore>, team_id: &String, pos: i64) -> (r: Option<&'a BallotScore>)
    ensures
        r matches Some(s) ==> score_at(scores@, team_id@, pos as int) == Some(*s),
        r is None ==> score_at(scores@, team_id@, pos as int) is None,
{
    let mut i: usize = 0;
    while i < scores.len()
        invariant
            i <= scores.len(),
            forall|j: int| 0 <= j < i ==> !score_at_position(team_id@, pos as int)(#[trigger] scores@[j]),
        decreases scores.len() - i,
    {
        if scores[i].team_id == *team_id && scores[i].speaker_position == pos {
            proof {
                lemma_first_match_at(scores@, score_at_position(team_id@, pos as int), i as int);
            }
            return Some(&scores[i]);
        }
        i = i + 1;
    }
    proof {
        lemma_first_match_at(scores@, score_at_position(team_id@, pos as int), i as int);
    }
    None
}

/// The first rank a list gives team `team_id`.
pub fn find_rank<'a>(ranks: &'a Vec<BallotTeamRank>, team_id: &String) -> (r: Option<&'a BallotTeamRank>)
    ensures
        r matches Some(x) ==> first_match(ranks@, rank_of_team(team_id@)) == Some(*x),
        r is None ==> first_match(ranks@, rank_of_team(team_id@)) is None,
{
    let mut i: usize = 0;
    while i < ranks.len()
        invariant
            i <= ranks.len(),
            forall|j: int| 0 <= j < i ==> !rank_of_team(team_id@)(#[trigger] ranks@[j]),
        decreases ranks.len() - i,
    {
        if ranks[i].team_id == *team_id {
            proof {
                lemma_first_match_at(ranks@, rank_of_team(team_id@), i as int);
            }
            return Some(&ranks[i]);
        }
        i = i + 1;
    }
    proof {
        lemma_first_match_at(ranks@, rank_of_team(team_id@), i as int);
    }
    None
}

/// The disagreements at one speaking position.
fn problems_at_position(
    a: &BallotRepr,
    b: &BallotRepr,
    d: &DebateRepr,
    side: i64,
    team: i64,
    sp: i64,
) -> (r: Vec<BallotProblem>)
    requires
        position_recorded(*a, *b, *d, side as int, team as int, sp as int),
    ensures
        r@ == problems_at(*a, *b, *d, side as int, team as int, sp as int),
{
    let dt = d.team_of_side_and_seq(side, team);
    let sa = find_score_at(&a.scores, &dt.team_id, sp).unwrap();
    let sb = find_score_at(&b.scores, &dt.team_id, sp).unwrap();
    let mut out: Vec<BallotProblem> = Vec::new();
    if sa.speaker_id != sb.speaker_id {
        out.push(
            BallotProblem::Speaker {
                side,
                position: sp,
                team_id: dt.team_id.clone(),
                speaker_id: sa.speaker_id.clone(),
                other_speaker_id: sb.speaker_id.clone(),
            },
        );
    }
    let ghost first = out@;
    match (sa.score, sb.score) {
        (Some(x), Some(y)) => {
            if x != y {
                out.push(
                    BallotProblem::Score {
                        side,
                        position: sp,
                        team_id: dt.team_id.clone(),
                        speaker_id: sa.speaker_id.clone(),
                        other_speaker_id: sb.speaker_id.clone(),
                        score: x,
                        other_score: y,
                    },
                );
            }
        },
        _ => {},
    }
    assert(out@ =~= problems_at(*a, *b, *d, side as int, team as int, sp as int));
    out
}

/// Appends the elements of `extra` to `out`.
fn append_problems(out: &mut Vec<BallotProblem>, extra: Vec<BallotProblem>)
    ensures
        final(out)@ == old(out)@ + extra@,
{
    let mut extra = extra;
    out.append(&mut extra);
}

impl BallotRepr {
    /// The disagreements between this ballot and `other` (see
    /// `ballot_problems`).
    pub fn problems_with(&self, other: &BallotRepr, tournament: &Tournament, debate: &DebateRepr) -> (r: Vec<
        BallotProblem,
    >)
        requires
            positions_recorded(*self, *other, *tournament, *debate),
        ensures
            r@ == ballot_problems(*self, *other, *tournament, *debate),
    {
        let mut out: Vec<BallotProblem> = Vec::new();
        let mut i: usize = 0;
        while i < self.team_ranks.len()
            invariant
                i <= self.team_ranks.len(),
                out@ == points_problems(self.team_ranks@.take(i as int), other.team_ranks@),
            decreases self.team_ranks.len() - i,
        {
            let ra = &self.team_ranks[i];
            let ghost before = out@;
            match find_rank(&other.team_ranks, &ra.team_id) {
                Some(rb) => {
                    if rb.points != ra.points {
                        out.push(
                            BallotProblem::Points {
                                team_id: ra.team_id.clone(),
                                points: ra.points,
                                other_points: rb.points,
                            },
                        );
                    }
                },
                None => {},
            }
            proof {
                assert(self.team_ranks@.take(i as int + 1).drop_last() =~= self.team_ranks@.take(i as int));
                assert(out@ =~= before + points_problem(self.team_ranks@[i as int], other.team_ranks@));
            }
            i = i + 1;
        }
        assert(self.team_ranks@.take(self.team_ranks.len() as int) =~= self.team_ranks@);
        let ghost points_part = out@;
        if self.scores.len() > 0 && other.scores.len() > 0 {
            let mut side: i64 = 0;
            while side < 2
                invariant
                    0 <= side <= 2,
                    self.scores@.len() > 0 && other.scores@.len() > 0,
                    positions_recorded(*self, *other, *tournament, *debate),
                    out@ == points_part + side_problems(*self, *other, *tournament, *debate, side as int),
                decreases 2 - side,
            {
                let mut team: i64 = 0;
                while team < tournament.teams_per_side
                    invariant
                        0 <= side < 2,
                        0 <= team,
                        team <= tournament.teams_per_side || team == 0,
                        self.scores@.len() > 0 && other.scores@.len() > 0,
                        positions_recorded(*self, *other, *tournament, *debate),
                        out@ == points_part + side_problems(*self, *other, *tournament, *debate, side as int)
                            + team_problems(*self, *other, *tournament, *debate, side as int, team as int),
                    decreases tournament.teams_per_side - team,
                {
                    let mut sp: i64 = 0;
                    while sp < tournament.substantive_speakers
                        invariant
                            0 <= side < 2,
                            0 <= team < tournament.teams_per_side,
                            0 <= sp,
                            sp <= tournament.substantive_speakers || sp == 0,
                            self.scores@.len() > 0 && other.scores@.len() > 0,
                            positions_recorded(*self, *other, *tournament, *debate),
                            out@ == points_part + side_problems(*self, *other, *tournament, *debate, side as int)
                                + team_problems(*self, *other, *tournament, *debate, side as int, team as int)
                                + speaker_problems(*self, *other, *debate, side as int, team as int, sp as int),
                        decreases tournament.substantive_speakers - sp,
                    {
                        assert(position_recorded(*self, *other, *debate, side as int, team as int, sp as int));
                        let extra = problems_at_position(self, other, debate, side, team, sp);
                        append_problems(&mut out, extra);
                        sp = sp + 1;
                    }
                    
                    assert(speaker_problems(*self, *other, *debate, side as int, team as int, sp as int)
                        == speaker_problems(*self, *other, *debate, side as int, team as int, tournament.substantive_speakers as int));
                    team = team + 1;
                }
                assert(team_problems(*self, *other, *tournament, *debate, side as int, team as int)
                    == team_problems(*self, *other, *tournament, *debate, side as int, tournament.teams_per_side as int));
                side = side + 1;
            }
        }
        proof {
            assert(out@ =~= ballot_problems(*self, *other, *tournament, *debate));
        }
        out
    }
}

} // verus!

verus! {

/// What `ammonia::clean` makes of a text: the text with markup that is not
/// allowed in HTML content removed.
pub uninterp spec fn sanitized_html(text: Seq<char>) -> Seq<char>;

/// Calls `ammonia::clean`, which sanitises a text for use as HTML content
/// with ammonia's default settings. Its result is taken to depend on the
/// text alone; nothing more of it is stated.
#[verifier::external_body]
fn clean_html(text: &str) -> (r: String)
    ensures
        r@ == sanitized_html(text@),
{
    ammonia::clean(text)
}

} // verus!

verus! {

/// The name of judge `id` of a debate.
pub open spec fn judge_name(d: DebateRepr, id: Seq<char>) -> Seq<char> {
    judge_of(d, id)->0.name@
}

/// The name of team `id` of a debate, or "unknown team".
pub open spec fn team_name_or_unknown(d: DebateRepr, id: Seq<char>) -> Seq<char> {
    match team_of(d, id) {
        Some(t) => t.name@,
        None => "unknown team"@,
    }
}

/// The name of speaker `sp` of team `team`.
pub open spec fn speaker_name(d: DebateRepr, team: Seq<char>, sp: Seq<char>) -> Seq<char> {
    speaker_of(d, team, sp)->0.name@
}

/// The message that describes a disagreement, naming the judges of the
/// two ballots.
pub open spec fn problem_text(
    p: BallotProblem,
    a_judge: Seq<char>,
    b_judge: Seq<char>,
    t: Tournament,
    d: DebateRepr,
) -> Seq<char> {
    match p {
        BallotProblem::Points { team_id, points, other_points } => "Error: the ballot from "@ + a_judge
            + " gives "@ + team_name_or_unknown(d, team_id@) + " "@ + int_text(points as int)
            + " point(s), whereas the ballot from "@ + b_judge + " gives them "@ + int_text(
            other_points as int,
        ) + " point(s)."@,
        BallotProblem::Speaker { side, position, team_id, speaker_id, other_speaker_id } => {
            let pos = side_name(t.teams_per_side as int, side as int, position as int, true);
            "Error: the ballot from "@ + a_judge + " has "@ + speaker_name(d, team_id@, speaker_id@)
                + " as "@ + pos + ", whereas the ballot from "@ + b_judge + " has "@ + speaker_name(
                d,
                team_id@,
                other_speaker_id@,
            ) + " as "@ + pos + "."@
        },
        BallotProblem::Score { side, position, team_id, speaker_id, other_speaker_id, score, other_score } => {
            let pos = side_name(t.teams_per_side as int, side as int, position as int, true);
            "Error: the ballot from "@ + a_judge + " has a score of "@ + hundredths_text(score as int)
                + " for "@ + speaker_name(d, team_id@, speaker_id@) + " as "@ + pos
                + ", whereas the ballot from "@ + b_judge + " has a score of "@ + hundredths_text(
                other_score as int,
            ) + " for "@ + speaker_name(d, team_id@, other_speaker_id@) + " as "@ + pos + "."@
        },
    }
}

/// Whether the names a problem's message needs can be found.
pub open spec fn problem_describable(p: BallotProblem, d: DebateRepr) -> bool {
    match p {
        BallotProblem::Points { .. } => true,
        BallotProblem::Speaker { side, team_id, speaker_id, other_speaker_id, .. } => {
            &&& (side == 0 || side == 1)
            &&& speaker_of(d, team_id@, speaker_id@) is Some
            &&& speaker_of(d, team_id@, other_speaker_id@) is Some
        },
        BallotProblem::Score { side, team_id, speaker_id, other_speaker_id, .. } => {
            &&& (side == 0 || side == 1)
            &&& speaker_of(d, team_id@, speaker_id@) is Some
            &&& speaker_of(d, team_id@, other_speaker_id@) is Some
        },
    }
}

/// Two ballots of a debate can be compared and their disagreements
/// described: both judges are on the debate's list of judges, both ballots
/// record every position, and every speaker a message names is known.
pub open spec fn comparable(a: BallotRepr, b: BallotRepr, t: Tournament, d: DebateRepr) -> bool {
    &&& judge_of(d, a.metadata.judge_id@) is Some
    &&& judge_of(d, b.metadata.judge_id@) is Some
    &&& positions_recorded(a, b, t, d)
    &&& forall|i: int|
        0 <= i < ballot_problems(a, b, t, d).len() ==> problem_describable(
            #[trigger] ballot_problems(a, b, t, d)[i],
            d,
        )
}

/// The messages describing the disagreements of two ballots.
pub open spec fn pair_texts(a: BallotRepr, b: BallotRepr, t: Tournament, d: DebateRepr) -> Seq<Seq<char>> {
    ballot_problems(a, b, t, d).map_values(
        |p: BallotProblem|
            sanitized_html(
                problem_text(
                    p,
                    judge_name(d, a.metadata.judge_id@),
                    judge_name(d, b.metadata.judge_id@),
                    t,
                    d,
                ),
            ),
    )
}

fn cat(a: String, b: &str) -> (r: String)
    ensures
        r@ == a@ + b@,
{
    a.concat(b)
}

fn describe_problem(
    p: &BallotProblem,
    a_judge: &String,
    b_judge: &String,
    t: &Tournament,
    d: &DebateRepr,
) -> (r: String)
    requires
        problem_describable(*p, *d),
    ensures
        r@ == problem_text(*p, a_judge@, b_judge@, *t, *d),
{
    proof {
        reveal_strlit("Error: the ballot from ");
        reveal_strlit(" gives ");
        reveal_strlit(" ");
        reveal_strlit(" point(s), whereas the ballot from ");
        reveal_strlit(" gives them ");
        reveal_strlit(" point(s).");
        reveal_strlit(" has ");
        reveal_strlit(" as ");
        reveal_strlit(", whereas the ballot from ");
        reveal_strlit(".");
        reveal_strlit(" has a score of ");
        reveal_strlit(" for ");
        reveal_strlit("unknown team");
    }
    match p {
        BallotProblem::Points { team_id, points, other_points } => {
            let team_name = match d.team(team_id) {
                Some(team) => team.name.clone(),
                None => String::from_str("unknown team"),
            };
            let s = String::from_str("Error: the ballot from ");
            let s = cat(s, a_judge.as_str());
            let s = cat(s, " gives ");
            let s = cat(s, team_name.as_str());
            let s = cat(s, " ");
            let s = cat(s, i64_to_string(*points).as_str());
            let s = cat(s, " point(s), whereas the ballot from ");
            let s = cat(s, b_judge.as_str());
            let s = cat(s, " gives them ");
            let s = cat(s, i64_to_string(*other_points).as_str());
            cat(s, " point(s).")
        },
        BallotProblem::Speaker { side, position, team_id, speaker_id, other_speaker_id } => {
            let pos = name_of_side(t, *side, *position, true);
            let name_a = d.speaker(team_id, speaker_id).unwrap().name.clone();
            let name_b = d.speaker(team_id, other_speaker_id).unwrap().name.clone();
            let s = String::from_str("Error: the ballot from ");
            let s = cat(s, a_judge.as_str());
            let s = cat(s, " has ");
            let s = cat(s, name_a.as_str());
            let s = cat(s, " as ");
            let s = cat(s, pos.as_str());
            let s = cat(s, ", whereas the ballot from ");
            let s = cat(s, b_judge.as_str());
            let s = cat(s, " has ");
            let s = cat(s, name_b.as_str());
            let s = cat(s, " as ");
            let s = cat(s, pos.as_str());
            cat(s, ".")
        },
        BallotProblem::Score {
            side,
            position,
            team_id,
            speaker_id,
            other_speaker_id,
            score,
            other_score,
        } => {
            let pos = name_of_side(t, *side, *position, true);
            let name_a = d.speaker(team_id, speaker_id).unwrap().name.clone();
            let name_b = d.speaker(team_id, other_speaker_id).unwrap().name.clone();
            let s = String::from_str("Error: the ballot from ");
            let s = cat(s, a_judge.as_str());
            let s = cat(s, " has a score of ");
            let s = cat(s, hundredths_to_string(*score).as_str());
            let s = cat(s, " for ");
            let s = cat(s, name_a.as_str());
            let s = cat(s, " as ");
            let s = cat(s, pos.as_str());
            let s = cat(s, ", whereas the ballot from ");
            let s = cat(s, b_judge.as_str());
            let s = cat(s, " has a score of ");
            let s = cat(s, hundredths_to_string(*other_score).as_str());
            let s = cat(s, " for ");
            let s = cat(s, name_b.as_str());
            let s = cat(s, " as ");
            let s = cat(s, pos.as_str());
            cat(s, ".")
        },
    }
}

impl BallotRepr {
    /// The messages describing where this ballot and `other` disagree: one
    /// sanitised message per disagreement of `ballot_problems`.
    pub fn get_human_readable_description_for_problems(
        &self,
        other: &BallotRepr,
        tournament: &Tournament,
        debate: &DebateRepr,
    ) -> (r: Vec<String>)
        requires
            comparable(*self, *other, *tournament, *debate),
        ensures
            views(r@) == pair_texts(*self, *other, *tournament, *debate),
    {
        let a_judge = debate.judge(&self.metadata.judge_id).unwrap().name.clone();
        let b_judge = debate.judge(&other.metadata.judge_id).unwrap().name.clone();
        let problems = self.problems_with(other, tournament, debate);
        let ghost texts = pair_texts(*self, *other, *tournament, *debate);
        let mut out: Vec<String> = Vec::new();
        let mut i: usize = 0;
        while i < problems.len()
            invariant
                i <= problems.len(),
                problems@ == ballot_problems(*self, *other, *tournament, *debate),
                comparable(*self, *other, *tournament, *debate),
                a_judge@ == judge_name(*debate, self.metadata.judge_id@),
                b_judge@ == judge_name(*debate, other.metadata.judge_id@),
                texts == pair_texts(*self, *other, *tournament, *debate),
                views(out@) == texts.take(i as int),
            decreases problems.len() - i,
        {
            assert(problem_describable(problems@[i as int], *debate));
            let text = describe_problem(&problems[i], &a_judge, &b_judge, tournament, debate);
            let clean = clean_html(text.as_str());
            let ghost before = out@;
            assert(views(before).len() == before.len());
            assert(before.len() == i);
            out.push(clean);
            assert(texts[i as int] == sanitized_html(
                problem_text(problems@[i as int], a_judge@, b_judge@, *tournament, *debate),
            ));
            assert(views(out@) =~= texts.take(i as int + 1)) by {
                assert forall|k: int| 0 <= k < i implies views(out@)[k] == texts.take(i as int + 1)[k] by {
                    assert(out@[k] == before[k]);
                    assert(views(before)[k] == texts.take(i as int)[k]);
                }
            }
            i = i + 1;
        }
        assert(texts.take(problems.len() as int) =~= texts);
        out
    }

    /// Whether this ballot and `other` agree on everything compared.
    pub fn is_isomorphic(&self, other: &BallotRepr, tournament: &Tournament, debate: &DebateRepr) -> (r: bool)
        requires
            comparable(*self, *other, *tournament, *debate),
        ensures
            r == (ballot_problems(*self, *other, *tournament, *debate).len() == 0),
    {
        let texts = self.get_human_readable_description_for_problems(other, tournament, debate);
        assert(views(texts@).len() == texts@.len());
        texts.len() == 0
    }
}

} // verus!

verus! {

/// Whether a list of ranks names each team at most once.
pub open spec fn ranks_distinct(ranks: Seq<BallotTeamRank>) -> bool {
    forall|i: int, j: int| 0 <= i < j < ranks.len() ==> (#[trigger] ranks[i]).team_id@ != (#[trigger] ranks[j]).team_id@
}

/// Where ranks name each team once, the first rank for a team is the rank.
proof fn lemma_distinct_rank_found(ranks: Seq<BallotTeamRank>, j: int)
    requires
        ranks_distinct(ranks),
        0 <= j < ranks.len(),
    ensures
        first_match(ranks, rank_of_team(ranks[j].team_id@)) == Some(ranks[j]),
{
    assert forall|i: int| 0 <= i < j implies !rank_of_team(ranks[j].team_id@)(#[trigger] ranks[i]) by {
    }
    lemma_first_match_at(ranks, rank_of_team(ranks[j].team_id@), j);
}

/// The points part is empty exactly when each rank's part is.
proof fn lemma_points_problems_empty(a: Seq<BallotTeamRank>, b: Seq<BallotTeamRank>)
    ensures
        points_problems(a, b).len() == 0 <==> forall|i: int|
            0 <= i < a.len() ==> (#[trigger] points_problem(a[i], b)).len() == 0,
    decreases a.len(),
{
    if a.len() > 0 {
        lemma_points_problems_empty(a.drop_last(), b);
        if points_problems(a, b).len() == 0 {
            assert forall|i: int| 0 <= i < a.len() implies (#[trigger] points_problem(a[i], b)).len() == 0 by {
                if i < a.len() - 1 {
                    assert(a.drop_last()[i] == a[i]);
                }
            }
        } else {
            if forall|i: int| 0 <= i < a.len() ==> (#[trigger] points_problem(a[i], b)).len() == 0 {
                assert forall|i: int| 0 <= i < a.drop_last().len() implies (#[trigger] points_problem(
                    a.drop_last()[i],
                    b,
                )).len() == 0 by {
                    assert(a.drop_last()[i] == a[i]);
                }
                assert(points_problem(a[a.len() - 1], b).len() == 0);
            }
        }
    }
}

/// Against ranks naming each team once, a rank disagrees exactly when a rank
/// of the same team has other points.
proof fn lemma_points_problem_empty(x: BallotTeamRank, b: Seq<BallotTeamRank>)
    requires
        ranks_distinct(b),
    ensures
        points_problem(x, b).len() == 0 <==> forall|j: int|
            0 <= j < b.len() && (#[trigger] b[j]).team_id@ == x.team_id@ ==> b[j].points == x.points,
{
    lemma_first_match_exists(b, rank_of_team(x.team_id@));
    if exists|j: int| 0 <= j < b.len() && (#[trigger] b[j]).team_id@ == x.team_id@ {
        let j = choose|j: int| 0 <= j < b.len() && (#[trigger] b[j]).team_id@ == x.team_id@;
        lemma_distinct_rank_found(b, j);
        assert forall|k: int| 0 <= k < b.len() && (#[trigger] b[k]).team_id@ == x.team_id@ implies k == j by {
            if k < j {
                assert(b[k].team_id@ != b[j].team_id@);
            } else if k > j {
                assert(b[j].team_id@ != b[k].team_id@);
            }
        }
    } else {
        assert(!(exists|j: int| 0 <= j < b.len() && rank_of_team(x.team_id@)(#[trigger] b[j])));
    }
}

proof fn lemma_problems_at_self(a: BallotRepr, d: DebateRepr, side: int, team: int, sp: int)
    ensures
        problems_at(a, a, d, side, team, sp).len() == 0,
{
}

proof fn lemma_speaker_problems_self(a: BallotRepr, d: DebateRepr, side: int, team: int, n: int)
    ensures
        speaker_problems(a, a, d, side, team, n).len() == 0,
    decreases n,
{
    if n > 0 {
        lemma_speaker_problems_self(a, d, side, team, n - 1);
        lemma_problems_at_self(a, d, side, team, n - 1);
    }
}

proof fn lemma_team_problems_self(a: BallotRepr, t: Tournament, d: DebateRepr, side: int, m: int)
    ensures
        team_problems(a, a, t, d, side, m).len() == 0,
    decreases m,
{
    if m > 0 {
        lemma_team_problems_self(a, t, d, side, m - 1);
        lemma_speaker_problems_self(a, d, side, m - 1, t.substantive_speakers as int);
    }
}

proof fn lemma_side_problems_self(a: BallotRepr, t: Tournament, d: DebateRepr, s: int)
    ensures
        side_problems(a, a, t, d, s).len() == 0,
    decreases s,
{
    if s > 0 {
        lemma_side_problems_self(a, t, d, s - 1);
        lemma_team_problems_self(a, t, d, s - 1, t.teams_per_side as int);
    }
}

/// A ballot whose ranks name each team once agrees with itself on
/// everything compared, so it is isomorphic to itself.
pub proof fn lemma_is_isomorphic_reflexive(a: BallotRepr, t: Tournament, d: DebateRepr)
    requires
        ranks_distinct(a.team_ranks@),
    ensures
        ballot_problems(a, a, t, d).len() == 0,
{
    lemma_points_problems_empty(a.team_ranks@, a.team_ranks@);
    assert forall|i: int| 0 <= i < a.team_ranks@.len() implies (#[trigger] points_problem(
        a.team_ranks@[i],
        a.team_ranks@,
    )).len() == 0 by {
        lemma_distinct_rank_found(a.team_ranks@, i);
    }
    lemma_side_problems_self(a, t, d, 2);
}

proof fn lemma_speaker_problems_swap(a: BallotRepr, b: BallotRepr, d: DebateRepr, side: int, team: int, n: int)
    ensures
        speaker_problems(a, b, d, side, team, n).len() == 0 <==> speaker_problems(b, a, d, side, team, n).len() == 0,
    decreases n,
{
    if n > 0 {
        lemma_speaker_problems_swap(a, b, d, side, team, n - 1);
    }
}

proof fn lemma_team_problems_swap(a: BallotRepr, b: BallotRepr, t: Tournament, d: DebateRepr, side: int, m: int)
    ensures
        team_problems(a, b, t, d, side, m).len() == 0 <==> team_problems(b, a, t, d, side, m).len() == 0,
    decreases m,
{
    if m > 0 {
        lemma_team_problems_swap(a, b, t, d, side, m - 1);
        lemma_speaker_problems_swap(a, b, d, side, m - 1, t.substantive_speakers as int);
    }
}

proof fn lemma_side_problems_swap(a: BallotRepr, b: BallotRepr, t: Tournament, d: DebateRepr, s: int)
    ensures
        side_problems(a, b, t, d, s).len() == 0 <==> side_problems(b, a, t, d, s).len() == 0,
    decreases s,
{
    if s > 0 {
        lemma_side_problems_swap(a, b, t, d, s - 1);
        lemma_team_problems_swap(a, b, t, d, s - 1, t.teams_per_side as int);
    }
}

/// Where each ballot's ranks name each team once, two ballots agree in one
/// order exactly when they agree in the other: `is_isomorphic` is symmetric.
pub proof fn lemma_is_isomorphic_symmetric(a: BallotRepr, b: BallotRepr, t: Tournament, d: DebateRepr)
    requires
        ranks_distinct(a.team_ranks@),
        ranks_distinct(b.team_ranks@),
    ensures
        ballot_problems(a, b, t, d).len() == 0 <==> ballot_problems(b, a, t, d).len() == 0,
{
    let ra = a.team_ranks@;
    let rb = b.team_ranks@;
    lemma_points_problems_empty(ra, rb);
    lemma_points_problems_empty(rb, ra);
    assert forall|i: int| 0 <= i < ra.len() implies ((#[trigger] points_problem(ra[i], rb)).len() == 0 <==> forall|j: int|
        0 <= j < rb.len() && (#[trigger] rb[j]).team_id@ == ra[i].team_id@ ==> rb[j].points == ra[i].points) by {
        lemma_points_problem_empty(ra[i], rb);
    }
    assert forall|j: int| 0 <= j < rb.len() implies ((#[trigger] points_problem(rb[j], ra)).len() == 0 <==> forall|i: int|
        0 <= i < ra.len() && (#[trigger] ra[i]).team_id@ == rb[j].team_id@ ==> ra[i].points == rb[j].points) by {
        lemma_points_problem_empty(rb[j], ra);
    }
    lemma_side_problems_swap(a, b, t, d, 2);
    if points_problems(ra, rb).len() == 0 {
        assert forall|j: int| 0 <= j < rb.len() implies (#[trigger] points_problem(rb[j], ra)).len() == 0 by {
            assert forall|i: int| 0 <= i < ra.len() && (#[trigger] ra[i]).team_id@ == rb[j].team_id@ implies ra[i].points
                == rb[j].points by {
                assert(points_problem(ra[i], rb).len() == 0);
            }
        }
    }
    if points_problems(rb, ra).len() == 0 {
        assert forall|i: int| 0 <= i < ra.len() implies (#[trigger] points_problem(ra[i], rb)).len() == 0 by {
            assert forall|j: int| 0 <= j < rb.len() && (#[trigger] rb[j]).team_id@ == ra[i].team_id@ implies rb[j].points
                == ra[i].points by {
                assert(points_problem(rb[j], ra).len() == 0);
            }
        }
    }
}

} // verus!

verus! {

/// The messages for ballot `a` against the first `n` ballots of `bs`,
/// leaving out any ballot with the same identifier as `a`.
pub open spec fn row_texts(a: BallotRepr, bs: Seq<BallotRepr>, t: Tournament, d: DebateRepr, n: int) -> Seq<
    Seq<char>,
>
    decreases n,
{
    if n <= 0 {
        seq![]
    } else {
        row_texts(a, bs, t, d, n - 1) + if a.metadata.id@ == bs[n - 1].metadata.id@ {
            seq![]
        } else {
            pair_texts(a, bs[n - 1], t, d)
        }
    }
}

/// The messages for the first `m` ballots of `bs` against every ballot.
pub open spec fn set_texts(bs: Seq<BallotRepr>, t: Tournament, d: DebateRepr, m: int) -> Seq<Seq<char>>
    decreases m,
{
    if m <= 0 {
        seq![]
    } else {
        set_texts(bs, t, d, m - 1) + row_texts(bs[m - 1], bs, t, d, bs.len() as int)
    }
}

/// Every ballot is of the given debate.
pub open spec fn same_debate(bs: Seq<BallotRepr>, d: DebateRepr) -> bool {
    forall|i: int| 0 <= i < bs.len() ==> (#[trigger] bs[i]).metadata.debate_id@ == d.debate.id@
}

/// Every two ballots with different identifiers can be compared.
pub open spec fn set_comparable(bs: Seq<BallotRepr>, t: Tournament, d: DebateRepr) -> bool {
    forall|i: int, j: int|
        0 <= i < bs.len() && 0 <= j < bs.len() && (#[trigger] bs[i]).metadata.id@ != (#[trigger] bs[j]).metadata.id@
            ==> comparable(bs[i], bs[j], t, d)
}

fn append_strings(out: &mut Vec<String>, extra: Vec<String>)
    ensures
        views(final(out)@) == views(old(out)@) + views(extra@),
{
    let mut extra = extra;
    let ghost a = out@;
    let ghost b = extra@;
    out.append(&mut extra);
    assert(views(a + b) =~= views(a) + views(b));
}

impl BallotRepr {
    /// The messages describing every disagreement between the ballots of a
    /// debate, taking each ballot in turn against every other ballot.
    pub fn problems_of_set(ballots: &Vec<BallotRepr>, tournament: &Tournament, debate: &DebateRepr) -> (r: Vec<
        String,
    >)
        requires
            same_debate(ballots@, *debate),
            set_comparable(ballots@, *tournament, *debate),
        ensures
            views(r@) == set_texts(ballots@, *tournament, *debate, ballots@.len() as int),
    {
        let mut out: Vec<String> = Vec::new();
        let mut i: usize = 0;
        while i < ballots.len()
            invariant
                i <= ballots.len(),
                set_comparable(ballots@, *tournament, *debate),
                views(out@) == set_texts(ballots@, *tournament, *debate, i as int),
            decreases ballots.len() - i,
        {
            let ghost before_row = views(out@);
            let mut j: usize = 0;
            while j < ballots.len()
                invariant
                    i < ballots.len(),
                    j <= ballots.len(),
                    set_comparable(ballots@, *tournament, *debate),
                    views(out@) == before_row + row_texts(ballots@[i as int], ballots@, *tournament, *debate, j as int),
                decreases ballots.len() - j,
            {
                let a = &ballots[i];
                let b = &ballots[j];
                if a.metadata.id == b.metadata.id {
                    assert(views(out@) =~= before_row + row_texts(ballots@[i as int], ballots@, *tournament, *debate, j as int + 1));
                } else {
                    assert(comparable(ballots@[i as int], ballots@[j as int], *tournament, *debate));
                    let extra = a.get_human_readable_description_for_problems(b, tournament, debate);
                    append_strings(&mut out, extra);
                    assert(views(out@) =~= before_row + row_texts(ballots@[i as int], ballots@, *tournament, *debate, j as int + 1));
                }
                j = j + 1;
            }
            i = i + 1;
        }
        out
    }
}

/// The state of a debate's results.
#[derive(Debug, Copy, Clone, PartialEq, Eq, Structural)]
pub enum DebateStatus {
    /// Some judges who must submit have not.
    Draft,
    /// Every judge who must submit has, and the ballots disagree.
    Conflict,
    /// Every judge who must submit has, and the ballots agree.
    Confirmed,
}

/// Whether a judge of a debate must submit a ballot (every judge but a
/// trainee).
pub open spec fn non_trainee() -> spec_fn(DebateJudge) -> bool {
    |j: DebateJudge| j.status@ != "T"@
}

/// The judges of a debate that must submit a ballot.
pub open spec fn non_trainees(d: DebateRepr) -> Seq<DebateJudge> {
    d.judges_of_debate@.filter(non_trainee())
}

/// Whether some ballot is by judge `id`.
pub open spec fn has_ballot_by(bs: Seq<BallotRepr>, id: Seq<char>) -> bool {
    exists|i: int| 0 <= i < bs.len() && (#[trigger] bs[i]).metadata.judge_id@ == id
}

/// Whether every judge who must submit has a ballot among `bs`.
pub open spec fn all_submitted(d: DebateRepr, bs: Seq<BallotRepr>) -> bool {
    forall|k: int| 0 <= k < non_trainees(d).len() ==> has_ballot_by(bs, (#[trigger] non_trainees(d)[k]).judge_id@)
}

/// The state of a debate given the latest ballot of each judge: confirmed
/// when every non-trainee judge (of which there is at least one) has
/// submitted and the ballots agree, in conflict when they have submitted and
/// disagree, and a draft otherwise.
pub open spec fn debate_status_of(d: DebateRepr, t: Tournament, bs: Seq<BallotRepr>) -> DebateStatus {
    if all_submitted(d, bs) && non_trainees(d).len() > 0 {
        if set_texts(bs, t, d, bs.len() as int).len() == 0 {
            DebateStatus::Confirmed
        } else {
            DebateStatus::Conflict
        }
    } else {
        DebateStatus::Draft
    }
}

impl DebateStatus {
    /// The code of the status as the database records it.
    pub fn code(&self) -> (r: String)
        ensures
            r@ == match *self {
                DebateStatus::Draft => "draft"@,
                DebateStatus::Conflict => "conflict"@,
                DebateStatus::Confirmed => "confirmed"@,
            },
    {
        match self {
            DebateStatus::Draft => String::from_str("draft"),
            DebateStatus::Conflict => String::from_str("conflict"),
            DebateStatus::Confirmed => String::from_str("confirmed"),
        }
    }
}

/// Whether some ballot is by judge `judge_id`.
fn some_ballot_by(ballots: &Vec<BallotRepr>, judge_id: &String) -> (r: bool)
    ensures
        r == has_ballot_by(ballots@, judge_id@),
{
    let mut i: usize = 0;
    while i < ballots.len()
        invariant
            i <= ballots.len(),
            forall|k: int| 0 <= k < i ==> (#[trigger] ballots@[k]).metadata.judge_id@ != judge_id@,
        decreases ballots.len() - i,
    {
        if ballots[i].metadata.judge_id == *judge_id {
            return true;
        }
        i = i + 1;
    }
    false
}

/// The state of a debate given the latest ballot of each of its judges (see
/// `debate_status_of`).
pub fn debate_status(debate: &DebateRepr, tournament: &Tournament, ballots: &Vec<BallotRepr>) -> (r: DebateStatus)
    requires
        all_submitted(*debate, ballots@) && non_trainees(*debate).len() > 0 ==> same_debate(ballots@, *debate)
            && set_comparable(ballots@, *tournament, *debate),
    ensures
        r == debate_status_of(*debate, *tournament, ballots@),
{
    let mut count: usize = 0;
    let mut all: bool = true;
    let mut i: usize = 0;
    let ghost judges = debate.judges_of_debate@;
    while i < debate.judges_of_debate.len()
        invariant
            i <= debate.judges_of_debate.len(),
            judges == debate.judges_of_debate@,
            count == judges.take(i as int).filter(non_trainee()).len(),
            all == forall|k: int|
                0 <= k < judges.take(i as int).filter(non_trainee()).len() ==> has_ballot_by(
                    ballots@,
                    (#[trigger] judges.take(i as int).filter(non_trainee())[k]).judge_id@,
                ),
        decreases debate.judges_of_debate.len() - i,
    {
        let ghost prev = judges.take(i as int).filter(non_trainee());
        proof {
            reveal_strlit("T");
            assert(judges.take(i as int + 1).drop_last() =~= judges.take(i as int));
            reveal_with_fuel(Seq::filter, 1);
        }
        let j = &debate.judges_of_debate[i];
        if !eq_lit(&j.status, "T") {
            let submitted = some_ballot_by(ballots, &j.judge_id);
            proof {
                let next = judges.take(i as int + 1).filter(non_trainee());
                assert(next =~= prev.push(judges[i as int]));
                if all && submitted {
                    assert forall|k: int| 0 <= k < next.len() implies has_ballot_by(ballots@, (#[trigger] next[k]).judge_id@) by {
                        if k < prev.len() {
                            assert(next[k] == prev[k]);
                        }
                    }
                }
                if !submitted {
                    assert(!has_ballot_by(ballots@, next[prev.len() as int].judge_id@));
                }
                if !all {
                    let k = choose|k: int| 0 <= k < prev.len() && !has_ballot_by(ballots@, (#[trigger] prev[k]).judge_id@);
                    assert(next[k] == prev[k]);
                }
            }
            all = all && submitted;
            count = count + 1;
        } else {
            proof {
                assert(judges.take(i as int + 1).filter(non_trainee()) =~= prev);
            }
        }
        i = i + 1;
    }
    assert(judges.take(judges.len() as int) =~= judges);
    if all && count > 0 {
        let problems = BallotRepr::problems_of_set(ballots, tournament, debate);
        assert(views(problems@).len() == problems@.len());
        if problems.len() == 0 {
            DebateStatus::Confirmed
        } else {
            DebateStatus::Conflict
        }
    } else {
        DebateStatus::Draft
    }
}

} // verus!
