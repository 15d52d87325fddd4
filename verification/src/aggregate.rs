//! Aggregation of the ballots of a debate into the debate's results: the
//! points of each team and the score of each speaker (in hundredths).
use vstd::prelude::*;
use crate::seqs::{first_match, lemma_first_match_at, lemma_first_match_exists};
use crate::ballots::{BallotRepr, BallotScore, BallotTeamRank, ballot_team_ids};
use crate::ballot_checks::{comparable, ballot_problems};
use crate::draws::{DebateRepr, DebateTeam, team_at};
use crate::participants::DebateJudge;
use crate::text::eq_lit;
use crate::tournament::Tournament;

verus! {

/// The result of a speaker in a debate.
pub struct TournamentDebateSpeakerResult {
    pub id: String,
    pub tournament_id: String,
    pub debate_id: String,
    pub speaker_id: String,
    pub team_id: String,
    pub position: i64,
    pub score: Option<i64>,
}

/// The result of a team in a debate.
pub struct TournamentDebateTeamResult {
    pub id: String,
    pub tournament_id: String,
    pub debate_id: String,
    pub team_id: String,
    pub points: Option<i64>,
}

/// How the ballots of a panel become the debate's result: the panel agrees
/// on one ballot, or each judge votes and the majority decides.
#[derive(Debug, Copy, Clone, PartialEq, Eq, Structural)]
pub enum BallotAggregationMethod {
    Consensus,
    Individual,
}

/// The results of a debate.
pub struct AggregatedResults {
    pub team_results: Vec<TournamentDebateTeamResult>,
    pub speaker_results: Vec<TournamentDebateSpeakerResult>,
}

/// Whether a team row holds the given values.
pub open spec fn team_row_matches(
    r: TournamentDebateTeamResult,
    tournament_id: Seq<char>,
    debate_id: Seq<char>,
    team_id: Seq<char>,
    points: Option<i64>,
) -> bool {
    &&& r.tournament_id@ == tournament_id
    &&& r.debate_id@ == debate_id
    &&& r.team_id@ == team_id
    &&& r.points == points
}

/// Whether a speaker row holds the given values.
pub open spec fn speaker_row_matches(
    r: TournamentDebateSpeakerResult,
    tournament_id: Seq<char>,
    debate_id: Seq<char>,
    s: BallotScore,
    score: Option<i64>,
) -> bool {
    &&& r.tournament_id@ == tournament_id
    &&& r.debate_id@ == debate_id
    &&& r.speaker_id@ == s.speaker_id@
    &&& r.team_id@ == s.team_id@
    &&& r.position == s.speaker_position
    &&& r.score == score
}

/// Calls `uuid::Uuid::now_v7` and renders the UUID as text, in the
/// hyphenated form of 36 characters that `Display` writes. Which UUID comes
/// out depends on the time and on random bits, so that is not stated.
#[verifier::external_body]
pub(crate) fn new_id() -> (r: String)
    ensures
        r@.len() == 36,
{
    uuid::Uuid::now_v7().to_string()
}

/// Whether a rank gives its team one point (a win, or advancing).
pub open spec fn rank_with_one_point() -> spec_fn(BallotTeamRank) -> bool {
    |r: BallotTeamRank| r.points == 1
}

/// Whether a debate team is team `id`.
pub open spec fn debate_team_is(id: Seq<char>) -> spec_fn(DebateTeam) -> bool {
    |t: DebateTeam| t.team_id@ == id
}

/// The team a ballot gives one point to (its first such rank).
pub open spec fn winner_of(b: BallotRepr) -> Option<BallotTeamRank> {
    first_match(b.team_ranks@, rank_with_one_point())
}

/// The side of the debate that a ballot votes for, in a format with one team
/// per side.
pub open spec fn side_voted(d: DebateRepr, b: BallotRepr) -> Option<i64> {
    match winner_of(b) {
        Some(w) => match first_match(d.teams_of_debate@, debate_team_is(w.team_id@)) {
            Some(t) => Some(t.side),
            None => None,
        },
        None => None,
    }
}

/// A ballot votes for proposition or opposition.
pub open spec fn votes_for_a_side(d: DebateRepr, b: BallotRepr) -> bool {
    side_voted(d, b) == Some(0i64) || side_voted(d, b) == Some(1i64)
}

/// The number of the first `n` ballots that vote for `side`.
pub open spec fn votes_for(d: DebateRepr, bs: Seq<BallotRepr>, side: i64, n: int) -> int
    decreases n,
{
    if n <= 0 {
        0
    } else {
        votes_for(d, bs, side, n - 1) + if side_voted(d, bs[n - 1]) == Some(side) {
            1int
        } else {
            0int
        }
    }
}

/// Whether a judge chairs the panel.
pub open spec fn is_chair() -> spec_fn(DebateJudge) -> bool {
    |j: DebateJudge| j.status@ == "C"@
}

/// Whether a ballot is by judge `id`.
pub open spec fn ballot_by(id: Seq<char>) -> spec_fn(BallotRepr) -> bool {
    |b: BallotRepr| b.metadata.judge_id@ == id
}

/// The ballot of the (first) chair of the panel.
pub open spec fn chair_ballot(d: DebateRepr, bs: Seq<BallotRepr>) -> Option<BallotRepr> {
    match first_match(d.judges_of_debate@, is_chair()) {
        Some(c) => first_match(bs, ballot_by(c.judge_id@)),
        None => None,
    }
}

/// Whether proposition wins by the votes of the panel: the side with more
/// votes wins, and on a tie the side the chair voted for.
pub open spec fn prop_wins(d: DebateRepr, bs: Seq<BallotRepr>) -> bool {
    let p = votes_for(d, bs, 0, bs.len() as int);
    let o = votes_for(d, bs, 1, bs.len() as int);
    if p > o {
        true
    } else if o > p {
        false
    } else {
        side_voted(d, chair_ballot(d, bs)->0) == Some(0i64)
    }
}

/// The panel's votes can be counted: every ballot votes for a side, and on
/// a tie the chair has a ballot.
pub open spec fn votes_countable(d: DebateRepr, bs: Seq<BallotRepr>) -> bool {
    &&& forall|i: int| 0 <= i < bs.len() ==> votes_for_a_side(d, #[trigger] bs[i])
    &&& votes_for(d, bs, 0, bs.len() as int) == votes_for(d, bs, 1, bs.len() as int) ==> chair_ballot(d, bs) is Some
}

/// The side a ballot votes for.
pub fn side_judge_voted_for_in_2_team_format(debate: &DebateRepr, ballot: &BallotRepr) -> (r: i64)
    requires
        side_voted(*debate, *ballot) is Some,
    ensures
        side_voted(*debate, *ballot) == Some(r),
{
    let mut i: usize = 0;
    while i < ballot.team_ranks.len()
        invariant
            i <= ballot.team_ranks.len(),
            side_voted(*debate, *ballot) is Some,
            forall|j: int| 0 <= j < i ==> !rank_with_one_point()(#[trigger] ballot.team_ranks@[j]),
        decreases ballot.team_ranks.len() - i,
    {
        if ballot.team_ranks[i].points == 1 {
            proof {
                lemma_first_match_at(ballot.team_ranks@, rank_with_one_point(), i as int);
            }
            let winner = &ballot.team_ranks[i].team_id;
            let mut k: usize = 0;
            while k < debate.teams_of_debate.len()
                invariant
                    k <= debate.teams_of_debate.len(),
                    side_voted(*debate, *ballot) is Some,
                    winner_of(*ballot) == Some(ballot.team_ranks@[i as int]),
                    *winner == ballot.team_ranks@[i as int].team_id,
                    forall|j: int| 0 <= j < k ==> !debate_team_is(winner@)(#[trigger] debate.teams_of_debate@[j]),
                decreases debate.teams_of_debate.len() - k,
            {
                if debate.teams_of_debate[k].team_id == *winner {
                    proof {
                        lemma_first_match_at(debate.teams_of_debate@, debate_team_is(winner@), k as int);
                    }
                    return debate.teams_of_debate[k].side;
                }
                k = k + 1;
            }
            proof {
                lemma_first_match_at(debate.teams_of_debate@, debate_team_is(winner@), k as int);
            }
            return 0;
        }
        i = i + 1;
    }
    proof {
        lemma_first_match_at(ballot.team_ranks@, rank_with_one_point(), i as int);
    }
    0
}

/// Whether proposition won by the votes of the panel (see `prop_wins`).
pub fn determine_winner_by_vote(ballots: &Vec<BallotRepr>, debate: &DebateRepr) -> (r: bool)
    requires
        votes_countable(*debate, ballots@),
    ensures
        r == prop_wins(*debate, ballots@),
{
    let mut votes_prop: u64 = 0;
    let mut votes_opp: u64 = 0;
    let mut i: usize = 0;
    while i < ballots.len()
        invariant
            i <= ballots.len(),
            votes_countable(*debate, ballots@),
            votes_prop == votes_for(*debate, ballots@, 0, i as int),
            votes_opp == votes_for(*debate, ballots@, 1, i as int),
            votes_prop + votes_opp == i,
        decreases ballots.len() - i,
    {
        assert(votes_for_a_side(*debate, ballots@[i as int]));
        let side = side_judge_voted_for_in_2_team_format(debate, &ballots[i]);
        if side == 0 {
            votes_prop = votes_prop + 1;
        } else {
            votes_opp = votes_opp + 1;
        }
        i = i + 1;
    }
    if votes_prop > votes_opp {
        return true;
    }
    if votes_opp > votes_prop {
        return false;
    }
    let mut c: usize = 0;
    while c < debate.judges_of_debate.len()
        invariant
            c <= debate.judges_of_debate.len(),
            chair_ballot(*debate, ballots@) is Some,
            votes_countable(*debate, ballots@),
            votes_for(*debate, ballots@, 0, ballots@.len() as int) == votes_for(*debate, ballots@, 1, ballots@.len() as int),
            forall|j: int| 0 <= j < c ==> !is_chair()(#[trigger] debate.judges_of_debate@[j]),
        decreases debate.judges_of_debate.len() - c,
    {
        proof {
            reveal_strlit("C");
        }
        if eq_lit(&debate.judges_of_debate[c].status, "C") {
            proof {
                lemma_first_match_at(debate.judges_of_debate@, is_chair(), c as int);
            }
            let chair_id = &debate.judges_of_debate[c].judge_id;
            let mut k: usize = 0;
            while k < ballots.len()
                invariant
                    k <= ballots.len(),
                    c < debate.judges_of_debate@.len(),
                    chair_ballot(*debate, ballots@) is Some,
                    votes_for(*debate, ballots@, 0, ballots@.len() as int) == votes_for(*debate, ballots@, 1, ballots@.len() as int),
                    first_match(debate.judges_of_debate@, is_chair()) == Some(debate.judges_of_debate@[c as int]),
                    *chair_id == debate.judges_of_debate@[c as int].judge_id,
                    votes_countable(*debate, ballots@),
                    forall|j: int| 0 <= j < k ==> !ballot_by(chair_id@)(#[trigger] ballots@[j]),
                decreases ballots.len() - k,
            {
                if ballots[k].metadata.judge_id == *chair_id {
                    proof {
                        lemma_first_match_at(ballots@, ballot_by(chair_id@), k as int);
                        lemma_first_match_exists(ballots@, ballot_by(chair_id@));
                        assert(votes_for_a_side(*debate, ballots@[k as int]));
                    }
                    let vote = side_judge_voted_for_in_2_team_format(debate, &ballots[k]);
                    return vote == 0;
                }
                k = k + 1;
            }
            proof {
                lemma_first_match_at(ballots@, ballot_by(chair_id@), k as int);
            }
            return false;
        }
        c = c + 1;
    }
    proof {
        lemma_first_match_at(debate.judges_of_debate@, is_chair(), c as int);
    }
    false
}

} // verus!

verus! {

/// `sum / n` rounded to the nearest integer, ties to the even integer (as
/// `rust_decimal`'s `round_dp` rounds).
pub open spec fn round_half_even(sum: int, n: int) -> int {
    let q = sum / n;
    let r = sum % n;
    if 2 * r > n {
        q + 1
    } else if 2 * r < n {
        q
    } else if q % 2 == 0 {
        q
    } else {
        q + 1
    }
}

proof fn lemma_round_half_even_bounds(sum: int, n: int, lo: int, hi: int)
    requires
        n > 0,
        n * lo <= sum <= n * hi,
    ensures
        lo <= round_half_even(sum, n) <= hi,
{
    let q = sum / n;
    let r = sum % n;
    vstd::arithmetic::div_mod::lemma_fundamental_div_mod(sum, n);
    assert(sum == n * q + r);
    assert(0 <= r < n);
    assert(lo <= q) by (nonlinear_arith)
        requires
            n > 0,
            n * lo <= n * q + r,
            0 <= r < n,
    ;
    assert(q <= hi) by (nonlinear_arith)
        requires
            n > 0,
            n * q + r <= n * hi,
            0 <= r,
    ;
    if r > 0 {
        assert(q + 1 <= hi) by (nonlinear_arith)
            requires
                n > 0,
                n * q + r <= n * hi,
                0 < r,
        ;
    }
}

/// Rounds `sum / n` half to even.
fn div_round_half_even(sum: i128, n: i128) -> (r: i128)
    requires
        n > 0,
        n <= 0xffff_ffff_ffff_ffff,
        -(n as int) * 0x8000_0000_0000_0000 <= sum <= (n as int) * 0x8000_0000_0000_0000,
    ensures
        r as int == round_half_even(sum as int, n as int),
{
    let (q, rem): (i128, i128) = if sum >= 0 {
        (sum / n, sum % n)
    } else {
        let m: i128 = -sum;
        let q0: i128 = m / n;
        let r0: i128 = m % n;
        proof {
            vstd::arithmetic::div_mod::lemma_fundamental_div_mod(m as int, n as int);
            vstd::arithmetic::div_mod::lemma_fundamental_div_mod(sum as int, n as int);
        }
        if r0 == 0 {
            proof {
                assert(sum as int == n * (-q0) + 0) by (nonlinear_arith)
                    requires
                        m as int == n * q0 + r0,
                        r0 == 0,
                        sum == -m,
                ;
                vstd::arithmetic::div_mod::lemma_fundamental_div_mod_converse(sum as int, n as int, -q0 as int, 0);
            }
            (-q0, 0)
        } else {
            proof {
                assert(sum as int == n * (-q0 - 1) + (n - r0)) by (nonlinear_arith)
                    requires
                        m as int == n * q0 + r0,
                        sum == -m,
                ;
                vstd::arithmetic::div_mod::lemma_fundamental_div_mod_converse(
                    sum as int,
                    n as int,
                    (-q0 - 1) as int,
                    (n - r0) as int,
                );
            }
            (-q0 - 1, n - r0)
        }
    };
    assert(q as int == sum as int / n as int && rem as int == sum as int % n as int);
    if 2 * rem > n {
        q + 1
    } else if 2 * rem < n {
        q
    } else if q % 2 == 0 {
        q
    } else {
        q + 1
    }
}

/// Whether a score is for the same speaker at the same position as `s`.
pub open spec fn same_slot(s: BallotScore) -> spec_fn(BallotScore) -> bool {
    |o: BallotScore| o.speaker_id@ == s.speaker_id@ && o.speaker_position == s.speaker_position
}

/// The score a ballot records for the speaker and position of `s`.
pub open spec fn slot_score(b: BallotRepr, s: BallotScore) -> Option<BallotScore> {
    first_match(b.scores@, same_slot(s))
}

/// The sum of the score `s` (of the first ballot) and the scores the
/// ballots after it, up to the `m`th, record for its speaker and position.
pub open spec fn slot_sum(bs: Seq<BallotRepr>, s: BallotScore, m: int) -> int
    decreases m,
{
    if m <= 1 {
        s.score->0 as int
    } else {
        slot_sum(bs, s, m - 1) + slot_score(bs[m - 1], s)->0.score->0 as int
    }
}

/// Every ballot records a score for the speaker and position of `s`.
pub open spec fn slot_scored(bs: Seq<BallotRepr>, s: BallotScore) -> bool {
    &&& s.score is Some
    &&& forall|i: int|
        1 <= i < bs.len() ==> (#[trigger] slot_score(bs[i], s)) is Some && slot_score(bs[i], s)->0.score is Some
}

/// The speaker results averaged over the panel can be computed: there is a
/// ballot, and every score of the first ballot is recorded by every ballot.
pub open spec fn averages_defined(bs: Seq<BallotRepr>) -> bool {
    &&& bs.len() > 0
    &&& forall|k: int| 0 <= k < bs[0].scores@.len() ==> slot_scored(bs, #[trigger] bs[0].scores@[k])
}

/// The average, over the panel, of the score of the speaker and position of
/// `s`, rounded half to even to a hundredth of a point.
pub open spec fn averaged_score(bs: Seq<BallotRepr>, s: BallotScore) -> i64 {
    round_half_even(slot_sum(bs, s, bs.len() as int), bs.len() as int) as i64
}

/// The scores the panel gives the speaker and position of `s`: the first
/// ballot's own score, then the score each later ballot records for the
/// same speaker and position.
pub open spec fn panel_scores(bs: Seq<BallotRepr>, s: BallotScore) -> Seq<int> {
    Seq::new(
        bs.len(),
        |i: int|
            if i == 0 {
                s.score->0 as int
            } else {
                slot_score(bs[i], s)->0.score->0 as int
            },
    )
}

/// The sum of some numbers.
pub open spec fn int_sum(xs: Seq<int>) -> int
    decreases xs.len(),
{
    if xs.len() == 0 {
        0
    } else {
        int_sum(xs.drop_last()) + xs.last()
    }
}

proof fn lemma_slot_sum_is_panel_sum(bs: Seq<BallotRepr>, s: BallotScore, m: int)
    requires
        1 <= m <= bs.len(),
        slot_scored(bs, s),
    ensures
        slot_sum(bs, s, m) == int_sum(panel_scores(bs, s).take(m)),
        m * -0x8000_0000_0000_0000 <= slot_sum(bs, s, m) <= m * 0x7fff_ffff_ffff_ffff,
    decreases m,
{
    let ps = panel_scores(bs, s);
    if m == 1 {
        assert(ps.take(1).drop_last() =~= Seq::<int>::empty());
        assert(int_sum(Seq::<int>::empty()) == 0);
        assert(ps.take(1).last() == ps[0]);
    } else {
        lemma_slot_sum_is_panel_sum(bs, s, m - 1);
        assert(ps.take(m).drop_last() =~= ps.take(m - 1));
        assert(slot_score(bs[m - 1], s) is Some);
        assert(ps.take(m).last() == ps[m - 1]);
        assert(ps[m - 1] == slot_score(bs[m - 1], s)->0.score->0 as int);
    }
}

proof fn lemma_round_half_even_near(sum: int, n: int)
    requires
        n > 0,
    ensures
        -n <= 2 * (n * round_half_even(sum, n) - sum) <= n,
{
    let q = sum / n;
    let r = sum % n;
    vstd::arithmetic::div_mod::lemma_fundamental_div_mod(sum, n);
    assert(sum == n * q + r);
    assert(0 <= r < n);
    assert(n * (q + 1) == n * q + n) by (nonlinear_arith);
}

/// The panel's score for a speaker is the mean of every ballot's score for
/// that speaker and position: times the number of ballots, it is within
/// half a ballot of their sum (it is the sum divided by the number of
/// ballots, rounded to a hundredth of a point).
pub proof fn lemma_averaged_score_is_mean(bs: Seq<BallotRepr>, s: BallotScore)
    requires
        bs.len() > 0,
        slot_scored(bs, s),
    ensures
        -(bs.len() as int) <= 2 * (bs.len() * averaged_score(bs, s) - int_sum(panel_scores(bs, s))) <= bs.len(),
{
    let n = bs.len() as int;
    lemma_slot_sum_is_panel_sum(bs, s, n);
    assert(panel_scores(bs, s).take(n) =~= panel_scores(bs, s));
    let sum = slot_sum(bs, s, n);
    lemma_round_half_even_bounds(sum, n, -0x8000_0000_0000_0000, 0x7fff_ffff_ffff_ffff);
    lemma_round_half_even_near(sum, n);
}

/// Every ballot of the panel counts: where one later ballot is replaced by
/// one recording another score for the speaker and position, the panel's
/// sum for them changes by the difference of the two scores.
pub proof fn lemma_slot_sum_counts_each_ballot(bs: Seq<BallotRepr>, s: BallotScore, j: int, other: BallotRepr)
    requires
        1 <= j < bs.len(),
        slot_scored(bs, s),
        slot_score(other, s) is Some,
        slot_score(other, s)->0.score is Some,
    ensures
        slot_sum(bs.update(j, other), s, bs.len() as int) == slot_sum(bs, s, bs.len() as int) + slot_score(
            other,
            s,
        )->0.score->0 - slot_score(bs[j], s)->0.score->0,
{
    let cs = bs.update(j, other);
    assert(slot_scored(cs, s)) by {
        assert forall|i: int| 1 <= i < cs.len() implies (#[trigger] slot_score(cs[i], s)) is Some && slot_score(
            cs[i],
            s,
        )->0.score is Some by {
            if i != j {
                assert(cs[i] == bs[i]);
            }
        }
    }
    lemma_slot_sum_is_panel_sum(bs, s, bs.len() as int);
    lemma_slot_sum_is_panel_sum(cs, s, bs.len() as int);
    let a = panel_scores(bs, s);
    let c = panel_scores(cs, s);
    assert(a.take(bs.len() as int) =~= a);
    assert(c.take(bs.len() as int) =~= c);
    assert(c =~= a.update(j, slot_score(other, s)->0.score->0 as int));
    lemma_int_sum_update(a, j, slot_score(other, s)->0.score->0 as int);
}

proof fn lemma_int_sum_update(xs: Seq<int>, j: int, v: int)
    requires
        0 <= j < xs.len(),
    ensures
        int_sum(xs.update(j, v)) == int_sum(xs) + v - xs[j],
    decreases xs.len(),
{
    let u = xs.update(j, v);
    if j == xs.len() - 1 {
        assert(u.drop_last() =~= xs.drop_last());
    } else {
        lemma_int_sum_update(xs.drop_last(), j, v);
        assert(u.drop_last() =~= xs.drop_last().update(j, v));
    }
}

/// The score the ballot records for the speaker and position of `s`.
fn find_slot_score<'a>(b: &'a BallotRepr, s: &BallotScore) -> (r: Option<&'a BallotScore>)
    ensures
        r matches Some(x) ==> slot_score(*b, *s) == Some(*x),
        r is None ==> slot_score(*b, *s) is None,
{
    let mut i: usize = 0;
    while i < b.scores.len()
        invariant
            i <= b.scores.len(),
            forall|j: int| 0 <= j < i ==> !same_slot(*s)(#[trigger] b.scores@[j]),
        decreases b.scores.len() - i,
    {
        if b.scores[i].speaker_id == s.speaker_id && b.scores[i].speaker_position == s.speaker_position {
            proof {
                lemma_first_match_at(b.scores@, same_slot(*s), i as int);
            }
            return Some(&b.scores[i]);
        }
        i = i + 1;
    }
    proof {
        lemma_first_match_at(b.scores@, same_slot(*s), i as int);
    }
    None
}

/// The speaker results of a debate judged by a panel: for each score of the
/// first ballot, in order, the panel's average for that speaker and
/// position.
pub fn compute_averaged_speaker_scores(
    ballots: &Vec<BallotRepr>,
    tournament_id: &String,
    debate_id: &String,
) -> (r: Vec<TournamentDebateSpeakerResult>)
    requires
        averages_defined(ballots@),
    ensures
        r@.len() == ballots@[0].scores@.len(),
        forall|k: int|
            0 <= k < r@.len() ==> speaker_row_matches(
                #[trigger] r@[k],
                tournament_id@,
                debate_id@,
                ballots@[0].scores@[k],
                Some(averaged_score(ballots@, ballots@[0].scores@[k])),
            ),
{
    let first = &ballots[0];
    let n = ballots.len();
    let mut out: Vec<TournamentDebateSpeakerResult> = Vec::new();
    let mut k: usize = 0;
    while k < first.scores.len()
        invariant
            k <= first.scores.len(),
            averages_defined(ballots@),
            *first == ballots@[0],
            n == ballots@.len(),
            out@.len() == k,
            forall|j: int|
                0 <= j < k ==> speaker_row_matches(
                    #[trigger] out@[j],
                    tournament_id@,
                    debate_id@,
                    ballots@[0].scores@[j],
                    Some(averaged_score(ballots@, ballots@[0].scores@[j])),
                ),
        decreases first.scores.len() - k,
    {
        let s = &first.scores[k];
        assert(slot_scored(ballots@, ballots@[0].scores@[k as int]));
        let mut sum: i128 = s.score.unwrap() as i128;
        let mut i: usize = 1;
        while i < n
            invariant
                1 <= i <= n,
                n == ballots@.len(),
                slot_scored(ballots@, *s),
                sum as int == slot_sum(ballots@, *s, i as int),
                -(i as int) * 0x8000_0000_0000_0000 <= sum <= (i as int) * 0x7fff_ffff_ffff_ffff,
            decreases n - i,
        {
            assert(slot_score(ballots@[i as int], *s) is Some);
            let o = find_slot_score(&ballots[i], s).unwrap();
            sum = sum + o.score.unwrap() as i128;
            i = i + 1;
        }
        proof {
            assert(n as int * 0x8000_0000_0000_0000 <= 0x7fff_ffff_ffff_ffff_8000_0000_0000_0000);
            lemma_round_half_even_bounds(sum as int, n as int, -0x8000_0000_0000_0000, 0x7fff_ffff_ffff_ffff);
        }
        let avg = div_round_half_even(sum, n as i128) as i64;
        out.push(
            TournamentDebateSpeakerResult {
                id: new_id(),
                tournament_id: tournament_id.clone(),
                debate_id: debate_id.clone(),
                speaker_id: s.speaker_id.clone(),
                team_id: s.team_id.clone(),
                position: s.speaker_position,
                score: Some(avg),
            },
        );
        k = k + 1;
    }
    out
}

} // verus!

verus! {

/// The results of the consensus ballot `c` of a preliminary round: one team
/// row per rank with its points, and, where speaker scores are recorded, one
/// speaker row per score as the ballot gives it.
pub open spec fn consensus_prelim_results(r: AggregatedResults, c: BallotRepr, with_speaks: bool) -> bool {
    &&& r.team_results@.len() == c.team_ranks@.len()
    &&& forall|k: int|
        0 <= k < r.team_results@.len() ==> team_row_matches(
            #[trigger] r.team_results@[k],
            c.metadata.tournament_id@,
            c.metadata.debate_id@,
            c.team_ranks@[k].team_id@,
            Some(c.team_ranks@[k].points),
        )
    &&& r.speaker_results@.len() == if with_speaks { c.scores@.len() } else { 0 }
    &&& forall|k: int|
        0 <= k < r.speaker_results@.len() ==> speaker_row_matches(
            #[trigger] r.speaker_results@[k],
            c.metadata.tournament_id@,
            c.metadata.debate_id@,
            c.scores@[k],
            c.scores@[k].score,
        )
}

/// Whether the consensus ballot advances team `t`.
pub open spec fn advances(c: BallotRepr, t: Seq<char>) -> bool {
    exists|k: int| 0 <= k < c.team_ranks@.len() && (#[trigger] c.team_ranks@[k]).team_id@ == t && c.team_ranks@[k].points == 1
}

/// The results of the consensus ballot `c` of an elimination round: one team
/// row per team of the debate, in the debate's order, with one point for an
/// advancing team and none for an eliminated one.
pub open spec fn consensus_elim_results(r: AggregatedResults, c: BallotRepr, d: DebateRepr) -> bool {
    &&& r.team_results@.len() == d.teams_of_debate@.len()
    &&& forall|k: int|
        0 <= k < r.team_results@.len() ==> team_row_matches(
            #[trigger] r.team_results@[k],
            c.metadata.tournament_id@,
            c.metadata.debate_id@,
            d.teams_of_debate@[k].team_id@,
            Some(if advances(c, d.teams_of_debate@[k].team_id@) { 1i64 } else { 0i64 }),
        )
    &&& r.speaker_results@.len() == 0
}

/// The results of a debate decided by the votes of a panel: a row for the
/// proposition team and one for the opposition team, one point to the
/// winner; and, where speaker scores count, the panel's averages.
pub open spec fn individual_results(r: AggregatedResults, bs: Seq<BallotRepr>, d: DebateRepr, with_speaks: bool) -> bool {
    let win = prop_wins(d, bs);
    &&& r.team_results@.len() == 2
    &&& team_row_matches(
        r.team_results@[0],
        bs[0].metadata.tournament_id@,
        bs[0].metadata.debate_id@,
        team_at(d, 0, 0)->0.team_id@,
        Some(if win { 1i64 } else { 0i64 }),
    )
    &&& team_row_matches(
        r.team_results@[1],
        bs[0].metadata.tournament_id@,
        bs[0].metadata.debate_id@,
        team_at(d, 1, 0)->0.team_id@,
        Some(if win { 0i64 } else { 1i64 }),
    )
    &&& r.speaker_results@.len() == if with_speaks { bs[0].scores@.len() } else { 0 }
    &&& forall|k: int|
        0 <= k < r.speaker_results@.len() ==> speaker_row_matches(
            #[trigger] r.speaker_results@[k],
            bs[0].metadata.tournament_id@,
            bs[0].metadata.debate_id@,
            bs[0].scores@[k],
            Some(averaged_score(bs, bs[0].scores@[k])),
        )
}

fn aggregate_consensus_prelim(canonical: &BallotRepr, requires_speaks: bool) -> (r: AggregatedResults)
    ensures
        consensus_prelim_results(r, *canonical, requires_speaks),
{
    let mut team_results: Vec<TournamentDebateTeamResult> = Vec::new();
    let mut i: usize = 0;
    while i < canonical.team_ranks.len()
        invariant
            i <= canonical.team_ranks.len(),
            team_results@.len() == i,
            forall|k: int|
                0 <= k < i ==> team_row_matches(
                    #[trigger] team_results@[k],
                    canonical.metadata.tournament_id@,
                    canonical.metadata.debate_id@,
                    canonical.team_ranks@[k].team_id@,
                    Some(canonical.team_ranks@[k].points),
                ),
        decreases canonical.team_ranks.len() - i,
    {
        let rank = &canonical.team_ranks[i];
        team_results.push(
            TournamentDebateTeamResult {
                id: new_id(),
                tournament_id: canonical.metadata.tournament_id.clone(),
                debate_id: canonical.metadata.debate_id.clone(),
                team_id: rank.team_id.clone(),
                points: Some(rank.points),
            },
        );
        i = i + 1;
    }
    let mut speaker_results: Vec<TournamentDebateSpeakerResult> = Vec::new();
    if requires_speaks {
        let mut k: usize = 0;
        while k < canonical.scores.len()
            invariant
                k <= canonical.scores.len(),
                speaker_results@.len() == k,
                forall|j: int|
                    0 <= j < k ==> speaker_row_matches(
                        #[trigger] speaker_results@[j],
                        canonical.metadata.tournament_id@,
                        canonical.metadata.debate_id@,
                        canonical.scores@[j],
                        canonical.scores@[j].score,
                    ),
            decreases canonical.scores.len() - k,
        {
            let s = &canonical.scores[k];
            speaker_results.push(
                TournamentDebateSpeakerResult {
                    id: new_id(),
                    tournament_id: canonical.metadata.tournament_id.clone(),
                    debate_id: canonical.metadata.debate_id.clone(),
                    speaker_id: s.speaker_id.clone(),
                    team_id: s.team_id.clone(),
                    position: s.speaker_position,
                    score: s.score,
                },
            );
            k = k + 1;
        }
    }
    AggregatedResults { team_results, speaker_results }
}

/// Whether the ballot advances `team_id`.
fn ballot_advances(c: &BallotRepr, team_id: &String) -> (r: bool)
    ensures
        r == advances(*c, team_id@),
{
    let mut i: usize = 0;
    while i < c.team_ranks.len()
        invariant
            i <= c.team_ranks.len(),
            forall|k: int| 0 <= k < i ==> !((#[trigger] c.team_ranks@[k]).team_id@ == team_id@ && c.team_ranks@[k].points == 1),
        decreases c.team_ranks.len() - i,
    {
        if c.team_ranks[i].team_id == *team_id && c.team_ranks[i].points == 1 {
            return true;
        }
        i = i + 1;
    }
    false
}

fn aggregate_consensus_elimination(canonical: &BallotRepr, debate: &DebateRepr) -> (r: AggregatedResults)
    requires
        forall|k: int|
            0 <= k < canonical.team_ranks@.len() ==> (#[trigger] canonical.team_ranks@[k]).points == 0
                || canonical.team_ranks@[k].points == 1,
    ensures
        consensus_elim_results(r, *canonical, *debate),
{
    let mut team_results: Vec<TournamentDebateTeamResult> = Vec::new();
    let mut i: usize = 0;
    while i < debate.teams_of_debate.len()
        invariant
            i <= debate.teams_of_debate.len(),
            team_results@.len() == i,
            forall|k: int|
                0 <= k < i ==> team_row_matches(
                    #[trigger] team_results@[k],
                    canonical.metadata.tournament_id@,
                    canonical.metadata.debate_id@,
                    debate.teams_of_debate@[k].team_id@,
                    Some(if advances(*canonical, debate.teams_of_debate@[k].team_id@) { 1i64 } else { 0i64 }),
                ),
        decreases debate.teams_of_debate.len() - i,
    {
        let team = &debate.teams_of_debate[i];
        let adv = ballot_advances(canonical, &team.team_id);
        team_results.push(
            TournamentDebateTeamResult {
                id: new_id(),
                tournament_id: canonical.metadata.tournament_id.clone(),
                debate_id: canonical.metadata.debate_id.clone(),
                team_id: team.team_id.clone(),
                points: Some(if adv { 1 } else { 0 }),
            },
        );
        i = i + 1;
    }
    AggregatedResults { team_results, speaker_results: Vec::new() }
}

/// The team rows of a two-team debate: one point to the proposition team
/// when it won, else to the opposition team.
fn insert_two_team_results(ballots: &Vec<BallotRepr>, debate: &DebateRepr, did_prop_win: bool) -> (r: Vec<
    TournamentDebateTeamResult,
>)
    requires
        ballots@.len() > 0,
        team_at(*debate, 0, 0) is Some,
        team_at(*debate, 1, 0) is Some,
    ensures
        r@.len() == 2,
        team_row_matches(
            r@[0],
            ballots@[0].metadata.tournament_id@,
            ballots@[0].metadata.debate_id@,
            team_at(*debate, 0, 0)->0.team_id@,
            Some(if did_prop_win { 1i64 } else { 0i64 }),
        ),
        team_row_matches(
            r@[1],
            ballots@[0].metadata.tournament_id@,
            ballots@[0].metadata.debate_id@,
            team_at(*debate, 1, 0)->0.team_id@,
            Some(if did_prop_win { 0i64 } else { 1i64 }),
        ),
{
    let prop_team = debate.team_of_side_and_seq(0, 0);
    let opp_team = debate.team_of_side_and_seq(1, 0);
    let mut out: Vec<TournamentDebateTeamResult> = Vec::new();
    out.push(
        TournamentDebateTeamResult {
            id: new_id(),
            tournament_id: ballots[0].metadata.tournament_id.clone(),
            debate_id: ballots[0].metadata.debate_id.clone(),
            team_id: prop_team.team_id.clone(),
            points: Some(if did_prop_win { 1 } else { 0 }),
        },
    );
    out.push(
        TournamentDebateTeamResult {
            id: new_id(),
            tournament_id: ballots[0].metadata.tournament_id.clone(),
            debate_id: ballots[0].metadata.debate_id.clone(),
            team_id: opp_team.team_id.clone(),
            points: Some(if did_prop_win { 0 } else { 1 }),
        },
    );
    out
}

/// Every two ballots of the set (a ballot with itself included) can be
/// compared and agree.
pub open spec fn ballots_agree(bs: Seq<BallotRepr>, t: Tournament, d: DebateRepr) -> bool {
    forall|i: int, j: int|
        0 <= i < bs.len() && 0 <= j < bs.len() ==> comparable(#[trigger] bs[i], #[trigger] bs[j], t, d)
            && ballot_problems(bs[i], bs[j], t, d).len() == 0
}

/// The results of a debate from its ballots. With consensus, the ballots
/// must all agree and the first ballot is the result (`consensus_prelim_results`, or
/// `consensus_elim_results` in an elimination round); with individual
/// ballots, the panel votes (`individual_results`), and speaker scores are
/// averaged in a preliminary round that records them.
pub fn aggregate_ballot_set(
    ballots: &Vec<BallotRepr>,
    tournament: &Tournament,
    debate: &DebateRepr,
    method: BallotAggregationMethod,
    is_elim: bool,
    requires_speaks: bool,
) -> (r: AggregatedResults)
    requires
        ballots@.len() > 0,
        method == BallotAggregationMethod::Consensus ==> ballots_agree(ballots@, *tournament, *debate),
        method == BallotAggregationMethod::Consensus && is_elim ==> forall|k: int|
            0 <= k < ballots@[0].team_ranks@.len() ==> (#[trigger] ballots@[0].team_ranks@[k]).points == 0
                || ballots@[0].team_ranks@[k].points == 1,
        method == BallotAggregationMethod::Individual ==> {
            &&& ballot_team_ids(ballots@[0]).len() == 2
            &&& votes_countable(*debate, ballots@)
            &&& team_at(*debate, 0, 0) is Some
            &&& team_at(*debate, 1, 0) is Some
            &&& (!is_elim && requires_speaks ==> averages_defined(ballots@))
        },
    ensures
        method == BallotAggregationMethod::Consensus && !is_elim ==> consensus_prelim_results(
            r,
            ballots@[0],
            requires_speaks,
        ),
        method == BallotAggregationMethod::Consensus && is_elim ==> consensus_elim_results(r, ballots@[0], *debate),
        method == BallotAggregationMethod::Individual ==> individual_results(
            r,
            ballots@,
            *debate,
            !is_elim && requires_speaks,
        ),
{
    match method {
        BallotAggregationMethod::Consensus => {
            let mut i: usize = 0;
            while i < ballots.len()
                invariant
                    i <= ballots.len(),
                    ballots_agree(ballots@, *tournament, *debate),
                decreases ballots.len() - i,
            {
                let mut j: usize = 0;
                while j < ballots.len()
                    invariant
                        i < ballots.len(),
                        j <= ballots.len(),
                        ballots_agree(ballots@, *tournament, *debate),
                    decreases ballots.len() - j,
                {
                    assert(comparable(ballots@[i as int], ballots@[j as int], *tournament, *debate));
                    let same = ballots[i].is_isomorphic(&ballots[j], tournament, debate);
                    assert(same);
                    j = j + 1;
                }
                i = i + 1;
            }
            let canonical = &ballots[0];
            if is_elim {
                aggregate_consensus_elimination(canonical, debate)
            } else {
                aggregate_consensus_prelim(canonical, requires_speaks)
            }
        },
        BallotAggregationMethod::Individual => {
            let count = ballots[0].team_count();
            assert(count == 2);
            let did_prop_win = determine_winner_by_vote(ballots, debate);
            let team_results = insert_two_team_results(ballots, debate, did_prop_win);
            let speaker_results = if !is_elim && requires_speaks {
                compute_averaged_speaker_scores(
                    ballots,
                    &ballots[0].metadata.tournament_id,
                    &ballots[0].metadata.debate_id,
                )
            } else {
                Vec::new()
            };
            AggregatedResults { team_results, speaker_results }
        },
    }
}

} // verus!
