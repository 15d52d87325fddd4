//! What the pages of a tournament decide to show: who still owes a
//! ballot, how far the ballots of a round have come, whether results and
//! the tab may be seen, and how ranks are labelled.
use vstd::prelude::*;
use crate::ballots::BallotRepr;
use crate::draws::DebateRepr;
use crate::participants::{DebateJudge, Judge};
use crate::rounds::{Round, rounds_where};
use crate::text::eq_lit;
use crate::seqs::first_match;
use crate::draw_edit::str_eq;
use crate::text::{nat_text, u64_to_string};

verus! {

/// The name of a judge's role, given its code.
pub open spec fn role_label_text(status: Seq<char>) -> Seq<char> {
    if status == "C"@ {
        "Chair"@
    } else if status == "P"@ {
        "Panelist"@
    } else if status == "T"@ {
        "Trainee"@
    } else {
        "Judge"@
    }
}

/// The name of a judge's role, given its code: "Judge" for an unknown
/// code.
pub fn judge_role_label(status: &str) -> (r: &'static str)
    ensures
        r@ == role_label_text(status@),
{
    if str_eq(status, "C") {
        "Chair"
    } else if str_eq(status, "P") {
        "Panelist"
    } else if str_eq(status, "T") {
        "Trainee"
    } else {
        "Judge"
    }
}

/// Whether a seat is the given judge's.
pub open spec fn seat_of_judge(judge_id: Seq<char>) -> spec_fn(DebateJudge) -> bool {
    |s: DebateJudge| s.judge_id@ == judge_id
}

/// The name of the role of a judge on the panel of a debate: that of the
/// judge's first seat, or "Judge" where the judge has none.
pub fn role_of_judge_in_debate(debate: &DebateRepr, judge_id: &String) -> (r: &'static str)
    ensures
        r@ == match first_match(debate.judges_of_debate@, seat_of_judge(judge_id@)) {
            Some(s) => role_label_text(s.status@),
            None => "Judge"@,
        },
{
    let mut k: usize = 0;
    while k < debate.judges_of_debate.len()
        invariant
            k <= debate.judges_of_debate@.len(),
            forall|m: int| 0 <= m < k ==> !seat_of_judge(judge_id@)(#[trigger] debate.judges_of_debate@[m]),
        decreases debate.judges_of_debate@.len() - k,
    {
        if debate.judges_of_debate[k].judge_id == *judge_id {
            proof {
                crate::seqs::lemma_first_match_at(debate.judges_of_debate@, seat_of_judge(judge_id@), k as int);
            }
            return judge_role_label(debate.judges_of_debate[k].status.as_str());
        }
        k = k + 1;
    }
    proof {
        crate::seqs::lemma_first_match_at(debate.judges_of_debate@, seat_of_judge(judge_id@), k as int);
    }
    "Judge"
}

/// Whether a judge has a ballot among the ballots.
pub open spec fn judge_has_ballot(ballots: Seq<BallotRepr>, judge_id: Seq<char>) -> bool {
    exists|k: int| 0 <= k < ballots.len() && (#[trigger] ballots[k]).metadata.judge_id@ == judge_id
}

/// The judges of a debate without a ballot, in order.
pub open spec fn missing_judges(judges: Seq<Judge>, ballots: Seq<BallotRepr>) -> Seq<Judge>
    decreases judges.len(),
{
    if judges.len() == 0 {
        seq![]
    } else {
        let rest = missing_judges(judges.drop_last(), ballots);
        if judge_has_ballot(ballots, judges.last().id@) {
            rest
        } else {
            rest.push(judges.last())
        }
    }
}

fn has_ballot_of(ballots: &Vec<BallotRepr>, judge_id: &String) -> (r: bool)
    ensures
        r == judge_has_ballot(ballots@, judge_id@),
{
    let mut k: usize = 0;
    while k < ballots.len()
        invariant
            k <= ballots@.len(),
            forall|m: int| 0 <= m < k ==> (#[trigger] ballots@[m]).metadata.judge_id@ != judge_id@,
        decreases ballots@.len() - k,
    {
        if ballots[k].metadata.judge_id == *judge_id {
            return true;
        }
        k = k + 1;
    }
    false
}

/// The judges of a debate who have not handed in a ballot.
pub fn missing_ballots(debate: &DebateRepr, ballots: &Vec<BallotRepr>) -> (r: Vec<Judge>)
    ensures
        r@ == missing_judges(debate.judges@, ballots@),
{
    let mut out: Vec<Judge> = Vec::new();
    let mut k: usize = 0;
    while k < debate.judges.len()
        invariant
            k <= debate.judges@.len(),
            out@ == missing_judges(debate.judges@.take(k as int), ballots@),
        decreases debate.judges@.len() - k,
    {
        proof {
            assert(debate.judges@.take(k as int + 1).drop_last() =~= debate.judges@.take(k as int));
        }
        if !has_ballot_of(ballots, &debate.judges[k].id) {
            out.push(debate.judges[k].clone());
        }
        k = k + 1;
    }
    proof {
        assert(debate.judges@.take(debate.judges@.len() as int) =~= debate.judges@);
    }
    out
}

/// The state of a judge's ballot in the overview of a round.
pub enum JudgeBallotStatus {
    Submitted,
    Problems,
    Missing,
}

/// The state of a judge's ballot: missing, or submitted, with problems
/// where the ballots of the debate disagree.
pub fn judge_ballot_status(has_ballot: bool, problems_empty: bool) -> (r: JudgeBallotStatus)
    ensures
        !has_ballot ==> r is Missing,
        has_ballot && problems_empty ==> r is Submitted,
        has_ballot && !problems_empty ==> r is Problems,
{
    if !has_ballot {
        JudgeBallotStatus::Missing
    } else if problems_empty {
        JudgeBallotStatus::Submitted
    } else {
        JudgeBallotStatus::Problems
    }
}

/// The number of ballots handed in and the number owed: one for each
/// seat on a panel.
pub open spec fn ballot_totals(sets: Seq<(DebateRepr, Vec<BallotRepr>)>) -> (int, int)
    decreases sets.len(),
{
    if sets.len() == 0 {
        (0, 0)
    } else {
        let rest = ballot_totals(sets.drop_last());
        (rest.0 + sets.last().1@.len(), rest.1 + sets.last().0.judges_of_debate@.len())
    }
}

/// The number of ballots handed in for the debates of a round, and the
/// number owed.
pub fn ballot_overview_totals(sets: &Vec<(DebateRepr, Vec<BallotRepr>)>) -> (r: (u64, u64))
    requires
        ballot_totals(sets@).0 <= u64::MAX,
        ballot_totals(sets@).1 <= u64::MAX,
    ensures
        r.0 == ballot_totals(sets@).0,
        r.1 == ballot_totals(sets@).1,
{
    let mut handed_in: u64 = 0;
    let mut owed: u64 = 0;
    let mut k: usize = 0;
    while k < sets.len()
        invariant
            k <= sets@.len(),
            ballot_totals(sets@).0 <= u64::MAX,
            ballot_totals(sets@).1 <= u64::MAX,
            (handed_in as int, owed as int) == ballot_totals(sets@.take(k as int)),
        decreases sets@.len() - k,
    {
        proof {
            assert(sets@.take(k as int + 1).drop_last() =~= sets@.take(k as int));
            lemma_ballot_totals_prefix(sets@, k as int + 1);
        }
        handed_in = handed_in + sets[k].1.len() as u64;
        owed = owed + sets[k].0.judges_of_debate.len() as u64;
        k = k + 1;
    }
    proof {
        assert(sets@.take(sets@.len() as int) =~= sets@);
    }
    (handed_in, owed)
}

proof fn lemma_ballot_totals_prefix(sets: Seq<(DebateRepr, Vec<BallotRepr>)>, n: int)
    requires
        0 <= n <= sets.len(),
    ensures
        ballot_totals(sets.take(n)).0 <= ballot_totals(sets).0,
        ballot_totals(sets.take(n)).1 <= ballot_totals(sets).1,
    decreases sets.len(),
{
    if n < sets.len() {
        assert(sets.drop_last().take(n) =~= sets.take(n));
        lemma_ballot_totals_prefix(sets.drop_last(), n);
    } else {
        assert(sets.take(n) =~= sets);
    }
}

/// What the results page of a round sequence shows.
pub enum ResultsVisibility {
    NotFound,
    /// The tournament does not publish round results.
    NotPublic,
    /// The rounds are complete but no results are published; `plural`
    /// where there are several rounds.
    Unpublished { plural: bool },
    RedirectToDraw,
    /// The rounds whose results are shown, and those whose are not.
    Show { viewable: Vec<Round>, unviewable: Vec<Round> },
}

/// The rounds whose results are published, or not, in order.
pub open spec fn rounds_published(rounds: Seq<Round>, published: bool) -> Seq<Round>
    decreases rounds.len(),
{
    if rounds.len() == 0 {
        seq![]
    } else {
        let rest = rounds_published(rounds.drop_last(), published);
        if (rounds.last().results_published_at is Some) == published {
            rest.push(rounds.last())
        } else {
            rest
        }
    }
}

/// Whether any round is complete.
pub open spec fn any_completed(rounds: Seq<Round>) -> bool {
    exists|k: int| 0 <= k < rounds.len() && (#[trigger] rounds[k]).completed
}

/// What the results page of a round sequence shows: nothing where the
/// sequence has no rounds; to everyone but the tournament's staff, nothing
/// where the tournament keeps round results private, and only the rounds
/// with published results otherwise. Where no round can be shown, a note
/// if any round is complete, and the draw otherwise.
pub fn results_visibility(rounds_in_seq: &Vec<Round>, show_round_results: bool, is_superuser: bool) -> (r: ResultsVisibility)
    ensures
        rounds_in_seq@.len() == 0 ==> r is NotFound,
        rounds_in_seq@.len() > 0 && !show_round_results && !is_superuser ==> r is NotPublic,
        rounds_in_seq@.len() > 0 && (show_round_results || is_superuser) ==> {
            let viewable = if is_superuser { rounds_in_seq@ } else { rounds_published(rounds_in_seq@, true) };
            let unviewable = if is_superuser { seq![] } else { rounds_published(rounds_in_seq@, false) };
            if viewable.len() == 0 {
                if any_completed(rounds_in_seq@) {
                    r matches ResultsVisibility::Unpublished { plural } && plural == (rounds_in_seq@.len() > 1)
                } else {
                    r is RedirectToDraw
                }
            } else {
                r matches ResultsVisibility::Show { viewable: v, unviewable: u } && v@ == viewable && u@ == unviewable
            }
        },
{
    if rounds_in_seq.len() == 0 {
        return ResultsVisibility::NotFound;
    }
    if !show_round_results && !is_superuser {
        return ResultsVisibility::NotPublic;
    }
    let mut viewable: Vec<Round> = Vec::new();
    let mut unviewable: Vec<Round> = Vec::new();
    let mut any_done = false;
    let mut k: usize = 0;
    while k < rounds_in_seq.len()
        invariant
            k <= rounds_in_seq@.len(),
            viewable@ == if is_superuser {
                rounds_in_seq@.take(k as int)
            } else {
                rounds_published(rounds_in_seq@.take(k as int), true)
            },
            unviewable@ == if is_superuser {
                seq![]
            } else {
                rounds_published(rounds_in_seq@.take(k as int), false)
            },
            any_done == any_completed(rounds_in_seq@.take(k as int)),
        decreases rounds_in_seq@.len() - k,
    {
        let round = &rounds_in_seq[k];
        let ghost prefix = rounds_in_seq@.take(k as int);
        proof {
            assert(rounds_in_seq@.take(k as int + 1).drop_last() =~= prefix);
            assert(rounds_in_seq@.take(k as int + 1) =~= prefix.push(*round));
        }
        if is_superuser || round.results_published_at.is_some() {
            viewable.push(round.clone());
        } else {
            unviewable.push(round.clone());
        }
        proof {
            let next = rounds_in_seq@.take(k as int + 1);
            if any_completed(next) {
                let j = choose|j: int| 0 <= j < next.len() && (#[trigger] next[j]).completed;
                if j < k {
                    assert(prefix[j] == next[j]);
                }
            }
            if any_completed(prefix) {
                let j = choose|j: int| 0 <= j < prefix.len() && (#[trigger] prefix[j]).completed;
                assert(next[j] == prefix[j]);
            }
            if round.completed {
                assert(next[k as int] == *round);
            }
        }
        any_done = any_done || round.completed;
        k = k + 1;
    }
    proof {
        assert(rounds_in_seq@.take(rounds_in_seq@.len() as int) =~= rounds_in_seq@);
    }
    if viewable.len() == 0 {
        if any_done {
            ResultsVisibility::Unpublished { plural: rounds_in_seq.len() > 1 }
        } else {
            ResultsVisibility::RedirectToDraw
        }
    } else {
        ResultsVisibility::Show { viewable, unviewable }
    }
}

/// Whether the draw of a round is public: released in full, or with its
/// teams only.
pub open spec fn draw_is_public() -> spec_fn(Round) -> bool {
    |r: Round| r.draw_status@ == "released_full"@ || r.draw_status@ == "released_teams"@
}

/// Whether the draw of a round is not yet public.
pub open spec fn draw_is_pending() -> spec_fn(Round) -> bool {
    |r: Round| !(r.draw_status@ == "released_full"@ || r.draw_status@ == "released_teams"@)
}

/// Whether the results of every round are published.
pub open spec fn all_results_published(rounds: Seq<Round>) -> bool {
    forall|k: int| 0 <= k < rounds.len() ==> (#[trigger] rounds[k]).results_published_at is Some
}

/// What the public draw page of a round sequence shows.
pub enum DrawPageView {
    NotFound,
    /// Every round's results are out: the page sends readers to them.
    RedirectToResults,
    /// The rounds whose draw is public, and those whose draw is not yet.
    Show { public: Vec<Round>, pending: Vec<Round> },
}

/// What the public draw page of a round sequence shows: nothing where the
/// sequence has no rounds, the results where all of them are published,
/// and otherwise the rounds whose draw is public, each round in order, and
/// those whose draw is not yet.
pub fn draw_page_view(rounds: &Vec<Round>) -> (r: DrawPageView)
    ensures
        rounds@.len() == 0 ==> r is NotFound,
        rounds@.len() > 0 && all_results_published(rounds@) ==> r is RedirectToResults,
        rounds@.len() > 0 && !all_results_published(rounds@) ==> (r matches DrawPageView::Show { public, pending }
            && public@ == rounds_where(rounds@, draw_is_public()) && pending@ == rounds_where(
            rounds@,
            draw_is_pending(),
        )),
{
    if rounds.len() == 0 {
        return DrawPageView::NotFound;
    }
    let mut all_published = true;
    let mut public: Vec<Round> = Vec::new();
    let mut pending: Vec<Round> = Vec::new();
    let mut k: usize = 0;
    while k < rounds.len()
        invariant
            k <= rounds@.len(),
            all_published == all_results_published(rounds@.take(k as int)),
            public@ == rounds_where(rounds@.take(k as int), draw_is_public()),
            pending@ == rounds_where(rounds@.take(k as int), draw_is_pending()),
        decreases rounds@.len() - k,
    {
        proof {
            assert(rounds@.take(k as int + 1).drop_last() =~= rounds@.take(k as int));
            assert(rounds@.take(k as int + 1).last() == rounds@[k as int]);
        }
        let round = &rounds[k];
        if eq_lit(&round.draw_status, "released_full") || eq_lit(&round.draw_status, "released_teams") {
            public.push(round.clone());
        } else {
            pending.push(round.clone());
        }
        proof {
            let next = rounds@.take(k as int + 1);
            if all_published && round.results_published_at.is_some() {
                assert forall|j: int| 0 <= j < next.len() implies (#[trigger] next[j]).results_published_at is Some by {
                    if j < k {
                        assert(next[j] == rounds@.take(k as int)[j]);
                    }
                }
            } else if !all_published {
                let j = choose|j: int| 0 <= j < k && (#[trigger] rounds@.take(k as int)[j]).results_published_at is None;
                assert(next[j] == rounds@.take(k as int)[j]);
            } else {
                assert(next[k as int].results_published_at is None);
            }
        }
        all_published = all_published && round.results_published_at.is_some();
        k = k + 1;
    }
    proof {
        assert(rounds@.take(rounds@.len() as int) =~= rounds@);
    }
    if all_published {
        DrawPageView::RedirectToResults
    } else {
        DrawPageView::Show { public, pending }
    }
}

/// What the team tab page shows.
pub enum TabVisibility {
    FullTab,
    StandingsOnly,
    Unauthorized,
}

/// What the team tab page shows: the full tab to the tournament's staff or
/// where it is public; else the standings where they are public; else
/// nothing.
pub fn tab_visibility(is_superuser: bool, team_tab_public: bool, standings_public: bool) -> (r: TabVisibility)
    ensures
        is_superuser || team_tab_public ==> r is FullTab,
        !(is_superuser || team_tab_public) && standings_public ==> r is StandingsOnly,
        !(is_superuser || team_tab_public) && !standings_public ==> r is Unauthorized,
{
    let show_full_tab = is_superuser || team_tab_public;
    let show_standings_only = !show_full_tab && standings_public;
    if show_full_tab {
        TabVisibility::FullTab
    } else if show_standings_only {
        TabVisibility::StandingsOnly
    } else {
        TabVisibility::Unauthorized
    }
}

/// The label of the `i`th rank (from 0): its number from 1, after "="
/// where several teams share it.
pub open spec fn rank_label_text(i: nat, shared: bool) -> Seq<char> {
    (if shared { "="@ } else { ""@ }) + nat_text(i + 1)
}

/// The label of the `i`th rank (from 0) of the tab.
pub fn rank_label(i: u64, teams_at_rank: usize) -> (r: String)
    requires
        i < u64::MAX,
    ensures
        r@ == rank_label_text(i as nat, teams_at_rank > 1),
{
    let number = u64_to_string(i + 1);
    if teams_at_rank > 1 {
        String::from_str("=").concat(number.as_str())
    } else {
        proof {
            reveal_strlit("");
            assert(""@ + number@ =~= number@);
        }
        number
    }
}

} // verus!
