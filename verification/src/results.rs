//! Completing a round: a round may be marked complete only when every
//! judge who is not a trainee has a ballot in and no ballots disagree.
use vstd::prelude::*;
use crate::ballots::BallotRepr;
use crate::ballot_checks::{same_debate, set_comparable, set_texts};
use crate::draws::{latest_per_judge, DebateRepr};
use crate::participants::DebateJudge;
use crate::rounds::Round;
use crate::tournament::Tournament;
use crate::text::eq_lit;

verus! {

/// Why a round cannot be marked complete.
pub enum CompletionError {
    MissingBallots,
    ConflictingBallots,
}

impl CompletionError {
    /// The message shown for the error.
    pub fn message(&self) -> (r: String)
        ensures
            match *self {
                CompletionError::MissingBallots => r@
                    == "Cannot mark round as complete: missing ballots for debate {}"@,
                CompletionError::ConflictingBallots => r@
                    == "Cannot mark round as complete: conflicting ballots for debate {}"@,
            },
    {
        match self {
            CompletionError::MissingBallots => String::from_str(
                "Cannot mark round as complete: missing ballots for debate {}",
            ),
            CompletionError::ConflictingBallots => String::from_str(
                "Cannot mark round as complete: conflicting ballots for debate {}",
            ),
        }
    }
}

/// Whether a judge's ballot is among the ballots.
pub open spec fn has_ballot(ballots: Seq<BallotRepr>, judge_id: Seq<char>) -> bool {
    exists|k: int| 0 <= k < ballots.len() && (#[trigger] ballots[k]).metadata.judge_id@ == judge_id
}

/// Whether every judge of the panel who is not a trainee has a ballot.
pub open spec fn non_trainees_submitted(panel: Seq<DebateJudge>, ballots: Seq<BallotRepr>) -> bool {
    forall|j: int| 0 <= j < panel.len() && (#[trigger] panel[j]).status@ != "T"@ ==> has_ballot(ballots, panel[j].judge_id@)
}

/// What stops a debate's results from being final: a missing ballot of a
/// judge who is not a trainee, or else ballots that disagree.
pub open spec fn debate_obstacle(d: DebateRepr, ballots: Seq<BallotRepr>, t: Tournament) -> Option<CompletionError> {
    if !non_trainees_submitted(d.judges_of_debate@, ballots) {
        Some(CompletionError::MissingBallots)
    } else if set_texts(ballots, t, d, ballots.len() as int).len() > 0 {
        Some(CompletionError::ConflictingBallots)
    } else {
        None
    }
}

/// The first obstacle among the debates, each with its latest ballots.
pub open spec fn first_obstacle(ds: Seq<(DebateRepr, Seq<BallotRepr>)>, t: Tournament) -> Option<CompletionError>
    decreases ds.len(),
{
    if ds.len() == 0 {
        None
    } else {
        match debate_obstacle(ds[0].0, ds[0].1, t) {
            Some(e) => Some(e),
            None => first_obstacle(ds.drop_first(), t),
        }
    }
}

/// The debates, each with its latest ballots.
pub open spec fn with_latest(ds: Seq<(DebateRepr, Vec<BallotRepr>)>) -> Seq<(DebateRepr, Seq<BallotRepr>)> {
    ds.map_values(|p: (DebateRepr, Vec<BallotRepr>)| (p.0, latest_per_judge(p.1@)))
}

/// Whether the ballots of every debate can be checked against each other.
pub open spec fn ballots_checkable(ds: Seq<(DebateRepr, Vec<BallotRepr>)>, t: Tournament) -> bool {
    forall|i: int|
        0 <= i < ds.len() ==> same_debate(latest_per_judge((#[trigger] ds[i]).1@), ds[i].0) && set_comparable(
            latest_per_judge(ds[i].1@),
            t,
            ds[i].0,
        )
}

/// Whether a judge has a ballot among the ballots.
fn has_ballot_exec(ballots: &Vec<BallotRepr>, judge_id: &String) -> (r: bool)
    ensures
        r == has_ballot(ballots@, judge_id@),
{
    let mut k: usize = 0;
    while k < ballots.len()
        invariant
            k <= ballots@.len(),
            forall|m: int| 0 <= m < k ==> (#[trigger] ballots@[m]).metadata.judge_id@ != judge_id@,
        decreases ballots@.len() - k,
    {
        if ballots[k].metadata.judge_id == *judge_id {
            return true;
        }
        k = k + 1;
    }
    false
}

/// What stops a debate's results from being final, given its latest
/// ballots.
fn debate_obstacle_exec(d: &DebateRepr, ballots: &Vec<BallotRepr>, t: &Tournament) -> (r: Option<CompletionError>)
    requires
        same_debate(ballots@, *d),
        set_comparable(ballots@, *t, *d),
    ensures
        r == debate_obstacle(*d, ballots@, *t),
{
    let mut j: usize = 0;
    while j < d.judges_of_debate.len()
        invariant
            j <= d.judges_of_debate@.len(),
            forall|m: int|
                0 <= m < j && (#[trigger] d.judges_of_debate@[m]).status@ != "T"@ ==> has_ballot(
                    ballots@,
                    d.judges_of_debate@[m].judge_id@,
                ),
        decreases d.judges_of_debate@.len() - j,
    {
        let seat = &d.judges_of_debate[j];
        if !eq_lit(&seat.status, "T") && !has_ballot_exec(ballots, &seat.judge_id) {
            return Some(CompletionError::MissingBallots);
        }
        j = j + 1;
    }
    let problems = BallotRepr::problems_of_set(ballots, t, d);
    if problems.len() > 0 {
        proof {
            assert(crate::seqs::views(problems@).len() == problems@.len());
        }
        Some(CompletionError::ConflictingBallots)
    } else {
        proof {
            assert(crate::seqs::views(problems@).len() == problems@.len());
        }
        None
    }
}

/// Marks a round complete, or not: marking it incomplete also withdraws
/// its published results; marking it complete is refused at the first
/// debate (in order) with a missing ballot of a judge who is not a trainee,
/// or with ballots that disagree. Each debate comes with its ballot
/// history, newest first; its latest ballots are those that count.
pub fn set_round_completed(
    round: &Round,
    completed: bool,
    debates: Vec<(DebateRepr, Vec<BallotRepr>)>,
    tournament: &Tournament,
) -> (r: Result<Round, CompletionError>)
    requires
        ballots_checkable(debates@, *tournament),
    ensures
        !completed ==> (r matches Ok(x) && x == (Round { completed: false, results_published_at: None, ..*round })),
        completed ==> match first_obstacle(with_latest(debates@), *tournament) {
            Some(e) => r == Err::<Round, CompletionError>(e),
            None => r matches Ok(x) && x == (Round { completed: true, ..*round }),
        },
{
    if !completed {
        let mut x = round.clone();
        x.completed = false;
        x.results_published_at = None;
        return Ok(x);
    }
    let ghost all = with_latest(debates@);
    let ghost orig = debates@;
    let mut rest = debates;
    let mut i: usize = 0;
    let n = rest.len();
    proof {
        assert(all.skip(0) =~= all);
        assert(orig.skip(0) =~= orig);
    }
    while i < n
        invariant
            completed,
            n == orig.len(),
            i <= n,
            rest@ == orig.skip(i as int),
            orig == debates@,
            all == with_latest(orig),
            ballots_checkable(orig, *tournament),
            first_obstacle(all, *tournament) == first_obstacle(all.skip(i as int), *tournament),
        decreases n - i,
    {
        let ghost before = rest@;
        let pair = rest.remove(0);
        proof {
            assert(pair == orig[i as int]);
            assert(rest@ =~= orig.skip(i as int + 1));
        }
        let latest = pair.0.latest_ballots(pair.1);
        proof {
            assert(all.skip(i as int)[0] == (pair.0, latest@));
            assert(all.skip(i as int).drop_first() =~= all.skip(i as int + 1));
        }
        match debate_obstacle_exec(&pair.0, &latest, tournament) {
            Some(e) => {
                proof {
                    let s = all.skip(i as int);
                    assert(s.len() > 0);
                    assert(debate_obstacle(s[0].0, s[0].1, *tournament) == Some(e));
                    assert(first_obstacle(s, *tournament) == Some(e));
                    assert(first_obstacle(with_latest(orig), *tournament) == Some(e));
                }
                return Err(e);
            },
            None => {},
        }
        i = i + 1;
    }
    proof {
        assert(all.skip(n as int).len() == 0);
    }
    let mut x = round.clone();
    x.completed = true;
    Ok(x)
}

} // verus!

verus! {

/// The current time, in UTC. Calls `chrono::Utc::now` and takes the date
/// and time without the zone (`naive_utc`); nothing is stated of the time.
#[verifier::external_body]
pub(crate) fn now_utc() -> (r: chrono::NaiveDateTime) {
    chrono::Utc::now().naive_utc()
}

/// Publishes a round's results at time `now`, or withdraws them: refused
/// where results of an incomplete round would be published.
pub fn with_results_published(round: &Round, published: bool, now: chrono::NaiveDateTime) -> (r: Result<Round, String>)
    ensures
        published && !round.completed ==> (r matches Err(m) && m@ == "Cannot publish results for an incomplete round."@),
        !(published && !round.completed) ==> (r matches Ok(x) && x == (Round {
            results_published_at: if published {
                Some(now)
            } else {
                None
            },
            ..*round
        })),
{
    if published && !round.completed {
        return Err(String::from_str("Cannot publish results for an incomplete round."));
    }
    let mut x = round.clone();
    x.results_published_at = if published {
        Some(now)
    } else {
        None
    };
    Ok(x)
}

/// Publishes a round's results now, or withdraws them (see
/// `with_results_published`). Only results of a complete round are ever
/// published.
pub fn set_results_published(round: &Round, published: bool) -> (r: Result<Round, String>)
    ensures
        published && !round.completed ==> (r matches Err(m) && m@ == "Cannot publish results for an incomplete round."@),
        !(published && !round.completed) ==> (r matches Ok(x) && (x.results_published_at is Some) == published
            && x == (Round { results_published_at: x.results_published_at, ..*round })),
        r matches Ok(x) ==> (x.results_published_at is Some ==> x.completed),
{
    let now = now_utc();
    with_results_published(round, published, now)
}

/// Whether a draw status releases the draw.
pub open spec fn releases_draw(status: Seq<char>) -> bool {
    status == "released_teams"@ || status == "released_full"@
}

/// Sets a round's draw status at time `now`: a status that releases the
/// draw ("released_teams" or "released_full") records when it was
/// released; any other clears it.
pub fn with_draw_status(round: &Round, status: &str, now: chrono::NaiveDateTime) -> (r: Round)
    ensures
        r == (Round {
            draw_status: r.draw_status,
            draw_released_at: if releases_draw(status@) {
                Some(now)
            } else {
                None
            },
            ..*round
        }),
        r.draw_status@ == status@,
{
    let released = crate::draw_edit::str_eq(status, "released_teams") || crate::draw_edit::str_eq(status, "released_full");
    let mut x = round.clone();
    x.draw_status = String::from_str(status);
    x.draw_released_at = if released {
        Some(now)
    } else {
        None
    };
    x
}

/// Sets a round's draw status now (see `with_draw_status`).
pub fn set_draw_published(round: &Round, status: &str) -> (r: Round)
    ensures
        r == (Round { draw_status: r.draw_status, draw_released_at: r.draw_released_at, ..*round }),
        r.draw_status@ == status@,
        (r.draw_released_at is Some) == releases_draw(status@),
{
    let now = now_utc();
    with_draw_status(round, status, now)
}

/// Only a complete round has published results: marking a round
/// complete or not, and publishing its results or not, keep this so.
pub proof fn lemma_published_results_need_completion(
    round: Round,
    completed: bool,
    after_completion: Round,
    published: bool,
    after_publishing: Round,
)
    requires
        round.results_published_at is Some ==> round.completed,
        !completed ==> after_completion == (Round { completed: false, results_published_at: None, ..round }),
        completed ==> after_completion == (Round { completed: true, ..round }),
        !(published && !round.completed) ==> (after_publishing.results_published_at is Some) == published
            && after_publishing == (Round { results_published_at: after_publishing.results_published_at, ..round }),
        !(published && !round.completed),
    ensures
        after_completion.results_published_at is Some ==> after_completion.completed,
        after_publishing.results_published_at is Some ==> after_publishing.completed,
{
}

} // verus!
