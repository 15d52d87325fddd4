//! Rounds of a tournament: their status, and their grouping by sequence
//! number and by break category.
use vstd::prelude::*;
use crate::seqs::{sort_by_key, chunk_by_key, lemma_insert_by_key_at, lemma_chunk_by_key_shape};
use crate::text::eq_lit;
use crate::participants::clone_opt_string;

verus! {

#[verifier::external_type_specification]
#[verifier::external_body]
pub struct ExNaiveDateTime(chrono::NaiveDateTime);

/// A round. `kind` is "P" for a preliminary round and "E" for an
/// elimination round; several rounds may share a sequence number when they
/// run at the same time.
pub struct Round {
    pub id: String,
    pub tournament_id: String,
    pub seq: i64,
    pub name: String,
    pub kind: String,
    pub break_cat: Option<String>,
    pub completed: bool,
    pub draw_status: String,
    pub draw_released_at: Option<chrono::NaiveDateTime>,
    pub motions_released_at: Option<chrono::NaiveDateTime>,
    pub results_published_at: Option<chrono::NaiveDateTime>,
}

impl Clone for Round {
    fn clone(&self) -> (r: Self)
        ensures
            r == *self,
    {
        Round {
            id: self.id.clone(),
            tournament_id: self.tournament_id.clone(),
            seq: self.seq,
            name: self.name.clone(),
            kind: self.kind.clone(),
            break_cat: clone_opt_string(&self.break_cat),
            completed: self.completed,
            draw_status: self.draw_status.clone(),
            draw_released_at: self.draw_released_at,
            motions_released_at: self.motions_released_at,
            results_published_at: self.results_published_at,
        }
    }
}

/// A motion of a round.
pub struct Motion {
    pub id: String,
    pub tournament_id: String,
    pub round_id: String,
    pub infoslide: Option<String>,
    pub motion: String,
}

/// The progress of a round.
#[derive(Debug, Copy, Clone, PartialEq, Eq, Structural)]
pub enum RoundStatus {
    NotStarted,
    InProgress,
    Completed,
    Draft,
}

/// Whether a round is a preliminary round.
pub open spec fn is_prelim(r: Round) -> bool {
    r.kind@ == "P"@
}

/// Whether a round is an elimination round.
pub open spec fn is_elim(r: Round) -> bool {
    r.kind@ == "E"@
}

/// The status of a round: completed rounds are completed; otherwise a
/// released draw ("R") means in progress, a draft or confirmed draw ("D",
/// "C") a draft, and anything else not started.
pub open spec fn status_of(r: Round) -> RoundStatus {
    if r.completed {
        RoundStatus::Completed
    } else if r.draw_status@ == "R"@ {
        RoundStatus::InProgress
    } else if r.draw_status@ == "D"@ || r.draw_status@ == "C"@ {
        RoundStatus::Draft
    } else {
        RoundStatus::NotStarted
    }
}

/// The sequence number of a round, as the key rounds are ordered by.
pub open spec fn seq_key() -> spec_fn(Round) -> int {
    |r: Round| r.seq as int
}

/// Rounds ordered as a tournament runs them: every round is preliminary or
/// elimination, and no preliminary round comes after an elimination round.
pub open spec fn well_ordered(rounds: Seq<Round>) -> bool {
    &&& forall|i: int| 0 <= i < rounds.len() ==> is_prelim(#[trigger] rounds[i]) || is_elim(rounds[i])
    &&& forall|i: int, j: int|
        0 <= i < j < rounds.len() && is_elim(#[trigger] rounds[i]) ==> !is_prelim(#[trigger] rounds[j])
}

impl Round {
    /// Whether this is an elimination round.
    pub fn is_elim(&self) -> (r: bool)
        ensures
            r == is_elim(*self),
    {
        eq_lit(&self.kind, "E")
    }

    /// Whether this is a preliminary round.
    pub fn is_prelim(&self) -> (r: bool)
        ensures
            r == is_prelim(*self),
    {
        eq_lit(&self.kind, "P")
    }

    /// The status of this round.
    pub fn status(&self) -> (r: RoundStatus)
        ensures
            r == status_of(*self),
    {
        if self.completed {
            RoundStatus::Completed
        } else if eq_lit(&self.draw_status, "R") {
            RoundStatus::InProgress
        } else if eq_lit(&self.draw_status, "D") || eq_lit(&self.draw_status, "C") {
            RoundStatus::Draft
        } else {
            RoundStatus::NotStarted
        }
    }
}

/// The rounds of a tournament split into preliminary and elimination rounds,
/// with the status of each round.
pub struct TournamentRounds {
    pub prelim: Vec<Round>,
    pub elim: Vec<Round>,
    pub statuses: Vec<(String, RoundStatus)>,
}

/// Sorts rounds by sequence number, keeping the order of rounds that share
/// one.
fn sort_rounds_by_seq(rounds: &Vec<Round>) -> (r: Vec<Round>)
    ensures
        r@ == sort_by_key(rounds@, seq_key()),
{
    let mut out: Vec<Round> = Vec::new();
    let mut i: usize = 0;
    while i < rounds.len()
        invariant
            i <= rounds.len(),
            out@ == sort_by_key(rounds@.take(i as int), seq_key()),
        decreases rounds.len() - i,
    {
        let x = rounds[i].clone();
        let mut j: usize = out.len();
        while j > 0 && out[j - 1].seq > x.seq
            invariant
                j <= out.len(),
                forall|k: int| j <= k < out@.len() ==> (#[trigger] out@[k]).seq > x.seq,
            decreases j,
        {
            j = j - 1;
        }
        proof {
            lemma_insert_by_key_at(out@, x, seq_key(), j as int);
            assert(rounds@.take(i as int + 1).drop_last() =~= rounds@.take(i as int));
        }
        out.insert(j, x);
        i = i + 1;
    }
    assert(rounds@.take(rounds.len() as int) =~= rounds@);
    out
}

/// Groups adjacent rounds with the same sequence number.
fn chunk_rounds_by_seq(rounds: &Vec<Round>) -> (r: Vec<Vec<Round>>)
    ensures
        r@.map_values(|g: Vec<Round>| g@) == chunk_by_key(rounds@, seq_key()),
{
    let mut out: Vec<Vec<Round>> = Vec::new();
    let mut i: usize = 0;
    while i < rounds.len()
        invariant
            i <= rounds.len(),
            out@.map_values(|g: Vec<Round>| g@) == chunk_by_key(rounds@.take(i as int), seq_key()),
        decreases rounds.len() - i,
    {
        let x = rounds[i].clone();
        let ghost before = out@.map_values(|g: Vec<Round>| g@);
        proof {
            assert(rounds@.take(i as int + 1).drop_last() =~= rounds@.take(i as int));
            lemma_chunk_by_key_shape(rounds@.take(i as int), seq_key());
        }
        let n = out.len();
        let joins = n > 0 && {
            let last = &out[n - 1];
            last.len() > 0 && last[last.len() - 1].seq == x.seq
        };
        if joins {
            let mut last = out.pop().unwrap();
            last.push(x);
            out.push(last);
            proof {
                assert(out@.map_values(|g: Vec<Round>| g@) =~= before.update(
                    before.len() - 1,
                    before.last().push(rounds@[i as int]),
                ));
            }
        } else {
            let mut g: Vec<Round> = Vec::new();
            g.push(x);
            out.push(g);
            proof {
                assert(out@.map_values(|g: Vec<Round>| g@) =~= before.push(seq![rounds@[i as int]]));
            }
        }
        i = i + 1;
    }
    assert(rounds@.take(rounds.len() as int) =~= rounds@);
    out
}

impl TournamentRounds {
    /// Splits the rounds of a tournament, given in order of sequence number,
    /// into the leading preliminary rounds and the elimination rounds after
    /// them, and records the status of each round in the given order.
    pub fn of_rounds(rounds: Vec<Round>) -> (r: TournamentRounds)
        requires
            well_ordered(rounds@),
        ensures
            r.prelim@ + r.elim@ == rounds@,
            forall|i: int| 0 <= i < r.prelim@.len() ==> is_prelim(#[trigger] r.prelim@[i]),
            forall|i: int| 0 <= i < r.elim@.len() ==> is_elim(#[trigger] r.elim@[i]),
            r.statuses@.len() == rounds@.len(),
            forall|i: int|
                0 <= i < rounds@.len() ==> (#[trigger] r.statuses@[i]).0@ == rounds@[i].id@
                    && r.statuses@[i].1 == status_of(rounds@[i]),
    {
        let mut prelim: Vec<Round> = Vec::new();
        let mut elim: Vec<Round> = Vec::new();
        let mut statuses: Vec<(String, RoundStatus)> = Vec::new();
        let mut i: usize = 0;
        while i < rounds.len()
            invariant
                i <= rounds.len(),
                well_ordered(rounds@),
                prelim@ + elim@ == rounds@.take(i as int),
                forall|k: int| 0 <= k < prelim@.len() ==> is_prelim(#[trigger] prelim@[k]),
                forall|k: int| 0 <= k < elim@.len() ==> is_elim(#[trigger] elim@[k]),
                elim@.len() > 0 ==> is_elim(rounds@[i - 1]),
                statuses@.len() == i,
                forall|k: int|
                    0 <= k < i ==> (#[trigger] statuses@[k]).0@ == rounds@[k].id@ && statuses@[k].1
                        == status_of(rounds@[k]),
            decreases rounds.len() - i,
        {
            let r = rounds[i].clone();
            statuses.push((r.id.clone(), r.status()));
            let ghost before = rounds@.take(i as int);
            proof {
                assert(rounds@.take(i as int + 1) =~= before.push(rounds@[i as int]));
            }
            if r.is_prelim() {
                if elim.len() > 0 {
                    assert(!is_prelim(rounds@[i as int]));
                }
                assert(elim@.len() == 0);
                prelim.push(r);
                assert(prelim@ + elim@ =~= rounds@.take(i as int + 1));
            } else {
                elim.push(r);
                assert(prelim@ + elim@ =~= rounds@.take(i as int + 1));
            }
            i = i + 1;
        }
        assert(rounds@.take(rounds.len() as int) =~= rounds@);
        TournamentRounds { prelim, elim, statuses }
    }

    /// The preliminary rounds, sorted by sequence number and grouped by it.
    pub fn prelims_grouped_by_seq(&self) -> (r: Vec<Vec<Round>>)
        ensures
            r@.map_values(|g: Vec<Round>| g@) == chunk_by_key(
                sort_by_key(self.prelim@, seq_key()),
                seq_key(),
            ),
    {
        let sorted = sort_rounds_by_seq(&self.prelim);
        chunk_rounds_by_seq(&sorted)
    }

    /// All rounds, sorted by sequence number and grouped by it.
    pub fn all_grouped_by_seq(&self) -> (r: Vec<Vec<Round>>)
        ensures
            r@.map_values(|g: Vec<Round>| g@) == chunk_by_key(
                sort_by_key(self.prelim@ + self.elim@, seq_key()),
                seq_key(),
            ),
    {
        let mut all: Vec<Round> = Vec::new();
        let mut i: usize = 0;
        while i < self.prelim.len()
            invariant
                i <= self.prelim.len(),
                all@ == self.prelim@.take(i as int),
            decreases self.prelim.len() - i,
        {
            all.push(self.prelim[i].clone());
            assert(all@ =~= self.prelim@.take(i as int + 1));
            i = i + 1;
        }
        let mut k: usize = 0;
        while k < self.elim.len()
            invariant
                k <= self.elim.len(),
                all@ == self.prelim@ + self.elim@.take(k as int),
            decreases self.elim.len() - k,
        {
            all.push(self.elim[k].clone());
            assert(all@ =~= self.prelim@ + self.elim@.take(k as int + 1));
            k = k + 1;
        }
        assert(self.elim@.take(self.elim.len() as int) =~= self.elim@);
        let sorted = sort_rounds_by_seq(&all);
        chunk_rounds_by_seq(&sorted)
    }
}

} // verus!

verus! {

/// Whether a round belongs to the tournament, comes before the given
/// sequence number and is not yet complete.
pub open spec fn precedes(tournament_id: Seq<char>, seq: i64) -> spec_fn(Round) -> bool {
    |r: Round| r.tournament_id@ == tournament_id && r.seq < seq && !r.completed
}

/// Whether a round belongs to the tournament and has the given sequence
/// number.
pub open spec fn of_tournament_seq(tournament_id: Seq<char>, seq: i64) -> spec_fn(Round) -> bool {
    |r: Round| r.tournament_id@ == tournament_id && r.seq == seq
}

/// The rounds that satisfy `p`, in order.
pub open spec fn rounds_where(rounds: Seq<Round>, p: spec_fn(Round) -> bool) -> Seq<Round>
    decreases rounds.len(),
{
    if rounds.len() == 0 {
        seq![]
    } else {
        let rest = rounds_where(rounds.drop_last(), p);
        if p(rounds.last()) {
            rest.push(rounds.last())
        } else {
            rest
        }
    }
}

/// The smallest sequence number of the tournament's incomplete rounds, if
/// it has any.
pub open spec fn min_open_seq(rounds: Seq<Round>, tournament_id: Seq<char>) -> Option<i64>
    decreases rounds.len(),
{
    if rounds.len() == 0 {
        None
    } else {
        let rest = min_open_seq(rounds.drop_last(), tournament_id);
        let r = rounds.last();
        if r.tournament_id@ != tournament_id || r.completed {
            rest
        } else {
            match rest {
                Some(m) => if r.seq < m {
                    Some(r.seq)
                } else {
                    Some(m)
                },
                None => Some(r.seq),
            }
        }
    }
}

/// Whether a round belongs to the tournament and is not complete.
pub open spec fn open_round_of(r: Round, tournament_id: Seq<char>) -> bool {
    r.tournament_id@ == tournament_id && !r.completed
}

/// The sequence number chosen as the current one is the smallest among the
/// tournament's incomplete rounds, wherever they are listed: there is one
/// exactly when the tournament has an incomplete round; it is the number
/// of one of them, and no incomplete round of the tournament has a smaller
/// one.
pub proof fn lemma_min_open_seq_is_least(rounds: Seq<Round>, tournament_id: Seq<char>)
    ensures
        min_open_seq(rounds, tournament_id) is Some <==> exists|k: int|
            0 <= k < rounds.len() && open_round_of(#[trigger] rounds[k], tournament_id),
        min_open_seq(rounds, tournament_id) matches Some(m) ==> (exists|k: int|
            0 <= k < rounds.len() && open_round_of(#[trigger] rounds[k], tournament_id) && rounds[k].seq == m),
        forall|k: int|
            0 <= k < rounds.len() && open_round_of(#[trigger] rounds[k], tournament_id) ==> (min_open_seq(
                rounds,
                tournament_id,
            ) matches Some(m) && m <= rounds[k].seq),
    decreases rounds.len(),
{
    if rounds.len() > 0 {
        let d = rounds.drop_last();
        lemma_min_open_seq_is_least(d, tournament_id);
        let last = rounds.len() - 1;
        assert(rounds[last] == rounds.last());
        assert forall|k: int| 0 <= k < d.len() implies d[k] == rounds[k] by {}
        if min_open_seq(d, tournament_id) is Some {
            let k = choose|k: int| 0 <= k < d.len() && open_round_of(#[trigger] d[k], tournament_id) && d[k].seq
                == min_open_seq(d, tournament_id)->0;
            assert(rounds[k] == d[k]);
        }
        assert forall|k: int| 0 <= k < rounds.len() && open_round_of(#[trigger] rounds[k], tournament_id) implies (min_open_seq(
            rounds,
            tournament_id,
        ) matches Some(m) && m <= rounds[k].seq) by {
            if k < d.len() {
                assert(d[k] == rounds[k]);
            }
        }
        if exists|k: int| 0 <= k < d.len() && open_round_of(#[trigger] d[k], tournament_id) {
            let k = choose|k: int| 0 <= k < d.len() && open_round_of(#[trigger] d[k], tournament_id);
            assert(rounds[k] == d[k]);
        }
        if exists|k: int| 0 <= k < rounds.len() && open_round_of(#[trigger] rounds[k], tournament_id) {
            let k = choose|k: int| 0 <= k < rounds.len() && open_round_of(#[trigger] rounds[k], tournament_id);
            if k < d.len() {
                assert(d[k] == rounds[k]);
            }
        }
    }
}

/// The current rounds are the earliest open ones: each round returned is an
/// incomplete round of the tournament whose sequence number is no larger
/// than that of any incomplete round of the tournament, and every
/// incomplete round of the tournament with the smallest sequence number is
/// returned.
pub proof fn lemma_current_rounds_are_earliest(rounds: Seq<Round>, tournament_id: Seq<char>)
    ensures
        ({
            let cur = rounds_where(
                rounds,
                current_at(
                    tournament_id,
                    match min_open_seq(rounds, tournament_id) {
                        Some(m) => m,
                        None => 1,
                    },
                ),
            );
            &&& forall|i: int, k: int|
                0 <= i < cur.len() && 0 <= k < rounds.len() && open_round_of(#[trigger] rounds[k], tournament_id)
                    ==> open_round_of(#[trigger] cur[i], tournament_id) && cur[i].seq <= rounds[k].seq
            &&& forall|k: int|
                0 <= k < rounds.len() && open_round_of(#[trigger] rounds[k], tournament_id) && (forall|j: int|
                    0 <= j < rounds.len() && open_round_of(#[trigger] rounds[j], tournament_id) ==> rounds[k].seq
                        <= rounds[j].seq) ==> cur.contains(rounds[k])
            &&& (forall|k: int| 0 <= k < rounds.len() ==> !open_round_of(#[trigger] rounds[k], tournament_id))
                ==> cur.len() == 0
        }),
{
    lemma_min_open_seq_is_least(rounds, tournament_id);
    let m = match min_open_seq(rounds, tournament_id) {
        Some(m) => m,
        None => 1,
    };
    let p = current_at(tournament_id, m);
    lemma_rounds_where_members(rounds, p);
    let cur = rounds_where(rounds, p);
    assert forall|i: int, k: int|
        0 <= i < cur.len() && 0 <= k < rounds.len() && open_round_of(#[trigger] rounds[k], tournament_id) implies open_round_of(
        #[trigger] cur[i],
        tournament_id,
    ) && cur[i].seq <= rounds[k].seq by {
        assert(cur.contains(cur[i]));
    }
    assert forall|k: int|
        0 <= k < rounds.len() && open_round_of(#[trigger] rounds[k], tournament_id) && (forall|j: int|
            0 <= j < rounds.len() && open_round_of(#[trigger] rounds[j], tournament_id) ==> rounds[k].seq
                <= rounds[j].seq) implies cur.contains(rounds[k]) by {
        let j = choose|j: int|
            0 <= j < rounds.len() && open_round_of(#[trigger] rounds[j], tournament_id) && rounds[j].seq == m;
        assert(p(rounds[k]));
    }
    if forall|k: int| 0 <= k < rounds.len() ==> !open_round_of(#[trigger] rounds[k], tournament_id) {
        if cur.len() > 0 {
            assert(cur.contains(cur[0]));
        }
    }
}

proof fn lemma_rounds_where_members(rounds: Seq<Round>, p: spec_fn(Round) -> bool)
    ensures
        forall|x: Round| #[trigger] rounds_where(rounds, p).contains(x) ==> p(x) && rounds.contains(x),
        forall|k: int| 0 <= k < rounds.len() && p(#[trigger] rounds[k]) ==> rounds_where(rounds, p).contains(rounds[k]),
    decreases rounds.len(),
{
    if rounds.len() > 0 {
        let d = rounds.drop_last();
        lemma_rounds_where_members(d, p);
        let rest = rounds_where(d, p);
        assert forall|x: Round| #[trigger] rounds_where(rounds, p).contains(x) implies p(x) && rounds.contains(x) by {
            if rest.contains(x) {
                let k = choose|k: int| 0 <= k < d.len() && d[k] == x;
                assert(rounds[k] == x);
            } else {
                let i = choose|i: int| 0 <= i < rounds_where(rounds, p).len() && rounds_where(rounds, p)[i] == x;
                assert(i == rest.len());
                assert(rounds[rounds.len() - 1] == x);
            }
        }
        assert forall|k: int| 0 <= k < rounds.len() && p(#[trigger] rounds[k]) implies rounds_where(rounds, p).contains(
            rounds[k],
        ) by {
            if k < d.len() {
                assert(d[k] == rounds[k]);
                assert(rest.contains(rounds[k]));
                let i = choose|i: int| 0 <= i < rest.len() && rest[i] == rounds[k];
                if p(rounds.last()) {
                    assert(rest.push(rounds.last())[i] == rounds[k]);
                }
            } else {
                assert(rounds_where(rounds, p) == rest.push(rounds.last()));
                assert(rounds_where(rounds, p)[rest.len() as int] == rounds[k]);
            }
        }
    }
}

/// Whether a round of the tournament is not complete and has the given
/// sequence number.
pub open spec fn current_at(tournament_id: Seq<char>, seq: i64) -> spec_fn(Round) -> bool {
    |r: Round| r.tournament_id@ == tournament_id && !r.completed && r.seq == seq
}

/// The rounds of the tournament with the given sequence number.
pub fn of_seq(rounds: &Vec<Round>, seq: i64, tournament_id: &String) -> (r: Vec<Round>)
    ensures
        r@ == rounds_where(rounds@, of_tournament_seq(tournament_id@, seq)),
{
    let mut out: Vec<Round> = Vec::new();
    let mut k: usize = 0;
    while k < rounds.len()
        invariant
            k <= rounds@.len(),
            out@ == rounds_where(rounds@.take(k as int), of_tournament_seq(tournament_id@, seq)),
        decreases rounds@.len() - k,
    {
        proof {
            assert(rounds@.take(k as int + 1).drop_last() =~= rounds@.take(k as int));
        }
        if rounds[k].tournament_id == *tournament_id && rounds[k].seq == seq {
            out.push(rounds[k].clone());
        }
        k = k + 1;
    }
    proof {
        assert(rounds@.take(rounds@.len() as int) =~= rounds@);
    }
    out
}

/// The current rounds of a tournament: its incomplete rounds with the
/// smallest sequence number among its incomplete rounds; none where every
/// round is complete.
pub fn current_rounds(rounds: &Vec<Round>, tournament_id: &String) -> (r: Vec<Round>)
    ensures
        r@ == rounds_where(
            rounds@,
            current_at(
                tournament_id@,
                match min_open_seq(rounds@, tournament_id@) {
                    Some(m) => m,
                    None => 1,
                },
            ),
        ),
{
    let mut m: Option<i64> = None;
    let mut k: usize = 0;
    while k < rounds.len()
        invariant
            k <= rounds@.len(),
            m == min_open_seq(rounds@.take(k as int), tournament_id@),
        decreases rounds@.len() - k,
    {
        proof {
            assert(rounds@.take(k as int + 1).drop_last() =~= rounds@.take(k as int));
        }
        if rounds[k].tournament_id == *tournament_id && !rounds[k].completed {
            m = match m {
                Some(x) => if rounds[k].seq < x {
                    Some(rounds[k].seq)
                } else {
                    Some(x)
                },
                None => Some(rounds[k].seq),
            };
        }
        k = k + 1;
    }
    proof {
        assert(rounds@.take(rounds@.len() as int) =~= rounds@);
    }
    let seq = match m {
        Some(x) => x,
        None => 1,
    };
    let mut out: Vec<Round> = Vec::new();
    let mut j: usize = 0;
    while j < rounds.len()
        invariant
            j <= rounds@.len(),
            out@ == rounds_where(rounds@.take(j as int), current_at(tournament_id@, seq)),
        decreases rounds@.len() - j,
    {
        proof {
            assert(rounds@.take(j as int + 1).drop_last() =~= rounds@.take(j as int));
        }
        if rounds[j].tournament_id == *tournament_id && !rounds[j].completed && rounds[j].seq == seq {
            out.push(rounds[j].clone());
        }
        j = j + 1;
    }
    proof {
        assert(rounds@.take(rounds@.len() as int) =~= rounds@);
    }
    out
}

/// `lo` and `hi` are the smallest and the largest sequence numbers of the
/// rounds.
pub open spec fn is_seq_range(rounds: Seq<Round>, lo: i64, hi: i64) -> bool {
    &&& forall|k: int| 0 <= k < rounds.len() ==> lo <= (#[trigger] rounds[k]).seq <= hi
    &&& exists|k: int| 0 <= k < rounds.len() && (#[trigger] rounds[k]).seq == lo
    &&& exists|k: int| 0 <= k < rounds.len() && (#[trigger] rounds[k]).seq == hi
}

/// The smallest and the largest sequence numbers of the rounds, where
/// there are rounds.
pub fn seq_range(rounds: &Vec<Round>) -> (r: Option<(i64, i64)>)
    ensures
        rounds@.len() == 0 <==> r is None,
        r matches Some((lo, hi)) ==> is_seq_range(rounds@, lo, hi),
{
    let mut range: Option<(i64, i64)> = None;
    let mut k: usize = 0;
    while k < rounds.len()
        invariant
            k <= rounds@.len(),
            k == 0 <==> range is None,
            range matches Some((lo, hi)) ==> is_seq_range(rounds@.take(k as int), lo, hi),
        decreases rounds@.len() - k,
    {
        let s = rounds[k].seq;
        let ghost prev = range;
        range = match range {
            None => Some((s, s)),
            Some((lo, hi)) => Some((if s < lo { s } else { lo }, if s > hi { s } else { hi })),
        };
        proof {
            let next = rounds@.take(k as int + 1);
            assert(next[k as int] == rounds@[k as int]);
            assert forall|j: int| 0 <= j < k implies next[j] == rounds@.take(k as int)[j] by {}
            match range {
                Some((lo, hi)) => {
                    match prev {
                        Some((plo, phi)) => {
                            let a = choose|j: int| 0 <= j < k && (#[trigger] rounds@.take(k as int)[j]).seq == plo;
                            let b = choose|j: int| 0 <= j < k && (#[trigger] rounds@.take(k as int)[j]).seq == phi;
                            assert(next[a].seq == plo);
                            assert(next[b].seq == phi);
                            assert forall|j: int| 0 <= j < next.len() implies lo <= (#[trigger] next[j]).seq <= hi by {
                                if j < k {
                                    assert(rounds@.take(k as int)[j].seq >= plo);
                                }
                            }
                        },
                        None => {},
                    }
                    assert(is_seq_range(next, lo, hi));
                },
                None => {},
            }
        }
        k = k + 1;
    }
    proof {
        assert(rounds@.take(rounds@.len() as int) =~= rounds@);
    }
    range
}

/// The largest sequence number of the rounds, if there are any.
pub open spec fn max_seq(rounds: Seq<Round>) -> Option<i64>
    decreases rounds.len(),
{
    if rounds.len() == 0 {
        None
    } else {
        let s = rounds.last().seq;
        match max_seq(rounds.drop_last()) {
            Some(m) => Some(if s > m { s } else { m }),
            None => Some(s),
        }
    }
}

/// Why an edited round's name or sequence number is refused, if it is: the
/// name must take 4 to 32 bytes, and the sequence number must be at least 1.
pub fn edited_round_error(name: &str, seq: u32) -> (r: Option<String>)
    ensures
        !(4 <= name.len() <= 32) ==> (r matches Some(m) && m@ == "Round name must be between 4 and 32 characters"@),
        (4 <= name.len() <= 32) && seq < 1 ==> (r matches Some(m) && m@ == "Sequence must be at least 1"@),
        (4 <= name.len() <= 32) && seq >= 1 ==> r is None,
{
    let len = name.len();
    if len < 4 || len > 32 {
        return Some(String::from_str("Round name must be between 4 and 32 characters"));
    }
    if seq < 1 {
        return Some(String::from_str("Sequence must be at least 1"));
    }
    None
}

/// The message refusing a sequence number past one more than the largest.
pub open spec fn seq_too_large_text(max: int) -> Seq<char> {
    "Error: round index is too large. It must be at most\n                         one more than the current largest index, which is "@
        + crate::text::int_text(max) + "."@
}

/// Why an edited round's sequence number is refused, if it is: it may be at
/// most one more than the largest sequence number of the tournament's
/// rounds (taken as 1 where there are none).
pub fn round_seq_error(seq: u32, tournament_rounds: &Vec<Round>) -> (r: Option<String>)
    requires
        forall|k: int| 0 <= k < tournament_rounds@.len() ==> (#[trigger] tournament_rounds@[k]).seq < i64::MAX,
    ensures
        ({
            let max = match max_seq(tournament_rounds@) {
                Some(m) => m as int,
                None => 1int,
            };
            &&& max + 1 < seq ==> (r matches Some(m) && m@ == seq_too_large_text(max))
            &&& max + 1 >= seq ==> r is None
        }),
{
    let mut max: Option<i64> = None;
    let mut k: usize = 0;
    while k < tournament_rounds.len()
        invariant
            k <= tournament_rounds@.len(),
            max == max_seq(tournament_rounds@.take(k as int)),
            forall|j: int| 0 <= j < tournament_rounds@.len() ==> (#[trigger] tournament_rounds@[j]).seq < i64::MAX,
            max matches Some(m) ==> m < i64::MAX,
        decreases tournament_rounds@.len() - k,
    {
        proof {
            assert(tournament_rounds@.take(k as int + 1).drop_last() =~= tournament_rounds@.take(k as int));
        }
        let s = tournament_rounds[k].seq;
        max = match max {
            Some(m) => Some(if s > m { s } else { m }),
            None => Some(s),
        };
        k = k + 1;
    }
    proof {
        assert(tournament_rounds@.take(tournament_rounds@.len() as int) =~= tournament_rounds@);
    }
    let largest: i64 = match max {
        Some(m) => m,
        None => 1,
    };
    if largest + 1 < seq as i64 {
        let msg = String::from_str(
            "Error: round index is too large. It must be at most\n                         one more than the current largest index, which is ",
        ).concat(crate::text::i64_to_string(largest).as_str()).concat(".");
        proof {
            reveal_strlit(".");
        }
        return Some(msg);
    }
    None
}

/// The message refusing a ballot for a round whose draw is not released.
pub open spec fn draw_not_released_text() -> Seq<char> {
    "Error: draw not released."@
}

/// The message refusing a ballot for a completed round.
pub open spec fn round_completed_text() -> Seq<char> {
    "Error: this round has been completed. Ballots can no longer be submitted."@
}

impl Round {
    /// Why a judge cannot submit a ballot for this round, if they cannot:
    /// its draw must be fully released ("released_full"), and then the
    /// round must not be complete.
    pub fn ballot_submission_error(&self) -> (r: Option<String>)
        ensures
            self.draw_status@ != "released_full"@ ==> (r matches Some(m) && m@ == draw_not_released_text()),
            self.draw_status@ == "released_full"@ && self.completed ==> (r matches Some(m) && m@
                == round_completed_text()),
            self.draw_status@ == "released_full"@ && !self.completed ==> r is None,
    {
        if !eq_lit(&self.draw_status, "released_full") {
            proof {
                reveal_strlit("Error: draw not released.");
            }
            return Some(String::from_str("Error: draw not released."));
        }
        if self.completed {
            proof {
                reveal_strlit("Error: this round has been completed. Ballots can no longer be submitted.");
            }
            return Some(String::from_str("Error: this round has been completed. Ballots can no longer be submitted."));
        }
        None
    }
}

impl Round {
    /// The first round of the tournament (in table order) that comes
    /// before this one and is not complete, if there is one.
    pub fn find_first_preceding_incomplete_round(&self, rounds: &Vec<Round>) -> (r: Option<Round>)
        ensures
            r == crate::seqs::first_match(rounds@, precedes(self.tournament_id@, self.seq)),
            r is Some <==> exists|k: int|
                0 <= k < rounds@.len() && (#[trigger] rounds@[k]).tournament_id@ == self.tournament_id@ && rounds@[k].seq
                    < self.seq && !rounds@[k].completed,
            r matches Some(x) ==> x.tournament_id@ == self.tournament_id@ && x.seq < self.seq && !x.completed,
    {
        proof {
            crate::seqs::lemma_first_match_exists(rounds@, precedes(self.tournament_id@, self.seq));
        }
        let mut k: usize = 0;
        while k < rounds.len()
            invariant
                k <= rounds@.len(),
                forall|m: int| 0 <= m < k ==> !precedes(self.tournament_id@, self.seq)(#[trigger] rounds@[m]),
            decreases rounds@.len() - k,
        {
            if rounds[k].seq < self.seq && rounds[k].tournament_id == self.tournament_id && !rounds[k].completed {
                proof {
                    crate::seqs::lemma_first_match_at(rounds@, precedes(self.tournament_id@, self.seq), k as int);
                }
                return Some(rounds[k].clone());
            }
            k = k + 1;
        }
        proof {
            crate::seqs::lemma_first_match_at(rounds@, precedes(self.tournament_id@, self.seq), k as int);
        }
        None
    }
}

} // verus!

verus! {

/// A round to be created.
pub struct NewRound {
    pub seq: i64,
    pub name: String,
    pub kind: String,
    pub break_category: Option<String>,
    pub completed: bool,
}

/// The round a form creates in a category ("in_round" for a preliminary
/// round, else the identifier of a break category, for an elimination
/// round): its name must take 4 to 32 bytes and its sequence number must
/// lie from 1 to 100.
pub fn new_round_of_category(name: &str, seq: u32, category_id: &str) -> (r: Result<NewRound, String>)
    ensures
        !(4 <= name.len() <= 32) ==> (r matches Err(m)
            && m@ == "Round name must be between 4 and 32 characters"@),
        (4 <= name.len() <= 32) && !(1 <= seq <= 100) ==> (
        r matches Err(m) && m@ == "Sequence must be between 1 and 100"@),
        (4 <= name.len() <= 32) && (1 <= seq <= 100) ==> (
        r matches Ok(x) && x.seq == seq && x.name@ == name@ && !x.completed && if category_id@ == "in_round"@ {
            x.kind@ == "P"@ && x.break_category is None
        } else {
            x.kind@ == "E"@ && (x.break_category matches Some(c) && c@ == category_id@)
        }),
{
    let len = name.len();
    if len < 4 || len > 32 {
        return Err(String::from_str("Round name must be between 4 and 32 characters"));
    }
    if seq < 1 || seq > 100 {
        return Err(String::from_str("Sequence must be between 1 and 100"));
    }
    let in_round = String::from_str(category_id) == String::from_str("in_round");
    if in_round {
        Ok(NewRound { seq: seq as i64, name: String::from_str(name), kind: String::from_str("P"), break_category: None, completed: false })
    } else {
        Ok(
            NewRound {
                seq: seq as i64,
                name: String::from_str(name),
                kind: String::from_str("E"),
                break_category: Some(String::from_str(category_id)),
                completed: false,
            },
        )
    }
}

/// A round of the tournament after a round is created at sequence number
/// `seq`: a round of the tournament at `seq` or later moves one later.
pub open spec fn renumbered(r: Round, tournament_id: Seq<char>, seq: i64) -> Round {
    if r.tournament_id@ == tournament_id && r.seq >= seq {
        Round { seq: (r.seq + 1) as i64, ..r }
    } else {
        r
    }
}

/// The rounds after a round is created at sequence number `seq`: every
/// round of the tournament at `seq` or later moves one later, so that the
/// rounds after the new one are numbered after it.
pub fn renumber_after_new_round(rounds: &Vec<Round>, tournament_id: &String, seq: i64) -> (r: Vec<Round>)
    requires
        forall|k: int| 0 <= k < rounds@.len() ==> (#[trigger] rounds@[k]).seq < i64::MAX,
    ensures
        r@.len() == rounds@.len(),
        forall|k: int| 0 <= k < r@.len() ==> #[trigger] r@[k] == renumbered(rounds@[k], tournament_id@, seq),
{
    let mut out: Vec<Round> = Vec::new();
    let mut k: usize = 0;
    while k < rounds.len()
        invariant
            k <= rounds@.len(),
            forall|j: int| 0 <= j < rounds@.len() ==> (#[trigger] rounds@[j]).seq < i64::MAX,
            out@.len() == k,
            forall|j: int| 0 <= j < k ==> #[trigger] out@[j] == renumbered(rounds@[j], tournament_id@, seq),
        decreases rounds@.len() - k,
    {
        let mut round = rounds[k].clone();
        if round.tournament_id == *tournament_id && round.seq >= seq {
            round.seq = round.seq + 1;
        }
        out.push(round);
        k = k + 1;
    }
    out
}

/// The motion and info slide a form creates, trimmed of white space: the
/// motion must not be empty, and an empty info slide is none.
pub fn motion_of_form(motion: &str, infoslide: Option<&str>) -> (r: Result<(String, Option<String>), String>)
    ensures
        crate::text::trim_text(motion@).len() == 0 ==> (r matches Err(m) && m@ == "Motion must not be empty."@),
        crate::text::trim_text(motion@).len() > 0 ==> (r matches Ok(x) && x.0@ == crate::text::trim_text(motion@)
            && match infoslide {
            Some(s) => if crate::text::trim_text(s@).len() > 0 {
                x.1 matches Some(t) && t@ == crate::text::trim_text(s@)
            } else {
                x.1 is None
            },
            None => x.1 is None,
        }),
{
    let m = crate::text::trim(motion);
    if m.unicode_len() == 0 {
        return Err(String::from_str("Motion must not be empty."));
    }
    let info = match infoslide {
        Some(s) => {
            let t = crate::text::trim(s);
            if t.unicode_len() > 0 {
                Some(t)
            } else {
                None
            }
        },
        None => None,
    };
    Ok((m, info))
}

} // verus!

verus! {

/// The elimination rounds grouped by break category: one entry per
/// category, in the order categories are first met, with its rounds in
/// order.
pub open spec fn categories_spec(elim: Seq<Round>) -> Seq<(Seq<char>, Seq<Round>)>
    decreases elim.len(),
{
    if elim.len() == 0 {
        seq![]
    } else {
        let rest = categories_spec(elim.drop_last());
        let r = elim.last();
        let cat = r.break_cat->0@;
        match category_index(rest, cat) {
            Some(i) => rest.update(i, (cat, rest[i].1.push(r))),
            None => rest.push((cat, seq![r])),
        }
    }
}

/// Where a category stands among the entries.
pub open spec fn category_index(entries: Seq<(Seq<char>, Seq<Round>)>, cat: Seq<char>) -> Option<int>
    decreases entries.len(),
{
    if entries.len() == 0 {
        None
    } else if entries.last().0 == cat {
        Some(entries.len() - 1)
    } else {
        category_index(entries.drop_last(), cat)
    }
}

proof fn lemma_category_index(entries: Seq<(Seq<char>, Seq<Round>)>, cat: Seq<char>)
    ensures
        category_index(entries, cat) matches Some(i) ==> 0 <= i < entries.len() && entries[i].0 == cat,
    decreases entries.len(),
{
    if entries.len() > 0 && entries.last().0 != cat {
        lemma_category_index(entries.drop_last(), cat);
    }
}

/// The view of category entries.
pub open spec fn categories_view(c: Seq<(String, Vec<Round>)>) -> Seq<(Seq<char>, Seq<Round>)> {
    c.map_values(|e: (String, Vec<Round>)| (e.0@, e.1@))
}

/// Where a category stands among the entries (the last entry with it).
fn find_category(out: &Vec<(String, Vec<Round>)>, cat: &String) -> (r: Option<usize>)
    ensures
        match category_index(categories_view(out@), cat@) {
            Some(i) => r matches Some(j) && j == i,
            None => r is None,
        },
{
    let ghost v = categories_view(out@);
    let mut j: usize = out.len();
    proof {
        assert(v.take(j as int) =~= v);
    }
    while j > 0
        invariant
            j <= out@.len(),
            v == categories_view(out@),
            category_index(v, cat@) == category_index(v.take(j as int), cat@),
        decreases j,
    {
        proof {
            assert(v.take(j as int).drop_last() =~= v.take(j as int - 1));
            assert(v.take(j as int).last() == v[j - 1]);
        }
        if out[j - 1].0 == *cat {
            return Some(j - 1);
        }
        j = j - 1;
    }
    None
}

impl TournamentRounds {
    /// The elimination rounds of each break category (each elimination
    /// round has one).
    pub fn categories(&self) -> (r: Vec<(String, Vec<Round>)>)
        requires
            forall|i: int| 0 <= i < self.elim@.len() ==> (#[trigger] self.elim@[i]).break_cat is Some,
        ensures
            categories_view(r@) == categories_spec(self.elim@),
    {
        let mut out: Vec<(String, Vec<Round>)> = Vec::new();
        let mut k: usize = 0;
        while k < self.elim.len()
            invariant
                k <= self.elim@.len(),
                forall|i: int| 0 <= i < self.elim@.len() ==> (#[trigger] self.elim@[i]).break_cat is Some,
                categories_view(out@) == categories_spec(self.elim@.take(k as int)),
            decreases self.elim@.len() - k,
        {
            let round = &self.elim[k];
            proof {
                assert(self.elim@.take(k as int + 1).drop_last() =~= self.elim@.take(k as int));
                assert(self.elim@[k as int].break_cat is Some);
            }
            let cat = match &round.break_cat {
                Some(c) => c.clone(),
                None => String::new(),
            };
            let ghost before = categories_view(out@);
            proof {
                lemma_category_index(before, cat@);
            }
            let found = find_category(&out, &cat);
            match found {
                Some(i) => {
                    proof {
                        assert(category_index(before, cat@) == Some(i as int));
                    }
                    let (c, mut rounds) = out.remove(i);
                    rounds.push(round.clone());
                    out.insert(i, (c, rounds));
                    proof {
                        assert(categories_view(out@) =~= before.update(i as int, (cat@, before[i as int].1.push(*round))));
                    }
                },
                None => {
                    let mut rounds: Vec<Round> = Vec::new();
                    rounds.push(round.clone());
                    out.push((cat, rounds));
                    proof {
                        assert(categories_view(out@) =~= before.push((cat@, seq![*round])));
                    }
                },
            }
            k = k + 1;
        }
        proof {
            assert(self.elim@.take(self.elim@.len() as int) =~= self.elim@);
        }
        out
    }
}

} // verus!
