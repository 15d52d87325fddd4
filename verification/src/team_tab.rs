//! The public team tab where only the standings are shown: the teams that
//! have points, most points first and by name within equal points, each
//! with its rank and whether it shares it.
use vstd::prelude::*;
use crate::draw_edit::{chars_le, chars_le_exec, lemma_chars_le_total, lemma_chars_le_transitive, lemma_chars_le_antisymmetric};
use crate::participants::Team;
use crate::power_pairing::ranked_teams;
use crate::standings::{TeamStandings, wins_of};

verus! {

/// A team of the standings: its name and its points.
pub type StandingEntry = (Seq<char>, int);

/// The view of a team's name and points.
pub open spec fn entry_view(e: (String, i64)) -> StandingEntry {
    (e.0@, e.1 as int)
}

/// The views of some entries.
pub open spec fn entry_views(s: Seq<(String, i64)>) -> Seq<StandingEntry> {
    s.map_values(|e: (String, i64)| entry_view(e))
}

/// Whether entry `a` is listed no later than entry `b`: more points first,
/// then by name.
pub open spec fn standing_le(a: StandingEntry, b: StandingEntry) -> bool {
    a.1 > b.1 || (a.1 == b.1 && chars_le(a.0, b.0))
}

/// `x` put into `r` after the last entry that is listed no later than it.
pub open spec fn insert_standing(r: Seq<StandingEntry>, x: StandingEntry) -> Seq<StandingEntry>
    decreases r.len(),
{
    if r.len() == 0 {
        seq![x]
    } else if standing_le(r.last(), x) {
        r.push(x)
    } else {
        insert_standing(r.drop_last(), x).push(r.last())
    }
}

/// The entries in the order they are listed, each put in its place in
/// turn, so that entries listed alike keep their order.
pub open spec fn sort_standings(s: Seq<StandingEntry>) -> Seq<StandingEntry>
    decreases s.len(),
{
    if s.len() == 0 {
        seq![]
    } else {
        insert_standing(sort_standings(s.drop_last()), s.last())
    }
}

/// Whether entries are in the order they are listed.
pub open spec fn standings_sorted(s: Seq<StandingEntry>) -> bool {
    forall|i: int, j: int| 0 <= i < j < s.len() ==> standing_le(#[trigger] s[i], #[trigger] s[j])
}

/// The number of entries with more points than `p`.
pub open spec fn count_above(s: Seq<StandingEntry>, p: int) -> nat
    decreases s.len(),
{
    if s.len() == 0 {
        0
    } else {
        count_above(s.drop_last(), p) + if s.last().1 > p { 1nat } else { 0nat }
    }
}

/// The number of entries with `p` points.
pub open spec fn count_with(s: Seq<StandingEntry>, p: int) -> nat
    decreases s.len(),
{
    if s.len() == 0 {
        0
    } else {
        count_with(s.drop_last(), p) + if s.last().1 == p { 1nat } else { 0nat }
    }
}

proof fn lemma_standing_le_total(a: StandingEntry, b: StandingEntry)
    ensures
        standing_le(a, b) || standing_le(b, a),
{
    lemma_chars_le_total(a.0, b.0);
}

proof fn lemma_standing_le_transitive(a: StandingEntry, b: StandingEntry, c: StandingEntry)
    requires
        standing_le(a, b),
        standing_le(b, c),
    ensures
        standing_le(a, c),
{
    if a.1 == b.1 && b.1 == c.1 {
        lemma_chars_le_transitive(a.0, b.0, c.0);
    }
}

proof fn lemma_insert_standing_at(r: Seq<StandingEntry>, x: StandingEntry, j: int)
    requires
        0 <= j <= r.len(),
        j == 0 || standing_le(r[j - 1], x),
        forall|k: int| j <= k < r.len() ==> !standing_le(#[trigger] r[k], x),
    ensures
        insert_standing(r, x) == r.take(j) + seq![x] + r.skip(j),
    decreases r.len(),
{
    if r.len() == 0 {
        assert(r.take(j) + seq![x] + r.skip(j) =~= seq![x]);
    } else if j == r.len() {
        assert(r.take(j) + seq![x] + r.skip(j) =~= r.push(x));
    } else {
        let d = r.drop_last();
        assert forall|k: int| j <= k < d.len() implies !standing_le(#[trigger] d[k], x) by {
            assert(d[k] == r[k]);
        }
        lemma_insert_standing_at(d, x, j);
        assert(d.take(j) + seq![x] + d.skip(j) + seq![r.last()] =~= r.take(j) + seq![x] + r.skip(j));
    }
}

proof fn lemma_insert_standing_multiset(r: Seq<StandingEntry>, x: StandingEntry)
    ensures
        insert_standing(r, x).to_multiset() =~= r.to_multiset().insert(x),
    decreases r.len(),
{
    broadcast use vstd::seq_lib::group_to_multiset_ensures;
    broadcast use vstd::multiset::group_multiset_properties;

    if r.len() > 0 && !standing_le(r.last(), x) {
        lemma_insert_standing_multiset(r.drop_last(), x);
        assert(r.drop_last().push(r.last()) =~= r);
    }
}

proof fn lemma_insert_standing_sorted(r: Seq<StandingEntry>, x: StandingEntry)
    requires
        standings_sorted(r),
    ensures
        standings_sorted(insert_standing(r, x)),
        forall|y: StandingEntry| #[trigger] insert_standing(r, x).contains(y) ==> y == x || r.contains(y),
    decreases r.len(),
{
    if r.len() == 0 {
    } else if standing_le(r.last(), x) {
        let s = r.push(x);
        assert forall|i: int, j: int| 0 <= i < j < s.len() implies standing_le(#[trigger] s[i], #[trigger] s[j]) by {
            if j == s.len() - 1 && i < r.len() - 1 {
                lemma_standing_le_transitive(r[i], r.last(), x);
            }
        }
        assert forall|y: StandingEntry| #[trigger] s.contains(y) implies y == x || r.contains(y) by {
            let k = choose|k: int| 0 <= k < s.len() && s[k] == y;
            if k < r.len() {
                assert(r[k] == y);
            }
        }
    } else {
        let d = r.drop_last();
        assert(standings_sorted(d)) by {
            assert forall|i: int, j: int| 0 <= i < j < d.len() implies standing_le(#[trigger] d[i], #[trigger] d[j]) by {
                assert(d[i] == r[i] && d[j] == r[j]);
            }
        }
        lemma_insert_standing_sorted(d, x);
        let u = insert_standing(d, x);
        let s = u.push(r.last());
        lemma_standing_le_total(r.last(), x);
        assert forall|i: int, j: int| 0 <= i < j < s.len() implies standing_le(#[trigger] s[i], #[trigger] s[j]) by {
            if j == s.len() - 1 {
                assert(u.contains(u[i]));
                if u[i] != x {
                    let k = choose|k: int| 0 <= k < d.len() && d[k] == u[i];
                    assert(r[k] == d[k]);
                }
            }
        }
        assert forall|y: StandingEntry| #[trigger] s.contains(y) implies y == x || r.contains(y) by {
            let k = choose|k: int| 0 <= k < s.len() && s[k] == y;
            if k < u.len() {
                assert(u.contains(y));
                if y != x {
                    let m = choose|m: int| 0 <= m < d.len() && d[m] == y;
                    assert(r[m] == y);
                }
            } else {
                assert(r[r.len() - 1] == y);
            }
        }
    }
}

/// The standings list every team that has points, once, most points first
/// and by name within equal points.
pub proof fn lemma_sort_standings_props(s: Seq<StandingEntry>)
    ensures
        standings_sorted(sort_standings(s)),
        sort_standings(s).to_multiset() =~= s.to_multiset(),
    decreases s.len(),
{
    broadcast use vstd::seq_lib::group_to_multiset_ensures;

    if s.len() > 0 {
        lemma_sort_standings_props(s.drop_last());
        lemma_insert_standing_sorted(sort_standings(s.drop_last()), s.last());
        lemma_insert_standing_multiset(sort_standings(s.drop_last()), s.last());
        assert(s.drop_last().push(s.last()) =~= s);
    }
}

/// Whether entry `a` is listed no later than entry `b`.
fn standing_le_exec(a: &(String, i64), b: &(String, i64)) -> (r: bool)
    ensures
        r == standing_le(entry_view(*a), entry_view(*b)),
{
    a.1 > b.1 || (a.1 == b.1 && chars_le_exec(a.0.as_str(), b.0.as_str()))
}

/// The entries in the order they are listed.
fn sort_entries(rows: &Vec<(String, i64)>) -> (r: Vec<(String, i64)>)
    ensures
        entry_views(r@) == sort_standings(entry_views(rows@)),
{
    let mut out: Vec<(String, i64)> = Vec::new();
    let mut i: usize = 0;
    while i < rows.len()
        invariant
            i <= rows.len(),
            entry_views(out@) == sort_standings(entry_views(rows@.take(i as int))),
        decreases rows.len() - i,
    {
        let x = (rows[i].0.clone(), rows[i].1);
        let ghost vx = entry_view(x);
        let mut j: usize = out.len();
        loop
            invariant
                j <= out.len(),
                entry_views(out@) == sort_standings(entry_views(rows@.take(i as int))),
                vx == entry_view(x),
                forall|k: int| j <= k < out@.len() ==> !standing_le(#[trigger] entry_view(out@[k]), vx),
            ensures
                j <= out.len(),
                j == 0 || standing_le(entry_view(out@[j - 1]), vx),
                forall|k: int| j <= k < out@.len() ==> !standing_le(#[trigger] entry_view(out@[k]), vx),
            decreases j,
        {
            if j == 0 {
                break;
            }
            if standing_le_exec(&out[j - 1], &x) {
                break;
            }
            j = j - 1;
        }
        let ghost before = entry_views(out@);
        proof {
            assert forall|k: int| j <= k < before.len() implies !standing_le(#[trigger] before[k], vx) by {
                assert(before[k] == entry_view(out@[k]));
            }
            if j > 0 {
                assert(before[j - 1] == entry_view(out@[j - 1]));
            }
            lemma_insert_standing_at(before, vx, j as int);
        }
        out.insert(j, x);
        proof {
            assert(entry_views(out@) =~= before.take(j as int) + seq![vx] + before.skip(j as int));
            assert(entry_views(rows@.take(i as int + 1)).drop_last() =~= entry_views(rows@.take(i as int)));
            assert(entry_views(rows@.take(i as int + 1)).last() == vx);
        }
        i = i + 1;
    }
    proof {
        assert(rows@.take(rows@.len() as int) =~= rows@);
    }
    out
}

/// How many entries have more points than `p`, and how many have `p`.
fn counts_around(rows: &Vec<(String, i64)>, p: i64) -> (r: (usize, usize))
    ensures
        r.0 == count_above(entry_views(rows@), p as int),
        r.1 == count_with(entry_views(rows@), p as int),
{
    let mut above: usize = 0;
    let mut with: usize = 0;
    let mut i: usize = 0;
    while i < rows.len()
        invariant
            i <= rows.len(),
            above == count_above(entry_views(rows@.take(i as int)), p as int),
            with == count_with(entry_views(rows@.take(i as int)), p as int),
            above <= i,
            with <= i,
        decreases rows.len() - i,
    {
        proof {
            assert(entry_views(rows@.take(i as int + 1)).drop_last() =~= entry_views(rows@.take(i as int)));
            assert(entry_views(rows@.take(i as int + 1)).last() == entry_view(rows@[i as int]));
        }
        if rows[i].1 > p {
            above = above + 1;
        }
        if rows[i].1 == p {
            with = with + 1;
        }
        i = i + 1;
    }
    proof {
        assert(rows@.take(rows@.len() as int) =~= rows@);
    }
    (above, with)
}

/// The rows of the standings-only tab, from the teams that have points
/// (name and points, in rank order): most points first and by name within
/// equal points; each row holds the rank (one more than the number of
/// teams with more points), the points, the name, and whether another team
/// has as many points.
pub fn standings_only_rows(rows: &Vec<(String, i64)>) -> (r: Vec<(i64, i64, String, bool)>)
    requires
        rows@.len() < i64::MAX,
    ensures
        r@.len() == rows@.len(),
        forall|k: int|
            0 <= k < r@.len() ==> ((#[trigger] r@[k]).2@, r@[k].1 as int) == sort_standings(entry_views(rows@))[k],
        forall|k: int|
            0 <= k < r@.len() ==> (#[trigger] r@[k]).0 == 1 + count_above(entry_views(rows@), r@[k].1 as int)
                && r@[k].3 == (count_with(entry_views(rows@), r@[k].1 as int) > 1),
{
    let sorted = sort_entries(rows);
    proof {
        broadcast use vstd::seq_lib::group_to_multiset_ensures;

        lemma_sort_standings_props(entry_views(rows@));
        let a = sort_standings(entry_views(rows@));
        let e = entry_views(rows@);
        assert(a.to_multiset().len() == a.len());
        assert(e.to_multiset().len() == e.len());
        assert(a.to_multiset() == e.to_multiset());
        assert(a.len() == e.len());
        assert(entry_views(sorted@).len() == sorted@.len());
    }
    let mut out: Vec<(i64, i64, String, bool)> = Vec::new();
    let mut k: usize = 0;
    while k < sorted.len()
        invariant
            k <= sorted@.len(),
            rows@.len() < i64::MAX,
            entry_views(sorted@) == sort_standings(entry_views(rows@)),
            out@.len() == k,
            forall|m: int|
                0 <= m < k ==> ((#[trigger] out@[m]).2@, out@[m].1 as int) == entry_views(sorted@)[m],
            forall|m: int|
                0 <= m < k ==> (#[trigger] out@[m]).0 == 1 + count_above(entry_views(rows@), out@[m].1 as int)
                    && out@[m].3 == (count_with(entry_views(rows@), out@[m].1 as int) > 1),
        decreases sorted@.len() - k,
    {
        let points = sorted[k].1;
        let (above, with) = counts_around(rows, points);
        proof {
            lemma_count_above_bound(entry_views(rows@), points as int);
        }
        let rank = above as i64 + 1;
        out.push((rank, points, sorted[k].0.clone(), with > 1));
        proof {
            assert(entry_views(sorted@)[k as int] == entry_view(sorted@[k as int]));
        }
        k = k + 1;
    }
    out
}

proof fn lemma_count_above_bound(s: Seq<StandingEntry>, p: int)
    ensures
        count_above(s, p) <= s.len(),
    decreases s.len(),
{
    if s.len() > 0 {
        lemma_count_above_bound(s.drop_last(), p);
    }
}

/// The teams of the standings that have points, in rank order, with their
/// names and points.
pub open spec fn teams_with_points(s: TeamStandings, teams: Seq<Team>) -> Seq<StandingEntry>
    decreases teams.len(),
{
    if teams.len() == 0 {
        seq![]
    } else {
        let rest = teams_with_points(s, teams.drop_last());
        match wins_of(s, teams.last().id@) {
            Some(p) => rest.push((teams.last().name@, p as int)),
            None => rest,
        }
    }
}

impl TeamStandings {
    /// The name and points of every ranked team that has points, in rank
    /// order.
    pub fn points_rows(&self) -> (r: Vec<(String, i64)>)
        ensures
            entry_views(r@) == teams_with_points(*self, ranked_teams(self.ranked@)),
    {
        let mut out: Vec<(String, i64)> = Vec::new();
        let mut b: usize = 0;
        while b < self.ranked.len()
            invariant
                b <= self.ranked@.len(),
                entry_views(out@) == teams_with_points(*self, ranked_teams(self.ranked@.take(b as int))),
            decreases self.ranked@.len() - b,
        {
            let bracket = &self.ranked[b];
            let ghost start = ranked_teams(self.ranked@.take(b as int));
            proof {
                assert(self.ranked@.take(b as int + 1).drop_last() =~= self.ranked@.take(b as int));
                assert(self.ranked@.take(b as int + 1).last() == *bracket);
            }
            let mut i: usize = 0;
            while i < bracket.len()
                invariant
                    i <= bracket@.len(),
                    *bracket == self.ranked@[b as int],
                    b < self.ranked@.len(),
                    entry_views(out@) == teams_with_points(*self, start + bracket@.take(i as int)),
                decreases bracket@.len() - i,
            {
                proof {
                    assert((start + bracket@.take(i as int + 1)).drop_last() =~= start + bracket@.take(i as int));
                    assert((start + bracket@.take(i as int + 1)).last() == bracket@[i as int]);
                }
                let team = &bracket[i];
                match self.points_of_team(&team.id) {
                    Some(p) => {
                        let ghost before = out@;
                        out.push((team.name.clone(), p));
                        proof {
                            assert(entry_views(out@) =~= entry_views(before).push((team.name@, p as int)));
                        }
                    },
                    None => {},
                }
                i = i + 1;
            }
            proof {
                assert(bracket@.take(bracket@.len() as int) =~= bracket@);
                assert(ranked_teams(self.ranked@.take(b as int + 1)) == start + bracket@);
            }
            b = b + 1;
        }
        proof {
            assert(self.ranked@.take(self.ranked@.len() as int) =~= self.ranked@);
        }
        out
    }
}

} // verus!
