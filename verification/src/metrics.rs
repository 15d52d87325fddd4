//! The metrics teams are ranked by, computed from the results of the
//! completed preliminary rounds: points, points from ballots, the number of
//! times a team took a given number of points, and draw strength.
use vstd::prelude::*;
use crate::seqs::{dedup, views, distinct_views, lemma_dedup_props, contains_string};

verus! {

/// The keys of a list of (key, amount) entries.
pub open spec fn entry_keys(entries: Seq<(String, i64)>) -> Seq<String> {
    entries.map_values(|e: (String, i64)| e.0)
}

/// The sum of the amounts of the entries with key `t`.
pub open spec fn key_total(entries: Seq<(String, i64)>, t: Seq<char>) -> int
    decreases entries.len(),
{
    if entries.len() == 0 {
        0
    } else {
        key_total(entries.drop_last(), t) + if entries.last().0@ == t {
            entries.last().1 as int
        } else {
            0int
        }
    }
}

/// The sum of the magnitudes of the amounts.
pub open spec fn abs_total(entries: Seq<(String, i64)>) -> int
    decreases entries.len(),
{
    if entries.len() == 0 {
        0
    } else {
        abs_total(entries.drop_last()) + if entries.last().1 < 0 {
            -(entries.last().1 as int)
        } else {
            entries.last().1 as int
        }
    }
}

proof fn lemma_key_total_bounded(entries: Seq<(String, i64)>, t: Seq<char>)
    ensures
        -abs_total(entries) <= key_total(entries, t) <= abs_total(entries),
        abs_total(entries) >= 0,
    decreases entries.len(),
{
    if entries.len() > 0 {
        lemma_key_total_bounded(entries.drop_last(), t);
    }
}

proof fn lemma_abs_total_prefix(entries: Seq<(String, i64)>, i: int)
    requires
        0 <= i <= entries.len(),
    ensures
        abs_total(entries.take(i)) <= abs_total(entries),
    decreases entries.len(),
{
    if i < entries.len() {
        assert(entries.drop_last().take(i) =~= entries.take(i));
        lemma_abs_total_prefix(entries.drop_last(), i);
        lemma_key_total_bounded(entries.drop_last(), Seq::empty());
    } else {
        assert(entries.take(i) =~= entries);
    }
}

proof fn lemma_key_total_absent(entries: Seq<(String, i64)>, t: Seq<char>)
    requires
        !views(entry_keys(entries)).contains(t),
    ensures
        key_total(entries, t) == 0,
    decreases entries.len(),
{
    if entries.len() > 0 {
        let d = entries.drop_last();
        assert(views(entry_keys(entries))[entries.len() - 1] == entries.last().0@);
        assert forall|k: int| 0 <= k < views(entry_keys(d)).len() implies views(entry_keys(d))[k] != t by {
            assert(views(entry_keys(entries))[k] == views(entry_keys(d))[k]);
        }
        lemma_key_total_absent(d, t);
    }
}

/// The index of the entry with key `key`, if any.
fn find_key(v: &Vec<(String, i64)>, key: &String) -> (r: Option<usize>)
    ensures
        r matches Some(i) ==> i < v@.len() && v@[i as int].0@ == key@,
        r is None ==> !views(entry_keys(v@)).contains(key@),
{
    let mut i: usize = 0;
    while i < v.len()
        invariant
            i <= v.len(),
            forall|k: int| 0 <= k < i ==> (#[trigger] v@[k]).0@ != key@,
        decreases v.len() - i,
    {
        if v[i].0 == *key {
            return Some(i);
        }
        i = i + 1;
    }
    assert forall|k: int| 0 <= k < views(entry_keys(v@)).len() implies views(entry_keys(v@))[k] != key@ by {
        assert(views(entry_keys(v@))[k] == v@[k].0@);
    }
    None
}

/// The total of each key: one entry per key, in order of first mention
/// among the entries and then the extra keys, each with the sum of the
/// amounts of its entries (zero for a key with no entries).
pub fn sum_by_key(entries: &Vec<(String, i64)>, extra_keys: &Vec<String>) -> (r: Vec<(String, i64)>)
    requires
        abs_total(entries@) <= i64::MAX,
    ensures
        entry_keys(r@) == dedup(entry_keys(entries@) + extra_keys@),
        forall|k: int| 0 <= k < r@.len() ==> (#[trigger] r@[k]).1 == key_total(entries@, r@[k].0@),
{
    let mut out: Vec<(String, i64)> = Vec::new();
    let mut i: usize = 0;
    while i < entries.len()
        invariant
            i <= entries.len(),
            abs_total(entries@) <= i64::MAX,
            entry_keys(out@) == dedup(entry_keys(entries@.take(i as int))),
            forall|k: int| 0 <= k < out@.len() ==> (#[trigger] out@[k]).1 == key_total(entries@.take(i as int), out@[k].0@),
        decreases entries.len() - i,
    {
        let ghost pre = entries@.take(i as int);
        let ghost next = entries@.take(i as int + 1);
        let ghost e = entries@[i as int];
        proof {
            assert(next.drop_last() =~= pre);
            assert(entry_keys(next) =~= entry_keys(pre).push(e.0));
            assert(entry_keys(next).drop_last() =~= entry_keys(pre));
            lemma_dedup_props(entry_keys(pre));
            lemma_abs_total_prefix(entries@, i as int + 1);
            lemma_key_total_bounded(next, e.0@);
        }
        let key = &entries[i].0;
        let delta = entries[i].1;
        let ghost out0 = out@;
        match find_key(&out, key) {
            Some(idx) => {
                proof {
                    assert(views(entry_keys(out@))[idx as int] == key@);
                    assert(out@[idx as int].1 == key_total(pre, key@));
                }
                let cur = out[idx].1;
                let name = out[idx].0.clone();
                out.set(idx, (name, cur + delta));
                proof {
                    assert(views(entry_keys(pre)).contains(key@)) by {
                        lemma_dedup_props(entry_keys(pre));
                    }
                    assert(entry_keys(out@) =~= entry_keys(out0));
                    assert(next.last() == e);
                    assert(key_total(next, key@) == key_total(pre, key@) + delta);
                    assert(distinct_views(entry_keys(out0)));
                    assert forall|k: int| 0 <= k < out@.len() implies (#[trigger] out@[k]).1 == key_total(next, out@[k].0@) by {
                        if k != idx {
                            assert(out@[k] == out0[k]);
                            assert(entry_keys(out0)[k] == out0[k].0);
                            assert(entry_keys(out0)[idx as int] == out0[idx as int].0);
                            if k < idx {
                                assert(entry_keys(out0)[k]@ != entry_keys(out0)[idx as int]@);
                            } else {
                                assert(entry_keys(out0)[idx as int]@ != entry_keys(out0)[k]@);
                            }
                            assert(key_total(next, out0[k].0@) == key_total(pre, out0[k].0@));
                        }
                    }
                }
            },
            None => {
                proof {
                    lemma_dedup_props(entry_keys(pre));
                    lemma_key_total_absent(pre, key@);
                }
                out.push((key.clone(), delta));
                proof {
                    assert(entry_keys(out@) =~= entry_keys(out0).push(e.0));
                    assert forall|k: int| 0 <= k < out@.len() implies (#[trigger] out@[k]).1 == key_total(next, out@[k].0@) by {
                        if k < out0.len() {
                            assert(out@[k] == out0[k]);
                            assert(views(entry_keys(out0))[k] == out0[k].0@);
                        }
                    }
                }
            },
        }
        i = i + 1;
    }
    assert(entries@.take(entries.len() as int) =~= entries@);
    let ghost base = entry_keys(entries@);
    let mut j: usize = 0;
    while j < extra_keys.len()
        invariant
            j <= extra_keys.len(),
            base == entry_keys(entries@),
            entry_keys(out@) == dedup(base + extra_keys@.take(j as int)),
            forall|k: int| 0 <= k < out@.len() ==> (#[trigger] out@[k]).1 == key_total(entries@, out@[k].0@),
        decreases extra_keys.len() - j,
    {
        let ghost pre = base + extra_keys@.take(j as int);
        proof {
            assert((base + extra_keys@.take(j as int + 1)).drop_last() =~= pre);
            assert((base + extra_keys@.take(j as int + 1)).last() == extra_keys@[j as int]);
            lemma_dedup_props(pre);
        }
        let key = &extra_keys[j];
        let ghost out0 = out@;
        match find_key(&out, key) {
            Some(idx) => {
                proof {
                    assert(views(entry_keys(out@))[idx as int] == key@);
                }
            },
            None => {
                proof {
                    assert(!views(pre).contains(key@));
                    assert forall|k: int| 0 <= k < views(base).len() implies views(base)[k] != key@ by {
                        assert(views(pre)[k] == pre[k]@);
                        assert(views(pre)[k] == views(base)[k]);
                    }
                    assert(!views(entry_keys(entries@)).contains(key@)) by {
                        if views(entry_keys(entries@)).contains(key@) {
                            let k = choose|k: int| 0 <= k < views(base).len() && views(base)[k] == key@;
                        }
                    }
                    lemma_key_total_absent(entries@, key@);
                }
                out.push((key.clone(), 0));
                proof {
                    assert(entry_keys(out@) =~= entry_keys(out0).push(*key));
                    assert forall|k: int| 0 <= k < out@.len() implies (#[trigger] out@[k]).1 == key_total(entries@, out@[k].0@) by {
                        if k < out0.len() {
                            assert(out@[k] == out0[k]);
                        }
                    }
                }
            },
        }
        j = j + 1;
    }
    assert(extra_keys@.take(extra_keys.len() as int) =~= extra_keys@);
    out
}

} // verus!

verus! {

/// The (team, points) entries of the results that record points.
pub open spec fn points_entries(results: Seq<(String, Option<i64>)>) -> Seq<(String, i64)>
    decreases results.len(),
{
    if results.len() == 0 {
        seq![]
    } else {
        let rest = points_entries(results.drop_last());
        match results.last().1 {
            Some(p) => rest.push((results.last().0, p)),
            None => rest,
        }
    }
}

/// The points of each team over the results of the completed preliminary
/// rounds: every team of the tournament, and every team with a result,
/// with the sum of the points it was given (results without points count
/// nothing).
pub fn points_of_team(results: &Vec<(String, Option<i64>)>, team_ids: &Vec<String>) -> (r: Vec<(String, i64)>)
    requires
        abs_total(points_entries(results@)) <= i64::MAX,
    ensures
        entry_keys(r@) == dedup(entry_keys(points_entries(results@)) + team_ids@),
        forall|k: int|
            0 <= k < r@.len() ==> (#[trigger] r@[k]).1 == key_total(points_entries(results@), r@[k].0@),
{
    let mut entries: Vec<(String, i64)> = Vec::new();
    let mut i: usize = 0;
    while i < results.len()
        invariant
            i <= results.len(),
            entries@ == points_entries(results@.take(i as int)),
        decreases results.len() - i,
    {
        proof {
            assert(results@.take(i as int + 1).drop_last() =~= results@.take(i as int));
        }
        match results[i].1 {
            Some(p) => {
                entries.push((results[i].0.clone(), p));
            },
            None => {},
        }
        i = i + 1;
    }
    assert(results@.take(results.len() as int) =~= results@);
    sum_by_key(&entries, team_ids)
}

/// The team points one judge's ballot gives, as stored for the latest
/// version of each ballot.
pub struct BallotPointsRow {
    pub debate_id: String,
    pub judge_id: String,
    pub version: i64,
    pub ballot_id: String,
    pub team_id: String,
    pub points: i64,
}

/// The latest version among the rows of judge `j` in debate `d`.
pub open spec fn latest_version(rows: Seq<BallotPointsRow>, d: Seq<char>, j: Seq<char>) -> Option<i64>
    decreases rows.len(),
{
    if rows.len() == 0 {
        None
    } else {
        let p = latest_version(rows.drop_last(), d, j);
        let r = rows.last();
        if r.debate_id@ == d && r.judge_id@ == j {
            match p {
                Some(v) => Some(if v >= r.version { v } else { r.version }),
                None => Some(r.version),
            }
        } else {
            p
        }
    }
}

/// Whether ballot `b` is the latest version of its judge's ballot in its
/// debate (some row of it carries the latest version).
pub open spec fn is_latest_ballot(rows: Seq<BallotPointsRow>, b: Seq<char>) -> bool {
    exists|k: int|
        0 <= k < rows.len() && (#[trigger] rows[k]).ballot_id@ == b && latest_version(
            rows,
            rows[k].debate_id@,
            rows[k].judge_id@,
        ) == Some(rows[k].version)
}

/// The (team, points) entries of the rows of latest ballots, among the first
/// rows of `s`.
pub open spec fn latest_entries(rows: Seq<BallotPointsRow>, s: Seq<BallotPointsRow>) -> Seq<(String, i64)>
    decreases s.len(),
{
    if s.len() == 0 {
        seq![]
    } else {
        let rest = latest_entries(rows, s.drop_last());
        if is_latest_ballot(rows, s.last().ballot_id@) {
            rest.push((s.last().team_id, s.last().points))
        } else {
            rest
        }
    }
}

fn latest_version_of(rows: &Vec<BallotPointsRow>, d: &String, j: &String) -> (r: Option<i64>)
    ensures
        r == latest_version(rows@, d@, j@),
{
    let mut best: Option<i64> = None;
    let mut i: usize = 0;
    while i < rows.len()
        invariant
            i <= rows.len(),
            best == latest_version(rows@.take(i as int), d@, j@),
        decreases rows.len() - i,
    {
        proof {
            assert(rows@.take(i as int + 1).drop_last() =~= rows@.take(i as int));
        }
        let r = &rows[i];
        if r.debate_id == *d && r.judge_id == *j {
            best = match best {
                Some(v) => Some(if v >= r.version { v } else { r.version }),
                None => Some(r.version),
            };
        }
        i = i + 1;
    }
    assert(rows@.take(rows.len() as int) =~= rows@);
    best
}

/// The points of each team from the latest version of each judge's
/// ballots in the completed preliminary rounds: every team of the
/// tournament, and every team such a ballot ranks, with the sum of its
/// points.
pub fn ballot_points_of_team(rows: &Vec<BallotPointsRow>, team_ids: &Vec<String>) -> (r: Vec<(String, i64)>)
    requires
        abs_total(latest_entries(rows@, rows@)) <= i64::MAX,
    ensures
        entry_keys(r@) == dedup(entry_keys(latest_entries(rows@, rows@)) + team_ids@),
        forall|k: int|
            0 <= k < r@.len() ==> (#[trigger] r@[k]).1 == key_total(latest_entries(rows@, rows@), r@[k].0@),
{
    let mut latest_ids: Vec<String> = Vec::new();
    let mut i: usize = 0;
    while i < rows.len()
        invariant
            i <= rows.len(),
            forall|k: int|
                0 <= k < latest_ids@.len() ==> is_latest_ballot(rows@, (#[trigger] latest_ids@[k])@),
            forall|k: int|
                0 <= k < i && latest_version(rows@, rows@[k].debate_id@, rows@[k].judge_id@) == Some(rows@[k].version)
                    ==> views(latest_ids@).contains((#[trigger] rows@[k]).ballot_id@),
        decreases rows.len() - i,
    {
        let r = &rows[i];
        let latest = latest_version_of(rows, &r.debate_id, &r.judge_id);
        if latest == Some(r.version) {
            let ghost before = latest_ids@;
            latest_ids.push(r.ballot_id.clone());
            proof {
                assert(views(latest_ids@)[before.len() as int] == rows@[i as int].ballot_id@);
                assert forall|k: int|
                    0 <= k < i && latest_version(rows@, rows@[k].debate_id@, rows@[k].judge_id@) == Some(rows@[k].version)
                        implies views(latest_ids@).contains((#[trigger] rows@[k]).ballot_id@) by {
                    let m = choose|m: int| 0 <= m < views(before).len() && views(before)[m] == rows@[k].ballot_id@;
                    assert(views(latest_ids@)[m] == views(before)[m]);
                }
            }
        }
        i = i + 1;
    }
    let mut entries: Vec<(String, i64)> = Vec::new();
    let mut k: usize = 0;
    while k < rows.len()
        invariant
            k <= rows.len(),
            forall|m: int|
                0 <= m < latest_ids@.len() ==> is_latest_ballot(rows@, (#[trigger] latest_ids@[m])@),
            forall|m: int|
                0 <= m < rows@.len() && latest_version(rows@, rows@[m].debate_id@, rows@[m].judge_id@) == Some(rows@[m].version)
                    ==> views(latest_ids@).contains((#[trigger] rows@[m]).ballot_id@),
            entries@ == latest_entries(rows@, rows@.take(k as int)),
        decreases rows.len() - k,
    {
        proof {
            assert(rows@.take(k as int + 1).drop_last() =~= rows@.take(k as int));
        }
        let keep = contains_string(&latest_ids, &rows[k].ballot_id);
        proof {
            let b = rows@[k as int].ballot_id@;
            if keep {
                let m = choose|m: int| 0 <= m < views(latest_ids@).len() && views(latest_ids@)[m] == b;
                assert(is_latest_ballot(rows@, latest_ids@[m]@));
            } else {
                if is_latest_ballot(rows@, b) {
                    let w = choose|w: int|
                        0 <= w < rows@.len() && (#[trigger] rows@[w]).ballot_id@ == b && latest_version(
                            rows@,
                            rows@[w].debate_id@,
                            rows@[w].judge_id@,
                        ) == Some(rows@[w].version);
                    assert(views(latest_ids@).contains(rows@[w].ballot_id@));
                }
            }
        }
        if keep {
            entries.push((rows[k].team_id.clone(), rows[k].points));
        }
        k = k + 1;
    }
    assert(rows@.take(rows.len() as int) =~= rows@);
    sum_by_key(&entries, team_ids)
}

} // verus!

verus! {

/// The number of results of team `t` that gave it exactly `p` points.
pub open spec fn times_achieved(results: Seq<(String, Option<i64>)>, t: Seq<char>, p: int) -> int
    decreases results.len(),
{
    if results.len() == 0 {
        0
    } else {
        times_achieved(results.drop_last(), t, p) + if results.last().0@ == t && results.last().1 == Some(
            p as i64,
        ) {
            1int
        } else {
            0int
        }
    }
}

/// Whether a result is one of team `t` with exactly `p` points.
pub open spec fn result_with_points(t: Seq<char>, p: int) -> spec_fn((String, Option<i64>)) -> bool {
    |x: (String, Option<i64>)| x.0@ == t && x.1 is Some && x.1->0 == p
}

/// Whether a result is one of team `t`.
pub open spec fn result_of_team(t: Seq<char>) -> spec_fn((String, Option<i64>)) -> bool {
    |x: (String, Option<i64>)| x.0@ == t
}

/// The number of times a team took `p` points is the number of its results
/// with exactly `p` points: a result of the team with any other number of
/// points, or a result of another team, is not counted.
pub proof fn lemma_times_achieved_counts_exact(results: Seq<(String, Option<i64>)>, t: Seq<char>, p: int)
    requires
        i64::MIN <= p <= i64::MAX,
    ensures
        times_achieved(results, t, p) == results.filter(result_with_points(t, p)).len(),
    decreases results.len(),
{
    if results.len() > 0 {
        let d = results.drop_last();
        lemma_times_achieved_counts_exact(d, t, p);
        assert(d.push(results.last()) =~= results);
        d.lemma_filter_push(results.last(), result_with_points(t, p));
        assert(result_with_points(t, p)(results.last()) == (results.last().0@ == t && results.last().1 == Some(
            p as i64,
        )));
    }
}

/// A result counts towards at most one number of points: for two different
/// numbers of points, the times a team took the one and the times it took
/// the other add up to no more than the team's results.
pub proof fn lemma_times_achieved_disjoint(results: Seq<(String, Option<i64>)>, t: Seq<char>, p: int, q: int)
    requires
        p != q,
        i64::MIN <= p <= i64::MAX,
        i64::MIN <= q <= i64::MAX,
    ensures
        times_achieved(results, t, p) + times_achieved(results, t, q) <= results.filter(result_of_team(t)).len(),
    decreases results.len(),
{
    if results.len() > 0 {
        let d = results.drop_last();
        lemma_times_achieved_disjoint(d, t, p, q);
        assert(d.push(results.last()) =~= results);
        d.lemma_filter_push(results.last(), result_of_team(t));
    }
}

fn count_achieved(results: &Vec<(String, Option<i64>)>, t: &String, p: u8) -> (r: i64)
    requires
        results@.len() <= i64::MAX,
    ensures
        r == times_achieved(results@, t@, p as int),
{
    let mut n: i64 = 0;
    let mut i: usize = 0;
    while i < results.len()
        invariant
            i <= results.len(),
            results@.len() <= i64::MAX,
            n == times_achieved(results@.take(i as int), t@, p as int),
            0 <= n <= i,
        decreases results.len() - i,
    {
        proof {
            assert(results@.take(i as int + 1).drop_last() =~= results@.take(i as int));
        }
        if results[i].0 == *t && results[i].1 == Some(p as i64) {
            n = n + 1;
        }
        i = i + 1;
    }
    assert(results@.take(results.len() as int) =~= results@);
    n
}

/// The number of times each team of the tournament took exactly `p` points
/// in the completed preliminary rounds: one entry per team, in order.
pub fn times_team_achieved_p_points(p: u8, results: &Vec<(String, Option<i64>)>, team_ids: &Vec<String>) -> (r: Vec<
    (String, i64),
>)
    requires
        results@.len() <= i64::MAX,
    ensures
        entry_keys(r@) == dedup(team_ids@),
        forall|k: int| 0 <= k < r@.len() ==> (#[trigger] r@[k]).1 == times_achieved(results@, r@[k].0@, p as int),
{
    let mut out: Vec<(String, i64)> = Vec::new();
    let mut j: usize = 0;
    while j < team_ids.len()
        invariant
            j <= team_ids.len(),
            results@.len() <= i64::MAX,
            entry_keys(out@) == dedup(team_ids@.take(j as int)),
            forall|k: int| 0 <= k < out@.len() ==> (#[trigger] out@[k]).1 == times_achieved(results@, out@[k].0@, p as int),
        decreases team_ids.len() - j,
    {
        proof {
            assert(team_ids@.take(j as int + 1).drop_last() =~= team_ids@.take(j as int));
        }
        let t = &team_ids[j];
        let ghost out0 = out@;
        match find_key(&out, t) {
            Some(idx) => {
                proof {
                    assert(views(entry_keys(out@))[idx as int] == t@);
                }
            },
            None => {
                let n = count_achieved(results, t, p);
                out.push((t.clone(), n));
                proof {
                    assert(entry_keys(out@) =~= entry_keys(out0).push(*t));
                    assert forall|k: int| 0 <= k < out@.len() implies (#[trigger] out@[k]).1 == times_achieved(
                        results@,
                        out@[k].0@,
                        p as int,
                    ) by {
                        if k < out0.len() {
                            assert(out@[k] == out0[k]);
                        }
                    }
                }
            },
        }
        j = j + 1;
    }
    assert(team_ids@.take(team_ids.len() as int) =~= team_ids@);
    out
}

/// The points a list of team points gives team `t` (its first entry).
pub open spec fn points_in(points: Seq<(String, i64)>, t: Seq<char>) -> Option<i64> {
    match crate::seqs::first_match(points, |e: (String, i64)| e.0@ == t) {
        Some(e) => Some(e.1),
        None => None,
    }
}

/// The draw-strength entries of the `i`th row against the first `m` rows:
/// one entry for each row of the same debate with a different team, giving
/// the `i`th row's team the points of that team.
pub open spec fn ds_row_entries(rows: Seq<(String, String)>, points: Seq<(String, i64)>, i: int, m: int) -> Seq<
    (String, i64),
>
    decreases m,
{
    if m <= 0 {
        seq![]
    } else {
        ds_row_entries(rows, points, i, m - 1) + if rows[m - 1].0@ == rows[i].0@ && rows[m - 1].1@ != rows[i].1@ {
            seq![(rows[i].1, points_in(points, rows[m - 1].1@)->0)]
        } else {
            seq![]
        }
    }
}

/// The draw-strength entries of the first `n` rows.
pub open spec fn ds_entries(rows: Seq<(String, String)>, points: Seq<(String, i64)>, n: int) -> Seq<(String, i64)>
    decreases n,
{
    if n <= 0 {
        seq![]
    } else {
        ds_entries(rows, points, n - 1) + ds_row_entries(rows, points, n - 1, rows.len() as int)
    }
}

/// Every team that meets another team has points.
pub open spec fn opponents_have_points(rows: Seq<(String, String)>, points: Seq<(String, i64)>) -> bool {
    forall|i: int, j: int|
        0 <= i < rows.len() && 0 <= j < rows.len() && (#[trigger] rows[i]).0@ == (#[trigger] rows[j]).0@ && rows[i].1@
            != rows[j].1@ ==> points_in(points, rows[j].1@) is Some
}

fn lookup_points(points: &Vec<(String, i64)>, t: &String) -> (r: Option<i64>)
    ensures
        r == points_in(points@, t@),
{
    let mut i: usize = 0;
    while i < points.len()
        invariant
            i <= points.len(),
            forall|k: int| 0 <= k < i ==> !(|e: (String, i64)| e.0@ == t@)(#[trigger] points@[k]),
        decreases points.len() - i,
    {
        if points[i].0 == *t {
            proof {
                crate::seqs::lemma_first_match_at(points@, |e: (String, i64)| e.0@ == t@, i as int);
            }
            return Some(points[i].1);
        }
        i = i + 1;
    }
    proof {
        crate::seqs::lemma_first_match_at(points@, |e: (String, i64)| e.0@ == t@, i as int);
    }
    None
}

/// The draw strength of each team over the completed preliminary rounds,
/// from the (debate, team) rows of those rounds and the points of each
/// team: for every row of a team, the points of every other team in the
/// same debate. Only teams that met another team have an entry.
pub fn draw_strength_of_teams(rows: &Vec<(String, String)>, team_points: &Vec<(String, i64)>) -> (r: Vec<
    (String, i64),
>)
    requires
        opponents_have_points(rows@, team_points@),
        abs_total(ds_entries(rows@, team_points@, rows@.len() as int)) <= i64::MAX,
    ensures
        entry_keys(r@) == dedup(entry_keys(ds_entries(rows@, team_points@, rows@.len() as int))),
        forall|k: int|
            0 <= k < r@.len() ==> (#[trigger] r@[k]).1 == key_total(
                ds_entries(rows@, team_points@, rows@.len() as int),
                r@[k].0@,
            ),
{
    let mut entries: Vec<(String, i64)> = Vec::new();
    let mut i: usize = 0;
    while i < rows.len()
        invariant
            i <= rows.len(),
            opponents_have_points(rows@, team_points@),
            entries@ == ds_entries(rows@, team_points@, i as int),
        decreases rows.len() - i,
    {
        let ghost base = entries@;
        let mut j: usize = 0;
        while j < rows.len()
            invariant
                i < rows.len(),
                j <= rows.len(),
                opponents_have_points(rows@, team_points@),
                entries@ == base + ds_row_entries(rows@, team_points@, i as int, j as int),
            decreases rows.len() - j,
        {
            if rows[j].0 == rows[i].0 && rows[j].1 != rows[i].1 {
                let p = lookup_points(team_points, &rows[j].1);
                assert(points_in(team_points@, rows@[j as int].1@) is Some);
                entries.push((rows[i].1.clone(), p.unwrap()));
            }
            assert(entries@ =~= base + ds_row_entries(rows@, team_points@, i as int, j as int + 1));
            j = j + 1;
        }
        i = i + 1;
    }
    let none: Vec<String> = Vec::new();
    let r = sum_by_key(&entries, &none);
    assert(entry_keys(entries@) + none@ =~= entry_keys(entries@));
    r
}

} // verus!
