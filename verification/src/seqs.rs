//! Sequence operations that the rules are stated with: stable sorting by a
//! key, grouping of adjacent items with equal keys, and removal of repeated
//! strings.
use vstd::prelude::*;

verus! {

/// Inserts `x` into `r` after every item, counted from the end, whose key is
/// not greater than the key of `x`: on a sorted `r` this is the position at
/// which a stable sort places `x`.
pub open spec fn insert_by_key<T>(r: Seq<T>, x: T, key: spec_fn(T) -> int) -> Seq<T>
    decreases r.len(),
{
    if r.len() == 0 {
        seq![x]
    } else if key(r.last()) <= key(x) {
        r.push(x)
    } else {
        insert_by_key(r.drop_last(), x, key).push(r.last())
    }
}

/// The stable sort of `s` by ascending key: items with equal keys keep their
/// relative order.
pub open spec fn sort_by_key<T>(s: Seq<T>, key: spec_fn(T) -> int) -> Seq<T>
    decreases s.len(),
{
    if s.len() == 0 {
        seq![]
    } else {
        insert_by_key(sort_by_key(s.drop_last(), key), s.last(), key)
    }
}

/// Inserting at a position `j` such that every later item has a larger key,
/// and the item before it does not, is `insert_by_key`.
pub proof fn lemma_insert_by_key_at<T>(r: Seq<T>, x: T, key: spec_fn(T) -> int, j: int)
    requires
        0 <= j <= r.len(),
        forall|i: int| j <= i < r.len() ==> key(#[trigger] r[i]) > key(x),
        j > 0 ==> key(r[j - 1]) <= key(x),
    ensures
        insert_by_key(r, x, key) == r.insert(j, x),
    decreases r.len(),
{
    if r.len() == 0 {
        assert(r.insert(j, x) =~= seq![x]);
    } else if j == r.len() {
        assert(r.insert(j, x) =~= r.push(x));
    } else {
        assert(key(r.last()) > key(x));
        let d = r.drop_last();
        assert forall|i: int| j <= i < d.len() implies key(#[trigger] d[i]) > key(x) by {
            assert(d[i] == r[i]);
        }
        lemma_insert_by_key_at(d, x, key, j);
        assert(d.insert(j, x).push(r.last()) =~= r.insert(j, x));
    }
}

/// Insertion keeps every item and adds `x`.
pub proof fn lemma_insert_by_key_multiset<T>(r: Seq<T>, x: T, key: spec_fn(T) -> int)
    ensures
        insert_by_key(r, x, key).to_multiset() == r.to_multiset().insert(x),
        insert_by_key(r, x, key).len() == r.len() + 1,
    decreases r.len(),
{
    broadcast use vstd::seq_lib::group_to_multiset_ensures;
    if r.len() == 0 {
        assert(seq![x] =~= Seq::<T>::empty().push(x));
    } else if key(r.last()) <= key(x) {
    } else {
        lemma_insert_by_key_multiset(r.drop_last(), x, key);
        assert(r =~= r.drop_last().push(r.last()));
    }
}

/// Sorting keeps every item.
pub proof fn lemma_sort_by_key_multiset<T>(s: Seq<T>, key: spec_fn(T) -> int)
    ensures
        sort_by_key(s, key).to_multiset() == s.to_multiset(),
        sort_by_key(s, key).len() == s.len(),
    decreases s.len(),
{
    broadcast use vstd::seq_lib::group_to_multiset_ensures;
    if s.len() > 0 {
        lemma_sort_by_key_multiset(s.drop_last(), key);
        lemma_insert_by_key_multiset(sort_by_key(s.drop_last(), key), s.last(), key);
        assert(s =~= s.drop_last().push(s.last()));
    }
}

/// Every item of an insertion is `x` or an item of `r`.
pub proof fn lemma_insert_by_key_items<T>(r: Seq<T>, x: T, key: spec_fn(T) -> int)
    ensures
        insert_by_key(r, x, key).len() == r.len() + 1,
        forall|i: int|
            0 <= i < insert_by_key(r, x, key).len() ==> #[trigger] insert_by_key(r, x, key)[i] == x
                || r.contains(insert_by_key(r, x, key)[i]),
    decreases r.len(),
{
    if r.len() == 0 {
    } else if key(r.last()) <= key(x) {
        assert forall|i: int| 0 <= i < r.len() implies r.contains(#[trigger] r.push(x)[i]) by {
            assert(r.push(x)[i] == r[i]);
        }
    } else {
        let d = r.drop_last();
        lemma_insert_by_key_items(d, x, key);
        let q = insert_by_key(d, x, key);
        assert forall|i: int| 0 <= i < q.push(r.last()).len() implies #[trigger] q.push(r.last())[i] == x
            || r.contains(q.push(r.last())[i]) by {
            if i < q.len() {
                if q[i] != x {
                    let k = choose|k: int| 0 <= k < d.len() && d[k] == q[i];
                    assert(r[k] == d[k]);
                }
            } else {
                assert(r[r.len() - 1] == r.last());
            }
        }
    }
}

/// Insertion into a sequence sorted by key keeps it sorted.
pub proof fn lemma_insert_by_key_sorted<T>(r: Seq<T>, x: T, key: spec_fn(T) -> int)
    requires
        forall|i: int, j: int| 0 <= i <= j < r.len() ==> key(#[trigger] r[i]) <= key(#[trigger] r[j]),
    ensures
        forall|i: int, j: int|
            0 <= i <= j < insert_by_key(r, x, key).len() ==> key(
                #[trigger] insert_by_key(r, x, key)[i],
            ) <= key(#[trigger] insert_by_key(r, x, key)[j]),
    decreases r.len(),
{
    lemma_insert_by_key_items(r, x, key);
    if r.len() == 0 {
    } else if key(r.last()) <= key(x) {
        assert forall|i: int| 0 <= i < r.len() implies key(#[trigger] r[i]) <= key(x) by {
            assert(key(r[i]) <= key(r[r.len() - 1]));
        }
    } else {
        let d = r.drop_last();
        lemma_insert_by_key_sorted(d, x, key);
        lemma_insert_by_key_items(d, x, key);
        let q = insert_by_key(d, x, key);
        assert forall|i: int| 0 <= i < q.len() implies key(#[trigger] q[i]) <= key(r.last()) by {
            if q[i] != x {
                let k = choose|k: int| 0 <= k < d.len() && d[k] == q[i];
                assert(r[k] == d[k]);
                assert(key(r[k]) <= key(r[r.len() - 1]));
            }
        }
    }
}

/// A stable sort is sorted by its key.
pub proof fn lemma_sort_by_key_sorted<T>(s: Seq<T>, key: spec_fn(T) -> int)
    ensures
        forall|i: int, j: int|
            0 <= i <= j < sort_by_key(s, key).len() ==> key(#[trigger] sort_by_key(s, key)[i]) <= key(
                #[trigger] sort_by_key(s, key)[j],
            ),
    decreases s.len(),
{
    if s.len() > 0 {
        lemma_sort_by_key_sorted(s.drop_last(), key);
        lemma_insert_by_key_sorted(sort_by_key(s.drop_last(), key), s.last(), key);
    }
}

/// Groups adjacent items whose keys are equal, keeping their order.
pub open spec fn chunk_by_key<T>(s: Seq<T>, key: spec_fn(T) -> int) -> Seq<Seq<T>>
    decreases s.len(),
{
    if s.len() == 0 {
        seq![]
    } else {
        let c = chunk_by_key(s.drop_last(), key);
        if c.len() > 0 && key(c.last().last()) == key(s.last()) {
            c.update(c.len() - 1, c.last().push(s.last()))
        } else {
            c.push(seq![s.last()])
        }
    }
}

/// The chunks of a sequence are non-empty, each of a single key, and
/// together give back the sequence.
pub proof fn lemma_chunk_by_key_shape<T>(s: Seq<T>, key: spec_fn(T) -> int)
    ensures
        forall|k: int| 0 <= k < chunk_by_key(s, key).len() ==> #[trigger] chunk_by_key(s, key)[k].len() > 0,
        forall|k: int, i: int|
            0 <= k < chunk_by_key(s, key).len() && 0 <= i < chunk_by_key(s, key)[k].len() ==> key(
                #[trigger] chunk_by_key(s, key)[k][i],
            ) == key(chunk_by_key(s, key)[k][0]),
        chunk_by_key(s, key).len() > 0 ==> chunk_by_key(s, key).last().last() == s.last(),
        chunk_by_key(s, key).len() == 0 <==> s.len() == 0,
    decreases s.len(),
{
    if s.len() > 0 {
        lemma_chunk_by_key_shape(s.drop_last(), key);
    }
}

/// The first item of `s` that satisfies `p`.
pub open spec fn first_match<T>(s: Seq<T>, p: spec_fn(T) -> bool) -> Option<T>
    decreases s.len(),
{
    if s.len() == 0 {
        None
    } else if p(s[0]) {
        Some(s[0])
    } else {
        first_match(s.drop_first(), p)
    }
}

/// Where no item before `i` satisfies `p`, the first match is the item at
/// `i` when it satisfies `p`, and there is none when `i` is the end.
pub proof fn lemma_first_match_at<T>(s: Seq<T>, p: spec_fn(T) -> bool, i: int)
    requires
        0 <= i <= s.len(),
        forall|j: int| 0 <= j < i ==> !p(#[trigger] s[j]),
    ensures
        i == s.len() ==> first_match(s, p) is None,
        i < s.len() && p(s[i]) ==> first_match(s, p) == Some(s[i]),
    decreases i,
{
    if i > 0 {
        let d = s.drop_first();
        assert forall|j: int| 0 <= j < i - 1 implies !p(#[trigger] d[j]) by {
            assert(d[j] == s[j + 1]);
        }
        lemma_first_match_at(d, p, i - 1);
    }
}

/// A match exists exactly when the first match does, and the first match
/// satisfies `p` and is an item of `s`.
pub proof fn lemma_first_match_exists<T>(s: Seq<T>, p: spec_fn(T) -> bool)
    ensures
        (exists|j: int| 0 <= j < s.len() && p(#[trigger] s[j])) <==> first_match(s, p) is Some,
        first_match(s, p) matches Some(x) ==> p(x) && s.contains(x),
    decreases s.len(),
{
    if s.len() > 0 {
        let d = s.drop_first();
        lemma_first_match_exists(d, p);
        if exists|j: int| 0 <= j < s.len() && p(#[trigger] s[j]) {
            let j = choose|j: int| 0 <= j < s.len() && p(#[trigger] s[j]);
            if j > 0 {
                assert(d[j - 1] == s[j]);
            }
        }
        if !p(s[0]) && first_match(d, p) is Some {
            let j = choose|j: int| 0 <= j < d.len() && p(#[trigger] d[j]);
            assert(s[j + 1] == d[j]);
            let x = first_match(d, p)->0;
            let k = choose|k: int| 0 <= k < d.len() && d[k] == x;
            assert(s[k + 1] == d[k]);
        }
        if p(s[0]) {
            assert(s[0] == s[0]);
            assert(s.contains(s[0]));
        }
    }
}

/// The last item of `s` that satisfies `p`.
pub open spec fn last_match<T>(s: Seq<T>, p: spec_fn(T) -> bool) -> Option<T>
    decreases s.len(),
{
    if s.len() == 0 {
        None
    } else if p(s.last()) {
        Some(s.last())
    } else {
        last_match(s.drop_last(), p)
    }
}

/// Where no item after `i` satisfies `p`, the last match is the item at
/// `i` when it satisfies `p`.
pub proof fn lemma_last_match_at<T>(s: Seq<T>, p: spec_fn(T) -> bool, i: int)
    requires
        0 <= i < s.len(),
        p(s[i]),
        forall|j: int| i < j < s.len() ==> !p(#[trigger] s[j]),
    ensures
        last_match(s, p) == Some(s[i]),
    decreases s.len(),
{
    if i < s.len() - 1 {
        let d = s.drop_last();
        assert forall|j: int| i < j < d.len() implies !p(#[trigger] d[j]) by {
            assert(d[j] == s[j]);
        }
        lemma_last_match_at(d, p, i);
    }
}

/// Where no item satisfies `p`, there is no last match.
pub proof fn lemma_last_match_none<T>(s: Seq<T>, p: spec_fn(T) -> bool)
    requires
        forall|j: int| 0 <= j < s.len() ==> !p(#[trigger] s[j]),
    ensures
        last_match(s, p) is None,
    decreases s.len(),
{
    if s.len() > 0 {
        let d = s.drop_last();
        assert forall|j: int| 0 <= j < d.len() implies !p(#[trigger] d[j]) by {
            assert(d[j] == s[j]);
        }
        lemma_last_match_none(d, p);
    }
}

/// Appending a block of items of one key, different from the key of the
/// last item before it, adds the block as a group of its own.
pub proof fn lemma_chunk_append_block<T>(a: Seq<T>, b: Seq<T>, key: spec_fn(T) -> int)
    requires
        b.len() > 0,
        forall|i: int| 0 <= i < b.len() ==> key(#[trigger] b[i]) == key(b[0]),
        a.len() > 0 ==> key(a.last()) != key(b[0]),
    ensures
        chunk_by_key(a + b, key) == chunk_by_key(a, key).push(b),
    decreases b.len(),
{
    lemma_chunk_by_key_shape(a, key);
    if b.len() == 1 {
        assert((a + b).drop_last() =~= a);
        assert(seq![(a + b).last()] =~= b);
    } else {
        let b2 = b.drop_last();
        assert forall|i: int| 0 <= i < b2.len() implies key(#[trigger] b2[i]) == key(b2[0]) by {
            assert(b2[i] == b[i]);
        }
        lemma_chunk_append_block(a, b2, key);
        assert((a + b).drop_last() =~= a + b2);
        assert((a + b).last() == b[b.len() - 1]);
        assert(b2.push(b[b.len() - 1]) =~= b);
        let c = chunk_by_key(a, key).push(b2);
        assert(c.last().last() == b2[b2.len() - 1]);
        assert(c.update(c.len() - 1, c.last().push(b[b.len() - 1])) =~= chunk_by_key(a, key).push(b));
    }
}

/// The strings of `s` with every string equal to an earlier one left out.
pub open spec fn dedup(s: Seq<String>) -> Seq<String>
    decreases s.len(),
{
    if s.len() == 0 {
        seq![]
    } else {
        let u = dedup(s.drop_last());
        if views(u).contains(s.last()@) {
            u
        } else {
            u.push(s.last())
        }
    }
}

/// Whether no two strings of `s` are equal.
pub open spec fn distinct_views(s: Seq<String>) -> bool {
    forall|i: int, j: int| 0 <= i < j < s.len() ==> (#[trigger] s[i])@ != (#[trigger] s[j])@
}

/// The strings kept by `dedup` are distinct, and a string occurs in the
/// result exactly when it occurs in `s`.
pub proof fn lemma_dedup_props(s: Seq<String>)
    ensures
        distinct_views(dedup(s)),
        forall|x: Seq<char>| views(dedup(s)).contains(x) <==> views(s).contains(x),
    decreases s.len(),
{
    if s.len() > 0 {
        let d = s.drop_last();
        lemma_dedup_props(d);
        let u = dedup(d);
        assert forall|x: Seq<char>| views(d).contains(x) || x == s.last()@ <==> views(s).contains(x) by {
            if views(d).contains(x) {
                let k = choose|k: int| 0 <= k < views(d).len() && views(d)[k] == x;
                assert(views(s)[k] == x);
            }
            if x == s.last()@ {
                assert(views(s)[s.len() - 1] == x);
            }
            if views(s).contains(x) {
                let k = choose|k: int| 0 <= k < views(s).len() && views(s)[k] == x;
                if k < s.len() - 1 {
                    assert(views(d)[k] == x);
                }
            }
        }
        if !views(u).contains(s.last()@) {
            let u2 = u.push(s.last());
            assert forall|i: int, j: int| 0 <= i < j < u2.len() implies (#[trigger] u2[i])@ != (#[trigger] u2[j])@ by {
                if j == u2.len() - 1 {
                    assert(views(u)[i] == u[i]@);
                }
            }
            assert forall|x: Seq<char>| views(u2).contains(x) <==> views(u).contains(x) || x == s.last()@ by {
                if views(u2).contains(x) {
                    let k = choose|k: int| 0 <= k < views(u2).len() && views(u2)[k] == x;
                    if k < u.len() {
                        assert(views(u)[k] == x);
                    }
                }
                if views(u).contains(x) {
                    let k = choose|k: int| 0 <= k < views(u).len() && views(u)[k] == x;
                    assert(views(u2)[k] == x);
                }
                if x == s.last()@ {
                    assert(views(u2)[u.len() as int] == x);
                }
            }
        }
    }
}

/// The views of a sequence of strings.
pub open spec fn views(s: Seq<String>) -> Seq<Seq<char>> {
    s.map_values(|x: String| x@)
}

/// Whether `v` holds a string equal to `x`.
pub fn contains_string(v: &Vec<String>, x: &String) -> (r: bool)
    ensures
        r == views(v@).contains(x@),
{
    let mut i: usize = 0;
    while i < v.len()
        invariant
            i <= v.len(),
            forall|k: int| 0 <= k < i ==> v@[k]@ != x@,
        decreases v.len() - i,
    {
        if v[i] == *x {
            assert(views(v@)[i as int] == x@);
            return true;
        }
        i = i + 1;
    }
    assert forall|k: int| 0 <= k < views(v@).len() implies views(v@)[k] != x@ by {
        assert(views(v@)[k] == v@[k]@);
    }
    false
}

/// Pushes `x` unless an equal string is already present.
pub fn push_unique(v: &mut Vec<String>, x: String)
    ensures
        final(v)@ == if views(old(v)@).contains(x@) {
            old(v)@
        } else {
            old(v)@.push(x)
        },
{
    if !contains_string(v, &x) {
        v.push(x);
    }
}

} // verus!
