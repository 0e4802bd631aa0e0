//! Stable sorting by an integer rank.

use vstd::prelude::*;

verus! {

/// `s` with `x` put behind the last element whose rank is not above that of
/// `x`. In a sequence in rank order that keeps the order, and puts `x` behind
/// its equals.
pub open spec fn insert_by_rank<T>(s: Seq<T>, x: T, rank: spec_fn(T) -> int) -> Seq<T>
    decreases s.len(),
{
    if s.len() == 0 || rank(s.last()) <= rank(x) {
        s.push(x)
    } else {
        insert_by_rank(s.drop_last(), x, rank).push(s.last())
    }
}

/// The elements of `s` in ascending order of rank, equals in the order in which
/// they stand in `s`. [`law_stable_sort`] and [`law_stable_sort_unique`] say
/// that this is what it is.
pub open spec fn stable_sort<T>(s: Seq<T>, rank: spec_fn(T) -> int) -> Seq<T>
    decreases s.len(),
{
    if s.len() == 0 {
        s
    } else {
        insert_by_rank(stable_sort(s.drop_last(), rank), s.last(), rank)
    }
}

/// Whether `s` is in ascending order of rank.
pub open spec fn in_rank_order<T>(s: Seq<T>, rank: spec_fn(T) -> int) -> bool {
    forall|i: int, j: int| 0 <= i <= j < s.len() ==> rank(#[trigger] s[i]) <= rank(#[trigger] s[j])
}

/// Being of rank `r`.
pub open spec fn rank_is<T>(rank: spec_fn(T) -> int, r: int) -> spec_fn(T) -> bool {
    |x: T| rank(x) == r
}

/// The elements of `s` of rank `r`, in the order in which they stand in `s`.
pub open spec fn having_rank<T>(s: Seq<T>, rank: spec_fn(T) -> int, r: int) -> Seq<T> {
    s.filter(rank_is(rank, r))
}

/// The rank of a pair that carries its rank in front.
pub open spec fn carried_rank<T>() -> spec_fn((i64, T)) -> int {
    |p: (i64, T)| p.0 as int
}

proof fn lemma_insert_order<T>(s: Seq<T>, x: T, rank: spec_fn(T) -> int)
    requires
        in_rank_order(s, rank),
    ensures
        in_rank_order(insert_by_rank(s, x, rank), rank),
        insert_by_rank(s, x, rank).len() == s.len() + 1,
        forall|i: int|
            0 <= i <= s.len() ==> (#[trigger] insert_by_rank(s, x, rank)[i] == x || s.contains(
                insert_by_rank(s, x, rank)[i],
            )),
    decreases s.len(),
{
    let out = insert_by_rank(s, x, rank);
    if s.len() == 0 || rank(s.last()) <= rank(x) {
        assert forall|i: int| 0 <= i <= s.len() implies (#[trigger] out[i] == x || s.contains(
            out[i],
        )) by {
            if i < s.len() {
                assert(out[i] == s[i]);
            }
        }
    } else {
        let rest = s.drop_last();
        let inner = insert_by_rank(rest, x, rank);
        lemma_insert_order(rest, x, rank);
        assert forall|i: int| 0 <= i <= s.len() implies (#[trigger] out[i] == x || s.contains(
            out[i],
        )) && rank(out[i]) <= rank(s.last()) by {
            if i < s.len() {
                assert(out[i] == inner[i]);
                if inner[i] != x {
                    let k = choose|k: int| 0 <= k < rest.len() && rest[k] == inner[i];
                    assert(s[k] == inner[i]);
                }
            } else {
                assert(s[s.len() - 1] == out[i]);
            }
        }
    }
}

proof fn lemma_insert_content<T>(s: Seq<T>, x: T, rank: spec_fn(T) -> int)
    ensures
        insert_by_rank(s, x, rank).to_multiset() == s.push(x).to_multiset(),
        in_rank_order(s, rank) ==> forall|r: int|
            having_rank(insert_by_rank(s, x, rank), rank, r) == #[trigger] having_rank(
                s.push(x),
                rank,
                r,
            ),
    decreases s.len(),
{
    broadcast use vstd::seq_lib::group_to_multiset_ensures;
    if s.len() == 0 || rank(s.last()) <= rank(x) {
    } else {
        let rest = s.drop_last();
        let inner = insert_by_rank(rest, x, rank);
        lemma_insert_content(rest, x, rank);
        assert(rest.push(s.last()) == s);
        assert(insert_by_rank(s, x, rank).to_multiset() =~= s.push(x).to_multiset());
        if in_rank_order(s, rank) {
            assert(in_rank_order(rest, rank)) by {
                assert(forall|i: int| 0 <= i < rest.len() ==> #[trigger] rest[i] == s[i]);
            }
            assert forall|r: int|
                having_rank(insert_by_rank(s, x, rank), rank, r) == #[trigger] having_rank(
                    s.push(x),
                    rank,
                    r,
                ) by {
                let p = rank_is(rank, r);
                inner.lemma_filter_push(s.last(), p);
                rest.lemma_filter_push(x, p);
                s.lemma_filter_push(x, p);
                rest.lemma_filter_push(s.last(), p);
                assert(having_rank(inner, rank, r) == having_rank(rest.push(x), rank, r));
            }
        }
    }
}

/// A stable sort puts the elements in rank order, loses none and adds none, and
/// leaves those of one rank in the order in which they stood.
pub proof fn law_stable_sort<T>(s: Seq<T>, rank: spec_fn(T) -> int)
    ensures
        in_rank_order(stable_sort(s, rank), rank),
        stable_sort(s, rank).to_multiset() == s.to_multiset(),
        stable_sort(s, rank).len() == s.len(),
        forall|r: int| #[trigger]
            having_rank(stable_sort(s, rank), rank, r) == having_rank(s, rank, r),
    decreases s.len(),
{
    broadcast use vstd::seq_lib::group_to_multiset_ensures;
    if s.len() > 0 {
        let rest = s.drop_last();
        let sorted = stable_sort(rest, rank);
        law_stable_sort(rest, rank);
        lemma_insert_order(sorted, s.last(), rank);
        lemma_insert_content(sorted, s.last(), rank);
        assert(rest.push(s.last()) == s);
        assert forall|r: int| #[trigger]
            having_rank(stable_sort(s, rank), rank, r) == having_rank(s, rank, r) by {
            let p = rank_is(rank, r);
            sorted.lemma_filter_push(s.last(), p);
            rest.lemma_filter_push(s.last(), p);
            assert(having_rank(sorted, rank, r) == having_rank(rest, rank, r));
            assert(having_rank(sorted.push(s.last()), rank, r) == having_rank(s, rank, r));
        }
    }
}

proof fn lemma_last_of_rank<T>(s: Seq<T>, rank: spec_fn(T) -> int)
    requires
        s.len() > 0,
    ensures
        having_rank(s, rank, rank(s.last())).len() > 0,
        having_rank(s, rank, rank(s.last())).last() == s.last(),
        forall|r: int| #[trigger]
            having_rank(s.drop_last(), rank, r) == (if r == rank(s.last()) {
                having_rank(s, rank, r).drop_last()
            } else {
                having_rank(s, rank, r)
            }),
{
    let rest = s.drop_last();
    assert(rest.push(s.last()) == s);
    assert forall|r: int| #[trigger]
        having_rank(rest, rank, r) == (if r == rank(s.last()) {
            having_rank(s, rank, r).drop_last()
        } else {
            having_rank(s, rank, r)
        }) by {
        rest.lemma_filter_push(s.last(), rank_is(rank, r));
        assert(having_rank(rest, rank, r).push(s.last()).drop_last() == having_rank(rest, rank, r));
    }
    rest.lemma_filter_push(s.last(), rank_is(rank, rank(s.last())));
}

proof fn lemma_rank_order_determines<T>(t: Seq<T>, u: Seq<T>, rank: spec_fn(T) -> int)
    requires
        in_rank_order(t, rank),
        in_rank_order(u, rank),
        forall|r: int| #[trigger] having_rank(t, rank, r) == having_rank(u, rank, r),
    ensures
        t == u,
    decreases t.len(),
{
    broadcast use vstd::seq_lib::group_filter_ensures;
    if t.len() == 0 {
        if u.len() > 0 {
            lemma_last_of_rank(u, rank);
            let r = rank(u.last());
            assert(having_rank(t, rank, r).len() > 0);
            assert(t.filter(rank_is(rank, r)).len() <= t.len());
        }
        assert(t == u);
    } else {
        lemma_last_of_rank(t, rank);
        let r = rank(t.last());
        assert(having_rank(u, rank, r).len() > 0);
        assert(u.filter(rank_is(rank, r)).len() <= u.len());
        lemma_last_of_rank(u, rank);
        let q = rank(u.last());
        // The last of each is of the highest rank in it, and each has an
        // element of the other's highest rank.
        assert(q <= r) by {
            let f = rank_is(rank, q);
            let g = t.filter(f);
            assert(g == having_rank(t, rank, q));
            assert(g.len() > 0);
            assert(f(g[0]));
            assert(g.contains(g[0]));
            t.lemma_filter_contains_rev(f, g[0]);
            let i = choose|i: int| 0 <= i < t.len() && t[i] == g[0];
            assert(rank(t[i]) <= rank(t[t.len() - 1]));
        }
        assert(r <= q) by {
            let f = rank_is(rank, r);
            let g = u.filter(f);
            assert(g == having_rank(u, rank, r));
            assert(g.len() > 0);
            assert(f(g[0]));
            assert(g.contains(g[0]));
            u.lemma_filter_contains_rev(f, g[0]);
            let i = choose|i: int| 0 <= i < u.len() && u[i] == g[0];
            assert(rank(u[i]) <= rank(u[u.len() - 1]));
        }
        assert(t.last() == u.last());
        let tt = t.drop_last();
        let uu = u.drop_last();
        assert(forall|i: int| 0 <= i < tt.len() ==> #[trigger] tt[i] == t[i]);
        assert(forall|i: int| 0 <= i < uu.len() ==> #[trigger] uu[i] == u[i]);
        assert forall|k: int| #[trigger]
            having_rank(tt, rank, k) == having_rank(uu, rank, k) by {
            assert(having_rank(t, rank, k) == having_rank(u, rank, k));
        }
        lemma_rank_order_determines(tt, uu, rank);
        assert(tt.push(t.last()) == t);
        assert(uu.push(u.last()) == u);
    }
}

/// Rank order together with the order among equals determines the sequence: a
/// sequence in rank order that holds, for each rank, the elements of `s` of
/// that rank in their order is the stable sort of `s`.
pub proof fn law_stable_sort_unique<T>(s: Seq<T>, t: Seq<T>, rank: spec_fn(T) -> int)
    requires
        in_rank_order(t, rank),
        forall|r: int| #[trigger] having_rank(t, rank, r) == having_rank(s, rank, r),
    ensures
        t == stable_sort(s, rank),
{
    law_stable_sort(s, rank);
    assert forall|r: int| #[trigger]
        having_rank(t, rank, r) == having_rank(stable_sort(s, rank), rank, r) by {
        assert(having_rank(stable_sort(s, rank), rank, r) == having_rank(s, rank, r));
    }
    lemma_rank_order_determines(t, stable_sort(s, rank), rank);
}

proof fn lemma_insert_map<T, U>(
    s: Seq<T>,
    x: T,
    f: spec_fn(T) -> U,
    rank: spec_fn(T) -> int,
    mapped_rank: spec_fn(U) -> int,
)
    requires
        forall|y: T| mapped_rank(#[trigger] f(y)) == rank(y),
    ensures
        insert_by_rank(s.map_values(f), f(x), mapped_rank) == insert_by_rank(
            s,
            x,
            rank,
        ).map_values(f),
    decreases s.len(),
{
    let m = s.map_values(f);
    if s.len() == 0 || rank(s.last()) <= rank(x) {
        assert(s.push(x).map_values(f) == m.push(f(x)));
    } else {
        let rest = s.drop_last();
        lemma_insert_map(rest, x, f, rank, mapped_rank);
        assert(m.drop_last() == rest.map_values(f));
        assert(m.last() == f(s.last()));
        let inner = insert_by_rank(rest, x, rank);
        assert(inner.push(s.last()).map_values(f) == inner.map_values(f).push(f(s.last())));
    }
}

/// Sorting commutes with a map that keeps the rank of every element.
pub proof fn lemma_stable_sort_map<T, U>(
    s: Seq<T>,
    f: spec_fn(T) -> U,
    rank: spec_fn(T) -> int,
    mapped_rank: spec_fn(U) -> int,
)
    requires
        forall|y: T| mapped_rank(#[trigger] f(y)) == rank(y),
    ensures
        stable_sort(s.map_values(f), mapped_rank) == stable_sort(s, rank).map_values(f),
    decreases s.len(),
{
    let m = s.map_values(f);
    if s.len() == 0 {
        assert(m == stable_sort(s, rank).map_values(f));
    } else {
        let rest = s.drop_last();
        lemma_stable_sort_map(rest, f, rank, mapped_rank);
        assert(m.drop_last() == rest.map_values(f));
        assert(m.last() == f(s.last()));
        lemma_insert_map(stable_sort(rest, rank), s.last(), f, rank, mapped_rank);
    }
}

proof fn lemma_insert_position<T>(s: Seq<T>, x: T, rank: spec_fn(T) -> int, pos: int)
    requires
        0 <= pos <= s.len(),
        pos > 0 ==> rank(s[pos - 1]) <= rank(x),
        forall|i: int| pos <= i < s.len() ==> rank(#[trigger] s[i]) > rank(x),
    ensures
        insert_by_rank(s, x, rank) == s.insert(pos, x),
    decreases s.len(),
{
    if pos == s.len() {
        assert(s.insert(pos, x) == s.push(x));
    } else {
        let rest = s.drop_last();
        assert(rank(s[s.len() - 1]) > rank(x));
        lemma_insert_position(rest, x, rank, pos);
        assert(s.insert(pos, x) == rest.insert(pos, x).push(s.last()));
    }
}

/// Sorts pairs by the rank that each carries in front, by insertion: a decoded
/// picture buffer holds a handful of entries.
pub(crate) fn sort_by_rank<T: Copy>(items: &Vec<(i64, T)>) -> (r: Vec<(i64, T)>)
    ensures
        r@ == stable_sort(items@, carried_rank::<T>()),
{
    let mut out: Vec<(i64, T)> = Vec::new();
    let mut i: usize = 0;
    while i < items.len()
        invariant
            i <= items@.len(),
            out@.len() == i,
            out@ == stable_sort(items@.take(i as int), carried_rank::<T>()),
        decreases items@.len() - i,
    {
        let x: (i64, T) = items[i];
        let mut pos: usize = out.len();
        while pos > 0 && out[pos - 1].0 > x.0
            invariant
                pos <= out@.len(),
                forall|j: int| pos <= j < out@.len() ==> (#[trigger] out@[j]).0 > x.0,
            decreases pos,
        {
            pos = pos - 1;
        }
        proof {
            let prefix = items@.take(i as int);
            lemma_insert_position(out@, x, carried_rank::<T>(), pos as int);
            assert(items@.take(i + 1).drop_last() == prefix);
            assert(items@.take(i + 1).last() == x);
        }
        out.insert(pos, x);
        i = i + 1;
    }
    assert(items@.take(items@.len() as int) == items@);
    out
}

} // verus!
