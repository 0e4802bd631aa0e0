//! Which entries of the DPB stand at which positions of the initial lists of a
//! frame.
//!
//! Each law hands out the index in the DPB that every position of a list stands
//! for, and says of those indices what puts one in front of another.

use vstd::prelude::*;

use crate::init::{
    b_frame_order0, b_frame_order1, initial_list_p, initial_lists_b, keys_of, p_frame_order,
    Choice, EntryOrder,
};
use crate::picture::{current_picture, frame_num_wrap, DpbEntry, PicStructure};
use crate::picture_laws::law_frame_num_wrap;
use crate::sort::{insert_by_rank, lemma_stable_sort_map, stable_sort};

verus! {

/// The indices of the elements that `p` holds of, ascending.
pub open spec fn hits<T>(s: Seq<T>, p: spec_fn(T) -> bool) -> Seq<int>
    decreases s.len(),
{
    if s.len() == 0 {
        Seq::empty()
    } else if p(s.last()) {
        hits(s.drop_last(), p).push(s.len() - 1)
    } else {
        hits(s.drop_last(), p)
    }
}

/// The hits are what a filter keeps.
pub proof fn lemma_hits<T>(s: Seq<T>, p: spec_fn(T) -> bool)
    ensures
        forall|k: int|
            0 <= k < hits(s, p).len() ==> 0 <= #[trigger] hits(s, p)[k] < s.len() && p(
                s[hits(s, p)[k]],
            ),
        forall|k: int, l: int|
            0 <= k < l < hits(s, p).len() ==> #[trigger] hits(s, p)[k] < #[trigger] hits(s, p)[l],
        forall|i: int| 0 <= i < s.len() && p(#[trigger] s[i]) ==> hits(s, p).contains(i),
        hits(s, p).map_values(|i: int| s[i]) == s.filter(p),
    decreases s.len(),
{
    reveal(Seq::filter);
    let f = |i: int| s[i];
    if s.len() > 0 {
        let rest = s.drop_last();
        let last = s.len() - 1;
        let inner = hits(rest, p);
        let all = hits(s, p);
        lemma_hits(rest, p);
        assert(inner.map_values(f) =~= inner.map_values(|i: int| rest[i])) by {
            assert forall|k: int| 0 <= k < inner.len() implies f(inner[k]) == rest[inner[k]] by {
                assert(0 <= inner[k] < rest.len());
            }
        }
        if p(s.last()) {
            inner.lemma_push_map_commute(f, last);
        }
        assert forall|k: int| 0 <= k < all.len() implies 0 <= #[trigger] all[k] < s.len() && p(
            s[all[k]],
        ) by {
            if k < inner.len() {
                assert(all[k] == inner[k]);
                assert(rest[inner[k]] == s[inner[k]]);
            }
        }
        assert forall|k: int, l: int| 0 <= k < l < all.len() implies #[trigger] all[k]
            < #[trigger] all[l] by {
            assert(all[k] == inner[k]);
            if l < inner.len() {
                assert(all[l] == inner[l]);
            }
        }
        assert forall|i: int| 0 <= i < s.len() && p(#[trigger] s[i]) implies all.contains(i) by {
            if i < last {
                assert(rest[i] == s[i]);
                let k = choose|k: int| 0 <= k < inner.len() && inner[k] == i;
                assert(all[k] == i);
            } else {
                assert(all[inner.len() as int] == i);
            }
        }
    } else {
        assert(hits(s, p).map_values(f) =~= s.filter(p));
    }
}

/// Whether index `i` comes in front of index `j`: by rank, and by position among
/// equals.
pub open spec fn ranked_before(rank: spec_fn(int) -> int, i: int, j: int) -> bool {
    rank(i) < rank(j) || (rank(i) == rank(j) && i < j)
}

proof fn lemma_insert_index(t: Seq<int>, x: int, rank: spec_fn(int) -> int)
    requires
        forall|k: int, l: int|
            0 <= k < l < t.len() ==> ranked_before(rank, #[trigger] t[k], #[trigger] t[l]),
        forall|k: int| 0 <= k < t.len() ==> #[trigger] t[k] < x,
    ensures
        ({
            let out = insert_by_rank(t, x, rank);
            &&& out.len() == t.len() + 1
            &&& forall|k: int, l: int|
                0 <= k < l < out.len() ==> ranked_before(rank, #[trigger] out[k], #[trigger] out[l])
            &&& forall|k: int| 0 <= k < out.len() ==> #[trigger] out[k] == x || t.contains(out[k])
            &&& out.contains(x)
            &&& forall|k: int| 0 <= k < t.len() ==> out.contains(#[trigger] t[k])
        }),
    decreases t.len(),
{
    let out = insert_by_rank(t, x, rank);
    if t.len() == 0 || rank(t.last()) <= rank(x) {
        assert forall|k: int, l: int| 0 <= k < l < out.len() implies ranked_before(
            rank,
            #[trigger] out[k],
            #[trigger] out[l],
        ) by {
            assert(out[k] == t[k]);
            if l < t.len() {
                assert(out[l] == t[l]);
            } else if k < t.len() - 1 {
                assert(ranked_before(rank, t[k], t[t.len() - 1]));
            }
        }
        assert forall|k: int| 0 <= k < out.len() implies #[trigger] out[k] == x || t.contains(
            out[k],
        ) by {
            if k < t.len() {
                assert(out[k] == t[k]);
            }
        }
        assert(out[t.len() as int] == x);
        assert forall|k: int| 0 <= k < t.len() implies out.contains(#[trigger] t[k]) by {
            assert(out[k] == t[k]);
        }
    } else {
        let rest = t.drop_last();
        let last = t.len() - 1;
        let inner = insert_by_rank(rest, x, rank);
        assert(forall|k: int| 0 <= k < rest.len() ==> #[trigger] rest[k] == t[k]);
        lemma_insert_index(rest, x, rank);
        assert forall|k: int| 0 <= k < out.len() implies #[trigger] out[k] == x || t.contains(
            out[k],
        ) by {
            if k < inner.len() {
                assert(out[k] == inner[k]);
                if inner[k] != x {
                    let h = choose|h: int| 0 <= h < rest.len() && rest[h] == inner[k];
                    assert(t[h] == out[k]);
                }
            } else {
                assert(out[k] == t[last]);
            }
        }
        assert forall|k: int, l: int| 0 <= k < l < out.len() implies ranked_before(
            rank,
            #[trigger] out[k],
            #[trigger] out[l],
        ) by {
            assert(out[k] == inner[k]);
            if l < inner.len() {
                assert(out[l] == inner[l]);
            } else {
                assert(out[l] == t[last]);
                if inner[k] != x {
                    let h = choose|h: int| 0 <= h < rest.len() && rest[h] == inner[k];
                    assert(ranked_before(rank, t[h], t[last]));
                }
            }
        }
        let at = choose|at: int| 0 <= at < inner.len() && inner[at] == x;
        assert(out[at] == x);
        assert forall|k: int| 0 <= k < t.len() implies out.contains(#[trigger] t[k]) by {
            if k < last {
                assert(inner.contains(rest[k]));
                let h = choose|h: int| 0 <= h < inner.len() && inner[h] == rest[k];
                assert(out[h] == t[k]);
            } else {
                assert(out[inner.len() as int] == t[k]);
            }
        }
    }
}

proof fn lemma_sort_indices(s: Seq<int>, rank: spec_fn(int) -> int)
    requires
        forall|k: int, l: int| 0 <= k < l < s.len() ==> #[trigger] s[k] < #[trigger] s[l],
    ensures
        ({
            let t = stable_sort(s, rank);
            &&& t.len() == s.len()
            &&& forall|k: int, l: int|
                0 <= k < l < t.len() ==> ranked_before(rank, #[trigger] t[k], #[trigger] t[l])
            &&& forall|k: int| 0 <= k < t.len() ==> s.contains(#[trigger] t[k])
            &&& forall|k: int| 0 <= k < s.len() ==> t.contains(#[trigger] s[k])
        }),
    decreases s.len(),
{
    if s.len() > 0 {
        let rest = s.drop_last();
        let x = s.last();
        let inner = stable_sort(rest, rank);
        let t = stable_sort(s, rank);
        assert(forall|k: int| 0 <= k < rest.len() ==> #[trigger] rest[k] == s[k]);
        lemma_sort_indices(rest, rank);
        assert forall|k: int| 0 <= k < inner.len() implies #[trigger] inner[k] < x by {
            let h = choose|h: int| 0 <= h < rest.len() && rest[h] == inner[k];
            assert(s[h] < s[s.len() - 1]);
        }
        lemma_insert_index(inner, x, rank);
        assert forall|k: int| 0 <= k < t.len() implies s.contains(#[trigger] t[k]) by {
            if t[k] == x {
                assert(s[s.len() - 1] == x);
            } else {
                let g = choose|g: int| 0 <= g < inner.len() && inner[g] == t[k];
                assert(rest.contains(inner[g]));
                let h = choose|h: int| 0 <= h < rest.len() && rest[h] == inner[g];
                assert(s[h] == t[k]);
            }
        }
        assert forall|k: int| 0 <= k < s.len() implies t.contains(#[trigger] s[k]) by {
            if k < rest.len() {
                assert(inner.contains(rest[k]));
                let h = choose|h: int| 0 <= h < inner.len() && inner[h] == rest[k];
                assert(t.contains(inner[h]));
            }
        }
    }
}

/// Where the elements that are filtered and sorted come from.
pub proof fn lemma_positions<T>(s: Seq<T>, p: spec_fn(T) -> bool, rank: spec_fn(T) -> int) -> (at:
    Seq<int>)
    ensures
        at.len() == stable_sort(s.filter(p), rank).len(),
        forall|k: int|
            0 <= k < at.len() ==> 0 <= #[trigger] at[k] < s.len() && p(s[at[k]]) && stable_sort(
                s.filter(p),
                rank,
            )[k] == s[at[k]],
        forall|k: int, l: int|
            0 <= k < l < at.len() ==> rank(s[#[trigger] at[k]]) < rank(s[#[trigger] at[l]]) || (
            rank(s[at[k]]) == rank(s[at[l]]) && at[k] < at[l]),
        forall|i: int| 0 <= i < s.len() && p(#[trigger] s[i]) ==> at.contains(i),
{
    let f = |i: int| s[i];
    let index_rank = |i: int| rank(s[i]);
    let found = hits(s, p);
    let at = stable_sort(found, index_rank);
    lemma_hits(s, p);
    lemma_sort_indices(found, index_rank);
    lemma_stable_sort_map(found, f, index_rank, rank);
    assert(at.map_values(f) == stable_sort(s.filter(p), rank));
    assert forall|k: int| 0 <= k < at.len() implies 0 <= #[trigger] at[k] < s.len() && p(s[at[k]])
        && stable_sort(s.filter(p), rank)[k] == s[at[k]] by {
        assert(found.contains(at[k]));
        let h = choose|h: int| 0 <= h < found.len() && found[h] == at[k];
        assert(p(s[found[h]]));
        assert(at.map_values(f)[k] == f(at[k]));
    }
    assert forall|k: int, l: int| 0 <= k < l < at.len() implies rank(s[#[trigger] at[k]]) < rank(
        s[#[trigger] at[l]],
    ) || (rank(s[at[k]]) == rank(s[at[l]]) && at[k] < at[l]) by {
        assert(ranked_before(index_rank, at[k], at[l]));
    }
    assert forall|i: int| 0 <= i < s.len() && p(#[trigger] s[i]) implies at.contains(i) by {
        let h = choose|h: int| 0 <= h < found.len() && found[h] == i;
        assert(at.contains(found[h]));
    }
    at
}

/// The initial list for a P slice of a frame, position by position. It holds
/// each picture that is used for reference once and nothing else. Every
/// short-term reference stands in front of every long-term one. The short-term
/// references descend by `PicNum`, so that the one which the `frame_num` counter
/// left fewer steps ago stands first, and the long-term references ascend by
/// `LongTermFrameIdx`. Equals stand as they do in the DPB.
pub proof fn law_p_frame_list(
    dpb: Seq<DpbEntry>,
    current_frame_num: u32,
    max_frame_num: u32,
    current_structure: PicStructure,
    current_bottom: bool,
) -> (at: Seq<int>)
    requires
        current_structure is Frame || current_structure is FieldPair,
    ensures
        ({
            let list = initial_list_p(
                dpb,
                current_frame_num,
                max_frame_num,
                current_structure,
                current_bottom,
            );
            &&& at.len() == list.len()
            &&& at.no_duplicates()
            &&& forall|k: int|
                0 <= k < at.len() ==> 0 <= #[trigger] at[k] < dpb.len() && !(
                dpb[at[k]].marking is Unused) && list[k] == dpb[at[k]].dpb_key
            &&& forall|i: int|
                0 <= i < dpb.len() && !((#[trigger] dpb[i]).marking is Unused) ==> at.contains(i)
        }),
        forall|k: int, l: int|
            0 <= k < l < at.len() ==> {
                let a = dpb[#[trigger] at[k]];
                let b = dpb[#[trigger] at[l]];
                let max = max_frame_num as int;
                let current = current_picture(
                    current_frame_num,
                    max_frame_num,
                    false,
                    current_bottom,
                );
                &&& a.marking is LongTerm ==> b.marking is LongTerm
                &&& a.marking is ShortTerm && b.marking is ShortTerm ==> {
                    ||| a.pic_num_for(current) > b.pic_num_for(current)
                    ||| a.pic_num_for(current) == b.pic_num_for(current) && at[k] < at[l]
                }
                &&& a.marking is ShortTerm && b.marking is ShortTerm && a.frame_num < max
                    && b.frame_num < max && current_frame_num < max <= i32::MAX ==> {
                    ||| (current_frame_num - a.frame_num) % max < (current_frame_num - b.frame_num)
                        % max
                    ||| a.frame_num == b.frame_num && at[k] < at[l]
                }
                &&& a.marking is LongTerm && b.marking is LongTerm ==> {
                    let m = a.long_term_pic_num_for(false, false);
                    let n = b.long_term_pic_num_for(false, false);
                    m < n || (m == n && at[k] < at[l])
                }
                &&& a.marking is LongTerm && b.marking is LongTerm && a.long_term_frame_idx
                    <= i32::MAX && b.long_term_frame_idx <= i32::MAX ==> {
                    ||| a.long_term_frame_idx < b.long_term_frame_idx
                    ||| a.long_term_frame_idx == b.long_term_frame_idx && at[k] < at[l]
                }
            },
{
    let current = current_picture(current_frame_num, max_frame_num, false, current_bottom);
    let order = EntryOrder::PicNumDescending(current);
    let tail_order = EntryOrder::LongTermPicNumAscending;
    let short = lemma_positions(dpb, Choice::ShortTerm.holds(), order.rank());
    let long = lemma_positions(dpb, Choice::LongTerm.holds(), tail_order.rank());
    let at = short + long;
    let entries = p_frame_order(dpb, current);
    let list = initial_list_p(
        dpb,
        current_frame_num,
        max_frame_num,
        current_structure,
        current_bottom,
    );
    assert(list == keys_of(entries));
    lemma_joined(dpb, short, long);
    assert forall|k: int| 0 <= k < at.len() implies entries[k] == dpb[#[trigger] at[k]] by {
        if k < short.len() {
            assert(at[k] == short[k]);
        } else {
            assert(at[k] == long[k - short.len()]);
        }
    }
    assert forall|k: int, l: int| 0 <= k < l < at.len() implies ({
        let a = dpb[#[trigger] at[k]];
        let b = dpb[#[trigger] at[l]];
        let max = max_frame_num as int;
        &&& a.marking is LongTerm ==> b.marking is LongTerm
        &&& a.marking is ShortTerm && b.marking is ShortTerm ==> {
            ||| a.pic_num_for(current) > b.pic_num_for(current)
            ||| a.pic_num_for(current) == b.pic_num_for(current) && at[k] < at[l]
        }
        &&& a.marking is ShortTerm && b.marking is ShortTerm && a.frame_num < max && b.frame_num
            < max && current_frame_num < max <= i32::MAX ==> {
            ||| (current_frame_num - a.frame_num) % max < (current_frame_num - b.frame_num) % max
            ||| a.frame_num == b.frame_num && at[k] < at[l]
        }
        &&& a.marking is LongTerm && b.marking is LongTerm ==> {
            let m = a.long_term_pic_num_for(false, false);
            let n = b.long_term_pic_num_for(false, false);
            m < n || (m == n && at[k] < at[l])
        }
        &&& a.marking is LongTerm && b.marking is LongTerm && a.long_term_frame_idx <= i32::MAX
            && b.long_term_frame_idx <= i32::MAX ==> {
            ||| a.long_term_frame_idx < b.long_term_frame_idx
            ||| a.long_term_frame_idx == b.long_term_frame_idx && at[k] < at[l]
        }
    }) by {
        let a = dpb[at[k]];
        let b = dpb[at[l]];
        let max = max_frame_num;
        if l < short.len() {
            assert(at[k] == short[k] && at[l] == short[l]);
            if a.frame_num < max && b.frame_num < max && current_frame_num < max
                && max <= i32::MAX {
                lemma_pic_num_is_age(a, current_frame_num, max, current_bottom);
                lemma_pic_num_is_age(b, current_frame_num, max, current_bottom);
            }
        } else if k < short.len() {
            assert(at[k] == short[k] && at[l] == long[l - short.len()]);
        } else {
            assert(at[k] == long[k - short.len()] && at[l] == long[l - short.len()]);
        }
    }
    at
}

/// The initial lists for a B slice of a frame, position by position: `at.0` is
/// for list 0, `at.1` for list 1 before the two are told apart. Each holds every
/// picture that is used for reference once and nothing else, and every
/// short-term reference stands in front of every long-term one. In list 0 the
/// pictures below the current `PicOrderCnt` come first and descend, the others
/// follow and ascend. In list 1 the pictures above it come first and ascend, the
/// others follow and descend. The long-term references ascend by
/// `LongTermFrameIdx`. Equals stand as they do in the DPB. Only where list 1
/// would read as list 0 and has two entries or more, its first two entries
/// change places.
pub proof fn law_b_frame_lists(
    dpb: Seq<DpbEntry>,
    current_poc: i32,
    current_structure: PicStructure,
    current_bottom: bool,
) -> (at: (Seq<int>, Seq<int>))
    requires
        current_structure is Frame || current_structure is FieldPair,
    ensures
        ({
            let list0 = initial_lists_b(dpb, current_poc, current_structure, current_bottom).0;
            let list1 = initial_lists_b(dpb, current_poc, current_structure, current_bottom).1;
            let plain = Seq::new(at.1.len(), |k: int| dpb[at.1[k]].dpb_key);
            &&& at.0.len() == list0.len()
            &&& forall|k: int| 0 <= k < at.0.len() ==> list0[k] == dpb[#[trigger] at.0[k]].dpb_key
            &&& at.1.len() == list1.len()
            &&& plain != list0 || plain.len() < 2 ==> list1 == plain
            &&& plain == list0 && plain.len() >= 2 ==> {
                &&& list1[0] == plain[1]
                &&& list1[1] == plain[0]
                &&& forall|k: int| 2 <= k < plain.len() ==> #[trigger] list1[k] == plain[k]
            }
        }),
        at.0.no_duplicates(),
        at.1.no_duplicates(),
        forall|k: int|
            0 <= k < at.0.len() ==> 0 <= #[trigger] at.0[k] < dpb.len() && !(
            dpb[at.0[k]].marking is Unused),
        forall|k: int|
            0 <= k < at.1.len() ==> 0 <= #[trigger] at.1[k] < dpb.len() && !(
            dpb[at.1[k]].marking is Unused),
        forall|i: int|
            0 <= i < dpb.len() && !((#[trigger] dpb[i]).marking is Unused) ==> at.0.contains(i)
                && at.1.contains(i),
        forall|k: int, l: int|
            0 <= k < l < at.0.len() ==> {
                let a = dpb[#[trigger] at.0[k]];
                let b = dpb[#[trigger] at.0[l]];
                let p = a.pic_order_cnt;
                let q = b.pic_order_cnt;
                &&& a.marking is LongTerm ==> b.marking is LongTerm
                &&& a.marking is ShortTerm && b.marking is ShortTerm ==> {
                    ||| p < current_poc && q >= current_poc
                    ||| p < current_poc && q < p
                    ||| p >= current_poc && q > p
                    ||| p == q && at.0[k] < at.0[l]
                }
                &&& a.marking is LongTerm && b.marking is LongTerm ==> {
                    let m = a.long_term_pic_num_for(false, false);
                    let n = b.long_term_pic_num_for(false, false);
                    m < n || (m == n && at.0[k] < at.0[l])
                }
                &&& a.marking is LongTerm && b.marking is LongTerm && a.long_term_frame_idx
                    <= i32::MAX && b.long_term_frame_idx <= i32::MAX ==> {
                    ||| a.long_term_frame_idx < b.long_term_frame_idx
                    ||| a.long_term_frame_idx == b.long_term_frame_idx && at.0[k] < at.0[l]
                }
            },
        forall|k: int, l: int|
            0 <= k < l < at.1.len() ==> {
                let a = dpb[#[trigger] at.1[k]];
                let b = dpb[#[trigger] at.1[l]];
                let p = a.pic_order_cnt;
                let q = b.pic_order_cnt;
                &&& a.marking is LongTerm ==> b.marking is LongTerm
                &&& a.marking is ShortTerm && b.marking is ShortTerm ==> {
                    ||| p > current_poc && q <= current_poc
                    ||| p > current_poc && q > p
                    ||| p <= current_poc && q < p
                    ||| p == q && at.1[k] < at.1[l]
                }
                &&& a.marking is LongTerm && b.marking is LongTerm ==> {
                    let m = a.long_term_pic_num_for(false, false);
                    let n = b.long_term_pic_num_for(false, false);
                    m < n || (m == n && at.1[k] < at.1[l])
                }
                &&& a.marking is LongTerm && b.marking is LongTerm && a.long_term_frame_idx
                    <= i32::MAX && b.long_term_frame_idx <= i32::MAX ==> {
                    ||| a.long_term_frame_idx < b.long_term_frame_idx
                    ||| a.long_term_frame_idx == b.long_term_frame_idx && at.1[k] < at.1[l]
                }
            },
{
    let at0 = lemma_b_frame_list0(dpb, current_poc);
    let at1 = lemma_b_frame_list1(dpb, current_poc);
    let plain = Seq::new(at1.len(), |k: int| dpb[at1[k]].dpb_key);
    assert(plain =~= keys_of(b_frame_order1(dpb, current_poc))) by {
        assert forall|k: int| 0 <= k < plain.len() implies plain[k] == keys_of(
            b_frame_order1(dpb, current_poc),
        )[k] by {
            assert(0 <= at1[k] < dpb.len());
        }
    }
    (at0, at1)
}

proof fn lemma_b_frame_list0(dpb: Seq<DpbEntry>, current_poc: i32) -> (at: Seq<int>)
    ensures
        at.len() == b_frame_order0(dpb, current_poc).len(),
        at.no_duplicates(),
        forall|k: int|
            0 <= k < at.len() ==> 0 <= #[trigger] at[k] < dpb.len() && !(
            dpb[at[k]].marking is Unused) && b_frame_order0(dpb, current_poc)[k] == dpb[at[k]],
        forall|i: int|
            0 <= i < dpb.len() && !((#[trigger] dpb[i]).marking is Unused) ==> at.contains(i),
        forall|k: int, l: int|
            0 <= k < l < at.len() ==> {
                let a = dpb[#[trigger] at[k]];
                let b = dpb[#[trigger] at[l]];
                let p = a.pic_order_cnt;
                let q = b.pic_order_cnt;
                &&& a.marking is LongTerm ==> b.marking is LongTerm
                &&& a.marking is ShortTerm && b.marking is ShortTerm ==> {
                    ||| p < current_poc && q >= current_poc
                    ||| p < current_poc && q < p
                    ||| p >= current_poc && q > p
                    ||| p == q && at[k] < at[l]
                }
                &&& a.marking is LongTerm && b.marking is LongTerm ==> {
                    let m = a.long_term_pic_num_for(false, false);
                    let n = b.long_term_pic_num_for(false, false);
                    m < n || (m == n && at[k] < at[l])
                }
                &&& a.marking is LongTerm && b.marking is LongTerm && a.long_term_frame_idx
                    <= i32::MAX && b.long_term_frame_idx <= i32::MAX ==> {
                    ||| a.long_term_frame_idx < b.long_term_frame_idx
                    ||| a.long_term_frame_idx == b.long_term_frame_idx && at[k] < at[l]
                }
            },
{
    let near = lemma_positions(
        dpb,
        Choice::Before(current_poc).holds(),
        EntryOrder::PocDescending.rank(),
    );
    let far = lemma_positions(
        dpb,
        Choice::NotBefore(current_poc).holds(),
        EntryOrder::PocAscending.rank(),
    );
    let long = lemma_positions(
        dpb,
        Choice::LongTerm.holds(),
        EntryOrder::LongTermPicNumAscending.rank(),
    );
    lemma_parts_joined(dpb, near, far);
    lemma_joined(dpb, near + far, long);
    let at = near + far + long;
    assert forall|k: int| 0 <= k < at.len() implies b_frame_order0(dpb, current_poc)[k]
        == dpb[#[trigger] at[k]] by {
        lemma_which_part(near, far, long, k);
    }
    assert forall|k: int, l: int| 0 <= k < l < at.len() implies ({
        let a = dpb[#[trigger] at[k]];
        let b = dpb[#[trigger] at[l]];
        let p = a.pic_order_cnt;
        let q = b.pic_order_cnt;
        &&& a.marking is LongTerm ==> b.marking is LongTerm
        &&& a.marking is ShortTerm && b.marking is ShortTerm ==> {
            ||| p < current_poc && q >= current_poc
            ||| p < current_poc && q < p
            ||| p >= current_poc && q > p
            ||| p == q && at[k] < at[l]
        }
        &&& a.marking is LongTerm && b.marking is LongTerm ==> {
            let m = a.long_term_pic_num_for(false, false);
            let n = b.long_term_pic_num_for(false, false);
            m < n || (m == n && at[k] < at[l])
        }
        &&& a.marking is LongTerm && b.marking is LongTerm && a.long_term_frame_idx <= i32::MAX
            && b.long_term_frame_idx <= i32::MAX ==> {
            ||| a.long_term_frame_idx < b.long_term_frame_idx
            ||| a.long_term_frame_idx == b.long_term_frame_idx && at[k] < at[l]
        }
    }) by {
        lemma_which_part(near, far, long, k);
        lemma_which_part(near, far, long, l);
    }
    at
}

proof fn lemma_b_frame_list1(dpb: Seq<DpbEntry>, current_poc: i32) -> (at: Seq<int>)
    ensures
        at.len() == b_frame_order1(dpb, current_poc).len(),
        at.no_duplicates(),
        forall|k: int|
            0 <= k < at.len() ==> 0 <= #[trigger] at[k] < dpb.len() && !(
            dpb[at[k]].marking is Unused) && b_frame_order1(dpb, current_poc)[k] == dpb[at[k]],
        forall|i: int|
            0 <= i < dpb.len() && !((#[trigger] dpb[i]).marking is Unused) ==> at.contains(i),
        forall|k: int, l: int|
            0 <= k < l < at.len() ==> {
                let a = dpb[#[trigger] at[k]];
                let b = dpb[#[trigger] at[l]];
                let p = a.pic_order_cnt;
                let q = b.pic_order_cnt;
                &&& a.marking is LongTerm ==> b.marking is LongTerm
                &&& a.marking is ShortTerm && b.marking is ShortTerm ==> {
                    ||| p > current_poc && q <= current_poc
                    ||| p > current_poc && q > p
                    ||| p <= current_poc && q < p
                    ||| p == q && at[k] < at[l]
                }
                &&& a.marking is LongTerm && b.marking is LongTerm ==> {
                    let m = a.long_term_pic_num_for(false, false);
                    let n = b.long_term_pic_num_for(false, false);
                    m < n || (m == n && at[k] < at[l])
                }
                &&& a.marking is LongTerm && b.marking is LongTerm && a.long_term_frame_idx
                    <= i32::MAX && b.long_term_frame_idx <= i32::MAX ==> {
                    ||| a.long_term_frame_idx < b.long_term_frame_idx
                    ||| a.long_term_frame_idx == b.long_term_frame_idx && at[k] < at[l]
                }
            },
{
    let near = lemma_positions(
        dpb,
        Choice::After(current_poc).holds(),
        EntryOrder::PocAscending.rank(),
    );
    let far = lemma_positions(
        dpb,
        Choice::NotAfter(current_poc).holds(),
        EntryOrder::PocDescending.rank(),
    );
    let long = lemma_positions(
        dpb,
        Choice::LongTerm.holds(),
        EntryOrder::LongTermPicNumAscending.rank(),
    );
    lemma_parts_joined(dpb, near, far);
    lemma_joined(dpb, near + far, long);
    let at = near + far + long;
    assert forall|k: int| 0 <= k < at.len() implies b_frame_order1(dpb, current_poc)[k]
        == dpb[#[trigger] at[k]] by {
        lemma_which_part(near, far, long, k);
    }
    assert forall|k: int, l: int| 0 <= k < l < at.len() implies ({
        let a = dpb[#[trigger] at[k]];
        let b = dpb[#[trigger] at[l]];
        let p = a.pic_order_cnt;
        let q = b.pic_order_cnt;
        &&& a.marking is LongTerm ==> b.marking is LongTerm
        &&& a.marking is ShortTerm && b.marking is ShortTerm ==> {
            ||| p > current_poc && q <= current_poc
            ||| p > current_poc && q > p
            ||| p <= current_poc && q < p
            ||| p == q && at[k] < at[l]
        }
        &&& a.marking is LongTerm && b.marking is LongTerm ==> {
            let m = a.long_term_pic_num_for(false, false);
            let n = b.long_term_pic_num_for(false, false);
            m < n || (m == n && at[k] < at[l])
        }
        &&& a.marking is LongTerm && b.marking is LongTerm && a.long_term_frame_idx <= i32::MAX
            && b.long_term_frame_idx <= i32::MAX ==> {
            ||| a.long_term_frame_idx < b.long_term_frame_idx
            ||| a.long_term_frame_idx == b.long_term_frame_idx && at[k] < at[l]
        }
    }) by {
        lemma_which_part(near, far, long, k);
        lemma_which_part(near, far, long, l);
    }
    at
}

proof fn lemma_which_part(a: Seq<int>, b: Seq<int>, c: Seq<int>, k: int)
    requires
        0 <= k < (a + b + c).len(),
    ensures
        (a + b + c)[k] == (if k < a.len() {
            a[k]
        } else if k < a.len() + b.len() {
            b[k - a.len()]
        } else {
            c[k - a.len() - b.len()]
        }),
{
}

/// Joining the positions of two parts of the short-term references.
proof fn lemma_parts_joined(dpb: Seq<DpbEntry>, near: Seq<int>, far: Seq<int>)
    requires
        forall|k: int|
            0 <= k < near.len() ==> 0 <= #[trigger] near[k] < dpb.len() && dpb[near[k]].marking
                is ShortTerm,
        forall|k: int|
            0 <= k < far.len() ==> 0 <= #[trigger] far[k] < dpb.len() && dpb[far[k]].marking
                is ShortTerm,
        forall|k: int, l: int|
            0 <= k < l < near.len() ==> #[trigger] near[k] != #[trigger] near[l],
        forall|k: int, l: int|
            0 <= k < l < far.len() ==> #[trigger] far[k] != #[trigger] far[l],
        forall|k: int, l: int|
            0 <= k < near.len() && 0 <= l < far.len() ==> #[trigger] near[k] != #[trigger] far[l],
        forall|i: int|
            0 <= i < dpb.len() && (#[trigger] dpb[i]).marking is ShortTerm ==> near.contains(i)
                || far.contains(i),
    ensures
        ({
            let at = near + far;
            &&& forall|k: int|
                0 <= k < at.len() ==> 0 <= #[trigger] at[k] < dpb.len() && dpb[at[k]].marking
                    is ShortTerm
            &&& forall|k: int, l: int|
                0 <= k < l < at.len() ==> #[trigger] at[k] != #[trigger] at[l]
            &&& forall|i: int|
                0 <= i < dpb.len() && (#[trigger] dpb[i]).marking is ShortTerm ==> at.contains(i)
        }),
{
    let at = near + far;
    assert forall|k: int| 0 <= k < at.len() implies 0 <= #[trigger] at[k] < dpb.len()
        && dpb[at[k]].marking is ShortTerm by {
        if k < near.len() {
            assert(at[k] == near[k]);
        } else {
            assert(at[k] == far[k - near.len()]);
        }
    }
    assert forall|k: int, l: int| 0 <= k < l < at.len() implies #[trigger] at[k]
        != #[trigger] at[l] by {
        if l < near.len() {
            assert(near[k] != near[l]);
        } else if k < near.len() {
            assert(near[k] != far[l - near.len()]);
        } else {
            assert(far[k - near.len()] != far[l - near.len()]);
        }
    }
    assert forall|i: int|
        0 <= i < dpb.len() && (#[trigger] dpb[i]).marking is ShortTerm implies at.contains(i) by {
        if near.contains(i) {
            let k = choose|k: int| 0 <= k < near.len() && near[k] == i;
            assert(at[k] == i);
        } else {
            let k = choose|k: int| 0 <= k < far.len() && far[k] == i;
            assert(at[near.len() + k] == i);
        }
    }
}

/// Joining the positions of the short-term references and those of the
/// long-term ones.
proof fn lemma_joined(dpb: Seq<DpbEntry>, short: Seq<int>, long: Seq<int>)
    requires
        forall|k: int|
            0 <= k < short.len() ==> 0 <= #[trigger] short[k] < dpb.len() && dpb[short[k]].marking
                is ShortTerm,
        forall|k: int|
            0 <= k < long.len() ==> 0 <= #[trigger] long[k] < dpb.len() && dpb[long[k]].marking
                is LongTerm,
        forall|k: int, l: int|
            0 <= k < l < short.len() ==> #[trigger] short[k] != #[trigger] short[l],
        forall|k: int, l: int|
            0 <= k < l < long.len() ==> #[trigger] long[k] != #[trigger] long[l],
        forall|i: int|
            0 <= i < dpb.len() && (#[trigger] dpb[i]).marking is ShortTerm ==> short.contains(i),
        forall|i: int|
            0 <= i < dpb.len() && (#[trigger] dpb[i]).marking is LongTerm ==> long.contains(i),
    ensures
        ({
            let at = short + long;
            &&& at.no_duplicates()
            &&& forall|k: int|
                0 <= k < at.len() ==> 0 <= #[trigger] at[k] < dpb.len() && !(
                dpb[at[k]].marking is Unused)
            &&& forall|i: int|
                0 <= i < dpb.len() && !((#[trigger] dpb[i]).marking is Unused) ==> at.contains(i)
        }),
{
    let at = short + long;
    assert forall|k: int| 0 <= k < at.len() implies 0 <= #[trigger] at[k] < dpb.len() && !(
    dpb[at[k]].marking is Unused) by {
        if k < short.len() {
            assert(at[k] == short[k]);
        } else {
            assert(at[k] == long[k - short.len()]);
        }
    }
    assert forall|k: int, l: int|
        0 <= k < at.len() && 0 <= l < at.len() && k != l implies at[k] != at[l] by {
        let (lo, hi) = if k < l {
            (k, l)
        } else {
            (l, k)
        };
        if hi < short.len() {
            assert(short[lo] != short[hi]);
        } else if lo < short.len() {
            assert(dpb[short[lo]].marking is ShortTerm);
            assert(dpb[long[hi - short.len()]].marking is LongTerm);
        } else {
            assert(long[lo - short.len()] != long[hi - short.len()]);
        }
    }
    assert forall|i: int| 0 <= i < dpb.len() && !((
    #[trigger] dpb[i]).marking is Unused) implies at.contains(i) by {
        if dpb[i].marking is ShortTerm {
            let k = choose|k: int| 0 <= k < short.len() && short[k] == i;
            assert(at[k] == i);
        } else {
            let k = choose|k: int| 0 <= k < long.len() && long[k] == i;
            assert(at[short.len() + k] == i);
        }
    }
}

/// In a frame `PicNum` is the current `frame_num` less the age of the picture.
pub proof fn lemma_pic_num_is_age(
    e: DpbEntry,
    current_frame_num: u32,
    max_frame_num: u32,
    bottom: bool,
)
    requires
        e.frame_num < max_frame_num <= i32::MAX,
        current_frame_num < max_frame_num,
    ensures
        e.pic_num_for(current_picture(current_frame_num, max_frame_num, false, bottom))
            == current_frame_num - (current_frame_num - e.frame_num) % (max_frame_num as int),
        frame_num_wrap(e.frame_num, current_frame_num, max_frame_num) == current_frame_num - (
        current_frame_num - e.frame_num) % (max_frame_num as int),
        (current_frame_num - e.frame_num) % (max_frame_num as int) == (if e.frame_num
            <= current_frame_num {
            current_frame_num - e.frame_num
        } else {
            current_frame_num - e.frame_num + max_frame_num
        }),
{
    law_frame_num_wrap(e.frame_num, current_frame_num, max_frame_num);
}

} // verus!
