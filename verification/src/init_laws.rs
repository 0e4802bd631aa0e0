//! What holds of every initial reference picture list.

use vstd::prelude::*;

use crate::field_laws::{
    is_live, is_live_entry, law_field_lists_hold_live_fields, law_live_fields, live_fields,
    same_field,
};
use crate::init::{
    b_frame_order0, b_frame_order1, chosen, initial_list_p, initial_lists_b, keys_of, p_frame_order,
    storage_key, told_apart, untold_lists_b, Choice, EntryOrder,
};
use crate::picture::{current_picture, is_reference_key, CurrentPicture, DpbEntry, PicStructure};
use crate::sort::{in_rank_order, law_stable_sort};

verus! {

/// Being used for reference.
pub open spec fn used_for_reference() -> spec_fn(DpbEntry) -> bool {
    |e: DpbEntry| !(e.marking is Unused)
}

/// Two predicates that part what a third admits part the sequence that it
/// filters.
proof fn lemma_filter_parts<T>(
    s: Seq<T>,
    whole: spec_fn(T) -> bool,
    p: spec_fn(T) -> bool,
    q: spec_fn(T) -> bool,
)
    requires
        forall|x: T| #[trigger] whole(x) <==> (p(x) || q(x)),
        forall|x: T| !(#[trigger] p(x) && q(x)),
    ensures
        s.filter(whole).to_multiset() == s.filter(p).to_multiset().add(s.filter(q).to_multiset()),
        s.filter(whole).len() == s.filter(p).len() + s.filter(q).len(),
    decreases s.len(),
{
    broadcast use vstd::seq_lib::group_to_multiset_ensures;
    reveal(Seq::filter);
    if s.len() > 0 {
        let rest = s.drop_last();
        lemma_filter_parts(rest, whole, p, q);
        assert(whole(s.last()) <==> (p(s.last()) || q(s.last())));
        assert(!(p(s.last()) && q(s.last())));
    }
    assert(s.filter(whole).to_multiset() =~= s.filter(p).to_multiset().add(
        s.filter(q).to_multiset(),
    ));
}

/// The entries of a part of a list are the chosen ones, in rank order.
proof fn lemma_chosen(dpb: Seq<DpbEntry>, choice: Choice, order: EntryOrder)
    ensures
        chosen(dpb, choice, order).to_multiset() == dpb.filter(choice.holds()).to_multiset(),
        chosen(dpb, choice, order).len() == dpb.filter(choice.holds()).len(),
        in_rank_order(chosen(dpb, choice, order), order.rank()),
        forall|i: int|
            0 <= i < chosen(dpb, choice, order).len() ==> (choice.holds())(
                #[trigger] chosen(dpb, choice, order)[i],
            ),
{
    broadcast use vstd::seq_lib::group_to_multiset_ensures;
    broadcast use vstd::seq_lib::group_filter_ensures;
    let hits = dpb.filter(choice.holds());
    let out = chosen(dpb, choice, order);
    law_stable_sort(hits, order.rank());
    assert forall|i: int| 0 <= i < out.len() implies (choice.holds())(#[trigger] out[i]) by {
        assert(out.to_multiset().count(out[i]) > 0);
        assert(hits.contains(out[i]));
        let j = choose|j: int| 0 <= j < hits.len() && hits[j] == out[i];
        assert((choice.holds())(hits[j]));
    }
}

/// In a frame, the initial list for a P slice holds every picture that is used
/// for reference once and no other. The short-term references come first, by
/// descending `PicNum`, then the long-term references by ascending
/// `LongTermPicNum`.
pub proof fn law_p_frame_order(dpb: Seq<DpbEntry>, current: CurrentPicture)
    ensures
        ({
            let order = p_frame_order(dpb, current);
            let short = dpb.filter(Choice::ShortTerm.holds()).len();
            &&& order.to_multiset() == dpb.filter(used_for_reference()).to_multiset()
            &&& short <= order.len()
            &&& forall|i: int| 0 <= i < short ==> (#[trigger] order[i]).marking is ShortTerm
            &&& forall|i: int|
                short <= i < order.len() ==> (#[trigger] order[i]).marking is LongTerm
            &&& forall|i: int, j: int|
                0 <= i <= j < short ==> (#[trigger] order[i]).pic_num_for(current) >= (
                #[trigger] order[j]).pic_num_for(current)
            &&& forall|i: int, j: int|
                short <= i <= j < order.len() ==> (#[trigger] order[i]).long_term_pic_num_for(
                    false,
                    false,
                ) <= (#[trigger] order[j]).long_term_pic_num_for(false, false)
        }),
{
    let a = chosen(dpb, Choice::ShortTerm, EntryOrder::PicNumDescending(current));
    let b = chosen(dpb, Choice::LongTerm, EntryOrder::LongTermPicNumAscending);
    let order = p_frame_order(dpb, current);
    lemma_chosen(dpb, Choice::ShortTerm, EntryOrder::PicNumDescending(current));
    lemma_chosen(dpb, Choice::LongTerm, EntryOrder::LongTermPicNumAscending);
    lemma_filter_parts(
        dpb,
        used_for_reference(),
        Choice::ShortTerm.holds(),
        Choice::LongTerm.holds(),
    );
    vstd::seq_lib::lemma_multiset_commutative(a, b);
    assert forall|i: int| a.len() <= i < order.len() implies order[i] == b[i - a.len()] by {}
    let desc = EntryOrder::PicNumDescending(current).rank();
    let asc = EntryOrder::LongTermPicNumAscending.rank();
    assert forall|i: int, j: int| 0 <= i <= j < a.len() implies (#[trigger] order[i]).pic_num_for(
        current,
    ) >= (#[trigger] order[j]).pic_num_for(current) by {
        assert(desc(a[i]) <= desc(a[j]));
    }
    assert forall|i: int, j: int| a.len() <= i <= j < order.len() implies (
    #[trigger] order[i]).long_term_pic_num_for(false, false) <= (
    #[trigger] order[j]).long_term_pic_num_for(false, false) by {
        assert(asc(b[i - a.len()]) <= asc(b[j - a.len()]));
    }
}

/// In a frame, both initial lists for a B slice hold every picture that is used
/// for reference once and no other. List 0 leads with the short-term references
/// below the current `PicOrderCnt`, the nearest first, and goes on with the
/// other short-term references in ascending order. List 1 leads with those above
/// it, the nearest first, and goes on with the others in descending order. Both
/// end with the long-term references by ascending `LongTermPicNum`.
pub proof fn law_b_frame_orders(dpb: Seq<DpbEntry>, current_poc: i32)
    ensures
        ({
            let refs = dpb.filter(used_for_reference()).to_multiset();
            let short = dpb.filter(Choice::ShortTerm.holds()).len();
            let before = dpb.filter(Choice::Before(current_poc).holds()).len();
            let order0 = b_frame_order0(dpb, current_poc);
            &&& order0.to_multiset() == refs
            &&& before <= short <= order0.len()
            &&& forall|i: int|
                0 <= i < order0.len() ==> {
                    let e = #[trigger] order0[i];
                    &&& i < before <==> e.marking is ShortTerm && e.pic_order_cnt < current_poc
                    &&& before <= i < short <==> e.marking is ShortTerm && e.pic_order_cnt
                        >= current_poc
                    &&& short <= i <==> e.marking is LongTerm
                }
            &&& forall|i: int, j: int|
                0 <= i <= j < order0.len() ==> {
                    let a = #[trigger] order0[i];
                    let b = #[trigger] order0[j];
                    &&& j < before ==> a.pic_order_cnt >= b.pic_order_cnt
                    &&& before <= i && j < short ==> a.pic_order_cnt <= b.pic_order_cnt
                    &&& short <= i ==> a.long_term_pic_num_for(false, false)
                        <= b.long_term_pic_num_for(false, false)
                }
        }),
        ({
            let refs = dpb.filter(used_for_reference()).to_multiset();
            let short = dpb.filter(Choice::ShortTerm.holds()).len();
            let after = dpb.filter(Choice::After(current_poc).holds()).len();
            let order1 = b_frame_order1(dpb, current_poc);
            &&& order1.to_multiset() == refs
            &&& after <= short <= order1.len()
            &&& forall|i: int|
                0 <= i < order1.len() ==> {
                    let e = #[trigger] order1[i];
                    &&& i < after <==> e.marking is ShortTerm && e.pic_order_cnt > current_poc
                    &&& after <= i < short <==> e.marking is ShortTerm && e.pic_order_cnt
                        <= current_poc
                    &&& short <= i <==> e.marking is LongTerm
                }
            &&& forall|i: int, j: int|
                0 <= i <= j < order1.len() ==> {
                    let a = #[trigger] order1[i];
                    let b = #[trigger] order1[j];
                    &&& j < after ==> a.pic_order_cnt <= b.pic_order_cnt
                    &&& after <= i && j < short ==> a.pic_order_cnt >= b.pic_order_cnt
                    &&& short <= i ==> a.long_term_pic_num_for(false, false)
                        <= b.long_term_pic_num_for(false, false)
                }
        }),
{
    lemma_filter_parts(
        dpb,
        used_for_reference(),
        Choice::ShortTerm.holds(),
        Choice::LongTerm.holds(),
    );
    lemma_b_frame_order(
        dpb,
        Choice::Before(current_poc),
        EntryOrder::PocDescending,
        Choice::NotBefore(current_poc),
        EntryOrder::PocAscending,
    );
    lemma_b_frame_order(
        dpb,
        Choice::After(current_poc),
        EntryOrder::PocAscending,
        Choice::NotAfter(current_poc),
        EntryOrder::PocDescending,
    );
    let order0 = b_frame_order0(dpb, current_poc);
    let order1 = b_frame_order1(dpb, current_poc);
    let asc = EntryOrder::PocAscending.rank();
    let desc = EntryOrder::PocDescending.rank();
    let idx = EntryOrder::LongTermPicNumAscending.rank();
    assert forall|i: int, j: int| 0 <= i <= j < order0.len() implies ({
        let a = #[trigger] order0[i];
        let b = #[trigger] order0[j];
        let before = dpb.filter(Choice::Before(current_poc).holds()).len();
        let short = dpb.filter(Choice::ShortTerm.holds()).len();
        &&& j < before ==> a.pic_order_cnt >= b.pic_order_cnt
        &&& before <= i && j < short ==> a.pic_order_cnt <= b.pic_order_cnt
        &&& short <= i ==> a.long_term_pic_num_for(false, false) <= b.long_term_pic_num_for(
            false,
            false,
        )
    }) by {
        assert(desc(order0[i]) == -(order0[i].pic_order_cnt as int));
        assert(asc(order0[i]) == order0[i].pic_order_cnt);
    }
}

/// What a list made of two parts of the short-term references and of the
/// long-term references looks like.
proof fn lemma_b_frame_order(
    dpb: Seq<DpbEntry>,
    near: Choice,
    near_order: EntryOrder,
    far: Choice,
    far_order: EntryOrder,
)
    requires
        forall|e: DpbEntry| #[trigger]
            (Choice::ShortTerm.holds())(e) <==> ((near.holds())(e) || (far.holds())(e)),
        forall|e: DpbEntry| !(#[trigger] (near.holds())(e) && (far.holds())(e)),
    ensures
        ({
            let order = chosen(dpb, near, near_order) + chosen(dpb, far, far_order) + chosen(
                dpb,
                Choice::LongTerm,
                EntryOrder::LongTermPicNumAscending,
            );
            let first = dpb.filter(near.holds()).len();
            let short = dpb.filter(Choice::ShortTerm.holds()).len();
            &&& order.to_multiset() == dpb.filter(used_for_reference()).to_multiset()
            &&& first <= short <= order.len()
            &&& forall|i: int| 0 <= i < first ==> (near.holds())(#[trigger] order[i])
            &&& forall|i: int| first <= i < short ==> (far.holds())(#[trigger] order[i])
            &&& forall|i: int|
                short <= i < order.len() ==> (Choice::LongTerm.holds())(#[trigger] order[i])
            &&& forall|i: int, j: int|
                0 <= i <= j < first ==> (near_order.rank())(#[trigger] order[i]) <= (
                near_order.rank())(#[trigger] order[j])
            &&& forall|i: int, j: int|
                first <= i <= j < short ==> (far_order.rank())(#[trigger] order[i]) <= (
                far_order.rank())(#[trigger] order[j])
            &&& forall|i: int, j: int|
                short <= i <= j < order.len() ==> (EntryOrder::LongTermPicNumAscending.rank())(
                    #[trigger] order[i],
                ) <= (EntryOrder::LongTermPicNumAscending.rank())(#[trigger] order[j])
        }),
{
    let a = chosen(dpb, near, near_order);
    let b = chosen(dpb, far, far_order);
    let c = chosen(dpb, Choice::LongTerm, EntryOrder::LongTermPicNumAscending);
    let order = a + b + c;
    lemma_chosen(dpb, near, near_order);
    lemma_chosen(dpb, far, far_order);
    lemma_chosen(dpb, Choice::LongTerm, EntryOrder::LongTermPicNumAscending);
    lemma_filter_parts(
        dpb,
        used_for_reference(),
        Choice::ShortTerm.holds(),
        Choice::LongTerm.holds(),
    );
    lemma_filter_parts(dpb, Choice::ShortTerm.holds(), near.holds(), far.holds());
    vstd::seq_lib::lemma_multiset_commutative(a, b);
    vstd::seq_lib::lemma_multiset_commutative(a + b, c);
    assert forall|i: int| 0 <= i < order.len() implies order[i] == (if i < a.len() {
        a[i]
    } else if i < a.len() + b.len() {
        b[i - a.len()]
    } else {
        c[i - a.len() - b.len()]
    }) by {}
}

/// Where the two lists for a B slice come out the same with more than one
/// entry, their first two entries are the same picture: otherwise list 1 is
/// told apart from list 0.
pub proof fn law_b_lists_differ(
    dpb: Seq<DpbEntry>,
    current_poc: i32,
    current_structure: PicStructure,
    current_bottom: bool,
)
    ensures
        ({
            let lists = initial_lists_b(dpb, current_poc, current_structure, current_bottom);
            lists.0.len() > 1 && lists.0[0] != lists.0[1] ==> lists.0 != lists.1
        }),
{
    let lists = untold_lists_b(dpb, current_poc, current_structure, current_bottom);
    let list1 = told_apart(lists.0, lists.1);
    if lists.0.len() > 1 && lists.0[0] != lists.0[1] && lists.0 == lists.1 {
        assert(list1[0] == lists.0[1]);
    }
}

proof fn lemma_map_multiset<T, U>(s: Seq<T>, t: Seq<T>, f: spec_fn(T) -> U)
    requires
        s.to_multiset() == t.to_multiset(),
    ensures
        s.map_values(f).to_multiset() == t.map_values(f).to_multiset(),
    decreases s.len(),
{
    broadcast use vstd::seq_lib::group_to_multiset_ensures;
    vstd::seq_lib::to_multiset_len(s);
    vstd::seq_lib::to_multiset_len(t);
    if s.len() == 0 {
        assert(s.map_values(f) =~= t.map_values(f));
    } else {
        let x = s.last();
        let rest = s.drop_last();
        assert(rest.push(x) == s);
        assert(s.contains(x));
        assert(t.to_multiset().count(x) > 0);
        assert(t.contains(x));
        let j = choose|j: int| 0 <= j < t.len() && t[j] == x;
        let less = t.remove(j);
        vstd::seq_lib::to_multiset_remove(t, j);
        assert(rest.to_multiset() =~= less.to_multiset()) by {
            assert(s.to_multiset() == rest.to_multiset().insert(x));
            assert forall|y: T| #[trigger]
                rest.to_multiset().count(y) == less.to_multiset().count(y) by {
                assert(s.to_multiset().count(y) == rest.to_multiset().insert(x).count(y));
                assert(t.to_multiset().remove(x).count(y) == less.to_multiset().count(y));
            }
        }
        lemma_map_multiset(rest, less, f);
        rest.lemma_push_map_commute(f, x);
        let mapped = t.map_values(f);
        assert(mapped.remove(j) =~= less.map_values(f));
        vstd::seq_lib::to_multiset_remove(mapped, j);
        assert(mapped.to_multiset().count(f(x)) > 0) by {
            assert(mapped[j] == f(x));
            assert(mapped.contains(f(x)));
        }
        assert(s.map_values(f).to_multiset() =~= mapped.to_multiset());
    }
}

/// What an initial list is made of: in a frame the entries that are used for
/// reference, in a field the reference fields that the DPB has to offer.
pub open spec fn listed_entries(dpb: Seq<DpbEntry>, is_field: bool) -> Seq<DpbEntry> {
    if is_field {
        live_fields(dpb)
    } else {
        dpb.filter(used_for_reference())
    }
}

proof fn lemma_told_apart_multiset(list0: Seq<u32>, list1: Seq<u32>)
    ensures
        told_apart(list0, list1).to_multiset() == list1.to_multiset(),
{
    broadcast use vstd::seq_lib::group_to_multiset_ensures;
    if list1.len() > 1 && list1 == list0 {
        let a = list1[0];
        let b = list1[1];
        let half = list1.update(0, b);
        vstd::seq_lib::to_multiset_update(list1, 0, b);
        vstd::seq_lib::to_multiset_update(half, 1, a);
        assert(list1.contains(a) && half.contains(b)) by {
            assert(half[1] == b);
        }
        assert(told_apart(list0, list1).to_multiset() =~= list1.to_multiset());
    }
}

/// Every initial list, of a P slice or either one of a B slice, holds each of
/// the listed entries once and nothing else. So the lists for one picture
/// differ in order only.
pub proof fn law_initial_lists_content(
    dpb: Seq<DpbEntry>,
    current_frame_num: u32,
    max_frame_num: u32,
    current_poc: i32,
    current_structure: PicStructure,
    current_bottom: bool,
)
    ensures
        ({
            let content = keys_of(
                listed_entries(dpb, current_structure.is_single_field()),
            ).to_multiset();
            let lists = initial_lists_b(dpb, current_poc, current_structure, current_bottom);
            &&& initial_list_p(
                dpb,
                current_frame_num,
                max_frame_num,
                current_structure,
                current_bottom,
            ).to_multiset() == content
            &&& lists.0.to_multiset() == content
            &&& lists.1.to_multiset() == content
        }),
{
    let lists = untold_lists_b(dpb, current_poc, current_structure, current_bottom);
    lemma_told_apart_multiset(lists.0, lists.1);
    if current_structure.is_single_field() {
        law_field_lists_hold_live_fields(
            dpb,
            current_poc,
            current_frame_num,
            max_frame_num,
            current_bottom,
        );
        law_field_lists_hold_live_fields(dpb, current_poc, 0, u32::MAX, current_bottom);
    } else {
        let current = current_picture(current_frame_num, max_frame_num, false, current_bottom);
        let refs = dpb.filter(used_for_reference());
        law_p_frame_order(dpb, current);
        law_b_frame_orders(dpb, current_poc);
        lemma_map_multiset(p_frame_order(dpb, current), refs, storage_key());
        lemma_map_multiset(b_frame_order0(dpb, current_poc), refs, storage_key());
        lemma_map_multiset(b_frame_order1(dpb, current_poc), refs, storage_key());
    }
}

/// The listed entries are entries of the DPB that are used for reference. Where
/// storage keys tell all of those apart, they tell these apart too.
proof fn lemma_listed_entries(dpb: Seq<DpbEntry>, is_field: bool)
    ensures
        forall|k: int|
            0 <= k < listed_entries(dpb, is_field).len() ==> {
                let e = #[trigger] listed_entries(dpb, is_field)[k];
                !(e.marking is Unused) && dpb.contains(e)
            },
        keys_of(dpb.filter(used_for_reference())).no_duplicates() ==> keys_of(
            listed_entries(dpb, is_field),
        ).no_duplicates(),
{
    broadcast use vstd::seq_lib::group_filter_ensures;
    let listed = listed_entries(dpb, is_field);
    if is_field {
        law_live_fields(dpb);
        assert forall|k: int| 0 <= k < listed.len() implies ({
            let e = #[trigger] listed[k];
            !(e.marking is Unused) && dpb.contains(e)
        }) by {
            assert(is_live_entry(dpb, listed[k]));
            let i = choose|i: int| #[trigger] is_live(dpb, i) && dpb[i] == listed[k];
            assert(dpb.contains(dpb[i]));
        }
        let refs = dpb.filter(used_for_reference());
        if keys_of(refs).no_duplicates() {
            assert forall|k: int, l: int|
                0 <= k < listed.len() && 0 <= l < listed.len() && k != l implies keys_of(listed)[k]
                != keys_of(listed)[l] by {
                let (lo, hi) = if k < l {
                    (k, l)
                } else {
                    (l, k)
                };
                assert(!same_field(listed[lo], listed[hi]));
                assert(dpb.contains(listed[lo]) && dpb.contains(listed[hi]));
                assert(used_for_reference()(listed[lo]) && used_for_reference()(listed[hi]));
                assert(refs.contains(listed[lo]) && refs.contains(listed[hi]));
                let i = choose|i: int| 0 <= i < refs.len() && refs[i] == listed[lo];
                let j = choose|j: int| 0 <= j < refs.len() && refs[j] == listed[hi];
                assert(i != j);
                assert(keys_of(refs)[i] != keys_of(refs)[j]);
            }
        }
    } else {
        assert forall|k: int| 0 <= k < listed.len() implies ({
            let e = #[trigger] listed[k];
            !(e.marking is Unused) && dpb.contains(e)
        }) by {
            assert(used_for_reference()(listed[k]));
            assert(listed.contains(listed[k]));
            dpb.lemma_filter_contains_rev(used_for_reference(), listed[k]);
        }
    }
}

proof fn lemma_content_known(list: Seq<u32>, dpb: Seq<DpbEntry>, is_field: bool)
    requires
        list.to_multiset() == keys_of(listed_entries(dpb, is_field)).to_multiset(),
    ensures
        forall|k: int| 0 <= k < list.len() ==> is_reference_key(dpb, #[trigger] list[k]),
        keys_of(dpb.filter(used_for_reference())).no_duplicates() ==> list.no_duplicates(),
{
    broadcast use vstd::seq_lib::group_to_multiset_ensures;
    let listed = listed_entries(dpb, is_field);
    lemma_listed_entries(dpb, is_field);
    assert forall|k: int| 0 <= k < list.len() implies is_reference_key(
        dpb,
        #[trigger] list[k],
    ) by {
        assert(list.contains(list[k]));
        assert(keys_of(listed).to_multiset().count(list[k]) > 0);
        assert(keys_of(listed).contains(list[k]));
        let h = choose|h: int| 0 <= h < listed.len() && keys_of(listed)[h] == list[k];
        assert(dpb.contains(listed[h]));
        let i = choose|i: int| 0 <= i < dpb.len() && dpb[i] == listed[h];
        assert(dpb[i].dpb_key == list[k]);
    }
    if keys_of(dpb.filter(used_for_reference())).no_duplicates() {
        keys_of(listed).lemma_multiset_has_no_duplicates();
        list.lemma_multiset_has_no_duplicates_conv();
    }
}

/// Every entry of an initial list is the key of a picture of the DPB that is
/// used for reference. Where storage keys tell those pictures apart, none is
/// listed twice.
pub proof fn law_initial_lists_entries(
    dpb: Seq<DpbEntry>,
    current_frame_num: u32,
    max_frame_num: u32,
    current_poc: i32,
    current_structure: PicStructure,
    current_bottom: bool,
    list: Seq<u32>,
)
    requires
        ({
            let lists = initial_lists_b(dpb, current_poc, current_structure, current_bottom);
            ||| list == initial_list_p(
                dpb,
                current_frame_num,
                max_frame_num,
                current_structure,
                current_bottom,
            )
            ||| list == lists.0
            ||| list == lists.1
        }),
    ensures
        forall|k: int| 0 <= k < list.len() ==> is_reference_key(dpb, #[trigger] list[k]),
        keys_of(dpb.filter(used_for_reference())).no_duplicates() ==> list.no_duplicates(),
{
    law_initial_lists_content(
        dpb,
        current_frame_num,
        max_frame_num,
        current_poc,
        current_structure,
        current_bottom,
    );
    lemma_content_known(list, dpb, current_structure.is_single_field());
}

} // verus!
