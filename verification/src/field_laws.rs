//! What holds of every list of fields.

use vstd::multiset::Multiset;
use vstd::prelude::*;

use crate::fields::{
    alternate, belongs_to, field_key, frame_heads, frame_id, has_head, interleaved, is_wanted,
    lemma_alternate_push_first, lemma_alternate_push_second, lemma_headless, lemma_heads_distinct,
    lowest_poc, parity_key, parity_keys, poc_above, poc_at_most, reference_frames, FrameOrder,
    RefFrame,
};
use crate::init::{
    b_field_list0, b_field_list1, frames_ahead, frames_back, keys_of, long_term_field_frames,
    p_field_list, storage_key,
};
use crate::picture::DpbEntry;
use crate::sort::{insert_by_rank, law_stable_sort, lemma_stable_sort_map, stable_sort};

verus! {

/// Whether two entries stand for the same field: the same kind of reference,
/// the same frame and the same parity. A frame and a field pair count as top
/// fields here.
pub open spec fn same_field(a: DpbEntry, b: DpbEntry) -> bool {
    &&& a.marking == b.marking
    &&& frame_id(a, a.marking is LongTerm) == frame_id(b, b.marking is LongTerm)
    &&& (a.structure is BottomField) == (b.structure is BottomField)
}

/// Standing for another field than `e`.
pub open spec fn other_field(e: DpbEntry) -> spec_fn(DpbEntry) -> bool {
    |x: DpbEntry| !same_field(x, e)
}

/// The reference fields that the DPB has to offer. Where several entries stand
/// for the same field, the last of them does.
pub open spec fn live_fields(dpb: Seq<DpbEntry>) -> Seq<DpbEntry>
    decreases dpb.len(),
{
    if dpb.len() == 0 {
        dpb
    } else {
        let before = live_fields(dpb.drop_last());
        let e = dpb.last();
        if e.marking is Unused {
            before
        } else {
            before.filter(other_field(e)).push(e)
        }
    }
}

/// Being a reference of the given kind and parity.
spec fn of_parity(long: bool, bottom: bool) -> spec_fn(DpbEntry) -> bool {
    |e: DpbEntry| is_wanted(e, long) && (e.structure is BottomField) == bottom
}

/// Being a field of the frame `id`, of the given parity.
spec fn in_slot(long: bool, id: u32, bottom: bool) -> spec_fn(DpbEntry) -> bool {
    |e: DpbEntry| belongs_to(e, long, id) && (e.structure is BottomField) == bottom
}

spec fn of_parity_elsewhere(long: bool, id: u32, bottom: bool) -> spec_fn(DpbEntry) -> bool {
    |e: DpbEntry|
        is_wanted(e, long) && frame_id(e, long) != id && (e.structure is BottomField) == bottom
}

spec fn key_if(key: Option<u32>) -> Multiset<u32> {
    match key {
        Some(k) => Multiset::singleton(k),
        None => Multiset::empty(),
    }
}

proof fn lemma_filter_twice(
    s: Seq<DpbEntry>,
    p: spec_fn(DpbEntry) -> bool,
    q: spec_fn(DpbEntry) -> bool,
    both: spec_fn(DpbEntry) -> bool,
)
    requires
        forall|e: DpbEntry| #[trigger] both(e) <==> (p(e) && q(e)),
    ensures
        s.filter(p).filter(q) == s.filter(both),
    decreases s.len(),
{
    reveal(Seq::filter);
    if s.len() > 0 {
        let rest = s.drop_last();
        lemma_filter_twice(rest, p, q, both);
        assert(both(s.last()) <==> (p(s.last()) && q(s.last())));
        rest.filter(p).lemma_filter_push(s.last(), q);
    }
}

proof fn lemma_filter_none(s: Seq<DpbEntry>, p: spec_fn(DpbEntry) -> bool)
    requires
        forall|e: DpbEntry| !#[trigger] p(e),
    ensures
        s.filter(p) == Seq::<DpbEntry>::empty(),
    decreases s.len(),
{
    reveal(Seq::filter);
    if s.len() > 0 {
        lemma_filter_none(s.drop_last(), p);
    }
}

proof fn lemma_keys_parts(
    s: Seq<DpbEntry>,
    whole: spec_fn(DpbEntry) -> bool,
    p: spec_fn(DpbEntry) -> bool,
    q: spec_fn(DpbEntry) -> bool,
)
    requires
        forall|e: DpbEntry| #[trigger] whole(e) <==> (p(e) || q(e)),
        forall|e: DpbEntry| !(#[trigger] p(e) && q(e)),
    ensures
        keys_of(s.filter(whole)).to_multiset() == keys_of(s.filter(p)).to_multiset().add(
            keys_of(s.filter(q)).to_multiset(),
        ),
    decreases s.len(),
{
    broadcast use vstd::seq_lib::group_to_multiset_ensures;
    reveal(Seq::filter);
    if s.len() > 0 {
        let rest = s.drop_last();
        let e = s.last();
        lemma_keys_parts(rest, whole, p, q);
        assert(whole(e) <==> (p(e) || q(e)));
        assert(!(p(e) && q(e)));
        rest.filter(whole).lemma_push_map_commute(storage_key(), e);
        rest.filter(p).lemma_push_map_commute(storage_key(), e);
        rest.filter(q).lemma_push_map_commute(storage_key(), e);
    }
    assert(keys_of(s.filter(whole)).to_multiset() =~= keys_of(s.filter(p)).to_multiset().add(
        keys_of(s.filter(q)).to_multiset(),
    ));
}

/// One entry at most is live for each field of each frame, and it is the one
/// whose key the frame carries.
proof fn lemma_live_slot(dpb: Seq<DpbEntry>, long: bool, id: u32, bottom: bool)
    ensures
        ({
            let here = live_fields(dpb).filter(in_slot(long, id, bottom));
            match field_key(dpb, long, id, bottom) {
                Some(k) => here.len() == 1 && here[0].dpb_key == k,
                None => here.len() == 0,
            }
        }),
    decreases dpb.len(),
{
    let slot = in_slot(long, id, bottom);
    if dpb.len() == 0 {
        reveal(Seq::filter);
    } else {
        let front = dpb.drop_last();
        let before = live_fields(front);
        let e = dpb.last();
        lemma_live_slot(front, long, id, bottom);
        if !(e.marking is Unused) {
            let kept = before.filter(other_field(e));
            kept.lemma_filter_push(e, slot);
            if slot(e) {
                let none = |x: DpbEntry| false;
                assert forall|x: DpbEntry| #[trigger] none(x) <==> (other_field(e)(x) && slot(
                    x,
                )) by {}
                lemma_filter_twice(before, other_field(e), slot, none);
                lemma_filter_none(before, none);
            } else {
                assert forall|x: DpbEntry| #[trigger] slot(x) <==> (other_field(e)(x) && slot(
                    x,
                )) by {}
                lemma_filter_twice(before, other_field(e), slot, slot);
            }
        }
    }
}

proof fn lemma_parity_keys_same(a: Seq<RefFrame>, b: Seq<RefFrame>, bottom: bool)
    requires
        a.len() == b.len(),
        forall|i: int|
            0 <= i < a.len() ==> parity_key(bottom)(#[trigger] a[i]) == parity_key(bottom)(b[i]),
    ensures
        parity_keys(a, bottom) == parity_keys(b, bottom),
    decreases a.len(),
{
    if a.len() > 0 {
        assert(parity_key(bottom)(a[a.len() - 1]) == parity_key(bottom)(b[a.len() - 1]));
        assert forall|i: int| 0 <= i < a.len() - 1 implies parity_key(bottom)(
            #[trigger] a.drop_last()[i],
        ) == parity_key(bottom)(b.drop_last()[i]) by {
            assert(parity_key(bottom)(a[i]) == parity_key(bottom)(b[i]));
        }
        lemma_parity_keys_same(a.drop_last(), b.drop_last(), bottom);
    }
}

proof fn lemma_parity_keys_push(a: Seq<RefFrame>, f: RefFrame, bottom: bool)
    ensures
        parity_keys(a.push(f), bottom) == (match parity_key(bottom)(f) {
            Some(k) => parity_keys(a, bottom).push(k),
            None => parity_keys(a, bottom),
        }),
{
    assert(a.push(f).drop_last() == a);
    if let Some(k) = parity_key(bottom)(f) {
        assert(parity_keys(a, bottom) + seq![k] == parity_keys(a, bottom).push(k));
    }
}

proof fn lemma_parity_multiset_push(a: Seq<RefFrame>, f: RefFrame, bottom: bool)
    ensures
        parity_keys(a.push(f), bottom).to_multiset() == parity_keys(a, bottom).to_multiset().add(
            key_if(parity_key(bottom)(f)),
        ),
{
    broadcast use vstd::seq_lib::group_to_multiset_ensures;
    lemma_parity_keys_push(a, f, bottom);
    assert(parity_keys(a.push(f), bottom).to_multiset() =~= parity_keys(
        a,
        bottom,
    ).to_multiset().add(key_if(parity_key(bottom)(f))));
}

proof fn lemma_parity_multiset_update(a: Seq<RefFrame>, b: Seq<RefFrame>, s: int, bottom: bool)
    requires
        a.len() == b.len(),
        0 <= s < a.len(),
        forall|i: int|
            0 <= i < a.len() && i != s ==> parity_key(bottom)(#[trigger] a[i]) == parity_key(
                bottom,
            )(b[i]),
    ensures
        parity_keys(a, bottom).to_multiset().add(key_if(parity_key(bottom)(b[s]))) == parity_keys(
            b,
            bottom,
        ).to_multiset().add(key_if(parity_key(bottom)(a[s]))),
    decreases a.len(),
{
    let last = a.len() - 1;
    let aa = a.drop_last();
    let bb = b.drop_last();
    assert(aa.push(a[last]) == a);
    assert(bb.push(b[last]) == b);
    lemma_parity_multiset_push(aa, a[last], bottom);
    lemma_parity_multiset_push(bb, b[last], bottom);
    assert forall|i: int| 0 <= i < aa.len() && i != s implies parity_key(bottom)(#[trigger] aa[i])
        == parity_key(bottom)(bb[i]) by {
        assert(parity_key(bottom)(a[i]) == parity_key(bottom)(b[i]));
    }
    if s == last {
        lemma_parity_keys_same(aa, bb, bottom);
    } else {
        assert(parity_key(bottom)(a[last]) == parity_key(bottom)(b[last]));
        lemma_parity_multiset_update(aa, bb, s, bottom);
        assert(aa[s] == a[s] && bb[s] == b[s]);
        let ma = parity_keys(aa, bottom).to_multiset();
        let mb = parity_keys(bb, bottom).to_multiset();
        let ka = key_if(parity_key(bottom)(a[s]));
        let kb = key_if(parity_key(bottom)(b[s]));
        let last_key = key_if(parity_key(bottom)(a[last]));
        assert forall|k: u32| #[trigger] ma.add(last_key).add(kb).count(k) == mb.add(last_key).add(
            ka,
        ).count(k) by {
            assert(ma.add(kb).count(k) == mb.add(ka).count(k));
        }
        assert(ma.add(last_key).add(kb) =~= mb.add(last_key).add(ka));
    }
    assert(parity_keys(a, bottom).to_multiset().add(key_if(parity_key(bottom)(b[s])))
        =~= parity_keys(b, bottom).to_multiset().add(key_if(parity_key(bottom)(a[s]))));
}

proof fn lemma_keys_of_one(s: Seq<DpbEntry>, key: Option<u32>)
    requires
        match key {
            Some(k) => s.len() == 1 && s[0].dpb_key == k,
            None => s.len() == 0,
        },
    ensures
        keys_of(s).to_multiset() == key_if(key),
{
    broadcast use vstd::seq_lib::group_to_multiset_ensures;
    match key {
        Some(k) => {
            assert(keys_of(s) == Seq::<u32>::empty().push(k));
            assert(keys_of(s).to_multiset() =~= Multiset::singleton(k));
        },
        None => {
            assert(keys_of(s) == Seq::<u32>::empty());
            assert(keys_of(s).to_multiset() =~= Multiset::empty());
        },
    }
}

/// The frames carry the keys of the live fields.
proof fn lemma_frames_carry_live(
    dpb: Seq<DpbEntry>,
    long: bool,
    current_frame_num: u32,
    max_frame_num: u32,
    bottom: bool,
)
    ensures
        parity_keys(
            reference_frames(dpb, long, current_frame_num, max_frame_num),
            bottom,
        ).to_multiset() == keys_of(live_fields(dpb).filter(of_parity(long, bottom))).to_multiset(),
    decreases dpb.len(),
{
    broadcast use vstd::seq_lib::group_to_multiset_ensures;
    let class = of_parity(long, bottom);
    if dpb.len() == 0 {
        reveal(Seq::filter);
        assert(keys_of(live_fields(dpb).filter(class)) == Seq::<u32>::empty());
        assert(reference_frames(dpb, long, current_frame_num, max_frame_num) == Seq::<
            RefFrame,
        >::empty());
    } else {
        let front = dpb.drop_last();
        let e = dpb.last();
        let before = live_fields(front);
        let live = live_fields(dpb);
        let old_heads = frame_heads(front, long);
        let heads = frame_heads(dpb, long);
        let old_frames = reference_frames(front, long, current_frame_num, max_frame_num);
        let frames = reference_frames(dpb, long, current_frame_num, max_frame_num);
        lemma_frames_carry_live(front, long, current_frame_num, max_frame_num, bottom);
        lemma_heads_distinct(front, long);
        let id = frame_id(e, long);
        // What stays as it was.
        assert forall|i: int|
            0 <= i < old_heads.len() && !(class(e) && frame_id(old_heads[i], long)
                == id) implies parity_key(bottom)(#[trigger] frames[i]) == parity_key(bottom)(
            old_frames[i],
        ) by {
            assert(heads[i] == old_heads[i]);
        }
        if !class(e) {
            if !(e.marking is Unused) {
                assert forall|x: DpbEntry| #[trigger] class(x) <==> (other_field(e)(x) && class(
                    x,
                )) by {}
                lemma_filter_twice(before, other_field(e), class, class);
                before.filter(other_field(e)).lemma_filter_push(e, class);
            }
            assert(live.filter(class) == before.filter(class));
            if heads.len() > old_heads.len() {
                lemma_headless(front, long, id);
                let kept = frames.drop_last();
                assert(kept.push(frames.last()) == frames);
                lemma_parity_keys_push(kept, frames.last(), bottom);
                assert forall|i: int| 0 <= i < kept.len() implies parity_key(bottom)(
                    #[trigger] kept[i],
                ) == parity_key(bottom)(old_frames[i]) by {
                    assert(kept[i] == frames[i]);
                }
                lemma_parity_keys_same(kept, old_frames, bottom);
            } else {
                lemma_parity_keys_same(frames, old_frames, bottom);
            }
        } else {
            let slot = in_slot(long, id, bottom);
            let elsewhere = of_parity_elsewhere(long, id, bottom);
            let old_key = field_key(front, long, id, bottom);
            lemma_live_slot(front, long, id, bottom);
            lemma_keys_parts(before, class, slot, elsewhere);
            lemma_keys_of_one(before.filter(slot), old_key);
            assert forall|x: DpbEntry| #[trigger] elsewhere(x) <==> (other_field(e)(x) && class(
                x,
            )) by {}
            lemma_filter_twice(before, other_field(e), class, elsewhere);
            before.filter(other_field(e)).lemma_filter_push(e, class);
            before.filter(elsewhere).lemma_push_map_commute(storage_key(), e);
            let rest = keys_of(before.filter(elsewhere)).to_multiset();
            assert(keys_of(live.filter(class)).to_multiset() == rest.insert(e.dpb_key));
            if has_head(old_heads, long, id) {
                let s = choose|s: int|
                    0 <= s < old_heads.len() && frame_id(#[trigger] old_heads[s], long) == id;
                assert forall|i: int| 0 <= i < frames.len() && i != s implies parity_key(bottom)(
                    #[trigger] frames[i],
                ) == parity_key(bottom)(old_frames[i]) by {
                    assert(frame_id(old_heads[i], long) != id);
                }
                lemma_parity_multiset_update(frames, old_frames, s, bottom);
                assert(heads[s] == old_heads[s]);
                assert(parity_key(bottom)(frames[s]) == Some(e.dpb_key));
                assert(parity_key(bottom)(old_frames[s]) == old_key);
                let now = parity_keys(frames, bottom).to_multiset();
                assert(now.add(key_if(old_key)) == rest.add(key_if(old_key)).insert(e.dpb_key)) by {
                    assert(now.add(key_if(old_key)) =~= key_if(old_key).add(rest).add(
                        key_if(Some(e.dpb_key)),
                    ));
                    assert(now.add(key_if(old_key)) =~= rest.add(key_if(old_key)).insert(
                        e.dpb_key,
                    ));
                }
                let grown = rest.insert(e.dpb_key);
                assert forall|k: u32| #[trigger] now.count(k) == grown.count(k) by {
                    assert(now.add(key_if(old_key)).count(k) == rest.add(key_if(old_key)).insert(
                        e.dpb_key,
                    ).count(k));
                }
                assert(now =~= grown);
            } else {
                lemma_headless(front, long, id);
                let kept = frames.drop_last();
                assert(kept.push(frames.last()) == frames);
                lemma_parity_keys_push(kept, frames.last(), bottom);
                assert forall|i: int| 0 <= i < kept.len() implies parity_key(bottom)(
                    #[trigger] kept[i],
                ) == parity_key(bottom)(old_frames[i]) by {
                    assert(kept[i] == frames[i]);
                    assert(frame_id(old_heads[i], long) != id);
                }
                lemma_parity_keys_same(kept, old_frames, bottom);
                assert(parity_key(bottom)(frames.last()) == Some(e.dpb_key));
                assert(parity_keys(frames, bottom).to_multiset() =~= rest.insert(e.dpb_key));
            }
        }
    }
}

proof fn lemma_parity_multiset_insert(
    s: Seq<RefFrame>,
    f: RefFrame,
    rank: spec_fn(RefFrame) -> int,
    bottom: bool,
)
    ensures
        parity_keys(insert_by_rank(s, f, rank), bottom).to_multiset() == parity_keys(
            s,
            bottom,
        ).to_multiset().add(key_if(parity_key(bottom)(f))),
    decreases s.len(),
{
    if s.len() == 0 || rank(s.last()) <= rank(f) {
        lemma_parity_multiset_push(s, f, bottom);
    } else {
        let rest = s.drop_last();
        lemma_parity_multiset_insert(rest, f, rank, bottom);
        lemma_parity_multiset_push(insert_by_rank(rest, f, rank), s.last(), bottom);
        lemma_parity_multiset_push(rest, s.last(), bottom);
        assert(rest.push(s.last()) == s);
        assert(parity_keys(insert_by_rank(s, f, rank), bottom).to_multiset() =~= parity_keys(
            s,
            bottom,
        ).to_multiset().add(key_if(parity_key(bottom)(f))));
    }
}

proof fn lemma_parity_multiset_sort(s: Seq<RefFrame>, rank: spec_fn(RefFrame) -> int, bottom: bool)
    ensures
        parity_keys(stable_sort(s, rank), bottom).to_multiset() == parity_keys(
            s,
            bottom,
        ).to_multiset(),
    decreases s.len(),
{
    if s.len() > 0 {
        let rest = s.drop_last();
        lemma_parity_multiset_sort(rest, rank, bottom);
        lemma_parity_multiset_insert(stable_sort(rest, rank), s.last(), rank, bottom);
        lemma_parity_multiset_push(rest, s.last(), bottom);
        assert(rest.push(s.last()) == s);
    }
}

proof fn lemma_parity_multiset_split(s: Seq<RefFrame>, poc: i32, bottom: bool)
    ensures
        parity_keys(s, bottom).to_multiset() == parity_keys(
            s.filter(poc_at_most(poc)),
            bottom,
        ).to_multiset().add(parity_keys(s.filter(poc_above(poc)), bottom).to_multiset()),
    decreases s.len(),
{
    broadcast use vstd::seq_lib::group_to_multiset_ensures;
    reveal(Seq::filter);
    if s.len() > 0 {
        let rest = s.drop_last();
        let f = s.last();
        lemma_parity_multiset_split(rest, poc, bottom);
        lemma_parity_multiset_push(rest, f, bottom);
        lemma_parity_multiset_push(rest.filter(poc_at_most(poc)), f, bottom);
        lemma_parity_multiset_push(rest.filter(poc_above(poc)), f, bottom);
        assert(rest.push(f) == s);
    }
    assert(parity_keys(s, bottom).to_multiset() =~= parity_keys(
        s.filter(poc_at_most(poc)),
        bottom,
    ).to_multiset().add(parity_keys(s.filter(poc_above(poc)), bottom).to_multiset()));
}

proof fn lemma_parity_multiset_join(a: Seq<RefFrame>, b: Seq<RefFrame>, bottom: bool)
    ensures
        parity_keys(a + b, bottom).to_multiset() == parity_keys(a, bottom).to_multiset().add(
            parity_keys(b, bottom).to_multiset(),
        ),
    decreases b.len(),
{
    broadcast use vstd::seq_lib::group_to_multiset_ensures;
    if b.len() == 0 {
        assert(a + b == a);
    } else {
        let rest = b.drop_last();
        lemma_parity_multiset_join(a, rest, bottom);
        lemma_parity_multiset_push(a + rest, b.last(), bottom);
        lemma_parity_multiset_push(rest, b.last(), bottom);
        assert(rest.push(b.last()) == b);
        assert((a + rest).push(b.last()) == a + b);
    }
    assert(parity_keys(a + b, bottom).to_multiset() =~= parity_keys(a, bottom).to_multiset().add(
        parity_keys(b, bottom).to_multiset(),
    ));
}

proof fn lemma_alternate_multiset(a: Seq<u32>, b: Seq<u32>)
    ensures
        alternate(a, b).to_multiset() == a.to_multiset().add(b.to_multiset()),
    decreases a.len() + b.len(),
{
    broadcast use vstd::seq_lib::group_to_multiset_ensures;
    if a.len() > b.len() {
        let rest = a.drop_last();
        assert(rest.push(a.last()) == a);
        lemma_alternate_multiset(rest, b);
        lemma_alternate_push_first(rest, b, a.last());
    } else if b.len() > 0 {
        let rest = b.drop_last();
        assert(rest.push(b.last()) == b);
        lemma_alternate_multiset(a, rest);
        lemma_alternate_push_second(a, rest, b.last());
    } else {
        assert(alternate(a, b) == Seq::<u32>::empty());
    }
    assert(alternate(a, b).to_multiset() =~= a.to_multiset().add(b.to_multiset()));
}

/// There is one reference frame for each frame that a reference of the wanted
/// kind belongs to, and no other.
pub proof fn law_frame_heads(dpb: Seq<DpbEntry>, want_long_term: bool)
    ensures
        ({
            let heads = frame_heads(dpb, want_long_term);
            &&& forall|i: int, j: int|
                0 <= i < j < heads.len() ==> frame_id(#[trigger] heads[i], want_long_term)
                    != frame_id(#[trigger] heads[j], want_long_term)
            &&& forall|i: int|
                0 <= i < heads.len() ==> is_wanted(#[trigger] heads[i], want_long_term)
                    && dpb.contains(heads[i])
            &&& forall|k: int|
                0 <= k < dpb.len() && is_wanted(#[trigger] dpb[k], want_long_term) ==> has_head(
                    heads,
                    want_long_term,
                    frame_id(dpb[k], want_long_term),
                )
        }),
    decreases dpb.len(),
{
    lemma_heads_distinct(dpb, want_long_term);
    if dpb.len() > 0 {
        let front = dpb.drop_last();
        let last = dpb.len() - 1;
        let old_heads = frame_heads(front, want_long_term);
        let heads = frame_heads(dpb, want_long_term);
        law_frame_heads(front, want_long_term);
        assert forall|i: int| 0 <= i < heads.len() implies is_wanted(
            #[trigger] heads[i],
            want_long_term,
        ) && dpb.contains(heads[i]) by {
            if i < old_heads.len() {
                assert(heads[i] == old_heads[i]);
                let h = choose|h: int| 0 <= h < front.len() && front[h] == old_heads[i];
                assert(dpb[h] == heads[i]);
            } else {
                assert(dpb[last] == heads[i]);
            }
        }
        assert forall|k: int|
            0 <= k < dpb.len() && is_wanted(#[trigger] dpb[k], want_long_term) implies has_head(
            heads,
            want_long_term,
            frame_id(dpb[k], want_long_term),
        ) by {
            let id = frame_id(dpb[k], want_long_term);
            if k < last {
                assert(front[k] == dpb[k]);
            }
            if has_head(old_heads, want_long_term, id) {
                let i = choose|i: int|
                    0 <= i < old_heads.len() && frame_id(#[trigger] old_heads[i], want_long_term)
                        == id;
                assert(heads[i] == old_heads[i]);
            } else {
                assert(heads[old_heads.len() as int] == dpb[k]);
            }
        }
    }
}

/// The `PicOrderCnt` of a reference frame is the lowest among its entries.
pub proof fn law_lowest_poc(dpb: Seq<DpbEntry>, want_long_term: bool, id: u32)
    ensures
        forall|k: int|
            0 <= k < dpb.len() && belongs_to(#[trigger] dpb[k], want_long_term, id) ==> lowest_poc(
                dpb,
                want_long_term,
                id,
            ) <= dpb[k].pic_order_cnt,
        (exists|k: int| 0 <= k < dpb.len() && belongs_to(#[trigger] dpb[k], want_long_term, id))
            ==> exists|k: int|
            0 <= k < dpb.len() && belongs_to(#[trigger] dpb[k], want_long_term, id)
                && dpb[k].pic_order_cnt == lowest_poc(dpb, want_long_term, id),
    decreases dpb.len(),
{
    if dpb.len() > 0 {
        let front = dpb.drop_last();
        let last = dpb.len() - 1;
        let low = lowest_poc(dpb, want_long_term, id);
        law_lowest_poc(front, want_long_term, id);
        assert(forall|k: int| 0 <= k < last ==> #[trigger] dpb[k] == front[k]);
        if exists|k: int|
            0 <= k < front.len() && belongs_to(#[trigger] front[k], want_long_term, id) {
            let k = choose|k: int|
                0 <= k < front.len() && belongs_to(#[trigger] front[k], want_long_term, id)
                    && front[k].pic_order_cnt == lowest_poc(front, want_long_term, id);
            assert(belongs_to(dpb[k], want_long_term, id));
            assert(dpb[k].pic_order_cnt == low || dpb[last].pic_order_cnt == low);
        } else {
            lemma_no_poc(front, want_long_term, id);
            if belongs_to(dpb[last], want_long_term, id) {
                assert(dpb[last].pic_order_cnt == low);
            } else {
                assert forall|k: int| 0 <= k < dpb.len() implies !belongs_to(
                    #[trigger] dpb[k],
                    want_long_term,
                    id,
                ) by {
                    if k < last {
                        assert(dpb[k] == front[k]);
                    }
                }
            }
        }
    }
}

proof fn lemma_no_poc(dpb: Seq<DpbEntry>, want_long_term: bool, id: u32)
    requires
        forall|k: int| 0 <= k < dpb.len() ==> !belongs_to(#[trigger] dpb[k], want_long_term, id),
    ensures
        lowest_poc(dpb, want_long_term, id) == i32::MAX,
    decreases dpb.len(),
{
    if dpb.len() > 0 {
        let front = dpb.drop_last();
        assert(forall|k: int| 0 <= k < front.len() ==> #[trigger] front[k] == dpb[k]);
        assert(!belongs_to(dpb[dpb.len() - 1], want_long_term, id));
        lemma_no_poc(front, want_long_term, id);
    }
}

/// Fields are taken in turns: as long as both parities last, the even positions
/// hold the fields of the parity of the current field, in the order of the
/// frames, and the odd positions those of the opposite parity. The rest is what
/// is left of one parity.
pub proof fn law_fields_take_turns(frames: Seq<RefFrame>, current_bottom: bool, i: int)
    requires
        0 <= i < interleaved(frames, current_bottom).len(),
    ensures
        ({
            let list = interleaved(frames, current_bottom);
            let same = parity_keys(frames, current_bottom);
            let opposite = parity_keys(frames, !current_bottom);
            &&& list.len() == same.len() + opposite.len()
            &&& i / 2 < same.len() && i / 2 < opposite.len() ==> list[i] == (if i % 2 == 0 {
                same[i / 2]
            } else {
                opposite[i / 2]
            })
            &&& i / 2 >= opposite.len() ==> list[i] == same[i - opposite.len()]
            &&& i / 2 >= same.len() ==> list[i] == opposite[i - same.len()]
        }),
{
}

/// The reference frames that the list for a P slice of a field is made of: all
/// the short-term ones by descending `FrameNumWrap`, then all the long-term ones
/// by ascending `LongTermFrameIdx`.
pub proof fn law_p_field_frames(dpb: Seq<DpbEntry>, current_frame_num: u32, max_frame_num: u32)
    ensures
        ({
            let short = reference_frames(dpb, false, current_frame_num, max_frame_num);
            let order = stable_sort(short, FrameOrder::FrameNumWrapDescending.rank());
            &&& order.to_multiset() == short.to_multiset()
            &&& forall|i: int, j: int|
                0 <= i <= j < order.len() ==> (#[trigger] order[i]).frame_num_wrap >= (
                #[trigger] order[j]).frame_num_wrap
        }),
        ({
            let long = reference_frames(dpb, true, current_frame_num, max_frame_num);
            let order = long_term_field_frames(dpb, current_frame_num, max_frame_num);
            &&& order.to_multiset() == long.to_multiset()
            &&& forall|i: int, j: int|
                0 <= i <= j < order.len() ==> (#[trigger] order[i]).long_term_frame_idx <= (
                #[trigger] order[j]).long_term_frame_idx
        }),
{
    let short = reference_frames(dpb, false, current_frame_num, max_frame_num);
    let long = reference_frames(dpb, true, current_frame_num, max_frame_num);
    let by_num = FrameOrder::FrameNumWrapDescending.rank();
    let by_idx = FrameOrder::LongTermIdxAscending.rank();
    law_stable_sort(short, by_num);
    law_stable_sort(long, by_idx);
    let order = stable_sort(short, by_num);
    assert forall|i: int, j: int| 0 <= i <= j < order.len() implies (
    #[trigger] order[i]).frame_num_wrap >= (#[trigger] order[j]).frame_num_wrap by {
        assert(by_num(order[i]) <= by_num(order[j]));
    }
    let tail = stable_sort(long, by_idx);
    assert forall|i: int, j: int| 0 <= i <= j < tail.len() implies (
    #[trigger] tail[i]).long_term_frame_idx <= (#[trigger] tail[j]).long_term_frame_idx by {
        assert(by_idx(tail[i]) <= by_idx(tail[j]));
    }
}

/// The short-term reference frames that the lists for a B slice of a field are
/// made of: those at or in front of the current `PicOrderCnt` descend from it,
/// those behind it ascend from it, and together they are all.
pub proof fn law_b_field_frames(frames: Seq<RefFrame>, current_poc: i32)
    ensures
        ({
            let back = frames_back(frames, current_poc);
            let ahead = frames_ahead(frames, current_poc);
            &&& back.to_multiset().add(ahead.to_multiset()) == frames.to_multiset()
            &&& forall|i: int|
                0 <= i < back.len() ==> (#[trigger] back[i]).frame_poc <= current_poc
            &&& forall|i: int|
                0 <= i < ahead.len() ==> (#[trigger] ahead[i]).frame_poc > current_poc
            &&& forall|i: int, j: int|
                0 <= i <= j < back.len() ==> (#[trigger] back[i]).frame_poc >= (
                #[trigger] back[j]).frame_poc
            &&& forall|i: int, j: int|
                0 <= i <= j < ahead.len() ==> (#[trigger] ahead[i]).frame_poc <= (
                #[trigger] ahead[j]).frame_poc
        }),
{
    let desc = FrameOrder::PocDescending.rank();
    let asc = FrameOrder::PocAscending.rank();
    let near = frames.filter(poc_at_most(current_poc));
    let far = frames.filter(poc_above(current_poc));
    let back = frames_back(frames, current_poc);
    let ahead = frames_ahead(frames, current_poc);
    law_stable_sort(near, desc);
    law_stable_sort(far, asc);
    lemma_split_multiset(frames, current_poc);
    assert forall|i: int| 0 <= i < back.len() implies (#[trigger] back[i]).frame_poc
        <= current_poc by {
        lemma_sorted_member(near, desc, i);
        lemma_filter_holds(frames, poc_at_most(current_poc), back[i]);
    }
    assert forall|i: int| 0 <= i < ahead.len() implies (#[trigger] ahead[i]).frame_poc
        > current_poc by {
        lemma_sorted_member(far, asc, i);
        lemma_filter_holds(frames, poc_above(current_poc), ahead[i]);
    }
    assert forall|i: int, j: int| 0 <= i <= j < back.len() implies (#[trigger] back[i]).frame_poc
        >= (#[trigger] back[j]).frame_poc by {
        assert(desc(back[i]) <= desc(back[j]));
    }
    assert forall|i: int, j: int| 0 <= i <= j < ahead.len() implies (#[trigger] ahead[i]).frame_poc
        <= (#[trigger] ahead[j]).frame_poc by {
        assert(asc(ahead[i]) <= asc(ahead[j]));
    }
}

proof fn lemma_sorted_member(s: Seq<RefFrame>, rank: spec_fn(RefFrame) -> int, i: int)
    requires
        0 <= i < stable_sort(s, rank).len(),
    ensures
        s.contains(stable_sort(s, rank)[i]),
{
    broadcast use vstd::seq_lib::group_to_multiset_ensures;
    let sorted = stable_sort(s, rank);
    law_stable_sort(s, rank);
    assert(sorted.contains(sorted[i]));
    assert(s.to_multiset().count(sorted[i]) > 0);
}

proof fn lemma_filter_holds(s: Seq<RefFrame>, p: spec_fn(RefFrame) -> bool, f: RefFrame)
    requires
        s.filter(p).contains(f),
    ensures
        p(f),
{
    broadcast use vstd::seq_lib::group_filter_ensures;
    let h = choose|h: int| 0 <= h < s.filter(p).len() && s.filter(p)[h] == f;
    assert(p(s.filter(p)[h]));
}

proof fn lemma_split_multiset(s: Seq<RefFrame>, poc: i32)
    ensures
        s.filter(poc_at_most(poc)).to_multiset().add(s.filter(poc_above(poc)).to_multiset())
            == s.to_multiset(),
    decreases s.len(),
{
    broadcast use vstd::seq_lib::group_to_multiset_ensures;
    reveal(Seq::filter);
    if s.len() > 0 {
        let rest = s.drop_last();
        lemma_split_multiset(rest, poc);
        assert(rest.push(s.last()) == s);
    }
    assert(s.filter(poc_at_most(poc)).to_multiset().add(s.filter(poc_above(poc)).to_multiset())
        =~= s.to_multiset());
}

/// The keys that a list of fields is made of.
spec fn fields_of(frames: Seq<RefFrame>) -> Multiset<u32> {
    parity_keys(frames, false).to_multiset().add(parity_keys(frames, true).to_multiset())
}

proof fn lemma_interleaved_multiset(frames: Seq<RefFrame>, current_bottom: bool)
    ensures
        interleaved(frames, current_bottom).to_multiset() == fields_of(frames),
{
    lemma_alternate_multiset(
        parity_keys(frames, current_bottom),
        parity_keys(frames, !current_bottom),
    );
    assert(interleaved(frames, current_bottom).to_multiset() =~= fields_of(frames));
}

proof fn lemma_sorted_fields(frames: Seq<RefFrame>, rank: spec_fn(RefFrame) -> int)
    ensures
        fields_of(stable_sort(frames, rank)) == fields_of(frames),
{
    lemma_parity_multiset_sort(frames, rank, false);
    lemma_parity_multiset_sort(frames, rank, true);
}

proof fn lemma_parted_fields(frames: Seq<RefFrame>, poc: i32)
    ensures
        fields_of(frames_back(frames, poc) + frames_ahead(frames, poc)) == fields_of(frames),
        fields_of(frames_ahead(frames, poc) + frames_back(frames, poc)) == fields_of(frames),
{
    let back = frames_back(frames, poc);
    let ahead = frames_ahead(frames, poc);
    assert forall|bottom: bool|
        parity_keys(back + ahead, bottom).to_multiset() == #[trigger] parity_keys(
            frames,
            bottom,
        ).to_multiset() && parity_keys(ahead + back, bottom).to_multiset() == parity_keys(
            frames,
            bottom,
        ).to_multiset() by {
        lemma_parity_multiset_split(frames, poc, bottom);
        lemma_parity_multiset_sort(
            frames.filter(poc_at_most(poc)),
            FrameOrder::PocDescending.rank(),
            bottom,
        );
        lemma_parity_multiset_sort(
            frames.filter(poc_above(poc)),
            FrameOrder::PocAscending.rank(),
            bottom,
        );
        lemma_parity_multiset_join(back, ahead, bottom);
        lemma_parity_multiset_join(ahead, back, bottom);
        assert(parity_keys(back + ahead, bottom).to_multiset() =~= parity_keys(
            frames,
            bottom,
        ).to_multiset());
        assert(parity_keys(ahead + back, bottom).to_multiset() =~= parity_keys(
            frames,
            bottom,
        ).to_multiset());
    }
    assert(parity_keys(back + ahead, false).to_multiset() == parity_keys(
        frames,
        false,
    ).to_multiset());
    assert(parity_keys(back + ahead, true).to_multiset() == parity_keys(
        frames,
        true,
    ).to_multiset());
}

proof fn lemma_live_used(dpb: Seq<DpbEntry>)
    ensures
        forall|i: int|
            0 <= i < live_fields(dpb).len() ==> !((
            #[trigger] live_fields(dpb)[i]).marking is Unused) && dpb.contains(
                live_fields(dpb)[i],
            ),
    decreases dpb.len(),
{
    broadcast use vstd::seq_lib::group_filter_ensures;
    if dpb.len() > 0 {
        let front = dpb.drop_last();
        let before = live_fields(front);
        let live = live_fields(dpb);
        let e = dpb.last();
        lemma_live_used(front);
        assert(front.push(e) == dpb);
        assert forall|i: int| 0 <= i < live.len() implies !((#[trigger] live[i]).marking is Unused)
            && dpb.contains(live[i]) by {
            let kept = before.filter(other_field(e));
            if !(e.marking is Unused) && i == kept.len() {
                assert(dpb[dpb.len() - 1] == e);
            } else {
                if !(e.marking is Unused) {
                    assert(live[i] == kept[i]);
                    assert(kept.contains(kept[i]));
                    before.lemma_filter_contains_rev(other_field(e), kept[i]);
                }
                let j = choose|j: int| 0 <= j < before.len() && before[j] == live[i];
                assert(front.contains(before[j]));
                let h = choose|h: int| 0 <= h < front.len() && front[h] == before[j];
                assert(dpb[h] == live[i]);
            }
        }
    }
}

proof fn lemma_filter_all_entries(s: Seq<DpbEntry>, p: spec_fn(DpbEntry) -> bool)
    requires
        forall|i: int| 0 <= i < s.len() ==> p(#[trigger] s[i]),
    ensures
        s.filter(p) == s,
    decreases s.len(),
{
    reveal(Seq::filter);
    if s.len() > 0 {
        let rest = s.drop_last();
        assert(forall|i: int| 0 <= i < rest.len() ==> #[trigger] rest[i] == s[i]);
        assert(p(s[s.len() - 1]));
        lemma_filter_all_entries(rest, p);
    }
}

proof fn lemma_live_multiset(dpb: Seq<DpbEntry>, current_frame_num: u32, max_frame_num: u32)
    ensures
        fields_of(reference_frames(dpb, false, current_frame_num, max_frame_num)).add(
            fields_of(reference_frames(dpb, true, current_frame_num, max_frame_num)),
        ) == keys_of(live_fields(dpb)).to_multiset(),
{
    let live = live_fields(dpb);
    let used = |e: DpbEntry| !(e.marking is Unused);
    let short = |e: DpbEntry| e.marking is ShortTerm;
    let long = |e: DpbEntry| e.marking is LongTerm;
    lemma_live_used(dpb);
    lemma_filter_all_entries(live, used);
    lemma_keys_parts(live, used, short, long);
    lemma_keys_parts(live, short, of_parity(false, false), of_parity(false, true));
    lemma_keys_parts(live, long, of_parity(true, false), of_parity(true, true));
    lemma_frames_carry_live(dpb, false, current_frame_num, max_frame_num, false);
    lemma_frames_carry_live(dpb, false, current_frame_num, max_frame_num, true);
    lemma_frames_carry_live(dpb, true, current_frame_num, max_frame_num, false);
    lemma_frames_carry_live(dpb, true, current_frame_num, max_frame_num, true);
}

/// Each of the three initial lists of a field holds every reference field that
/// the DPB has to offer once, and nothing else.
pub proof fn law_field_lists_hold_live_fields(
    dpb: Seq<DpbEntry>,
    current_poc: i32,
    current_frame_num: u32,
    max_frame_num: u32,
    current_bottom: bool,
)
    ensures
        p_field_list(dpb, current_frame_num, max_frame_num, current_bottom).to_multiset()
            == keys_of(live_fields(dpb)).to_multiset(),
        b_field_list0(
            dpb,
            current_poc,
            current_frame_num,
            max_frame_num,
            current_bottom,
        ).to_multiset() == keys_of(live_fields(dpb)).to_multiset(),
        b_field_list1(
            dpb,
            current_poc,
            current_frame_num,
            max_frame_num,
            current_bottom,
        ).to_multiset() == keys_of(live_fields(dpb)).to_multiset(),
{
    let short = reference_frames(dpb, false, current_frame_num, max_frame_num);
    let long = reference_frames(dpb, true, current_frame_num, max_frame_num);
    let long_sorted = long_term_field_frames(dpb, current_frame_num, max_frame_num);
    let by_num = stable_sort(short, FrameOrder::FrameNumWrapDescending.rank());
    let frames0 = frames_back(short, current_poc) + frames_ahead(short, current_poc);
    let frames1 = frames_ahead(short, current_poc) + frames_back(short, current_poc);
    lemma_live_multiset(dpb, current_frame_num, max_frame_num);
    lemma_sorted_fields(long, FrameOrder::LongTermIdxAscending.rank());
    lemma_sorted_fields(short, FrameOrder::FrameNumWrapDescending.rank());
    lemma_parted_fields(short, current_poc);
    lemma_interleaved_multiset(long_sorted, current_bottom);
    lemma_interleaved_multiset(by_num, current_bottom);
    lemma_interleaved_multiset(frames0, current_bottom);
    lemma_interleaved_multiset(frames1, current_bottom);
    let tail = interleaved(long_sorted, current_bottom);
    vstd::seq_lib::lemma_multiset_commutative(interleaved(by_num, current_bottom), tail);
    vstd::seq_lib::lemma_multiset_commutative(interleaved(frames0, current_bottom), tail);
    vstd::seq_lib::lemma_multiset_commutative(interleaved(frames1, current_bottom), tail);
}

/// Whether entry `i` is the last that stands for its field, and is used for
/// reference.
pub open spec fn is_live(dpb: Seq<DpbEntry>, i: int) -> bool {
    &&& 0 <= i < dpb.len()
    &&& !(dpb[i].marking is Unused)
    &&& forall|j: int| i < j < dpb.len() ==> !same_field(#[trigger] dpb[j], dpb[i])
}

/// Whether some entry that is the last to stand for its field reads `e`.
pub open spec fn is_live_entry(dpb: Seq<DpbEntry>, e: DpbEntry) -> bool {
    exists|i: int| #[trigger] is_live(dpb, i) && dpb[i] == e
}

/// The reference fields that the DPB has to offer are the entries that are used
/// for reference and that no later entry stands for the same field as. No two
/// of them stand for the same field.
pub proof fn law_live_fields(dpb: Seq<DpbEntry>)
    ensures
        forall|i: int| #[trigger] is_live(dpb, i) ==> live_fields(dpb).contains(dpb[i]),
        forall|k: int|
            0 <= k < live_fields(dpb).len() ==> is_live_entry(dpb, #[trigger] live_fields(dpb)[k]),
        forall|k: int, l: int|
            0 <= k < l < live_fields(dpb).len() ==> !same_field(
                #[trigger] live_fields(dpb)[k],
                #[trigger] live_fields(dpb)[l],
            ),
    decreases dpb.len(),
{
    broadcast use vstd::seq_lib::group_filter_ensures;
    if dpb.len() > 0 {
        let front = dpb.drop_last();
        let before = live_fields(front);
        let live = live_fields(dpb);
        let last = dpb.len() - 1;
        let e = dpb[last];
        law_live_fields(front);
        assert(forall|j: int| 0 <= j < last ==> #[trigger] front[j] == dpb[j]);
        let kept = if e.marking is Unused {
            before
        } else {
            before.filter(other_field(e))
        };
        assert forall|k: int| 0 <= k < kept.len() implies before.contains(#[trigger] kept[k]) by {
            if !(e.marking is Unused) {
                assert(kept.contains(kept[k]));
                before.lemma_filter_contains_rev(other_field(e), kept[k]);
            }
        }
        assert forall|i: int| #[trigger] is_live(dpb, i) implies live.contains(dpb[i]) by {
            if i == last {
                assert(live[kept.len() as int] == e);
            } else {
                assert(is_live(front, i)) by {
                    assert forall|j: int| i < j < front.len() implies !same_field(
                        #[trigger] front[j],
                        front[i],
                    ) by {
                        assert(!same_field(dpb[j], dpb[i]));
                    }
                }
                let h = choose|h: int| 0 <= h < before.len() && before[h] == dpb[i];
                if !(e.marking is Unused) {
                    assert(!same_field(dpb[last], dpb[i]));
                    assert(other_field(e)(before[h]));
                    assert(kept.contains(before[h]));
                }
                let m = choose|m: int| 0 <= m < kept.len() && kept[m] == dpb[i];
                assert(live[m] == dpb[i]);
            }
        }
        assert forall|k: int| 0 <= k < live.len() implies is_live_entry(
            dpb,
            #[trigger] live[k],
        ) by {
            if k == kept.len() {
                assert(is_live(dpb, last));
            } else {
                assert(live[k] == kept[k]);
                let h = choose|h: int| 0 <= h < before.len() && before[h] == kept[k];
                assert(is_live_entry(front, before[h]));
                let i = choose|i: int| #[trigger] is_live(front, i) && front[i] == before[h];
                assert(is_live(dpb, i)) by {
                    assert forall|j: int| i < j < dpb.len() implies !same_field(
                        #[trigger] dpb[j],
                        dpb[i],
                    ) by {
                        if j < last {
                            assert(!same_field(front[j], front[i]));
                        } else if !(e.marking is Unused) {
                            assert(other_field(e)(kept[k]));
                        }
                    }
                }
            }
        }
        lemma_kept_apart(before, kept, e);
        assert forall|k: int, l: int| 0 <= k < l < live.len() implies !same_field(
            #[trigger] live[k],
            #[trigger] live[l],
        ) by {
            assert(live[k] == kept[k]);
            if l == kept.len() {
                assert(other_field(e)(kept[k]));
            } else {
                assert(live[l] == kept[l]);
            }
        }
    }
}

proof fn lemma_kept_apart(before: Seq<DpbEntry>, kept: Seq<DpbEntry>, e: DpbEntry)
    requires
        kept == before || kept == before.filter(other_field(e)),
        forall|k: int, l: int|
            0 <= k < l < before.len() ==> !same_field(#[trigger] before[k], #[trigger] before[l]),
    ensures
        forall|k: int, l: int|
            0 <= k < l < kept.len() ==> !same_field(#[trigger] kept[k], #[trigger] kept[l]),
    decreases before.len(),
{
    broadcast use vstd::seq_lib::group_filter_ensures;
    if kept != before && before.len() > 0 {
        reveal(Seq::filter);
        let rest = before.drop_last();
        let inner = rest.filter(other_field(e));
        assert(forall|k: int| 0 <= k < rest.len() ==> #[trigger] rest[k] == before[k]);
        lemma_kept_apart(rest, inner, e);
        assert forall|k: int, l: int| 0 <= k < l < kept.len() implies !same_field(
            #[trigger] kept[k],
            #[trigger] kept[l],
        ) by {
            assert(kept[k] == inner[k]);
            if l < inner.len() {
                assert(kept[l] == inner[l]);
            } else {
                assert(inner.contains(inner[k]));
                rest.lemma_filter_contains_rev(other_field(e), inner[k]);
                let h = choose|h: int| 0 <= h < rest.len() && rest[h] == inner[k];
                assert(!same_field(before[h], before[before.len() - 1]));
            }
        }
    }
}

/// The order of `frame_num` has no part in the lists of a B slice: any two
/// choices of the current `frame_num` and of its modulus give the same lists.
pub proof fn law_b_field_lists_ignore_frame_num(
    dpb: Seq<DpbEntry>,
    current_poc: i32,
    frame_num: u32,
    max_frame_num: u32,
    other_frame_num: u32,
    other_max_frame_num: u32,
    current_bottom: bool,
)
    ensures
        b_field_list0(dpb, current_poc, frame_num, max_frame_num, current_bottom) == b_field_list0(
            dpb,
            current_poc,
            other_frame_num,
            other_max_frame_num,
            current_bottom,
        ),
        b_field_list1(dpb, current_poc, frame_num, max_frame_num, current_bottom) == b_field_list1(
            dpb,
            current_poc,
            other_frame_num,
            other_max_frame_num,
            current_bottom,
        ),
{
    let blank = |f: RefFrame| RefFrame { frame_num_wrap: 0, ..f };
    let short = reference_frames(dpb, false, frame_num, max_frame_num);
    let short2 = reference_frames(dpb, false, other_frame_num, other_max_frame_num);
    let long = reference_frames(dpb, true, frame_num, max_frame_num);
    let long2 = reference_frames(dpb, true, other_frame_num, other_max_frame_num);
    assert(short.map_values(blank) =~= short2.map_values(blank));
    assert(long.map_values(blank) =~= long2.map_values(blank));
    lemma_blank_sort(long, blank, FrameOrder::LongTermIdxAscending);
    lemma_blank_sort(long2, blank, FrameOrder::LongTermIdxAscending);
    lemma_blank_parts(short, blank, current_poc);
    lemma_blank_parts(short2, blank, current_poc);
    let back = frames_back(short, current_poc);
    let ahead = frames_ahead(short, current_poc);
    let back2 = frames_back(short2, current_poc);
    let ahead2 = frames_ahead(short2, current_poc);
    let tail = long_term_field_frames(dpb, frame_num, max_frame_num);
    let tail2 = long_term_field_frames(dpb, other_frame_num, other_max_frame_num);
    assert((back + ahead).map_values(blank) =~= (back2 + ahead2).map_values(blank)) by {
        assert((back + ahead).map_values(blank) =~= back.map_values(blank) + ahead.map_values(
            blank,
        ));
        assert((back2 + ahead2).map_values(blank) =~= back2.map_values(blank) + ahead2.map_values(
            blank,
        ));
    }
    assert((ahead + back).map_values(blank) =~= (ahead2 + back2).map_values(blank)) by {
        assert((ahead + back).map_values(blank) =~= ahead.map_values(blank) + back.map_values(
            blank,
        ));
        assert((ahead2 + back2).map_values(blank) =~= ahead2.map_values(blank) + back2.map_values(
            blank,
        ));
    }
    lemma_blank_interleaved(back + ahead, back2 + ahead2, blank, current_bottom);
    lemma_blank_interleaved(ahead + back, ahead2 + back2, blank, current_bottom);
    lemma_blank_interleaved(tail, tail2, blank, current_bottom);
}

proof fn lemma_blank_sort(
    frames: Seq<RefFrame>,
    blank: spec_fn(RefFrame) -> RefFrame,
    order: FrameOrder,
)
    requires
        blank == (|f: RefFrame| RefFrame { frame_num_wrap: 0, ..f }),
        !(order is FrameNumWrapDescending),
    ensures
        stable_sort(frames.map_values(blank), order.rank()) == stable_sort(
            frames,
            order.rank(),
        ).map_values(blank),
{
    assert forall|f: RefFrame| (order.rank())(#[trigger] blank(f)) == (order.rank())(f) by {}
    lemma_stable_sort_map(frames, blank, order.rank(), order.rank());
}

proof fn lemma_blank_filter(
    frames: Seq<RefFrame>,
    blank: spec_fn(RefFrame) -> RefFrame,
    p: spec_fn(RefFrame) -> bool,
)
    requires
        forall|f: RefFrame| p(#[trigger] blank(f)) == p(f),
    ensures
        frames.map_values(blank).filter(p) == frames.filter(p).map_values(blank),
    decreases frames.len(),
{
    reveal(Seq::filter);
    if frames.len() > 0 {
        let rest = frames.drop_last();
        let f = frames.last();
        lemma_blank_filter(rest, blank, p);
        assert(frames.map_values(blank).drop_last() =~= rest.map_values(blank));
        assert(frames.map_values(blank).last() == blank(f));
        rest.filter(p).lemma_push_map_commute(blank, f);
    } else {
        assert(frames.map_values(blank).filter(p) =~= frames.filter(p).map_values(blank));
    }
}

proof fn lemma_blank_parts(
    frames: Seq<RefFrame>,
    blank: spec_fn(RefFrame) -> RefFrame,
    poc: i32,
)
    requires
        blank == (|f: RefFrame| RefFrame { frame_num_wrap: 0, ..f }),
    ensures
        frames_back(frames.map_values(blank), poc) == frames_back(frames, poc).map_values(blank),
        frames_ahead(frames.map_values(blank), poc) == frames_ahead(frames, poc).map_values(blank),
{
    lemma_blank_filter(frames, blank, poc_at_most(poc));
    lemma_blank_filter(frames, blank, poc_above(poc));
    lemma_blank_sort(frames.filter(poc_at_most(poc)), blank, FrameOrder::PocDescending);
    lemma_blank_sort(frames.filter(poc_above(poc)), blank, FrameOrder::PocAscending);
}

proof fn lemma_blank_interleaved(
    a: Seq<RefFrame>,
    b: Seq<RefFrame>,
    blank: spec_fn(RefFrame) -> RefFrame,
    current_bottom: bool,
)
    requires
        blank == (|f: RefFrame| RefFrame { frame_num_wrap: 0, ..f }),
        a.map_values(blank) == b.map_values(blank),
    ensures
        interleaved(a, current_bottom) == interleaved(b, current_bottom),
{
    assert(a.len() == a.map_values(blank).len());
    assert(b.len() == b.map_values(blank).len());
    assert forall|bottom: bool, i: int| 0 <= i < a.len() implies parity_key(bottom)(
        #[trigger] a[i],
    ) == #[trigger] parity_key(bottom)(b[i]) by {
        assert(a.map_values(blank)[i] == blank(a[i]));
        assert(b.map_values(blank)[i] == blank(b[i]));
    }
    lemma_parity_keys_same(a, b, current_bottom);
    lemma_parity_keys_same(a, b, !current_bottom);
}

} // verus!
