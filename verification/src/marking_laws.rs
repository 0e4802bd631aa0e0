//! What holds of every marking of reference pictures.

use vstd::prelude::*;

use crate::marking::{
    all_unused, as_long_term, as_short_term, dpb_after_marking, entry_after_marking,
};
use crate::mmco::{
    current_after, described_by, dpb_after, entry_after, entry_after_op, mmco_defined,
    mmco_op_defined, pic_num_x,
};
use crate::picture::{
    current_in_range, frame_num_wrap, CurrentPicture, DpbEntry, MmcoOp, RefMarking,
};
use crate::picture_laws::law_frame_num_wrap;
use crate::sliding_window::{
    after_sliding_window, is_oldest, joins_frame, lemma_frames_push, lemma_oldest_unique,
    long_term, long_term_frames, must_evict, oldest_frame, ref_frame_capacity, ref_frame_count,
    short_term, short_term_frames, without_frame,
};

verus! {

/// Whether two entries describe the same decoded picture: they differ in the
/// marking at most.
pub open spec fn same_picture(a: DpbEntry, b: DpbEntry) -> bool {
    &&& a.frame_num == b.frame_num
    &&& a.top_field_order_cnt == b.top_field_order_cnt
    &&& a.bottom_field_order_cnt == b.bottom_field_order_cnt
    &&& a.pic_order_cnt == b.pic_order_cnt
    &&& a.structure == b.structure
    &&& a.dpb_key == b.dpb_key
}

proof fn lemma_entry_after_keeps(ops: Seq<MmcoOp>, n: nat, e: DpbEntry, current: CurrentPicture)
    ensures
        same_picture(e, entry_after(ops, n, e, current)),
        e.marking is Unused ==> entry_after(ops, n, e, current) == e,
        e.marking is LongTerm ==> !(entry_after(ops, n, e, current).marking is ShortTerm),
    decreases n,
{
    if n > 0 {
        lemma_entry_after_keeps(ops, (n - 1) as nat, e, current);
    }
}

proof fn lemma_current_after_keeps(ops: Seq<MmcoOp>, n: nat, e: DpbEntry)
    ensures
        same_picture(e, current_after(ops, n, e)),
    decreases n,
{
    if n > 0 {
        lemma_current_after_keeps(ops, (n - 1) as nat, e);
    }
}

/// Marking changes markings and nothing else. The DPB keeps its entries in
/// their order, an entry that was unused for reference stays as it was, and a
/// long-term reference never becomes a short-term one.
pub proof fn law_marking_keeps_pictures(
    dpb: Seq<DpbEntry>,
    entry: DpbEntry,
    max_num_ref_frames: u32,
    is_idr: bool,
    adaptive_ops: Option<Seq<MmcoOp>>,
    current_frame_num: u32,
    max_frame_num: u32,
)
    ensures
        ({
            let after = dpb_after_marking(
                dpb,
                entry,
                max_num_ref_frames,
                is_idr,
                adaptive_ops,
                current_frame_num,
                max_frame_num,
            );
            &&& after.len() == dpb.len()
            &&& forall|i: int|
                0 <= i < dpb.len() ==> {
                    &&& same_picture(dpb[i], #[trigger] after[i])
                    &&& dpb[i].marking is Unused ==> after[i] == dpb[i]
                    &&& dpb[i].marking is LongTerm ==> !(after[i].marking is ShortTerm)
                }
        }),
{
    if !is_idr {
        if let Some(ops) = adaptive_ops {
            let current = described_by(entry, current_frame_num, max_frame_num);
            assert forall|i: int| 0 <= i < dpb.len() implies {
                let e = #[trigger] dpb_after(dpb, ops, ops.len(), current)[i];
                &&& same_picture(dpb[i], e)
                &&& dpb[i].marking is Unused ==> e == dpb[i]
                &&& dpb[i].marking is LongTerm ==> !(e.marking is ShortTerm)
            } by {
                lemma_entry_after_keeps(ops, ops.len(), dpb[i], current);
            }
        }
    }
}

/// After marking the current picture is used for reference, whatever its entry
/// said before, and its entry still describes the same picture.
pub proof fn law_current_becomes_reference(
    entry: DpbEntry,
    is_idr: bool,
    long_term_reference_flag_for_idr: bool,
    adaptive_ops: Option<Seq<MmcoOp>>,
)
    ensures
        ({
            let after = entry_after_marking(
                entry,
                is_idr,
                long_term_reference_flag_for_idr,
                adaptive_ops,
            );
            &&& !(after.marking is Unused)
            &&& same_picture(entry, after)
        }),
{
    if let Some(ops) = adaptive_ops {
        lemma_current_after_keeps(ops, ops.len(), as_short_term(entry));
        law_current_long_term(ops, ops.len(), as_short_term(entry));
    }
}

/// An IDR picture leaves no other reference in the DPB, whatever operations
/// come with it, and becomes a short-term reference, or a long-term one of
/// index 0.
pub proof fn law_idr_clears_references(
    dpb: Seq<DpbEntry>,
    entry: DpbEntry,
    max_num_ref_frames: u32,
    long_term_reference_flag: bool,
    adaptive_ops: Option<Seq<MmcoOp>>,
    current_frame_num: u32,
    max_frame_num: u32,
)
    ensures
        forall|i: int|
            0 <= i < dpb.len() ==> (#[trigger] dpb_after_marking(
                dpb,
                entry,
                max_num_ref_frames,
                true,
                adaptive_ops,
                current_frame_num,
                max_frame_num,
            )[i]).marking is Unused,
        entry_after_marking(entry, true, long_term_reference_flag, adaptive_ops) == (
        if long_term_reference_flag {
            as_long_term(entry, 0)
        } else {
            as_short_term(entry)
        }),
{
    assert(all_unused(dpb).len() == dpb.len());
}

// Sliding window.

proof fn lemma_mapped_set(
    dpb: Seq<DpbEntry>,
    p: spec_fn(DpbEntry) -> bool,
    f: spec_fn(DpbEntry) -> u32,
    x: u32,
)
    ensures
        dpb.filter(p).map_values(f).to_set().contains(x) <==> exists|i: int|
            0 <= i < dpb.len() && p(#[trigger] dpb[i]) && f(dpb[i]) == x,
{
    broadcast use vstd::seq_lib::group_filter_ensures;
    let hits = dpb.filter(p);
    let mapped = hits.map_values(f);
    if mapped.contains(x) {
        let h = choose|h: int| 0 <= h < mapped.len() && mapped[h] == x;
        assert(p(hits[h]));
        assert(hits.contains(hits[h]));
        dpb.lemma_filter_contains_rev(p, hits[h]);
        let i = choose|i: int| 0 <= i < dpb.len() && dpb[i] == hits[h];
        assert(p(dpb[i]) && f(dpb[i]) == x);
    }
    if exists|i: int| 0 <= i < dpb.len() && p(#[trigger] dpb[i]) && f(dpb[i]) == x {
        let i = choose|i: int| 0 <= i < dpb.len() && p(#[trigger] dpb[i]) && f(dpb[i]) == x;
        assert(hits.contains(dpb[i]));
        let h = choose|h: int| 0 <= h < hits.len() && hits[h] == dpb[i];
        assert(mapped[h] == x);
    }
}

/// The reference frames of a DPB are the `frame_num` values of its short-term
/// references and the `LongTermFrameIdx` values of its long-term ones, each
/// counted once.
pub proof fn law_reference_frames(dpb: Seq<DpbEntry>, x: u32)
    ensures
        short_term_frames(dpb).finite(),
        long_term_frames(dpb).finite(),
        short_term_frames(dpb).contains(x) <==> exists|i: int|
            0 <= i < dpb.len() && (#[trigger] dpb[i]).marking is ShortTerm && dpb[i].frame_num == x,
        long_term_frames(dpb).contains(x) <==> exists|i: int|
            0 <= i < dpb.len() && (#[trigger] dpb[i]).marking is LongTerm
                && dpb[i].long_term_frame_idx == x,
{
    let num = |e: DpbEntry| e.frame_num;
    let idx = |e: DpbEntry| e.long_term_frame_idx;
    lemma_mapped_set(dpb, short_term(), num, x);
    lemma_mapped_set(dpb, long_term(), idx, x);
    vstd::seq_lib::seq_to_set_is_finite(dpb.filter(short_term()).map_values(num));
    vstd::seq_lib::seq_to_set_is_finite(dpb.filter(long_term()).map_values(idx));
}

proof fn lemma_without_frame_sets(dpb: Seq<DpbEntry>, frame_num: u32)
    ensures
        short_term_frames(without_frame(dpb, frame_num)) == short_term_frames(dpb).remove(
            frame_num,
        ),
        long_term_frames(without_frame(dpb, frame_num)) == long_term_frames(dpb),
{
    let after = without_frame(dpb, frame_num);
    assert forall|x: u32|
        short_term_frames(after).contains(x) == short_term_frames(dpb).remove(
            frame_num,
        ).contains(x) by {
        law_reference_frames(dpb, x);
        law_reference_frames(after, x);
        if short_term_frames(after).contains(x) {
            let i = choose|i: int|
                0 <= i < after.len() && (#[trigger] after[i]).marking is ShortTerm
                    && after[i].frame_num == x;
            assert(dpb[i] == after[i]);
        }
        if short_term_frames(dpb).contains(x) && x != frame_num {
            let i = choose|i: int|
                0 <= i < dpb.len() && (#[trigger] dpb[i]).marking is ShortTerm && dpb[i].frame_num
                    == x;
            assert(dpb[i] == after[i]);
        }
    }
    assert forall|x: u32|
        long_term_frames(after).contains(x) == long_term_frames(dpb).contains(x) by {
        law_reference_frames(dpb, x);
        law_reference_frames(after, x);
        if long_term_frames(after).contains(x) {
            let i = choose|i: int|
                0 <= i < after.len() && (#[trigger] after[i]).marking is LongTerm
                    && after[i].long_term_frame_idx == x;
            assert(dpb[i] == after[i]);
        }
        if long_term_frames(dpb).contains(x) {
            let i = choose|i: int|
                0 <= i < dpb.len() && (#[trigger] dpb[i]).marking is LongTerm
                    && dpb[i].long_term_frame_idx == x;
            assert(dpb[i] == after[i]);
        }
    }
    assert(short_term_frames(after) =~= short_term_frames(dpb).remove(frame_num));
    assert(long_term_frames(after) =~= long_term_frames(dpb));
}

/// Where there is a short-term reference, one is the oldest.
pub proof fn lemma_oldest_exists(
    dpb: Seq<DpbEntry>,
    current_frame_num: u32,
    max_frame_num: u32,
) -> (i: int)
    requires
        exists|k: int| 0 <= k < dpb.len() && (#[trigger] dpb[k]).marking is ShortTerm,
    ensures
        is_oldest(dpb, i, current_frame_num, max_frame_num),
    decreases dpb.len(),
{
    let rest = dpb.drop_last();
    let last = dpb.len() - 1;
    assert(forall|k: int| 0 <= k < rest.len() ==> #[trigger] rest[k] == dpb[k]);
    if exists|k: int| 0 <= k < rest.len() && (#[trigger] rest[k]).marking is ShortTerm {
        let i = lemma_oldest_exists(rest, current_frame_num, max_frame_num);
        assert(rest[i] == dpb[i]);
        if dpb[last].marking is ShortTerm && frame_num_wrap(
            dpb[last].frame_num,
            current_frame_num,
            max_frame_num,
        ) < frame_num_wrap(dpb[i].frame_num, current_frame_num, max_frame_num) {
            let lowest = frame_num_wrap(dpb[last].frame_num, current_frame_num, max_frame_num);
            assert forall|j: int|
                0 <= j < dpb.len() && (#[trigger] dpb[j]).marking is ShortTerm && j
                    != last implies lowest < frame_num_wrap(
                dpb[j].frame_num,
                current_frame_num,
                max_frame_num,
            ) by {
                assert(rest[j] == dpb[j]);
            }
            last
        } else {
            assert forall|j: int|
                0 <= j < dpb.len() && (#[trigger] dpb[j]).marking is ShortTerm implies ({
                let own = frame_num_wrap(dpb[i].frame_num, current_frame_num, max_frame_num);
                let other = frame_num_wrap(dpb[j].frame_num, current_frame_num, max_frame_num);
                if j < i {
                    own < other
                } else {
                    own <= other
                }
            }) by {
                if j < last {
                    assert(rest[j] == dpb[j]);
                }
            }
            i
        }
    } else {
        assert forall|j: int| 0 <= j < last implies !((#[trigger] dpb[j]).marking is ShortTerm) by {
            assert(rest[j] == dpb[j]);
        }
        last
    }
}

/// Sliding window marking gives up exactly one short-term reference frame where
/// it has to make room, and it is the oldest: none that stays has a smaller
/// `FrameNumWrap`. Long-term references are left alone. Where it need not or
/// cannot make room, nothing changes.
pub proof fn law_sliding_window(
    dpb: Seq<DpbEntry>,
    max_num_ref_frames: u32,
    current_frame_num: u32,
    max_frame_num: u32,
)
    ensures
        ({
            let after = after_sliding_window(
                dpb,
                max_num_ref_frames,
                current_frame_num,
                max_frame_num,
            );
            let oldest = oldest_frame(dpb, current_frame_num, max_frame_num);
            &&& long_term_frames(after) == long_term_frames(dpb)
            &&& must_evict(dpb, max_num_ref_frames, current_frame_num) ==> {
                &&& short_term_frames(dpb).contains(oldest)
                &&& short_term_frames(after) == short_term_frames(dpb).remove(oldest)
                &&& ref_frame_count(after) == ref_frame_count(dpb) - 1
                &&& forall|f: u32| #[trigger]
                    short_term_frames(dpb).contains(f) ==> frame_num_wrap(
                        oldest,
                        current_frame_num,
                        max_frame_num,
                    ) <= frame_num_wrap(f, current_frame_num, max_frame_num)
            }
            &&& !must_evict(dpb, max_num_ref_frames, current_frame_num) ==> after == dpb
        }),
{
    if must_evict(dpb, max_num_ref_frames, current_frame_num) {
        let oldest = oldest_frame(dpb, current_frame_num, max_frame_num);
        let some = short_term_frames(dpb).choose();
        law_reference_frames(dpb, some);
        assert(short_term_frames(dpb).contains(some)) by {
            if forall|x: u32| !short_term_frames(dpb).contains(x) {
                assert(short_term_frames(dpb) =~= Set::<u32>::empty());
            }
        }
        let i = lemma_oldest_exists(dpb, current_frame_num, max_frame_num);
        lemma_oldest_unique(dpb, i, current_frame_num, max_frame_num);
        law_reference_frames(dpb, oldest);
        assert(dpb[i].marking is ShortTerm && dpb[i].frame_num == oldest);
        lemma_without_frame_sets(dpb, oldest);
        assert forall|f: u32| #[trigger] short_term_frames(dpb).contains(f) implies frame_num_wrap(
            oldest,
            current_frame_num,
            max_frame_num,
        ) <= frame_num_wrap(f, current_frame_num, max_frame_num) by {
            law_reference_frames(dpb, f);
            let j = choose|j: int|
                0 <= j < dpb.len() && (#[trigger] dpb[j]).marking is ShortTerm && dpb[j].frame_num
                    == f;
            assert(dpb[j].marking is ShortTerm);
        }
    }
}

/// A DPB that was within its capacity has room for the current picture after
/// sliding window marking: a free frame buffer, or the frame that the current
/// picture joins. The exception is a DPB filled with long-term references.
pub proof fn law_sliding_window_makes_room(
    dpb: Seq<DpbEntry>,
    max_num_ref_frames: u32,
    current_frame_num: u32,
    max_frame_num: u32,
)
    requires
        ref_frame_count(dpb) <= ref_frame_capacity(max_num_ref_frames),
        long_term_frames(dpb).len() < ref_frame_capacity(max_num_ref_frames),
    ensures
        ({
            let after = after_sliding_window(
                dpb,
                max_num_ref_frames,
                current_frame_num,
                max_frame_num,
            );
            ||| joins_frame(after, current_frame_num)
            ||| ref_frame_count(after) < ref_frame_capacity(max_num_ref_frames)
        }),
{
    law_sliding_window(dpb, max_num_ref_frames, current_frame_num, max_frame_num);
}

/// Sliding window marking keeps the DPB within its capacity: it still is when
/// the current picture has been added. A reference field of the current
/// `frame_num` that is already there has to be a short-term one, so that the
/// current picture shares its frame.
pub proof fn law_sliding_window_keeps_capacity(
    dpb: Seq<DpbEntry>,
    entry: DpbEntry,
    max_num_ref_frames: u32,
    max_frame_num: u32,
)
    requires
        ref_frame_count(dpb) <= ref_frame_capacity(max_num_ref_frames),
        long_term_frames(dpb).len() < ref_frame_capacity(max_num_ref_frames),
        forall|i: int|
            0 <= i < dpb.len() && (#[trigger] dpb[i]).marking is LongTerm ==> dpb[i].frame_num
                != entry.frame_num,
    ensures
        ref_frame_count(
            dpb_after_marking(
                dpb,
                entry,
                max_num_ref_frames,
                false,
                None,
                entry.frame_num,
                max_frame_num,
            ).push(entry_after_marking(entry, false, false, None)),
        ) <= ref_frame_capacity(max_num_ref_frames),
{
    let after = after_sliding_window(dpb, max_num_ref_frames, entry.frame_num, max_frame_num);
    law_sliding_window(dpb, max_num_ref_frames, entry.frame_num, max_frame_num);
    law_reference_frames(after, entry.frame_num);
    lemma_frames_push(after, as_short_term(entry));
    if joins_frame(dpb, entry.frame_num) {
        let i = choose|i: int|
            0 <= i < dpb.len() && !((#[trigger] dpb[i]).marking is Unused) && dpb[i].frame_num
                == entry.frame_num;
        assert(dpb[i].marking is ShortTerm);
        assert(short_term_frames(after).contains(entry.frame_num));
        assert(short_term_frames(after).insert(entry.frame_num) =~= short_term_frames(after));
    }
}

/// Whether the short-term references lie in one turn of the counter: all of them
/// are above the given `frame_num`, or none.
pub open spec fn in_one_turn(dpb: Seq<DpbEntry>, frame_num: u32) -> bool {
    forall|i: int, j: int|
        0 <= i < dpb.len() && 0 <= j < dpb.len() && (#[trigger] dpb[i]).marking is ShortTerm && (
        #[trigger] dpb[j]).marking is ShortTerm ==> (dpb[i].frame_num > frame_num
            <==> dpb[j].frame_num > frame_num)
}

/// While the short-term references lie in one turn of the counter, which of
/// them is the oldest depends neither on the current `frame_num` nor on the
/// modulus, and it is the one with the smallest `frame_num`.
pub proof fn law_oldest_frame_in_one_turn(
    dpb: Seq<DpbEntry>,
    frame_num: u32,
    max_frame_num: u32,
    other_frame_num: u32,
    other_max_frame_num: u32,
)
    requires
        in_one_turn(dpb, frame_num),
        in_one_turn(dpb, other_frame_num),
        short_term_frames(dpb).len() > 0,
    ensures
        oldest_frame(dpb, frame_num, max_frame_num) == oldest_frame(
            dpb,
            other_frame_num,
            other_max_frame_num,
        ),
        forall|f: u32| #[trigger]
            short_term_frames(dpb).contains(f) ==> oldest_frame(dpb, frame_num, max_frame_num) <= f,
{
    let some = short_term_frames(dpb).choose();
    law_reference_frames(dpb, some);
    assert(short_term_frames(dpb).contains(some)) by {
        if forall|x: u32| !short_term_frames(dpb).contains(x) {
            assert(short_term_frames(dpb) =~= Set::<u32>::empty());
        }
    }
    let i = lemma_oldest_exists(dpb, frame_num, max_frame_num);
    lemma_oldest_unique(dpb, i, frame_num, max_frame_num);
    assert(dpb[i].marking is ShortTerm);
    assert(is_oldest(dpb, i, other_frame_num, other_max_frame_num));
    lemma_oldest_unique(dpb, i, other_frame_num, other_max_frame_num);
    assert forall|f: u32| #[trigger] short_term_frames(dpb).contains(f) implies oldest_frame(
        dpb,
        frame_num,
        max_frame_num,
    ) <= f by {
        law_reference_frames(dpb, f);
        let j = choose|j: int|
            0 <= j < dpb.len() && (#[trigger] dpb[j]).marking is ShortTerm && dpb[j].frame_num == f;
        assert(dpb[j].marking is ShortTerm);
    }
}

// Memory management control operations.

/// Two runs of operations, one after the other, do what one run of all of them
/// does: the operations take effect in order and independently of how they are
/// grouped.
pub proof fn law_mmco_runs_compose(
    dpb: Seq<DpbEntry>,
    first: Seq<MmcoOp>,
    second: Seq<MmcoOp>,
    entry: DpbEntry,
    current: CurrentPicture,
)
    ensures
        dpb_after(dpb, first + second, (first + second).len(), current) == dpb_after(
            dpb_after(dpb, first, first.len(), current),
            second,
            second.len(),
            current,
        ),
        current_after(first + second, (first + second).len(), entry) == current_after(
            second,
            second.len(),
            current_after(first, first.len(), entry),
        ),
{
    lemma_current_runs_compose(entry, first, second, second.len());
    assert forall|i: int| 0 <= i < dpb.len() implies #[trigger] dpb_after(
        dpb,
        first + second,
        (first + second).len(),
        current,
    )[i] == dpb_after(
        dpb_after(dpb, first, first.len(), current),
        second,
        second.len(),
        current,
    )[i] by {
        lemma_entry_runs_compose(dpb[i], first, second, second.len(), current);
    }
    assert(dpb_after(dpb, first + second, (first + second).len(), current) =~= dpb_after(
        dpb_after(dpb, first, first.len(), current),
        second,
        second.len(),
        current,
    ));
}

proof fn lemma_current_runs_compose(
    entry: DpbEntry,
    first: Seq<MmcoOp>,
    second: Seq<MmcoOp>,
    n: nat,
)
    requires
        n <= second.len(),
    ensures
        current_after(first + second, first.len() + n, entry) == current_after(
            second,
            n,
            current_after(first, first.len(), entry),
        ),
    decreases n,
{
    if n == 0 {
        lemma_current_prefix(entry, first, second, first.len());
    } else {
        lemma_current_runs_compose(entry, first, second, (n - 1) as nat);
        assert((first + second)[first.len() + n - 1] == second[n - 1]);
    }
}

proof fn lemma_current_prefix(entry: DpbEntry, first: Seq<MmcoOp>, second: Seq<MmcoOp>, n: nat)
    requires
        n <= first.len(),
    ensures
        current_after(first + second, n, entry) == current_after(first, n, entry),
    decreases n,
{
    if n > 0 {
        lemma_current_prefix(entry, first, second, (n - 1) as nat);
        assert((first + second)[n - 1] == first[n - 1]);
    }
}

proof fn lemma_entry_runs_compose(
    e: DpbEntry,
    first: Seq<MmcoOp>,
    second: Seq<MmcoOp>,
    n: nat,
    current: CurrentPicture,
)
    requires
        n <= second.len(),
    ensures
        entry_after(first + second, first.len() + n, e, current) == entry_after(
            second,
            n,
            entry_after(first, first.len(), e, current),
            current,
        ),
    decreases n,
{
    if n == 0 {
        lemma_entry_prefix(e, first, second, first.len(), current);
    } else {
        lemma_entry_runs_compose(e, first, second, (n - 1) as nat, current);
        assert((first + second)[first.len() + n - 1] == second[n - 1]);
    }
}

proof fn lemma_entry_prefix(
    e: DpbEntry,
    first: Seq<MmcoOp>,
    second: Seq<MmcoOp>,
    n: nat,
    current: CurrentPicture,
)
    requires
        n <= first.len(),
    ensures
        entry_after(first + second, n, e, current) == entry_after(first, n, e, current),
    decreases n,
{
    if n > 0 {
        lemma_entry_prefix(e, first, second, (n - 1) as nat, current);
        assert((first + second)[n - 1] == first[n - 1]);
    }
}

/// Once operation 5 was among the operations, no entry of the DPB is left as a
/// reference, whatever came before or after it.
pub proof fn law_mark_all_unused(dpb: Seq<DpbEntry>, ops: Seq<MmcoOp>, current: CurrentPicture)
    requires
        ops.contains(MmcoOp::MarkAllUnused),
    ensures
        forall|i: int|
            0 <= i < dpb.len() ==> (#[trigger] dpb_after(
                dpb,
                ops,
                ops.len(),
                current,
            )[i]).marking is Unused,
{
    let k = choose|k: int| 0 <= k < ops.len() && ops[k] == MmcoOp::MarkAllUnused;
    assert forall|i: int| 0 <= i < dpb.len() implies (#[trigger] dpb_after(
        dpb,
        ops,
        ops.len(),
        current,
    )[i]).marking is Unused by {
        lemma_unused_from(ops, k, ops.len(), dpb[i], current);
    }
}

proof fn lemma_unused_from(
    ops: Seq<MmcoOp>,
    k: int,
    n: nat,
    e: DpbEntry,
    current: CurrentPicture,
)
    requires
        0 <= k < n <= ops.len(),
        ops[k] == MmcoOp::MarkAllUnused,
    ensures
        entry_after(ops, n, e, current).marking is Unused,
    decreases n,
{
    if n > k + 1 {
        lemma_unused_from(ops, k, (n - 1) as nat, e, current);
    }
}

/// After operation 4 no long-term reference has a `LongTermFrameIdx` above the
/// new maximum, and with a maximum of "none" there is no long-term reference.
pub proof fn law_max_long_term_idx(max_plus1: u32, e: DpbEntry, current: CurrentPicture)
    ensures
        ({
            let after = entry_after_op(MmcoOp::SetMaxLongTermIdx(max_plus1), e, current);
            after.marking is LongTerm ==> after.long_term_frame_idx < max_plus1
        }),
{
}

/// After operation 3 the holders of the assigned `LongTermFrameIdx` are exactly
/// the short-term references that it named: whatever held it before is unused.
pub proof fn law_assign_long_term(diff: u32, idx: u32, e: DpbEntry, current: CurrentPicture)
    ensures
        ({
            let after = entry_after_op(MmcoOp::AssignLongTerm(diff, idx), e, current);
            &&& (after.marking is LongTerm && after.long_term_frame_idx == idx) <==> (
            e.marking is ShortTerm && e.pic_num_for(current) == pic_num_x(diff, current))
            &&& e.marking is LongTerm && e.long_term_frame_idx == idx ==> after.marking is Unused
        }),
{
}

/// After operation 6 the current picture alone holds the assigned
/// `LongTermFrameIdx`: no entry of the DPB does.
pub proof fn law_assign_current_long_term(
    dpb: Seq<DpbEntry>,
    ops: Seq<MmcoOp>,
    n: nat,
    idx: u32,
    entry: DpbEntry,
    current: CurrentPicture,
)
    requires
        0 < n <= ops.len(),
        ops[n - 1] == MmcoOp::AssignCurrentLongTerm(idx),
    ensures
        current_after(ops, n, entry).marking is LongTerm,
        current_after(ops, n, entry).long_term_frame_idx == idx,
        forall|i: int|
            0 <= i < dpb.len() ==> {
                let e = #[trigger] dpb_after(dpb, ops, n, current)[i];
                !(e.marking is LongTerm && e.long_term_frame_idx == idx)
            },
{
}

/// Operation 6 makes the current picture long-term, and the other operations
/// leave its entry alone: it is long-term in the end if and only if operation 6
/// is among the operations or it was long-term before.
pub proof fn law_current_long_term(ops: Seq<MmcoOp>, n: nat, entry: DpbEntry)
    requires
        n <= ops.len(),
    ensures
        current_after(ops, n, entry).marking is LongTerm <==> entry.marking is LongTerm || exists|
            k: int,
        |
            0 <= k < n && #[trigger] ops[k] is AssignCurrentLongTerm,
        (forall|k: int| 0 <= k < n ==> !(#[trigger] ops[k] is AssignCurrentLongTerm))
            ==> current_after(ops, n, entry) == entry,
    decreases n,
{
    if n > 0 {
        law_current_long_term(ops, (n - 1) as nat, entry);
    }
}

/// Whether operation `k` is an operation 6, and no other comes behind it.
pub open spec fn is_last_assignment(ops: Seq<MmcoOp>, k: int) -> bool {
    &&& 0 <= k < ops.len()
    &&& ops[k] is AssignCurrentLongTerm
    &&& forall|l: int| k < l < ops.len() ==> !(#[trigger] ops[l] is AssignCurrentLongTerm)
}

proof fn lemma_last_assigned_idx(ops: Seq<MmcoOp>, n: nat, entry: DpbEntry, k: int)
    requires
        is_last_assignment(ops, k),
        k < n <= ops.len(),
    ensures
        current_after(ops, n, entry).long_term_frame_idx == ops[k]->AssignCurrentLongTerm_0,
    decreases n,
{
    if n > k + 1 {
        assert(!(ops[n - 1] is AssignCurrentLongTerm));
        lemma_last_assigned_idx(ops, (n - 1) as nat, entry, k);
    }
}

/// A picture that comes with memory management control operations ends
/// long-term if and only if operation 6 is among them, and then has the
/// `LongTermFrameIdx` that the last operation 6 gives. Otherwise it ends
/// short-term, and its entry is as it was but for the marking.
pub proof fn law_adaptive_current_picture(
    entry: DpbEntry,
    long_term_reference_flag_for_idr: bool,
    ops: Seq<MmcoOp>,
)
    ensures
        ({
            let after = entry_after_marking(
                entry,
                false,
                long_term_reference_flag_for_idr,
                Some(ops),
            );
            &&& after.marking is LongTerm <==> exists|k: int|
                0 <= k < ops.len() && #[trigger] ops[k] is AssignCurrentLongTerm
            &&& !(after.marking is LongTerm) ==> after == as_short_term(entry)
            &&& forall|k: int|
                is_last_assignment(ops, k) ==> after.long_term_frame_idx == (
                #[trigger] ops[k])->AssignCurrentLongTerm_0
        }),
{
    let start = as_short_term(entry);
    law_current_long_term(ops, ops.len(), start);
    assert forall|k: int| is_last_assignment(ops, k) implies current_after(
        ops,
        ops.len(),
        start,
    ).long_term_frame_idx == (#[trigger] ops[k])->AssignCurrentLongTerm_0 by {
        lemma_last_assigned_idx(ops, ops.len(), start, k);
    }
}

/// How the entry for the current picture was marked before has no effect on what
/// marking makes of it.
pub proof fn law_prior_marking_has_no_effect(
    entry: DpbEntry,
    marking: RefMarking,
    is_idr: bool,
    long_term_reference_flag_for_idr: bool,
    adaptive_ops: Option<Seq<MmcoOp>>,
)
    ensures
        entry_after_marking(
            (DpbEntry { marking, ..entry }),
            is_idr,
            long_term_reference_flag_for_idr,
            adaptive_ops,
        ) == entry_after_marking(entry, is_idr, long_term_reference_flag_for_idr, adaptive_ops),
{
}

/// In a frame, a difference of picture numbers names the short-term references
/// of one age: those whose `frame_num` the counter had that many steps ago.
pub proof fn law_difference_names_age(diff_minus1: u32, e: DpbEntry, current: CurrentPicture)
    requires
        !current.is_field,
        current.frame_num < current.max_frame_num <= 0x2000_0000,
        e.frame_num < current.max_frame_num,
        diff_minus1 + 1 < current.max_frame_num,
    ensures
        e.pic_num_for(current) == pic_num_x(diff_minus1, current) <==> (current.frame_num
            - e.frame_num) % (current.max_frame_num as int) == diff_minus1 + 1,
{
    law_frame_num_wrap(e.frame_num, current.frame_num, current.max_frame_num);
}

/// No two long-term references of the DPB share a `LongTermFrameIdx`.
pub open spec fn long_term_idx_distinct(dpb: Seq<DpbEntry>) -> bool {
    forall|i: int, j: int|
        0 <= i < j < dpb.len() && (#[trigger] dpb[i]).marking is LongTerm && (
        #[trigger] dpb[j]).marking is LongTerm ==> dpb[i].long_term_frame_idx
            != dpb[j].long_term_frame_idx
}

/// No two short-term references of the DPB share a `PicNum`.
pub open spec fn short_term_numbers_distinct(
    dpb: Seq<DpbEntry>,
    current: CurrentPicture,
) -> bool {
    forall|i: int, j: int|
        0 <= i < j < dpb.len() && (#[trigger] dpb[i]).marking is ShortTerm && (
        #[trigger] dpb[j]).marking is ShortTerm ==> dpb[i].pic_num_for(current)
            != dpb[j].pic_num_for(current)
}

/// Where picture numbers tell the short-term references apart, the operations
/// never let two long-term references share a `LongTermFrameIdx`.
pub proof fn law_long_term_idx_stays_distinct(
    dpb: Seq<DpbEntry>,
    ops: Seq<MmcoOp>,
    n: nat,
    current: CurrentPicture,
)
    requires
        n <= ops.len(),
        long_term_idx_distinct(dpb),
        short_term_numbers_distinct(dpb, current),
    ensures
        long_term_idx_distinct(dpb_after(dpb, ops, n, current)),
        short_term_numbers_distinct(dpb_after(dpb, ops, n, current), current),
    decreases n,
{
    if n == 0 {
        assert(dpb_after(dpb, ops, n, current) =~= dpb);
    } else {
        let prior = dpb_after(dpb, ops, (n - 1) as nat, current);
        let after = dpb_after(dpb, ops, n, current);
        law_long_term_idx_stays_distinct(dpb, ops, (n - 1) as nat, current);
        assert forall|i: int| 0 <= i < dpb.len() implies #[trigger] after[i] == entry_after_op(
            ops[n - 1],
            prior[i],
            current,
        ) by {}
        assert(forall|i: int, j: int|
            0 <= i < j < dpb.len() ==> same_picture(prior[i], #[trigger] after[i]) && same_picture(
                prior[j],
                #[trigger] after[j],
            ));
        assert forall|i: int, j: int|
            0 <= i < j < after.len() && (#[trigger] after[i]).marking is LongTerm && (
            #[trigger] after[j]).marking is LongTerm implies after[i].long_term_frame_idx
            != after[j].long_term_frame_idx by {
            assert(prior[i].marking is LongTerm || prior[i].marking is ShortTerm);
            assert(prior[j].marking is LongTerm || prior[j].marking is ShortTerm);
        }
        assert forall|i: int, j: int|
            0 <= i < j < after.len() && (#[trigger] after[i]).marking is ShortTerm && (
            #[trigger] after[j]).marking is ShortTerm implies after[i].pic_num_for(current)
            != after[j].pic_num_for(current) by {
            assert(prior[i].marking is ShortTerm);
            assert(prior[j].marking is ShortTerm);
        }
    }
}

/// The value range of an operation: a difference between picture numbers is at
/// most `MaxPicNum`, and a `LongTermFrameIdx` can be doubled in 32 bits.
pub open spec fn mmco_op_in_range(op: MmcoOp, current: CurrentPicture) -> bool {
    match op {
        MmcoOp::MarkShortTermUnused(diff) => diff < current.max_pic_num(),
        MmcoOp::AssignLongTerm(diff, idx) => diff < current.max_pic_num() && idx <= 0x7fff_ffff,
        _ => true,
    }
}

proof fn lemma_idx_stays_in_range(
    ops: Seq<MmcoOp>,
    n: nat,
    e: DpbEntry,
    current: CurrentPicture,
)
    requires
        n <= ops.len(),
        e.marking is LongTerm ==> e.long_term_pic_num_defined(current.is_field),
        forall|i: int| 0 <= i < ops.len() ==> mmco_op_in_range(#[trigger] ops[i], current),
    ensures
        entry_after(ops, n, e, current).marking is LongTerm ==> entry_after(
            ops,
            n,
            e,
            current,
        ).long_term_pic_num_defined(current.is_field),
    decreases n,
{
    if n > 0 {
        lemma_idx_stays_in_range(ops, (n - 1) as nat, e, current);
        assert(mmco_op_in_range(ops[n - 1], current));
    }
}

/// A slice header that keeps to its value ranges meets what
/// [`apply_mmco`](crate::mmco::apply_mmco) and
/// [`perform_marking`](crate::marking::perform_marking) ask for: no arithmetic
/// leaves 32 bits.
pub proof fn law_mmco_in_range(ops: Seq<MmcoOp>, dpb: Seq<DpbEntry>, current: CurrentPicture)
    requires
        current_in_range(dpb, current),
        forall|i: int| 0 <= i < ops.len() ==> mmco_op_in_range(#[trigger] ops[i], current),
    ensures
        mmco_defined(ops, dpb, current),
{
    assert forall|n: int| 0 <= n < ops.len() implies mmco_op_defined(
        #[trigger] ops[n],
        dpb_after(dpb, ops, n as nat, current),
        current,
    ) by {
        assert(mmco_op_in_range(ops[n], current));
        let here = dpb_after(dpb, ops, n as nat, current);
        assert forall|i: int|
            0 <= i < here.len() && (
            #[trigger] here[i]).marking is LongTerm implies here[i].long_term_pic_num_defined(
            current.is_field,
        ) by {
            assert(dpb[i].marking is LongTerm ==> dpb[i].long_term_pic_num_defined(
                current.is_field,
            ));
            lemma_idx_stays_in_range(ops, n as nat, dpb[i], current);
        }
    }
}

} // verus!
