//! Adaptive marking: memory management control operations.

use vstd::prelude::*;

use crate::arith::{fits_i32, low_i32, wrap_i32};
use crate::marking::{as_long_term, as_unused};
use crate::picture::{current_picture, CurrentPicture, DpbEntry, MmcoOp, RefMarking};

verus! {

/// The current picture as `entry` describes it.
pub open spec fn described_by(
    entry: DpbEntry,
    current_frame_num: u32,
    max_frame_num: u32,
) -> CurrentPicture {
    current_picture(
        current_frame_num,
        max_frame_num,
        entry.structure.is_single_field(),
        entry.structure is BottomField,
    )
}

/// `picNumX`: the `PicNum` that `difference_of_pic_nums_minus1` leads to.
pub open spec fn pic_num_x(diff_minus1: u32, current: CurrentPicture) -> int {
    current.curr_pic_num() - (wrap_i32(diff_minus1 as int) + 1)
}

/// What one operation makes of an entry of the DPB.
pub open spec fn entry_after_op(op: MmcoOp, e: DpbEntry, current: CurrentPicture) -> DpbEntry {
    match op {
        MmcoOp::MarkShortTermUnused(diff) => if e.marking is ShortTerm && e.pic_num_for(current)
            == pic_num_x(diff, current) {
            as_unused(e)
        } else {
            e
        },
        MmcoOp::MarkLongTermUnused(number) => if e.marking is LongTerm && e.long_term_pic_num_for(
            current.is_field,
            current.bottom,
        ) == wrap_i32(number as int) {
            as_unused(e)
        } else {
            e
        },
        MmcoOp::AssignLongTerm(diff, idx) => if e.marking is LongTerm && e.long_term_frame_idx
            == idx {
            as_unused(e)
        } else if e.marking is ShortTerm && e.pic_num_for(current) == pic_num_x(diff, current) {
            as_long_term(e, idx)
        } else {
            e
        },
        MmcoOp::SetMaxLongTermIdx(max_plus1) => if e.marking is LongTerm && e.long_term_frame_idx
            >= max_plus1 {
            as_unused(e)
        } else {
            e
        },
        MmcoOp::MarkAllUnused => as_unused(e),
        MmcoOp::AssignCurrentLongTerm(idx) => if e.marking is LongTerm && e.long_term_frame_idx
            == idx {
            as_unused(e)
        } else {
            e
        },
    }
}

/// What the first `n` operations make of an entry of the DPB.
pub open spec fn entry_after(
    ops: Seq<MmcoOp>,
    n: nat,
    e: DpbEntry,
    current: CurrentPicture,
) -> DpbEntry
    decreases n,
{
    if n == 0 {
        e
    } else {
        entry_after_op(ops[n - 1], entry_after(ops, (n - 1) as nat, e, current), current)
    }
}

/// What the first `n` operations make of the DPB.
pub open spec fn dpb_after(
    dpb: Seq<DpbEntry>,
    ops: Seq<MmcoOp>,
    n: nat,
    current: CurrentPicture,
) -> Seq<DpbEntry> {
    Seq::new(dpb.len(), |i: int| entry_after(ops, n, dpb[i], current))
}

/// What the first `n` operations make of the entry for the current picture. Only
/// the operation that is about it changes it.
pub open spec fn current_after(ops: Seq<MmcoOp>, n: nat, entry: DpbEntry) -> DpbEntry
    decreases n,
{
    if n == 0 {
        entry
    } else {
        let before = current_after(ops, (n - 1) as nat, entry);
        match ops[n - 1] {
            MmcoOp::AssignCurrentLongTerm(idx) => as_long_term(before, idx),
            _ => before,
        }
    }
}

/// Whether `picNumX` can be formed in 32 bits.
pub open spec fn pic_num_x_defined(diff_minus1: u32, current: CurrentPicture) -> bool {
    &&& wrap_i32(diff_minus1 as int) < i32::MAX
    &&& fits_i32(pic_num_x(diff_minus1, current))
}

/// Whether the arithmetic of one operation stays within 32 bits, where `dpb` is
/// the DPB in front of it.
pub open spec fn mmco_op_defined(
    op: MmcoOp,
    dpb: Seq<DpbEntry>,
    current: CurrentPicture,
) -> bool {
    match op {
        MmcoOp::MarkShortTermUnused(diff) => pic_num_x_defined(diff, current),
        MmcoOp::AssignLongTerm(diff, _) => pic_num_x_defined(diff, current),
        MmcoOp::MarkLongTermUnused(_) => forall|i: int|
            0 <= i < dpb.len() && (#[trigger] dpb[i]).marking is LongTerm
                ==> dpb[i].long_term_pic_num_defined(current.is_field),
        _ => true,
    }
}

/// Whether the arithmetic of all operations stays within 32 bits. It does for
/// every slice header that keeps to its value ranges (see
/// [`law_mmco_in_range`](crate::marking_laws::law_mmco_in_range)).
pub open spec fn mmco_defined(
    ops: Seq<MmcoOp>,
    dpb: Seq<DpbEntry>,
    current: CurrentPicture,
) -> bool {
    &&& current.curr_pic_num_defined()
    &&& forall|n: int|
        0 <= n < ops.len() ==> mmco_op_defined(
            #[trigger] ops[n],
            dpb_after(dpb, ops, n as nat, current),
            current,
        )
}

/// Computes `picNumX`.
fn difference_to_pic_num(diff_minus1: u32, current: CurrentPicture) -> (r: i32)
    requires
        current.curr_pic_num_defined(),
        pic_num_x_defined(diff_minus1, current),
    ensures
        r == pic_num_x(diff_minus1, current),
{
    current.own_pic_num() - (low_i32(diff_minus1 as i64) + 1)
}

/// Applies one operation to one entry of the DPB.
fn mark_entry(e: &mut DpbEntry, op: MmcoOp, current: CurrentPicture)
    requires
        current.curr_pic_num_defined(),
        match op {
            MmcoOp::MarkShortTermUnused(diff) => pic_num_x_defined(diff, current),
            MmcoOp::AssignLongTerm(diff, _) => pic_num_x_defined(diff, current),
            MmcoOp::MarkLongTermUnused(_) => old(e).marking is LongTerm
                ==> old(e).long_term_pic_num_defined(current.is_field),
            _ => true,
        },
    ensures
        *final(e) == entry_after_op(op, *old(e), current),
{
    match op {
        MmcoOp::MarkShortTermUnused(diff) => {
            if e.is_short_term() && e.pic_num(
                current.frame_num,
                current.max_frame_num,
                current.is_field,
                current.bottom,
            ) == difference_to_pic_num(diff, current) {
                e.marking = RefMarking::Unused;
            }
        },
        MmcoOp::MarkLongTermUnused(number) => {
            if e.is_long_term() && e.long_term_pic_num(current.is_field, current.bottom)
                == low_i32(number as i64) {
                e.marking = RefMarking::Unused;
            }
        },
        MmcoOp::AssignLongTerm(diff, idx) => {
            if e.is_long_term() && e.long_term_frame_idx == idx {
                e.marking = RefMarking::Unused;
            } else if e.is_short_term() && e.pic_num(
                current.frame_num,
                current.max_frame_num,
                current.is_field,
                current.bottom,
            ) == difference_to_pic_num(diff, current) {
                e.marking = RefMarking::LongTerm;
                e.long_term_frame_idx = idx;
            }
        },
        MmcoOp::SetMaxLongTermIdx(max_plus1) => {
            if e.is_long_term() && e.long_term_frame_idx >= max_plus1 {
                e.marking = RefMarking::Unused;
            }
        },
        MmcoOp::MarkAllUnused => {
            e.marking = RefMarking::Unused;
        },
        MmcoOp::AssignCurrentLongTerm(idx) => {
            if e.is_long_term() && e.long_term_frame_idx == idx {
                e.marking = RefMarking::Unused;
            }
        },
    }
}

/// Applies one operation to every entry of the DPB.
fn mark_entries(dpb: &mut [DpbEntry], op: MmcoOp, current: CurrentPicture)
    requires
        current.curr_pic_num_defined(),
        mmco_op_defined(op, old(dpb)@, current),
    ensures
        final(dpb)@.len() == old(dpb)@.len(),
        forall|i: int|
            0 <= i < old(dpb)@.len() ==> #[trigger] final(dpb)@[i] == entry_after_op(
                op,
                old(dpb)@[i],
                current,
            ),
{
    let ghost start = dpb@;
    let len: usize = dpb.len();
    let mut i: usize = 0;
    while i < len
        invariant
            i <= len == dpb@.len(),
            start.len() == len,
            current.curr_pic_num_defined(),
            mmco_op_defined(op, start, current),
            forall|j: int|
                0 <= j < i ==> #[trigger] dpb@[j] == entry_after_op(op, start[j], current),
            forall|j: int| i <= j < len ==> #[trigger] dpb@[j] == start[j],
        decreases len - i,
    {
        assert(dpb@[i as int] == start[i as int]);
        mark_entry(&mut dpb[i], op, current);
        i = i + 1;
    }
}

/// Adaptive memory control decoded reference picture marking. Applies the
/// operations in order.
///
/// `current_entry_ref` describes the current picture, which is about to be
/// added to the DPB. It is not added here: operation 6 marks it as long-term,
/// and the other operations leave it alone. Operations 3 and 6 also give up
/// whatever held the `LongTermFrameIdx` that they assign.
///
/// Returns `true` if operation 5 was among them. The caller then resets its
/// picture order and `frame_num` state.
pub fn apply_mmco(
    dpb: &mut [DpbEntry],
    ops: &[MmcoOp],
    current_entry_ref: &mut DpbEntry,
    current_frame_num: u32,
    max_frame_num: u32,
) -> (mmco5: bool)
    requires
        mmco_defined(
            ops@,
            old(dpb)@,
            described_by(*old(current_entry_ref), current_frame_num, max_frame_num),
        ),
    ensures
        final(dpb)@ == dpb_after(
            old(dpb)@,
            ops@,
            ops@.len(),
            described_by(*old(current_entry_ref), current_frame_num, max_frame_num),
        ),
        *final(current_entry_ref) == current_after(ops@, ops@.len(), *old(current_entry_ref)),
        mmco5 == ops@.contains(MmcoOp::MarkAllUnused),
{
    let ghost start = dpb@;
    let ghost entry = *current_entry_ref;
    let current: CurrentPicture = CurrentPicture {
        frame_num: current_frame_num,
        max_frame_num: max_frame_num,
        is_field: current_entry_ref.structure.is_field(),
        bottom: current_entry_ref.structure.is_bottom(),
    };
    let mut mmco5: bool = false;
    let mut n: usize = 0;
    while n < ops.len()
        invariant
            n <= ops@.len(),
            mmco_defined(ops@, start, current),
            dpb@ == dpb_after(start, ops@, n as nat, current),
            *current_entry_ref == current_after(ops@, n as nat, entry),
            mmco5 == exists|k: int| 0 <= k < n && ops@[k] == MmcoOp::MarkAllUnused,
        decreases ops@.len() - n,
    {
        let op: MmcoOp = ops[n];
        assert(mmco_op_defined(ops@[n as int], dpb_after(start, ops@, n as nat, current), current));
        mark_entries(dpb, op, current);
        match op {
            MmcoOp::MarkAllUnused => {
                mmco5 = true;
            },
            MmcoOp::AssignCurrentLongTerm(idx) => {
                current_entry_ref.marking = RefMarking::LongTerm;
                current_entry_ref.long_term_frame_idx = idx;
            },
            _ => {},
        }
        n = n + 1;
        assert(dpb@ == dpb_after(start, ops@, n as nat, current));
    }
    mmco5
}

} // verus!
