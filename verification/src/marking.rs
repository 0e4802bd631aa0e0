//! Decoded reference picture marking.

use vstd::prelude::*;

use crate::mmco::{apply_mmco, current_after, described_by, dpb_after, mmco_defined};
use crate::picture::{DpbEntry, MmcoOp, RefMarking};
use crate::sliding_window::{after_sliding_window, sliding_window_marking};

verus! {

/// `e` marked as unused for reference, and otherwise as it was.
pub open spec fn as_unused(e: DpbEntry) -> DpbEntry {
    DpbEntry { marking: RefMarking::Unused, ..e }
}

/// `e` marked as a short-term reference, and otherwise as it was.
pub open spec fn as_short_term(e: DpbEntry) -> DpbEntry {
    DpbEntry { marking: RefMarking::ShortTerm, ..e }
}

/// `e` marked as a long-term reference of the given `LongTermFrameIdx`, and
/// otherwise as it was.
pub open spec fn as_long_term(e: DpbEntry, idx: u32) -> DpbEntry {
    DpbEntry { marking: RefMarking::LongTerm, long_term_frame_idx: idx, ..e }
}

/// All of `dpb`, marked as unused for reference.
pub open spec fn all_unused(dpb: Seq<DpbEntry>) -> Seq<DpbEntry> {
    Seq::new(dpb.len(), |i: int| as_unused(dpb[i]))
}

/// The DPB after the current picture was marked. `adaptive_ops` holds the memory
/// management control operations of a picture that comes with them.
pub open spec fn dpb_after_marking(
    dpb: Seq<DpbEntry>,
    entry: DpbEntry,
    max_num_ref_frames: u32,
    is_idr: bool,
    adaptive_ops: Option<Seq<MmcoOp>>,
    current_frame_num: u32,
    max_frame_num: u32,
) -> Seq<DpbEntry> {
    if is_idr {
        all_unused(dpb)
    } else {
        match adaptive_ops {
            Some(ops) => dpb_after(
                dpb,
                ops,
                ops.len(),
                described_by(entry, current_frame_num, max_frame_num),
            ),
            None => after_sliding_window(
                dpb,
                max_num_ref_frames,
                current_frame_num,
                max_frame_num,
            ),
        }
    }
}

/// The entry for the current picture after it was marked.
pub open spec fn entry_after_marking(
    entry: DpbEntry,
    is_idr: bool,
    long_term_reference_flag_for_idr: bool,
    adaptive_ops: Option<Seq<MmcoOp>>,
) -> DpbEntry {
    if is_idr {
        if long_term_reference_flag_for_idr {
            as_long_term(entry, 0)
        } else {
            as_short_term(entry)
        }
    } else {
        match adaptive_ops {
            Some(ops) => current_after(ops, ops.len(), as_short_term(entry)),
            None => as_short_term(entry),
        }
    }
}

/// The operations as a sequence, where there are any.
pub open spec fn ops_view(adaptive_ops: Option<&[MmcoOp]>) -> Option<Seq<MmcoOp>> {
    match adaptive_ops {
        Some(ops) => Some(ops@),
        None => None,
    }
}

/// Marks every entry of the DPB as unused for reference.
fn clear_references(dpb: &mut [DpbEntry])
    ensures
        final(dpb)@ == all_unused(old(dpb)@),
{
    let ghost start = dpb@;
    let len: usize = dpb.len();
    let mut i: usize = 0;
    while i < len
        invariant
            i <= len == dpb@.len(),
            start.len() == len,
            forall|j: int| 0 <= j < i ==> #[trigger] dpb@[j] == as_unused(start[j]),
            forall|j: int| i <= j < len ==> #[trigger] dpb@[j] == start[j],
        decreases len - i,
    {
        assert(dpb@[i as int] == start[i as int]);
        dpb[i].marking = RefMarking::Unused;
        i = i + 1;
    }
    assert(dpb@ == all_unused(start));
}

/// The whole decoded reference picture marking process.
///
/// An IDR picture marks all others as unused for reference and becomes a
/// short-term reference, or a long-term one of index 0 where its long-term flag
/// is set. Any other picture applies its memory management control operations
/// if it comes with them, and sliding window marking if not. It becomes a
/// long-term reference if operation 6 makes it one, and a short-term reference
/// otherwise. How `current_entry` was marked before has no effect.
///
/// Returns `true` if and only if operation 5 was applied.
/// `_no_output_of_prior_pics_flag` is about output and has no effect here.
pub fn perform_marking(
    dpb: &mut [DpbEntry],
    current_entry: &mut DpbEntry,
    max_num_ref_frames: u32,
    is_idr: bool,
    long_term_reference_flag_for_idr: bool,
    _no_output_of_prior_pics_flag: bool,
    adaptive_ops: Option<&[MmcoOp]>,
    current_frame_num: u32,
    max_frame_num: u32,
) -> (mmco5: bool)
    requires
        !is_idr && adaptive_ops is Some ==> mmco_defined(
            adaptive_ops->0@,
            old(dpb)@,
            described_by(*old(current_entry), current_frame_num, max_frame_num),
        ),
    ensures
        final(dpb)@ == dpb_after_marking(
            old(dpb)@,
            *old(current_entry),
            max_num_ref_frames,
            is_idr,
            ops_view(adaptive_ops),
            current_frame_num,
            max_frame_num,
        ),
        *final(current_entry) == entry_after_marking(
            *old(current_entry),
            is_idr,
            long_term_reference_flag_for_idr,
            ops_view(adaptive_ops),
        ),
        mmco5 == (!is_idr && adaptive_ops is Some && adaptive_ops->0@.contains(
            MmcoOp::MarkAllUnused,
        )),
{
    if is_idr {
        clear_references(dpb);
        if long_term_reference_flag_for_idr {
            current_entry.marking = RefMarking::LongTerm;
            current_entry.long_term_frame_idx = 0;
        } else {
            current_entry.marking = RefMarking::ShortTerm;
        }
        return false;
    }
    match adaptive_ops {
        Some(ops) => {
            current_entry.marking = RefMarking::ShortTerm;
            apply_mmco(dpb, ops, current_entry, current_frame_num, max_frame_num)
        },
        None => {
            sliding_window_marking(dpb, max_num_ref_frames, current_frame_num, max_frame_num);
            current_entry.marking = RefMarking::ShortTerm;
            false
        },
    }
}

} // verus!
