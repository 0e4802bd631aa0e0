//! What marking does to each entry of the DPB, over the fields of the entries.

use vstd::prelude::*;

use crate::arith::law_wrap_i32;
use crate::marking::{dpb_after_marking, entry_after_marking, ops_view};
use crate::marking_laws::law_reference_frames;
use crate::mmco::{
    current_after, described_by, dpb_after, entry_after, entry_after_op, pic_num_x,
};
use crate::order_laws::lemma_pic_num_is_age;
use crate::picture::{
    current_picture, frame_num_wrap, CurrentPicture, DpbEntry, MmcoOp, RefMarking,
};
use crate::sliding_window::{
    after_sliding_window, joins_frame, lemma_oldest_unique, long_term_frames,
    must_evict, oldest_frame, short_term_frames,
};

verus! {

/// Where the DPB holds a picture that is used for reference and has the current
/// `frame_num`, be it a frame or a field of either parity, short-term or
/// long-term, sliding window marking changes nothing.
pub proof fn law_second_field_evicts_nothing(
    dpb: Seq<DpbEntry>,
    max_num_ref_frames: u32,
    current_frame_num: u32,
    max_frame_num: u32,
    i: int,
)
    requires
        0 <= i < dpb.len(),
        !(dpb[i].marking is Unused),
        dpb[i].frame_num == current_frame_num,
    ensures
        after_sliding_window(dpb, max_num_ref_frames, current_frame_num, max_frame_num) == dpb,
{
    assert(joins_frame(dpb, current_frame_num));
}

/// Sliding window marking, where no reference picture has the current
/// `frame_num`. `shorts` holds the `frame_num` values of the short-term
/// references and `longs` the `LongTermFrameIdx` values of the long-term ones.
///
/// Nothing changes while they are fewer than `max_num_ref_frames`, nor where
/// there is no short-term reference. Otherwise the
/// short-term references of one `frame_num` become unused, whatever their
/// structure, and every other entry stays as it was. That `frame_num` counts back
/// farthest from the current one: it is the one that the counter left the most
/// steps ago.
pub proof fn law_sliding_window_effect(
    dpb: Seq<DpbEntry>,
    max_num_ref_frames: u32,
    current_frame_num: u32,
    max_frame_num: u32,
    shorts: Set<u32>,
    longs: Set<u32>,
) -> (given_up: Option<u32>)
    requires
        forall|i: int|
            0 <= i < dpb.len() && !((#[trigger] dpb[i]).marking is Unused) ==> dpb[i].frame_num
                != current_frame_num,
        forall|x: u32| #[trigger]
            shorts.contains(x) <==> exists|i: int|
                0 <= i < dpb.len() && (#[trigger] dpb[i]).marking is ShortTerm && dpb[i].frame_num
                    == x,
        forall|x: u32| #[trigger]
            longs.contains(x) <==> exists|i: int|
                0 <= i < dpb.len() && (#[trigger] dpb[i]).marking is LongTerm
                    && dpb[i].long_term_frame_idx == x,
    ensures
        ({
            let after = after_sliding_window(
                dpb,
                max_num_ref_frames,
                current_frame_num,
                max_frame_num,
            );
            let max = max_frame_num as int;
            let back = |f: u32|
                if f > current_frame_num {
                    f - max
                } else {
                    f as int
                };
            &&& given_up is Some <==> shorts.len() > 0 && shorts.len() + longs.len()
                >= max_num_ref_frames
            &&& given_up is None ==> after == dpb
            &&& given_up matches Some(gone) ==> {
                &&& shorts.contains(gone)
                &&& forall|f: u32| #[trigger] shorts.contains(f) ==> back(gone) <= back(f)
                &&& current_frame_num < max && gone < max ==> forall|f: u32| #[trigger]
                    shorts.contains(f) && f < max ==> (current_frame_num - gone) % max >= (
                    current_frame_num - f) % max
                &&& after.len() == dpb.len()
                &&& forall|i: int|
                    0 <= i < dpb.len() ==> #[trigger] after[i] == (if dpb[i].marking is ShortTerm
                        && dpb[i].frame_num == gone {
                        DpbEntry { marking: RefMarking::Unused, ..dpb[i] }
                    } else {
                        dpb[i]
                    })
            }
        }),
{
    assert(!joins_frame(dpb, current_frame_num));
    assert forall|x: u32| shorts.contains(x) == short_term_frames(dpb).contains(x) by {
        law_reference_frames(dpb, x);
    }
    assert forall|x: u32| longs.contains(x) == long_term_frames(dpb).contains(x) by {
        law_reference_frames(dpb, x);
    }
    assert(shorts =~= short_term_frames(dpb));
    assert(longs =~= long_term_frames(dpb));
    if must_evict(dpb, max_num_ref_frames, current_frame_num) {
        crate::marking_laws::law_sliding_window(
            dpb,
            max_num_ref_frames,
            current_frame_num,
            max_frame_num,
        );
        let gone = oldest_frame(dpb, current_frame_num, max_frame_num);
        assert forall|f: u32| #[trigger] shorts.contains(f) implies (if gone > current_frame_num {
            gone - max_frame_num
        } else {
            gone as int
        }) <= (if f > current_frame_num {
            f - max_frame_num
        } else {
            f as int
        }) by {
            assert(short_term_frames(dpb).contains(f));
        }
        if current_frame_num < max_frame_num && gone < max_frame_num {
            assert forall|f: u32| #[trigger]
                shorts.contains(f) && f < max_frame_num implies (current_frame_num - gone) % (
            max_frame_num as int) >= (current_frame_num - f) % (max_frame_num as int) by {
                crate::picture_laws::law_frame_num_wrap(gone, current_frame_num, max_frame_num);
                crate::picture_laws::law_frame_num_wrap(f, current_frame_num, max_frame_num);
                assert(short_term_frames(dpb).contains(f));
            }
        }
        Some(gone)
    } else {
        None
    }
}

/// Of two frames that count back equally far, sliding window marking never gives
/// up the one that the DPB mentions second.
pub proof fn law_sliding_window_tie(
    dpb: Seq<DpbEntry>,
    max_num_ref_frames: u32,
    current_frame_num: u32,
    max_frame_num: u32,
    i: int,
    j: int,
)
    requires
        0 <= i < j < dpb.len(),
        dpb[i].marking is ShortTerm,
        dpb[j].marking is ShortTerm,
        dpb[i].frame_num != dpb[j].frame_num,
        (if dpb[i].frame_num > current_frame_num {
            dpb[i].frame_num - max_frame_num
        } else {
            dpb[i].frame_num as int
        }) == (if dpb[j].frame_num > current_frame_num {
            dpb[j].frame_num - max_frame_num
        } else {
            dpb[j].frame_num as int
        }),
        forall|h: int|
            0 <= h < i && (#[trigger] dpb[h]).marking is ShortTerm ==> dpb[h].frame_num
                != dpb[j].frame_num,
    ensures
        after_sliding_window(dpb, max_num_ref_frames, current_frame_num, max_frame_num)[j]
            == dpb[j],
{
    crate::marking_laws::law_sliding_window(
        dpb,
        max_num_ref_frames,
        current_frame_num,
        max_frame_num,
    );
    let o = crate::marking_laws::lemma_oldest_exists(dpb, current_frame_num, max_frame_num);
    lemma_oldest_unique(dpb, o, current_frame_num, max_frame_num);
    assert(dpb[i].marking is ShortTerm);
}

/// Without operations nothing changes.
pub proof fn law_no_operation_no_effect(
    dpb: Seq<DpbEntry>,
    entry: DpbEntry,
    current_frame_num: u32,
    max_frame_num: u32,
)
    ensures
        dpb_after(
            dpb,
            Seq::empty(),
            0,
            described_by(entry, current_frame_num, max_frame_num),
        ) == dpb,
        current_after(Seq::empty(), 0, entry) == entry,
{
    assert(dpb_after(
        dpb,
        Seq::empty(),
        0,
        described_by(entry, current_frame_num, max_frame_num),
    ) =~= dpb);
}

/// What one more memory management control operation does to an entry of the
/// DPB, where `entry` describes the current picture.
///
/// Operations 1 and 3 name a short-term reference by its age, the number of steps
/// since the `frame_num` counter left it. In a frame the age is one more than the
/// difference that the operation gives. In a field twice the age is that
/// difference, or one more for a frame, a field pair or a field of the same parity
/// as the current picture. Operation 2 names a long-term reference by its index,
/// which is doubled in a field, and one more under the same condition.
///
/// Operation 1 makes what it names unused, and so does operation 2. Operation 3
/// makes whatever holds its index unused and what it names long-term with that
/// index. Operation 4 makes unused what is long-term with an index that is not
/// below the number given, operation 5 everything, operation 6 whatever holds its
/// index. Every other entry stays as it was.
pub proof fn law_operation_effect(
    dpb: Seq<DpbEntry>,
    ops: Seq<MmcoOp>,
    op: MmcoOp,
    entry: DpbEntry,
    current_frame_num: u32,
    max_frame_num: u32,
    i: int,
)
    requires
        0 <= i < dpb.len(),
        current_frame_num < max_frame_num <= 0x2000_0000,
        dpb[i].marking is ShortTerm ==> dpb[i].frame_num < max_frame_num,
        op matches MmcoOp::MarkShortTermUnused(d) ==> d < i32::MAX,
        op matches MmcoOp::AssignLongTerm(d, _) ==> d < i32::MAX,
    ensures
        ({
            let current = described_by(entry, current_frame_num, max_frame_num);
            let e = dpb_after(dpb, ops, ops.len(), current)[i];
            let after = dpb_after(dpb, ops.push(op), ops.push(op).len(), current)[i];
            let unused = DpbEntry { marking: RefMarking::Unused, ..e };
            let in_field = entry.structure is TopField || entry.structure is BottomField;
            let bit: int = if e.structure is Frame || e.structure is FieldPair || e.structure
                == entry.structure {
                1
            } else {
                0
            };
            let age = (current_frame_num - e.frame_num) % (max_frame_num as int);
            match op {
                MmcoOp::MarkShortTermUnused(d) => after == (if e.marking is ShortTerm && (
                if in_field {
                    2 * age == d + bit
                } else {
                    age == d + 1
                }) {
                    unused
                } else {
                    e
                }),
                MmcoOp::MarkLongTermUnused(n) => (in_field && e.marking is LongTerm
                    ==> e.long_term_frame_idx <= i32::MAX) ==> after == (if e.marking is LongTerm
                    && n == (if in_field {
                    2 * e.long_term_frame_idx + bit
                } else {
                    e.long_term_frame_idx as int
                }) {
                    unused
                } else {
                    e
                }),
                MmcoOp::AssignLongTerm(d, idx) => after == (if e.marking is LongTerm
                    && e.long_term_frame_idx == idx {
                    unused
                } else if e.marking is ShortTerm && (if in_field {
                    2 * age == d + bit
                } else {
                    age == d + 1
                }) {
                    DpbEntry { marking: RefMarking::LongTerm, long_term_frame_idx: idx, ..e }
                } else {
                    e
                }),
                MmcoOp::SetMaxLongTermIdx(n) => after == (if e.marking is LongTerm
                    && e.long_term_frame_idx >= n {
                    unused
                } else {
                    e
                }),
                MmcoOp::MarkAllUnused => after == unused,
                MmcoOp::AssignCurrentLongTerm(idx) => after == (if e.marking is LongTerm
                    && e.long_term_frame_idx == idx {
                    unused
                } else {
                    e
                }),
            }
        }),
{
    let current = described_by(entry, current_frame_num, max_frame_num);
    let e = entry_after(ops, ops.len(), dpb[i], current);
    lemma_longer_run(ops, op, ops.len(), dpb[i], current);
    lemma_same_counter(ops, ops.len(), dpb[i], current);
    let after = entry_after_op(op, e, current);
    assert(dpb_after(dpb, ops.push(op), ops.push(op).len(), current)[i] == after) by {
        assert(ops.push(op)[ops.len() as int] == op);
    }
    match op {
        MmcoOp::MarkShortTermUnused(d) => {
            if e.marking is ShortTerm {
                lemma_named_by_age(d, e, entry, current_frame_num, max_frame_num);
            }
        },
        MmcoOp::AssignLongTerm(d, idx) => {
            if e.marking is ShortTerm {
                lemma_named_by_age(d, e, entry, current_frame_num, max_frame_num);
            }
        },
        MmcoOp::MarkLongTermUnused(n) => {
            let idx = e.long_term_frame_idx as int;
            law_wrap_i32(idx, n as int);
            law_wrap_i32(2 * idx, n as int);
            law_wrap_i32(2 * idx + 1, n as int);
        },
        _ => {},
    }
}

/// What operations 1 and 3 name for numbers of any range that fit in 32 bits: the
/// short-term references whose `PicNum`, seen from the current picture, is that
/// of the current picture less one more than the difference.
pub proof fn law_operation_names_by_number(
    dpb: Seq<DpbEntry>,
    ops: Seq<MmcoOp>,
    diff_minus1: u32,
    idx: u32,
    entry: DpbEntry,
    current_frame_num: u32,
    max_frame_num: u32,
    i: int,
)
    requires
        0 <= i < dpb.len(),
        2 * current_frame_num + 1 <= i32::MAX,
        diff_minus1 < i32::MAX,
    ensures
        ({
            let current = described_by(entry, current_frame_num, max_frame_num);
            let e = dpb_after(dpb, ops, ops.len(), current)[i];
            let op1 = ops.push(MmcoOp::MarkShortTermUnused(diff_minus1));
            let op3 = ops.push(MmcoOp::AssignLongTerm(diff_minus1, idx));
            let in_field = entry.structure is TopField || entry.structure is BottomField;
            let own = if in_field {
                2 * current_frame_num + 1
            } else {
                current_frame_num as int
            };
            let named = e.marking is ShortTerm && e.pic_num_for(
                current_picture(
                    current_frame_num,
                    max_frame_num,
                    in_field,
                    entry.structure is BottomField,
                ),
            ) == own - (diff_minus1 + 1);
            &&& dpb_after(dpb, op1, op1.len(), current)[i] == (if named {
                DpbEntry { marking: RefMarking::Unused, ..e }
            } else {
                e
            })
            &&& !(e.marking is LongTerm) ==> dpb_after(dpb, op3, op3.len(), current)[i] == (
            if named {
                DpbEntry { marking: RefMarking::LongTerm, long_term_frame_idx: idx, ..e }
            } else {
                e
            })
        }),
{
    let current = described_by(entry, current_frame_num, max_frame_num);
    let first = MmcoOp::MarkShortTermUnused(diff_minus1);
    let third = MmcoOp::AssignLongTerm(diff_minus1, idx);
    lemma_longer_run(ops, first, ops.len(), dpb[i], current);
    lemma_longer_run(ops, third, ops.len(), dpb[i], current);
    assert(ops.push(first)[ops.len() as int] == first);
    assert(ops.push(third)[ops.len() as int] == third);
    law_wrap_i32(diff_minus1 as int, 0);
    law_wrap_i32(current_frame_num as int, 0);
    law_wrap_i32(2 * current_frame_num + 1, 0);
}

proof fn lemma_named_by_age(
    d: u32,
    e: DpbEntry,
    entry: DpbEntry,
    current_frame_num: u32,
    max_frame_num: u32,
)
    requires
        current_frame_num < max_frame_num <= 0x2000_0000,
        e.frame_num < max_frame_num,
        d < i32::MAX,
    ensures
        ({
            let current = described_by(entry, current_frame_num, max_frame_num);
            let in_field = entry.structure is TopField || entry.structure is BottomField;
            let bit: int = if e.structure is Frame || e.structure is FieldPair || e.structure
                == entry.structure {
                1
            } else {
                0
            };
            let age = (current_frame_num - e.frame_num) % (max_frame_num as int);
            e.pic_num_for(current) == pic_num_x(d, current) <==> (if in_field {
                2 * age == d + bit
            } else {
                age == d + 1
            })
        }),
{
    let current = described_by(entry, current_frame_num, max_frame_num);
    let wrap = frame_num_wrap(e.frame_num, current_frame_num, max_frame_num);
    lemma_pic_num_is_age(e, current_frame_num, max_frame_num, current.bottom);
    law_wrap_i32(wrap, 0);
    law_wrap_i32(2 * wrap, 0);
    law_wrap_i32(2 * wrap + 1, 0);
    law_wrap_i32(d as int, 0);
    law_wrap_i32(current_frame_num as int, 0);
    law_wrap_i32(2 * current_frame_num + 1, 0);
}

proof fn lemma_longer_run(
    ops: Seq<MmcoOp>,
    op: MmcoOp,
    n: nat,
    e: DpbEntry,
    current: CurrentPicture,
)
    requires
        n <= ops.len(),
    ensures
        entry_after(ops.push(op), n, e, current) == entry_after(ops, n, e, current),
    decreases n,
{
    if n > 0 {
        lemma_longer_run(ops, op, (n - 1) as nat, e, current);
        assert(ops.push(op)[n - 1] == ops[n - 1]);
    }
}

proof fn lemma_same_counter(ops: Seq<MmcoOp>, n: nat, e: DpbEntry, current: CurrentPicture)
    ensures
        entry_after(ops, n, e, current).frame_num == e.frame_num,
        entry_after(ops, n, e, current).marking is ShortTerm ==> e.marking is ShortTerm,
    decreases n,
{
    if n > 0 {
        lemma_same_counter(ops, (n - 1) as nat, e, current);
    }
}

/// What one more memory management control operation does to the entry of the
/// current picture: operation 6 makes it long-term with the index that it gives,
/// any other leaves it as it was.
pub proof fn law_operation_effect_on_current(ops: Seq<MmcoOp>, op: MmcoOp, entry: DpbEntry)
    ensures
        current_after(ops.push(op), ops.push(op).len(), entry) == (match op {
            MmcoOp::AssignCurrentLongTerm(idx) => DpbEntry {
                marking: RefMarking::LongTerm,
                long_term_frame_idx: idx,
                ..current_after(ops, ops.len(), entry)
            },
            _ => current_after(ops, ops.len(), entry),
        }),
{
    lemma_longer_current_run(ops, op, ops.len(), entry);
}

proof fn lemma_longer_current_run(ops: Seq<MmcoOp>, op: MmcoOp, n: nat, entry: DpbEntry)
    requires
        n <= ops.len(),
    ensures
        current_after(ops.push(op), n, entry) == current_after(ops, n, entry),
    decreases n,
{
    if n > 0 {
        lemma_longer_current_run(ops, op, (n - 1) as nat, entry);
        assert(ops.push(op)[n - 1] == ops[n - 1]);
    }
}

/// Marking is handed all the operations of a picture that comes with them, in
/// their order.
pub proof fn law_all_operations_count(ops: &[MmcoOp])
    ensures
        ops_view(Some(ops)) == Some(ops@),
        ops_view(None) is None,
{
}

/// The whole marking process by the kind of picture. An IDR picture makes every
/// entry unused and changes nothing else of it, and becomes short-term, or
/// long-term of index 0 where its flag is set. A picture that comes with
/// operations does what they do, starting from a short-term entry of its own. Any
/// other does what the sliding window does, and becomes short-term. None changes
/// anything of its own entry but the marking and the index.
pub proof fn law_marking_effect(
    dpb: Seq<DpbEntry>,
    entry: DpbEntry,
    max_num_ref_frames: u32,
    is_idr: bool,
    long_term_reference_flag_for_idr: bool,
    adaptive_ops: Option<Seq<MmcoOp>>,
    current_frame_num: u32,
    max_frame_num: u32,
)
    ensures
        ({
            let after = dpb_after_marking(
                dpb,
                entry,
                max_num_ref_frames,
                is_idr,
                adaptive_ops,
                current_frame_num,
                max_frame_num,
            );
            let own = entry_after_marking(
                entry,
                is_idr,
                long_term_reference_flag_for_idr,
                adaptive_ops,
            );
            let short = DpbEntry { marking: RefMarking::ShortTerm, ..entry };
            &&& after.len() == dpb.len()
            &&& is_idr ==> {
                &&& forall|i: int|
                    0 <= i < dpb.len() ==> #[trigger] after[i] == (DpbEntry {
                        marking: RefMarking::Unused,
                        ..dpb[i]
                    })
                &&& own == (if long_term_reference_flag_for_idr {
                    DpbEntry { marking: RefMarking::LongTerm, long_term_frame_idx: 0, ..entry }
                } else {
                    short
                })
            }
            &&& !is_idr && adaptive_ops is None ==> {
                &&& after == after_sliding_window(
                    dpb,
                    max_num_ref_frames,
                    current_frame_num,
                    max_frame_num,
                )
                &&& own == short
            }
            &&& !is_idr && adaptive_ops is Some ==> {
                let ops = adaptive_ops->0;
                &&& after == dpb_after(
                    dpb,
                    ops,
                    ops.len(),
                    described_by(entry, current_frame_num, max_frame_num),
                )
                &&& own == current_after(ops, ops.len(), short)
            }
        }),
{
}

} // verus!
