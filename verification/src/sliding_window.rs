//! Sliding window marking: the oldest short-term reference makes room.

use vstd::prelude::*;

use crate::marking::as_unused;
use crate::picture::{frame_num_wrap, wrapped_frame_num, DpbEntry, RefMarking};

verus! {

/// Being a short-term reference.
pub open spec fn short_term() -> spec_fn(DpbEntry) -> bool {
    |e: DpbEntry| e.marking is ShortTerm
}

/// Being a long-term reference.
pub open spec fn long_term() -> spec_fn(DpbEntry) -> bool {
    |e: DpbEntry| e.marking is LongTerm
}

/// The short-term reference frames of the DPB, by `frame_num`: the two fields
/// of a frame share it.
pub open spec fn short_term_frames(dpb: Seq<DpbEntry>) -> Set<u32> {
    dpb.filter(short_term()).map_values(|e: DpbEntry| e.frame_num).to_set()
}

/// The long-term reference frames of the DPB, by `LongTermFrameIdx`.
pub open spec fn long_term_frames(dpb: Seq<DpbEntry>) -> Set<u32> {
    dpb.filter(long_term()).map_values(|e: DpbEntry| e.long_term_frame_idx).to_set()
}

/// How many frame buffers the reference pictures of the DPB occupy.
pub open spec fn ref_frame_count(dpb: Seq<DpbEntry>) -> nat {
    short_term_frames(dpb).len() + long_term_frames(dpb).len()
}

/// How many reference frames the DPB may hold: at least one.
pub open spec fn ref_frame_capacity(max_num_ref_frames: u32) -> nat {
    if max_num_ref_frames == 0 {
        1
    } else {
        max_num_ref_frames as nat
    }
}

/// Whether the DPB holds a reference picture of the current `frame_num`. The
/// current picture is then the second field of that frame, and takes no frame
/// buffer of its own.
pub open spec fn joins_frame(dpb: Seq<DpbEntry>, current_frame_num: u32) -> bool {
    exists|i: int|
        0 <= i < dpb.len() && !((#[trigger] dpb[i]).marking is Unused) && dpb[i].frame_num
            == current_frame_num
}

/// Whether entry `i` belongs to the oldest short-term reference frame: no
/// `FrameNumWrap` is below its own, and it is the first of which that holds.
pub open spec fn is_oldest(
    dpb: Seq<DpbEntry>,
    i: int,
    current_frame_num: u32,
    max_frame_num: u32,
) -> bool {
    &&& 0 <= i < dpb.len()
    &&& dpb[i].marking is ShortTerm
    &&& forall|j: int|
        0 <= j < dpb.len() && (#[trigger] dpb[j]).marking is ShortTerm ==> {
            let own = frame_num_wrap(dpb[i].frame_num, current_frame_num, max_frame_num);
            let other = frame_num_wrap(dpb[j].frame_num, current_frame_num, max_frame_num);
            if j < i {
                own < other
            } else {
                own <= other
            }
        }
}

/// The `frame_num` of the oldest short-term reference frame.
pub open spec fn oldest_frame(
    dpb: Seq<DpbEntry>,
    current_frame_num: u32,
    max_frame_num: u32,
) -> u32 {
    dpb[choose|i: int| is_oldest(dpb, i, current_frame_num, max_frame_num)].frame_num
}

/// Whether sliding window marking has to make room for the current picture, and
/// can: the current picture needs a frame buffer, none is free, and there is a
/// short-term reference to give up.
pub open spec fn must_evict(
    dpb: Seq<DpbEntry>,
    max_num_ref_frames: u32,
    current_frame_num: u32,
) -> bool {
    &&& !joins_frame(dpb, current_frame_num)
    &&& ref_frame_count(dpb) >= ref_frame_capacity(max_num_ref_frames)
    &&& short_term_frames(dpb).len() > 0
}

/// `dpb` without the short-term reference frame `frame_num`: each of its fields
/// is marked as unused for reference.
pub open spec fn without_frame(dpb: Seq<DpbEntry>, frame_num: u32) -> Seq<DpbEntry> {
    Seq::new(
        dpb.len(),
        |i: int|
            if dpb[i].marking is ShortTerm && dpb[i].frame_num == frame_num {
                as_unused(dpb[i])
            } else {
                dpb[i]
            },
    )
}

/// The DPB after sliding window marking.
pub open spec fn after_sliding_window(
    dpb: Seq<DpbEntry>,
    max_num_ref_frames: u32,
    current_frame_num: u32,
    max_frame_num: u32,
) -> Seq<DpbEntry> {
    if must_evict(dpb, max_num_ref_frames, current_frame_num) {
        without_frame(dpb, oldest_frame(dpb, current_frame_num, max_frame_num))
    } else {
        dpb
    }
}

/// There is one oldest entry at most, so that finding it is enough to know the
/// oldest frame.
pub proof fn lemma_oldest_unique(
    dpb: Seq<DpbEntry>,
    i: int,
    current_frame_num: u32,
    max_frame_num: u32,
)
    requires
        is_oldest(dpb, i, current_frame_num, max_frame_num),
    ensures
        oldest_frame(dpb, current_frame_num, max_frame_num) == dpb[i].frame_num,
{
    let k = choose|k: int| is_oldest(dpb, k, current_frame_num, max_frame_num);
    assert(dpb[k].marking is ShortTerm);
    assert(dpb[i].marking is ShortTerm);
}

/// What one more entry adds to the reference frames.
pub proof fn lemma_frames_push(dpb: Seq<DpbEntry>, e: DpbEntry)
    ensures
        short_term_frames(dpb.push(e)) == (if e.marking is ShortTerm {
            short_term_frames(dpb).insert(e.frame_num)
        } else {
            short_term_frames(dpb)
        }),
        long_term_frames(dpb.push(e)) == (if e.marking is LongTerm {
            long_term_frames(dpb).insert(e.long_term_frame_idx)
        } else {
            long_term_frames(dpb)
        }),
{
    let by_num = |x: DpbEntry| x.frame_num;
    let by_idx = |x: DpbEntry| x.long_term_frame_idx;
    dpb.lemma_filter_push(e, short_term());
    dpb.lemma_filter_push(e, long_term());
    let short = dpb.filter(short_term());
    let long = dpb.filter(long_term());
    short.lemma_push_map_commute(by_num, e);
    long.lemma_push_map_commute(by_idx, e);
    short.map_values(by_num).lemma_push_to_set_commute(e.frame_num);
    long.map_values(by_idx).lemma_push_to_set_commute(e.long_term_frame_idx);
}

/// Adds `x` to a list that holds each of its elements once.
fn push_new(list: &mut Vec<u32>, x: u32)
    requires
        old(list)@.no_duplicates(),
    ensures
        final(list)@.no_duplicates(),
        final(list)@.to_set() == old(list)@.to_set().insert(x),
        final(list)@.len() <= old(list)@.len() + 1,
{
    let mut i: usize = 0;
    while i < list.len()
        invariant
            i <= list@.len(),
            *list == *old(list),
            list@.no_duplicates(),
            forall|j: int| 0 <= j < i ==> list@[j] != x,
        decreases list@.len() - i,
    {
        if list[i] == x {
            assert(list@.to_set().contains(list@[i as int]));
            assert(list@.to_set() == list@.to_set().insert(x));
            return;
        }
        i = i + 1;
    }
    proof {
        list@.lemma_push_to_set_commute(x);
    }
    list.push(x);
}

/// Sliding window decoded reference picture marking.
///
/// When the reference frames in the DPB leave no room for another, marks the
/// short-term reference frame with the smallest `FrameNumWrap` as unused for
/// reference. Both counts are in frames: a complementary reference field pair
/// occupies one frame buffer, and both of its fields are given up together.
/// Nothing changes while the current picture is the second field of a reference
/// frame that is already there.
pub fn sliding_window_marking(
    dpb: &mut [DpbEntry],
    max_num_ref_frames: u32,
    current_frame_num: u32,
    max_frame_num: u32,
)
    ensures
        final(dpb)@ == after_sliding_window(
            old(dpb)@,
            max_num_ref_frames,
            current_frame_num,
            max_frame_num,
        ),
        (exists|i: int|
            0 <= i < old(dpb)@.len() && !((#[trigger] old(dpb)@[i]).marking is Unused)
                && old(dpb)@[i].frame_num == current_frame_num) ==> final(dpb)@ == old(dpb)@,
{
    let ghost start = dpb@;
    let len: usize = dpb.len();
    let mut i: usize = 0;
    while i < len
        invariant
            i <= len == dpb@.len(),
            dpb@ == start,
            start == old(dpb)@,
            forall|j: int|
                0 <= j < i ==> (#[trigger] start[j]).marking is Unused || start[j].frame_num
                    != current_frame_num,
        decreases len - i,
    {
        if dpb[i].is_ref() && dpb[i].frame_num == current_frame_num {
            assert(!(start[i as int].marking is Unused));
            return;
        }
        i = i + 1;
    }

    let cap: usize = if max_num_ref_frames == 0 {
        1
    } else {
        max_num_ref_frames as usize
    };
    let mut short_fnums: Vec<u32> = Vec::new();
    let mut long_idxs: Vec<u32> = Vec::new();
    let mut oldest: usize = 0;
    i = 0;
    proof {
        reveal(Seq::filter);
        assert(short_fnums@.to_set() =~= short_term_frames(start.take(0)));
        assert(long_idxs@.to_set() =~= long_term_frames(start.take(0)));
    }
    while i < len
        invariant
            i <= len == dpb@.len(),
            dpb@ == start,
            short_fnums@.no_duplicates(),
            long_idxs@.no_duplicates(),
            short_fnums@.len() + long_idxs@.len() <= i,
            short_fnums@.to_set() == short_term_frames(start.take(i as int)),
            long_idxs@.to_set() == long_term_frames(start.take(i as int)),
            short_fnums@.len() == 0 ==> forall|j: int|
                0 <= j < i ==> !((#[trigger] start[j]).marking is ShortTerm),
            short_fnums@.len() > 0 ==> is_oldest(
                start.take(i as int),
                oldest as int,
                current_frame_num,
                max_frame_num,
            ),
        decreases len - i,
    {
        let e: &DpbEntry = &dpb[i];
        proof {
            let front = start.take(i as int);
            assert(start.take(i + 1) == front.push(*e));
            lemma_frames_push(front, *e);
            assert(forall|j: int| 0 <= j < i ==> #[trigger] front[j] == start[j]);
            let next = start.take(i + 1);
            assert(forall|j: int| 0 <= j <= i ==> #[trigger] next[j] == start[j]);
        }
        if e.is_short_term() {
            if short_fnums.len() == 0 {
                oldest = i;
            } else {
                let own: i64 = wrapped_frame_num(e.frame_num, current_frame_num, max_frame_num);
                let best: i64 = wrapped_frame_num(
                    dpb[oldest].frame_num,
                    current_frame_num,
                    max_frame_num,
                );
                if own < best {
                    oldest = i;
                }
            }
            push_new(&mut short_fnums, e.frame_num);
            assert(short_fnums@.to_set().contains(e.frame_num));
        } else if e.is_long_term() {
            push_new(&mut long_idxs, e.long_term_frame_idx);
        }
        i = i + 1;
    }
    proof {
        assert(start.take(len as int) == start);
        short_fnums@.unique_seq_to_set();
        long_idxs@.unique_seq_to_set();
    }
    if short_fnums.len() + long_idxs.len() < cap {
        return;
    }
    if short_fnums.len() == 0 {
        return;
    }
    let evicted: u32 = dpb[oldest].frame_num;
    proof {
        lemma_oldest_unique(start, oldest as int, current_frame_num, max_frame_num);
    }
    i = 0;
    while i < len
        invariant
            i <= len == dpb@.len(),
            start.len() == len,
            forall|j: int| 0 <= j < i ==> dpb@[j] == #[trigger] without_frame(start, evicted)[j],
            forall|j: int| i <= j < len ==> dpb@[j] == #[trigger] start[j],
        decreases len - i,
    {
        assert(dpb@[i as int] == start[i as int]);
        if dpb[i].is_short_term() && dpb[i].frame_num == evicted {
            dpb[i].marking = RefMarking::Unused;
        }
        i = i + 1;
    }
    assert(dpb@ == without_frame(start, evicted));
}

} // verus!
