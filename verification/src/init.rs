//! Initialisation of reference picture lists.

use vstd::prelude::*;

use crate::fields::{
    group_field_frames, interleave_fields, interleaved, poc_above, poc_at_most, reference_frames,
    sort_frames, split_by_poc, FrameOrder, RefFrame,
};
use crate::picture::{current_picture, CurrentPicture, DpbEntry, PicStructure};
use crate::sort::{carried_rank, lemma_stable_sort_map, sort_by_rank, stable_sort};

verus! {

/// Which entries of the DPB go into a part of a list.
#[derive(Debug, Clone, Copy)]
pub enum Choice {
    ShortTerm,
    LongTerm,
    /// Short-term references in front of the given `PicOrderCnt`.
    Before(i32),
    /// Short-term references at or behind the given `PicOrderCnt`.
    NotBefore(i32),
    /// Short-term references behind the given `PicOrderCnt`.
    After(i32),
    /// Short-term references at or in front of the given `PicOrderCnt`.
    NotAfter(i32),
}

/// The order of a part of a list.
#[derive(Debug, Clone, Copy)]
pub enum EntryOrder {
    PicNumDescending(CurrentPicture),
    /// By `LongTermPicNum` as it is in a frame.
    LongTermPicNumAscending,
    PocDescending,
    PocAscending,
}

impl Choice {
    /// Being chosen.
    pub open spec fn holds(self) -> spec_fn(DpbEntry) -> bool {
        |e: DpbEntry|
            match self {
                Choice::ShortTerm => e.marking is ShortTerm,
                Choice::LongTerm => e.marking is LongTerm,
                Choice::Before(poc) => e.marking is ShortTerm && e.pic_order_cnt < poc,
                Choice::NotBefore(poc) => e.marking is ShortTerm && e.pic_order_cnt >= poc,
                Choice::After(poc) => e.marking is ShortTerm && e.pic_order_cnt > poc,
                Choice::NotAfter(poc) => e.marking is ShortTerm && e.pic_order_cnt <= poc,
            }
    }

    fn holds_of(self, e: &DpbEntry) -> (r: bool)
        ensures
            r == (self.holds())(*e),
    {
        match self {
            Choice::ShortTerm => e.is_short_term(),
            Choice::LongTerm => e.is_long_term(),
            Choice::Before(poc) => e.is_short_term() && e.pic_order_cnt < poc,
            Choice::NotBefore(poc) => e.is_short_term() && e.pic_order_cnt >= poc,
            Choice::After(poc) => e.is_short_term() && e.pic_order_cnt > poc,
            Choice::NotAfter(poc) => e.is_short_term() && e.pic_order_cnt <= poc,
        }
    }
}

impl EntryOrder {
    /// The rank that puts entries in this order when it ascends.
    pub open spec fn rank(self) -> spec_fn(DpbEntry) -> int {
        |e: DpbEntry|
            match self {
                EntryOrder::PicNumDescending(current) => -(e.pic_num_for(current) as int),
                EntryOrder::LongTermPicNumAscending => e.long_term_pic_num_for(
                    false,
                    false,
                ) as int,
                EntryOrder::PocDescending => -(e.pic_order_cnt as int),
                EntryOrder::PocAscending => e.pic_order_cnt as int,
            }
    }

    fn rank_of(self, e: &DpbEntry) -> (r: i64)
        ensures
            r == (self.rank())(*e),
    {
        match self {
            EntryOrder::PicNumDescending(current) => {
                let pic_num: i32 = e.pic_num(
                    current.frame_num,
                    current.max_frame_num,
                    current.is_field,
                    current.bottom,
                );
                -(pic_num as i64)
            },
            EntryOrder::LongTermPicNumAscending => e.long_term_pic_num(false, false) as i64,
            EntryOrder::PocDescending => -(e.pic_order_cnt as i64),
            EntryOrder::PocAscending => e.pic_order_cnt as i64,
        }
    }
}

/// Picking the storage key.
pub open spec fn storage_key() -> spec_fn(DpbEntry) -> u32 {
    |e: DpbEntry| e.dpb_key
}

/// The storage keys of `entries`.
pub open spec fn keys_of(entries: Seq<DpbEntry>) -> Seq<u32> {
    entries.map_values(storage_key())
}

/// The chosen entries of the DPB, in the given order.
pub open spec fn chosen(dpb: Seq<DpbEntry>, choice: Choice, order: EntryOrder) -> Seq<DpbEntry> {
    stable_sort(dpb.filter(choice.holds()), order.rank())
}

/// The reference pictures in the order in which the list for a P slice of a
/// frame starts with them: short-term by descending `PicNum`, then long-term by
/// ascending `LongTermPicNum`.
pub open spec fn p_frame_order(dpb: Seq<DpbEntry>, current: CurrentPicture) -> Seq<DpbEntry> {
    chosen(dpb, Choice::ShortTerm, EntryOrder::PicNumDescending(current)) + chosen(
        dpb,
        Choice::LongTerm,
        EntryOrder::LongTermPicNumAscending,
    )
}

/// The reference pictures in the order in which list 0 for a B slice of a frame
/// starts with them: short-term in front of the current picture, the nearest
/// first, then the other short-term ones by ascending `PicOrderCnt`, then
/// long-term by ascending `LongTermPicNum`.
pub open spec fn b_frame_order0(dpb: Seq<DpbEntry>, current_poc: i32) -> Seq<DpbEntry> {
    chosen(dpb, Choice::Before(current_poc), EntryOrder::PocDescending) + chosen(
        dpb,
        Choice::NotBefore(current_poc),
        EntryOrder::PocAscending,
    ) + chosen(dpb, Choice::LongTerm, EntryOrder::LongTermPicNumAscending)
}

/// The same for list 1: short-term behind the current picture, the nearest
/// first, then the other short-term ones by descending `PicOrderCnt`, then
/// long-term by ascending `LongTermPicNum`.
pub open spec fn b_frame_order1(dpb: Seq<DpbEntry>, current_poc: i32) -> Seq<DpbEntry> {
    chosen(dpb, Choice::After(current_poc), EntryOrder::PocAscending) + chosen(
        dpb,
        Choice::NotAfter(current_poc),
        EntryOrder::PocDescending,
    ) + chosen(dpb, Choice::LongTerm, EntryOrder::LongTermPicNumAscending)
}

/// The long-term reference frames by ascending `LongTermFrameIdx`.
pub open spec fn long_term_field_frames(
    dpb: Seq<DpbEntry>,
    current_frame_num: u32,
    max_frame_num: u32,
) -> Seq<RefFrame> {
    stable_sort(
        reference_frames(dpb, true, current_frame_num, max_frame_num),
        FrameOrder::LongTermIdxAscending.rank(),
    )
}

/// The list for a P slice of a field: the fields of the short-term reference
/// frames, which descend by `FrameNumWrap`, then those of the long-term ones.
pub open spec fn p_field_list(
    dpb: Seq<DpbEntry>,
    current_frame_num: u32,
    max_frame_num: u32,
    current_bottom: bool,
) -> Seq<u32> {
    interleaved(
        stable_sort(
            reference_frames(dpb, false, current_frame_num, max_frame_num),
            FrameOrder::FrameNumWrapDescending.rank(),
        ),
        current_bottom,
    ) + interleaved(
        long_term_field_frames(dpb, current_frame_num, max_frame_num),
        current_bottom,
    )
}

/// The short-term reference frames at or in front of the current picture, the
/// nearest first.
pub open spec fn frames_back(frames: Seq<RefFrame>, current_poc: i32) -> Seq<RefFrame> {
    stable_sort(frames.filter(poc_at_most(current_poc)), FrameOrder::PocDescending.rank())
}

/// The short-term reference frames behind the current picture, the nearest
/// first.
pub open spec fn frames_ahead(frames: Seq<RefFrame>, current_poc: i32) -> Seq<RefFrame> {
    stable_sort(frames.filter(poc_above(current_poc)), FrameOrder::PocAscending.rank())
}

/// List 0 for a B slice of a field: the fields of the short-term reference
/// frames, those at or in front of the current picture first, then the fields
/// of the long-term ones.
pub open spec fn b_field_list0(
    dpb: Seq<DpbEntry>,
    current_poc: i32,
    current_frame_num: u32,
    max_frame_num: u32,
    current_bottom: bool,
) -> Seq<u32> {
    let short = reference_frames(dpb, false, current_frame_num, max_frame_num);
    interleaved(
        frames_back(short, current_poc) + frames_ahead(short, current_poc),
        current_bottom,
    ) + interleaved(
        long_term_field_frames(dpb, current_frame_num, max_frame_num),
        current_bottom,
    )
}

/// List 1 for a B slice of a field: as list 0, with the two parts of the
/// short-term reference frames exchanged.
pub open spec fn b_field_list1(
    dpb: Seq<DpbEntry>,
    current_poc: i32,
    current_frame_num: u32,
    max_frame_num: u32,
    current_bottom: bool,
) -> Seq<u32> {
    let short = reference_frames(dpb, false, current_frame_num, max_frame_num);
    interleaved(
        frames_ahead(short, current_poc) + frames_back(short, current_poc),
        current_bottom,
    ) + interleaved(
        long_term_field_frames(dpb, current_frame_num, max_frame_num),
        current_bottom,
    )
}

/// List 1 made to differ from list 0: where the two are the same and have more
/// than one entry, its first two entries change places.
pub open spec fn told_apart(list0: Seq<u32>, list1: Seq<u32>) -> Seq<u32> {
    if list1.len() > 1 && list1 == list0 {
        list1.update(0, list1[1]).update(1, list1[0])
    } else {
        list1
    }
}

/// The initial list for a P slice.
pub open spec fn initial_list_p(
    dpb: Seq<DpbEntry>,
    current_frame_num: u32,
    max_frame_num: u32,
    current_structure: PicStructure,
    current_bottom: bool,
) -> Seq<u32> {
    if current_structure.is_single_field() {
        p_field_list(dpb, current_frame_num, max_frame_num, current_bottom)
    } else {
        keys_of(
            p_frame_order(
                dpb,
                current_picture(current_frame_num, max_frame_num, false, current_bottom),
            ),
        )
    }
}

/// The initial lists for a B slice, in which list 1 is not yet told apart from
/// list 0. The order of frames does not depend on `frame_num` here, so any will
/// do.
pub open spec fn untold_lists_b(
    dpb: Seq<DpbEntry>,
    current_poc: i32,
    current_structure: PicStructure,
    current_bottom: bool,
) -> (Seq<u32>, Seq<u32>) {
    if current_structure.is_single_field() {
        (
            b_field_list0(dpb, current_poc, 0, u32::MAX, current_bottom),
            b_field_list1(dpb, current_poc, 0, u32::MAX, current_bottom),
        )
    } else {
        (keys_of(b_frame_order0(dpb, current_poc)), keys_of(b_frame_order1(dpb, current_poc)))
    }
}

/// The initial lists for a B slice.
pub open spec fn initial_lists_b(
    dpb: Seq<DpbEntry>,
    current_poc: i32,
    current_structure: PicStructure,
    current_bottom: bool,
) -> (Seq<u32>, Seq<u32>) {
    let lists = untold_lists_b(dpb, current_poc, current_structure, current_bottom);
    (lists.0, told_apart(lists.0, lists.1))
}

/// Lists the keys of the chosen entries of the DPB in the given order, behind
/// what `out` holds.
fn append_chosen(out: &mut Vec<u32>, dpb: &[DpbEntry], choice: Choice, order: EntryOrder)
    ensures
        final(out)@ == old(out)@ + keys_of(chosen(dpb@, choice, order)),
{
    let ghost start = out@;
    let ghost rank = order.rank();
    let ghost ranked = |e: DpbEntry| (rank(e) as i64, e.dpb_key);
    let mut pairs: Vec<(i64, u32)> = Vec::new();
    let mut i: usize = 0;
    proof {
        reveal(Seq::filter);
        assert(pairs@ =~= dpb@.take(0).filter(choice.holds()).map_values(ranked));
    }
    while i < dpb.len()
        invariant
            i <= dpb@.len(),
            rank == order.rank(),
            ranked == (|e: DpbEntry| (rank(e) as i64, e.dpb_key)),
            pairs@ == dpb@.take(i as int).filter(choice.holds()).map_values(ranked),
        decreases dpb@.len() - i,
    {
        let e: &DpbEntry = &dpb[i];
        proof {
            let front = dpb@.take(i as int);
            assert(dpb@.take(i + 1) == front.push(*e));
            front.lemma_filter_push(*e, choice.holds());
            front.filter(choice.holds()).lemma_push_map_commute(ranked, *e);
        }
        if choice.holds_of(e) {
            pairs.push((order.rank_of(e), e.dpb_key));
        }
        i = i + 1;
    }
    let sorted: Vec<(i64, u32)> = sort_by_rank(&pairs);
    let ghost entries = chosen(dpb@, choice, order);
    proof {
        assert(dpb@.take(i as int) == dpb@);
        assert forall|e: DpbEntry| carried_rank::<u32>()(#[trigger] ranked(e)) == rank(e) by {}
        lemma_stable_sort_map(dpb@.filter(choice.holds()), ranked, rank, carried_rank::<u32>());
        assert(sorted@ == entries.map_values(ranked));
    }
    i = 0;
    assert(start + keys_of(entries).take(0) == start);
    while i < sorted.len()
        invariant
            i <= sorted@.len(),
            ranked == (|e: DpbEntry| (rank(e) as i64, e.dpb_key)),
            sorted@ == entries.map_values(ranked),
            out@ == start + keys_of(entries).take(i as int),
        decreases sorted@.len() - i,
    {
        assert(keys_of(entries).take(i + 1) == keys_of(entries).take(i as int).push(
            keys_of(entries)[i as int],
        ));
        out.push(sorted[i].1);
        i = i + 1;
    }
    assert(keys_of(entries).take(i as int) == keys_of(entries));
}

/// Appends the entries of `tail`.
fn append_keys(out: &mut Vec<u32>, tail: &Vec<u32>)
    ensures
        final(out)@ == old(out)@ + tail@,
{
    let ghost start = out@;
    let mut i: usize = 0;
    assert(start + tail@.take(0) == start);
    while i < tail.len()
        invariant
            i <= tail@.len(),
            out@ == start + tail@.take(i as int),
        decreases tail@.len() - i,
    {
        assert(tail@.take(i + 1) == tail@.take(i as int).push(tail@[i as int]));
        out.push(tail[i]);
        i = i + 1;
    }
    assert(tail@.take(i as int) == tail@);
}

/// Joins two lists of frames.
fn join_frames(a: &Vec<RefFrame>, b: &Vec<RefFrame>) -> (r: Vec<RefFrame>)
    ensures
        r@ == a@ + b@,
{
    let mut out: Vec<RefFrame> = Vec::new();
    let mut i: usize = 0;
    while i < a.len()
        invariant
            i <= a@.len(),
            out@ == a@.take(i as int),
        decreases a@.len() - i,
    {
        out.push(a[i]);
        i = i + 1;
    }
    assert(a@.take(i as int) == a@);
    i = 0;
    assert(a@ + b@.take(0) == a@);
    while i < b.len()
        invariant
            i <= b@.len(),
            out@ == a@ + b@.take(i as int),
        decreases b@.len() - i,
    {
        assert(b@.take(i + 1) == b@.take(i as int).push(b@[i as int]));
        out.push(b[i]);
        i = i + 1;
    }
    assert(b@.take(i as int) == b@);
    out
}

/// Whether two lists have the same entries.
fn same_list(a: &Vec<u32>, b: &Vec<u32>) -> (r: bool)
    ensures
        r == (a@ == b@),
{
    if a.len() != b.len() {
        return false;
    }
    let mut i: usize = 0;
    while i < a.len()
        invariant
            i <= a@.len() == b@.len(),
            forall|j: int| 0 <= j < i ==> a@[j] == b@[j],
        decreases a@.len() - i,
    {
        if a[i] != b[i] {
            return false;
        }
        i = i + 1;
    }
    assert(a@ =~= b@);
    true
}

/// Tells list 1 apart from list 0.
fn tell_apart(list0: &Vec<u32>, list1: &mut Vec<u32>)
    ensures
        final(list1)@ == told_apart(list0@, old(list1)@),
{
    if list1.len() > 1 && same_list(list1, list0) {
        let first: u32 = list1[0];
        let second: u32 = list1[1];
        list1.set(0, second);
        list1.set(1, first);
    }
}

/// The list for a P slice of a field.
fn init_ref_pic_list_p_field(
    dpb: &[DpbEntry],
    current_frame_num: u32,
    max_frame_num: u32,
    current_bottom: bool,
) -> (r: Vec<u32>)
    ensures
        r@ == p_field_list(dpb@, current_frame_num, max_frame_num, current_bottom),
{
    let short: Vec<RefFrame> = group_field_frames(dpb, false, current_frame_num, max_frame_num);
    let short: Vec<RefFrame> = sort_frames(&short, FrameOrder::FrameNumWrapDescending);
    let mut out: Vec<u32> = interleave_fields(&short, current_bottom);
    let long: Vec<RefFrame> = group_field_frames(dpb, true, current_frame_num, max_frame_num);
    let long: Vec<RefFrame> = sort_frames(&long, FrameOrder::LongTermIdxAscending);
    let long_fields: Vec<u32> = interleave_fields(&long, current_bottom);
    append_keys(&mut out, &long_fields);
    out
}

/// The lists for a B slice of a field.
fn init_ref_pic_lists_b_field(
    dpb: &[DpbEntry],
    current_poc: i32,
    current_frame_num: u32,
    max_frame_num: u32,
    current_bottom: bool,
) -> (r: (Vec<u32>, Vec<u32>))
    ensures
        r.0@ == b_field_list0(dpb@, current_poc, current_frame_num, max_frame_num, current_bottom),
        r.1@ == told_apart(
            r.0@,
            b_field_list1(dpb@, current_poc, current_frame_num, max_frame_num, current_bottom),
        ),
{
    let short: Vec<RefFrame> = group_field_frames(dpb, false, current_frame_num, max_frame_num);
    let (le, gt) = split_by_poc(&short, current_poc);
    let le: Vec<RefFrame> = sort_frames(&le, FrameOrder::PocDescending);
    let gt: Vec<RefFrame> = sort_frames(&gt, FrameOrder::PocAscending);
    let frames0: Vec<RefFrame> = join_frames(&le, &gt);
    let frames1: Vec<RefFrame> = join_frames(&gt, &le);
    let mut list0: Vec<u32> = interleave_fields(&frames0, current_bottom);
    let mut list1: Vec<u32> = interleave_fields(&frames1, current_bottom);
    let long: Vec<RefFrame> = group_field_frames(dpb, true, current_frame_num, max_frame_num);
    let long: Vec<RefFrame> = sort_frames(&long, FrameOrder::LongTermIdxAscending);
    let long_fields: Vec<u32> = interleave_fields(&long, current_bottom);
    append_keys(&mut list0, &long_fields);
    append_keys(&mut list1, &long_fields);
    tell_apart(&list0, &mut list1);
    (list0, list1)
}

/// Initialises the reference picture list for a P or SP slice.
///
/// In a frame the list holds the short-term references by descending `PicNum`,
/// then the long-term references by ascending `LongTermPicNum`. In a field it
/// holds the fields of the short-term reference frames, which descend by
/// `FrameNumWrap`, in turns between the parities and starting with that of the
/// current field, then those of the long-term reference frames in the same way.
///
/// Returns `dpb_key` values.
pub fn init_ref_pic_list_p(
    dpb: &[DpbEntry],
    current_frame_num: u32,
    max_frame_num: u32,
    current_structure: PicStructure,
    current_bottom: bool,
) -> (r: Vec<u32>)
    ensures
        r@ == initial_list_p(
            dpb@,
            current_frame_num,
            max_frame_num,
            current_structure,
            current_bottom,
        ),
{
    if current_structure.is_field() {
        return init_ref_pic_list_p_field(dpb, current_frame_num, max_frame_num, current_bottom);
    }
    let current: CurrentPicture = CurrentPicture {
        frame_num: current_frame_num,
        max_frame_num: max_frame_num,
        is_field: false,
        bottom: current_bottom,
    };
    let mut out: Vec<u32> = Vec::new();
    append_chosen(&mut out, dpb, Choice::ShortTerm, EntryOrder::PicNumDescending(current));
    append_chosen(&mut out, dpb, Choice::LongTerm, EntryOrder::LongTermPicNumAscending);
    assert(out@ =~= keys_of(p_frame_order(dpb@, current)));
    out
}

/// Initialises the two reference picture lists for a B slice.
///
/// In a frame list 0 holds the short-term references with a `PicOrderCnt` below
/// the current one, descending, then the other short-term references,
/// ascending. List 1 holds the short-term references with a `PicOrderCnt` above
/// the current one, ascending, then the other short-term references,
/// descending. Both end with the long-term references by ascending
/// `LongTermPicNum`.
///
/// In a field the same is done with whole reference frames, where one at the
/// current `PicOrderCnt` counts as in front of it in both lists, and the fields
/// of the frames are then listed in turns between the parities, starting with
/// that of the current field.
///
/// If the two lists come out the same and have more than one entry, the first
/// two entries of list 1 change places.
///
/// Returns `dpb_key` values.
pub fn init_ref_pic_lists_b(
    dpb: &[DpbEntry],
    current_poc: i32,
    current_structure: PicStructure,
    current_bottom: bool,
) -> (r: (Vec<u32>, Vec<u32>))
    ensures
        (r.0@, r.1@) == initial_lists_b(dpb@, current_poc, current_structure, current_bottom),
{
    if current_structure.is_field() {
        return init_ref_pic_lists_b_field(dpb, current_poc, 0, u32::MAX, current_bottom);
    }
    let mut list0: Vec<u32> = Vec::new();
    append_chosen(&mut list0, dpb, Choice::Before(current_poc), EntryOrder::PocDescending);
    append_chosen(&mut list0, dpb, Choice::NotBefore(current_poc), EntryOrder::PocAscending);
    append_chosen(&mut list0, dpb, Choice::LongTerm, EntryOrder::LongTermPicNumAscending);
    assert(list0@ =~= keys_of(b_frame_order0(dpb@, current_poc)));
    let mut list1: Vec<u32> = Vec::new();
    append_chosen(&mut list1, dpb, Choice::After(current_poc), EntryOrder::PocAscending);
    append_chosen(&mut list1, dpb, Choice::NotAfter(current_poc), EntryOrder::PocDescending);
    append_chosen(&mut list1, dpb, Choice::LongTerm, EntryOrder::LongTermPicNumAscending);
    assert(list1@ =~= keys_of(b_frame_order1(dpb@, current_poc)));
    tell_apart(&list0, &mut list1);
    (list0, list1)
}

} // verus!
