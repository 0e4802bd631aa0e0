//! Reference frames regrouped from field entries, and the field lists that are
//! made of them.
//!
//! The list for a field is not a sort of the field entries. The reference
//! frames, each with a top and a bottom field, are put in order first. Their
//! fields are then taken in turns: one of the parity of the current field, one
//! of the opposite parity, and so on.

use vstd::prelude::*;

use crate::arith::{low_i32, wrap_i32};
use crate::picture::{frame_num_wrap, wrapped_frame_num, DpbEntry, PicStructure};
use crate::sort::{carried_rank, lemma_stable_sort_map, sort_by_rank, stable_sort};

verus! {

/// A reference frame regrouped from its field entries in the DPB. A key is
/// there when the field is in the DPB with the marking that the frames are
/// collected for.
#[derive(Debug, Clone, Copy)]
pub struct RefFrame {
    pub top_key: Option<u32>,
    pub bottom_key: Option<u32>,
    /// The lowest `PicOrderCnt` among the fields that are there.
    pub frame_poc: i32,
    /// `FrameNumWrap`, kept in 32 bits.
    pub frame_num_wrap: i32,
    pub long_term_frame_idx: u32,
}

/// Whether `e` is a reference of the wanted kind.
pub open spec fn is_wanted(e: DpbEntry, want_long_term: bool) -> bool {
    if want_long_term {
        e.marking is LongTerm
    } else {
        e.marking is ShortTerm
    }
}

/// What the fields of one frame have in common: `frame_num` among short-term
/// references, `LongTermFrameIdx` among long-term ones.
pub open spec fn frame_id(e: DpbEntry, want_long_term: bool) -> u32 {
    if want_long_term {
        e.long_term_frame_idx
    } else {
        e.frame_num
    }
}

/// Whether `e` is a field of the frame `id`.
pub open spec fn belongs_to(e: DpbEntry, want_long_term: bool, id: u32) -> bool {
    is_wanted(e, want_long_term) && frame_id(e, want_long_term) == id
}

/// Whether one of `heads` belongs to the frame `id`.
pub open spec fn has_head(heads: Seq<DpbEntry>, want_long_term: bool, id: u32) -> bool {
    exists|i: int| 0 <= i < heads.len() && frame_id(#[trigger] heads[i], want_long_term) == id
}

/// The first entry of each reference frame, in the order of the DPB.
pub open spec fn frame_heads(dpb: Seq<DpbEntry>, want_long_term: bool) -> Seq<DpbEntry>
    decreases dpb.len(),
{
    if dpb.len() == 0 {
        dpb
    } else {
        let heads = frame_heads(dpb.drop_last(), want_long_term);
        let e = dpb.last();
        if is_wanted(e, want_long_term) && !has_head(
            heads,
            want_long_term,
            frame_id(e, want_long_term),
        ) {
            heads.push(e)
        } else {
            heads
        }
    }
}

/// The key of the last entry of the frame `id` that is a bottom field, or that
/// is not one: a top field, a frame and a field pair all carry a usable top
/// field.
pub open spec fn field_key(
    dpb: Seq<DpbEntry>,
    want_long_term: bool,
    id: u32,
    bottom: bool,
) -> Option<u32>
    decreases dpb.len(),
{
    if dpb.len() == 0 {
        None
    } else if belongs_to(dpb.last(), want_long_term, id) && (dpb.last().structure is BottomField)
        == bottom {
        Some(dpb.last().dpb_key)
    } else {
        field_key(dpb.drop_last(), want_long_term, id, bottom)
    }
}

/// The lowest `PicOrderCnt` among the entries of the frame `id`.
pub open spec fn lowest_poc(dpb: Seq<DpbEntry>, want_long_term: bool, id: u32) -> i32
    decreases dpb.len(),
{
    if dpb.len() == 0 {
        i32::MAX
    } else {
        let low = lowest_poc(dpb.drop_last(), want_long_term, id);
        if belongs_to(dpb.last(), want_long_term, id) && dpb.last().pic_order_cnt < low {
            dpb.last().pic_order_cnt
        } else {
            low
        }
    }
}

/// The reference frame that `head` is the first entry of.
pub open spec fn frame_of(
    dpb: Seq<DpbEntry>,
    want_long_term: bool,
    head: DpbEntry,
    current_frame_num: u32,
    max_frame_num: u32,
) -> RefFrame {
    let id = frame_id(head, want_long_term);
    RefFrame {
        top_key: field_key(dpb, want_long_term, id, false),
        bottom_key: field_key(dpb, want_long_term, id, true),
        frame_poc: lowest_poc(dpb, want_long_term, id),
        frame_num_wrap: wrap_i32(frame_num_wrap(head.frame_num, current_frame_num, max_frame_num)),
        long_term_frame_idx: head.long_term_frame_idx,
    }
}

/// The reference frames of the wanted kind, in the order in which the DPB first
/// mentions them.
pub open spec fn reference_frames(
    dpb: Seq<DpbEntry>,
    want_long_term: bool,
    current_frame_num: u32,
    max_frame_num: u32,
) -> Seq<RefFrame> {
    let heads = frame_heads(dpb, want_long_term);
    Seq::new(
        heads.len(),
        |i: int| frame_of(dpb, want_long_term, heads[i], current_frame_num, max_frame_num),
    )
}

/// Picking the key of the field of the given parity.
pub open spec fn parity_key(bottom: bool) -> spec_fn(RefFrame) -> Option<u32> {
    |f: RefFrame|
        if bottom {
            f.bottom_key
        } else {
            f.top_key
        }
}

/// The keys of the fields of the given parity, frame by frame.
pub open spec fn parity_keys(frames: Seq<RefFrame>, bottom: bool) -> Seq<u32> {
    frames.filter_map(parity_key(bottom))
}

/// `a` and `b` taken in turns, starting with `a`. When one is used up, the rest
/// of the other follows.
pub open spec fn alternate(a: Seq<u32>, b: Seq<u32>) -> Seq<u32> {
    let paired = if a.len() < b.len() {
        a.len()
    } else {
        b.len()
    };
    Seq::new(
        a.len() + b.len(),
        |i: int|
            if i < 2 * paired {
                if i % 2 == 0 {
                    a[i / 2]
                } else {
                    b[i / 2]
                }
            } else if a.len() > b.len() {
                a[i - b.len()]
            } else {
                b[i - a.len()]
            },
    )
}

/// The fields of `frames`, taken in turns between the parities, starting with
/// the parity of the current field.
pub open spec fn interleaved(frames: Seq<RefFrame>, current_bottom: bool) -> Seq<u32> {
    alternate(parity_keys(frames, current_bottom), parity_keys(frames, !current_bottom))
}

/// Each frame has one head.
pub proof fn lemma_heads_distinct(dpb: Seq<DpbEntry>, want_long_term: bool)
    ensures
        ({
            let heads = frame_heads(dpb, want_long_term);
            forall|i: int, j: int|
                0 <= i < j < heads.len() ==> frame_id(#[trigger] heads[i], want_long_term)
                    != frame_id(#[trigger] heads[j], want_long_term)
        }),
    decreases dpb.len(),
{
    if dpb.len() > 0 {
        let rest = frame_heads(dpb.drop_last(), want_long_term);
        let heads = frame_heads(dpb, want_long_term);
        lemma_heads_distinct(dpb.drop_last(), want_long_term);
        assert forall|i: int, j: int| 0 <= i < j < heads.len() implies frame_id(
            #[trigger] heads[i],
            want_long_term,
        ) != frame_id(#[trigger] heads[j], want_long_term) by {
            assert(heads[i] == rest[i]);
            if j < rest.len() {
                assert(heads[j] == rest[j]);
            }
        }
    }
}

/// A frame without a head has no entry, so no key and no count either.
pub proof fn lemma_headless(dpb: Seq<DpbEntry>, want_long_term: bool, id: u32)
    requires
        !has_head(frame_heads(dpb, want_long_term), want_long_term, id),
    ensures
        field_key(dpb, want_long_term, id, false) is None,
        field_key(dpb, want_long_term, id, true) is None,
        lowest_poc(dpb, want_long_term, id) == i32::MAX,
    decreases dpb.len(),
{
    if dpb.len() > 0 {
        let rest = dpb.drop_last();
        let heads = frame_heads(rest, want_long_term);
        let all = frame_heads(dpb, want_long_term);
        assert(!has_head(heads, want_long_term, id)) by {
            if has_head(heads, want_long_term, id) {
                let i = choose|i: int|
                    0 <= i < heads.len() && frame_id(#[trigger] heads[i], want_long_term) == id;
                assert(all[i] == heads[i]);
            }
        }
        lemma_headless(rest, want_long_term, id);
        if belongs_to(dpb.last(), want_long_term, id) {
            assert(all[heads.len() as int] == dpb.last());
        }
    }
}

/// Collects the reference frames of the wanted kind, pairing the fields that
/// belong to one frame.
pub(crate) fn group_field_frames(
    dpb: &[DpbEntry],
    want_long_term: bool,
    current_frame_num: u32,
    max_frame_num: u32,
) -> (r: Vec<RefFrame>)
    ensures
        r@ == reference_frames(dpb@, want_long_term, current_frame_num, max_frame_num),
{
    let mut ids: Vec<u32> = Vec::new();
    let mut frames: Vec<RefFrame> = Vec::new();
    let mut i: usize = 0;
    while i < dpb.len()
        invariant
            i <= dpb@.len(),
            ids@.len() == frames@.len(),
            frames@ == reference_frames(
                dpb@.take(i as int),
                want_long_term,
                current_frame_num,
                max_frame_num,
            ),
            forall|j: int|
                0 <= j < ids@.len() ==> #[trigger] ids@[j] == frame_id(
                    frame_heads(dpb@.take(i as int), want_long_term)[j],
                    want_long_term,
                ),
        decreases dpb@.len() - i,
    {
        let e: &DpbEntry = &dpb[i];
        let ghost front = dpb@.take(i as int);
        let ghost next = dpb@.take(i + 1);
        let ghost heads = frame_heads(front, want_long_term);
        proof {
            assert(next.drop_last() == front);
            assert(next.last() == *e);
            lemma_heads_distinct(front, want_long_term);
        }
        let wanted: bool = if want_long_term {
            e.is_long_term()
        } else {
            e.is_short_term()
        };
        if wanted {
            let id: u32 = if want_long_term {
                e.long_term_frame_idx
            } else {
                e.frame_num
            };
            let mut slot: usize = 0;
            while slot < ids.len() && ids[slot] != id
                invariant
                    slot <= ids@.len(),
                    forall|j: int| 0 <= j < slot ==> ids@[j] != id,
                decreases ids@.len() - slot,
            {
                slot = slot + 1;
            }
            if slot == ids.len() {
                proof {
                    assert(!has_head(heads, want_long_term, id)) by {
                        if has_head(heads, want_long_term, id) {
                            let j = choose|j: int|
                                0 <= j < heads.len() && frame_id(
                                    #[trigger] heads[j],
                                    want_long_term,
                                ) == id;
                            assert(ids@[j] == id);
                        }
                    }
                    lemma_headless(front, want_long_term, id);
                }
                ids.push(id);
                frames.push(
                    RefFrame {
                        top_key: None,
                        bottom_key: None,
                        frame_poc: i32::MAX,
                        frame_num_wrap: low_i32(
                            wrapped_frame_num(e.frame_num, current_frame_num, max_frame_num),
                        ),
                        long_term_frame_idx: e.long_term_frame_idx,
                    },
                );
            } else {
                proof {
                    assert(ids@[slot as int] == id);
                    assert(frame_id(heads[slot as int], want_long_term) == id);
                    assert(has_head(heads, want_long_term, id));
                }
            }
            let mut frame: RefFrame = frames[slot];
            match e.structure {
                PicStructure::BottomField => {
                    frame.bottom_key = Some(e.dpb_key);
                },
                _ => {
                    frame.top_key = Some(e.dpb_key);
                },
            }
            if e.pic_order_cnt < frame.frame_poc {
                frame.frame_poc = e.pic_order_cnt;
            }
            frames.set(slot, frame);
        }
        proof {
            let grown = reference_frames(next, want_long_term, current_frame_num, max_frame_num);
            assert(frames@.len() == grown.len());
            assert forall|j: int| 0 <= j < grown.len() implies #[trigger] grown[j]
                == frames@[j] by {
                assert(frame_heads(next, want_long_term)[j] == (if j < heads.len() {
                    heads[j]
                } else {
                    *e
                }));
                if j < heads.len() {
                    assert(ids@[j] == frame_id(heads[j], want_long_term));
                }
            }
            assert(frames@ =~= grown);
        }
        i = i + 1;
    }
    assert(dpb@.take(dpb@.len() as int) == dpb@);
    frames
}

/// Where it is the turn of the first sequence, its next element goes last.
pub proof fn lemma_alternate_push_first(a: Seq<u32>, b: Seq<u32>, k: u32)
    requires
        a.len() >= b.len(),
    ensures
        alternate(a.push(k), b) == alternate(a, b).push(k),
{
    let long = alternate(a.push(k), b);
    let short = alternate(a, b).push(k);
    assert forall|i: int| 0 <= i < long.len() implies long[i] == short[i] by {}
    assert(long =~= short);
}

/// Where it is the turn of the second sequence, its next element goes last.
pub proof fn lemma_alternate_push_second(a: Seq<u32>, b: Seq<u32>, k: u32)
    requires
        a.len() <= b.len() + 1,
    ensures
        alternate(a, b.push(k)) == alternate(a, b).push(k),
{
    let long = alternate(a, b.push(k));
    let short = alternate(a, b).push(k);
    assert forall|i: int| 0 <= i < long.len() implies long[i] == short[i] by {}
    assert(long =~= short);
}

/// The key of the field of the given parity, if the frame has one.
fn field_of(frame: &RefFrame, bottom: bool) -> (r: Option<u32>)
    ensures
        r == parity_key(bottom)(*frame),
{
    if bottom {
        frame.bottom_key
    } else {
        frame.top_key
    }
}

/// Moves on to the next field of the given parity. Returns its key, and the
/// position behind its frame.
fn next_field(frames: &Vec<RefFrame>, from: usize, bottom: bool) -> (r: (Option<u32>, usize))
    requires
        from <= frames@.len(),
    ensures
        from <= r.1 <= frames@.len(),
        r.0 is Some ==> r.1 > from,
        r.0 is None ==> r.1 == frames@.len(),
        parity_keys(frames@.take(r.1 as int), bottom) == (match r.0 {
            Some(k) => parity_keys(frames@.take(from as int), bottom).push(k),
            None => parity_keys(frames@.take(from as int), bottom),
        }),
{
    let mut at: usize = from;
    while at < frames.len()
        invariant
            from <= at <= frames@.len(),
            parity_keys(frames@.take(at as int), bottom) == parity_keys(
                frames@.take(from as int),
                bottom,
            ),
        decreases frames@.len() - at,
    {
        let key: Option<u32> = field_of(&frames[at], bottom);
        proof {
            let next = frames@.take(at + 1);
            assert(next.drop_last() == frames@.take(at as int));
            assert(next.last() == frames@[at as int]);
            let before = parity_keys(frames@.take(at as int), bottom);
            if let Some(k) = key {
                assert(before + seq![k] == before.push(k));
            }
        }
        at = at + 1;
        if key.is_some() {
            return (key, at);
        }
    }
    (None, at)
}

/// Takes the fields of an ordered list of frames in turns: one of the parity of
/// the current field, then one of the opposite parity. Each parity goes through
/// the frames on its own and skips those that have no field of it.
pub(crate) fn interleave_fields(frames: &Vec<RefFrame>, current_bottom: bool) -> (r: Vec<u32>)
    ensures
        r@ == interleaved(frames@, current_bottom),
{
    let mut out: Vec<u32> = Vec::new();
    let mut same_idx: usize = 0;
    let mut opp_idx: usize = 0;
    let len: usize = frames.len();
    assert(frames@.take(0) == Seq::<RefFrame>::empty());
    while same_idx < len || opp_idx < len
        invariant
            len == frames@.len(),
            same_idx <= len,
            opp_idx <= len,
            out@ == alternate(
                parity_keys(frames@.take(same_idx as int), current_bottom),
                parity_keys(frames@.take(opp_idx as int), !current_bottom),
            ),
            parity_keys(frames@.take(same_idx as int), current_bottom).len() > parity_keys(
                frames@.take(opp_idx as int),
                !current_bottom,
            ).len() ==> opp_idx == len,
            parity_keys(frames@.take(same_idx as int), current_bottom).len() < parity_keys(
                frames@.take(opp_idx as int),
                !current_bottom,
            ).len() ==> same_idx == len,
        decreases (len - same_idx) + (len - opp_idx),
    {
        let ghost same = parity_keys(frames@.take(same_idx as int), current_bottom);
        let ghost opp = parity_keys(frames@.take(opp_idx as int), !current_bottom);
        let (first, same_next) = next_field(frames, same_idx, current_bottom);
        let ghost same_after = parity_keys(frames@.take(same_next as int), current_bottom);
        if let Some(k) = first {
            proof {
                lemma_alternate_push_first(same, opp, k);
            }
            out.push(k);
        }
        assert(out@ == alternate(same_after, opp));
        let (second, opp_next) = next_field(frames, opp_idx, !current_bottom);
        if let Some(k) = second {
            proof {
                lemma_alternate_push_second(same_after, opp, k);
            }
            out.push(k);
        }
        same_idx = same_next;
        opp_idx = opp_next;
    }
    assert(frames@.take(len as int) == frames@);
    out
}

/// The orders in which reference frames are listed.
#[derive(Debug, Clone, Copy)]
pub enum FrameOrder {
    FrameNumWrapDescending,
    PocDescending,
    PocAscending,
    LongTermIdxAscending,
}

impl FrameOrder {
    /// The rank that puts frames in this order when it ascends.
    pub open spec fn rank(self) -> spec_fn(RefFrame) -> int {
        |f: RefFrame|
            match self {
                FrameOrder::FrameNumWrapDescending => -(f.frame_num_wrap as int),
                FrameOrder::PocDescending => -(f.frame_poc as int),
                FrameOrder::PocAscending => f.frame_poc as int,
                FrameOrder::LongTermIdxAscending => f.long_term_frame_idx as int,
            }
    }

    fn rank_of(self, f: &RefFrame) -> (r: i64)
        ensures
            r == (self.rank())(*f),
    {
        match self {
            FrameOrder::FrameNumWrapDescending => -(f.frame_num_wrap as i64),
            FrameOrder::PocDescending => -(f.frame_poc as i64),
            FrameOrder::PocAscending => f.frame_poc as i64,
            FrameOrder::LongTermIdxAscending => f.long_term_frame_idx as i64,
        }
    }
}

/// Puts reference frames in the given order.
pub(crate) fn sort_frames(frames: &Vec<RefFrame>, order: FrameOrder) -> (r: Vec<RefFrame>)
    ensures
        r@ == stable_sort(frames@, order.rank()),
{
    let ghost rank = order.rank();
    let ghost ranked = |f: RefFrame| (rank(f) as i64, f);
    let mut pairs: Vec<(i64, RefFrame)> = Vec::new();
    let mut i: usize = 0;
    while i < frames.len()
        invariant
            i <= frames@.len(),
            rank == order.rank(),
            ranked == (|f: RefFrame| (rank(f) as i64, f)),
            pairs@ == frames@.take(i as int).map_values(ranked),
        decreases frames@.len() - i,
    {
        let f: RefFrame = frames[i];
        pairs.push((order.rank_of(&f), f));
        i = i + 1;
    }
    let sorted: Vec<(i64, RefFrame)> = sort_by_rank(&pairs);
    proof {
        assert(frames@.take(i as int) == frames@);
        assert forall|f: RefFrame| carried_rank::<RefFrame>()(#[trigger] ranked(f)) == rank(f) by {}
        lemma_stable_sort_map(frames@, ranked, rank, carried_rank::<RefFrame>());
    }
    let mut out: Vec<RefFrame> = Vec::new();
    i = 0;
    while i < sorted.len()
        invariant
            i <= sorted@.len(),
            ranked == (|f: RefFrame| (rank(f) as i64, f)),
            sorted@ == stable_sort(frames@, rank).map_values(ranked),
            out@ == stable_sort(frames@, rank).take(i as int),
        decreases sorted@.len() - i,
    {
        out.push(sorted[i].1);
        i = i + 1;
    }
    assert(stable_sort(frames@, rank).take(i as int) == stable_sort(frames@, rank));
    out
}

/// Being a frame at or in front of the given `PicOrderCnt`.
pub open spec fn poc_at_most(poc: i32) -> spec_fn(RefFrame) -> bool {
    |f: RefFrame| f.frame_poc <= poc
}

/// Being a frame behind the given `PicOrderCnt`.
pub open spec fn poc_above(poc: i32) -> spec_fn(RefFrame) -> bool {
    |f: RefFrame| f.frame_poc > poc
}

/// Parts frames by their `PicOrderCnt`.
pub(crate) fn split_by_poc(frames: &Vec<RefFrame>, poc: i32) -> (r: (Vec<RefFrame>, Vec<RefFrame>))
    ensures
        r.0@ == frames@.filter(poc_at_most(poc)),
        r.1@ == frames@.filter(poc_above(poc)),
{
    let mut le: Vec<RefFrame> = Vec::new();
    let mut gt: Vec<RefFrame> = Vec::new();
    let mut i: usize = 0;
    proof {
        reveal(Seq::filter);
    }
    while i < frames.len()
        invariant
            i <= frames@.len(),
            le@ == frames@.take(i as int).filter(poc_at_most(poc)),
            gt@ == frames@.take(i as int).filter(poc_above(poc)),
        decreases frames@.len() - i,
    {
        let f: RefFrame = frames[i];
        proof {
            let front = frames@.take(i as int);
            assert(frames@.take(i + 1) == front.push(f));
            front.lemma_filter_push(f, poc_at_most(poc));
            front.lemma_filter_push(f, poc_above(poc));
        }
        if f.frame_poc <= poc {
            le.push(f);
        } else {
            gt.push(f);
        }
        i = i + 1;
    }
    assert(frames@.take(i as int) == frames@);
    (le, gt)
}

} // verus!
