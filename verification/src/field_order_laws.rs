//! Which entries of the DPB stand at which positions of the initial lists of a
//! field.
//!
//! Each law hands out the index in the DPB that every position of a list stands
//! for, and says of those indices what puts one in front of another.

use vstd::prelude::*;

use crate::field_laws::{law_frame_heads, law_lowest_poc};
use crate::fields::{
    belongs_to, field_key, frame_heads, frame_id, frame_of, has_head, interleaved, is_wanted,
    lowest_poc, parity_key, parity_keys, poc_above, poc_at_most, reference_frames, FrameOrder,
    RefFrame,
};
use crate::init::{
    b_field_list0, b_field_list1, frames_ahead, frames_back, initial_list_p, initial_lists_b,
    long_term_field_frames,
};
use crate::order_laws::{hits, lemma_hits, lemma_pic_num_is_age, lemma_positions};
use crate::picture::{current_picture, DpbEntry, PicStructure};
use crate::sort::stable_sort;

verus! {

/// The index of the entry whose key a frame carries for one of its fields.
spec fn slot(dpb: Seq<DpbEntry>, long: bool, id: u32, bottom: bool) -> Option<int>
    decreases dpb.len(),
{
    if dpb.len() == 0 {
        None
    } else if belongs_to(dpb.last(), long, id) && (dpb.last().structure is BottomField) == bottom {
        Some(dpb.len() - 1)
    } else {
        slot(dpb.drop_last(), long, id, bottom)
    }
}

proof fn lemma_slot(dpb: Seq<DpbEntry>, long: bool, id: u32, bottom: bool)
    ensures
        match slot(dpb, long, id, bottom) {
            Some(i) => {
                &&& 0 <= i < dpb.len()
                &&& belongs_to(dpb[i], long, id)
                &&& (dpb[i].structure is BottomField) == bottom
                &&& field_key(dpb, long, id, bottom) == Some(dpb[i].dpb_key)
                &&& forall|j: int|
                    i < j < dpb.len() ==> !(belongs_to(#[trigger] dpb[j], long, id) && (
                    dpb[j].structure is BottomField) == bottom)
            },
            None => {
                &&& field_key(dpb, long, id, bottom) is None
                &&& forall|j: int|
                    0 <= j < dpb.len() ==> !(belongs_to(#[trigger] dpb[j], long, id) && (
                    dpb[j].structure is BottomField) == bottom)
            },
        },
    decreases dpb.len(),
{
    if dpb.len() > 0 {
        let front = dpb.drop_last();
        let last = dpb.len() - 1;
        if !(belongs_to(dpb[last], long, id) && (dpb[last].structure is BottomField) == bottom) {
            lemma_slot(front, long, id, bottom);
            assert(forall|j: int| 0 <= j < last ==> #[trigger] dpb[j] == front[j]);
        }
    }
}

/// The index of the first entry of each frame.
spec fn head_at(dpb: Seq<DpbEntry>, long: bool) -> Seq<int>
    decreases dpb.len(),
{
    if dpb.len() == 0 {
        Seq::empty()
    } else {
        let before = head_at(dpb.drop_last(), long);
        let e = dpb.last();
        if is_wanted(e, long) && !has_head(
            frame_heads(dpb.drop_last(), long),
            long,
            frame_id(e, long),
        ) {
            before.push(dpb.len() - 1)
        } else {
            before
        }
    }
}

proof fn lemma_head_at(dpb: Seq<DpbEntry>, long: bool)
    ensures
        ({
            let heads = frame_heads(dpb, long);
            let at = head_at(dpb, long);
            &&& at.len() == heads.len()
            &&& forall|j: int|
                0 <= j < at.len() ==> 0 <= #[trigger] at[j] < dpb.len() && heads[j] == dpb[at[j]]
                    && is_wanted(dpb[at[j]], long)
            &&& forall|j: int, h: int|
                0 <= j < h < at.len() ==> #[trigger] at[j] < #[trigger] at[h]
            &&& forall|j: int, i: int|
                0 <= j < at.len() && 0 <= i < dpb.len() && belongs_to(
                    #[trigger] dpb[i],
                    long,
                    frame_id(heads[j], long),
                ) ==> #[trigger] at[j] <= i
        }),
    decreases dpb.len(),
{
    if dpb.len() > 0 {
        let front = dpb.drop_last();
        let last = dpb.len() - 1;
        let old_heads = frame_heads(front, long);
        let heads = frame_heads(dpb, long);
        let old_at = head_at(front, long);
        let at = head_at(dpb, long);
        lemma_head_at(front, long);
        law_frame_heads(front, long);
        assert forall|j: int| 0 <= j < at.len() implies 0 <= #[trigger] at[j] < dpb.len()
            && heads[j] == dpb[at[j]] && is_wanted(dpb[at[j]], long) by {
            if j < old_at.len() {
                assert(at[j] == old_at[j]);
                assert(heads[j] == old_heads[j]);
            }
        }
        assert forall|j: int, h: int| 0 <= j < h < at.len() implies #[trigger] at[j]
            < #[trigger] at[h] by {
            assert(at[j] == old_at[j]);
            if h < old_at.len() {
                assert(at[h] == old_at[h]);
            }
        }
        assert forall|j: int, i: int|
            0 <= j < at.len() && 0 <= i < dpb.len() && belongs_to(
                #[trigger] dpb[i],
                long,
                frame_id(heads[j], long),
            ) implies #[trigger] at[j] <= i by {
            if j < old_at.len() {
                assert(at[j] == old_at[j]);
                assert(heads[j] == old_heads[j]);
                if i < last {
                    assert(front[i] == dpb[i]);
                }
            } else if i < last {
                assert(front[i] == dpb[i]);
                assert(has_head(old_heads, long, frame_id(front[i], long)));
            }
        }
    }
}

/// Having a field of the given parity.
spec fn carries(bottom: bool) -> spec_fn(RefFrame) -> bool {
    |f: RefFrame| parity_key(bottom)(f) is Some
}

proof fn lemma_parity_hits(frames: Seq<RefFrame>, bottom: bool)
    ensures
        parity_keys(frames, bottom).len() == hits(frames, carries(bottom)).len(),
        forall|q: int|
            0 <= q < hits(frames, carries(bottom)).len() ==> parity_key(bottom)(
                frames[#[trigger] hits(frames, carries(bottom))[q]],
            ) == Some(parity_keys(frames, bottom)[q]),
    decreases frames.len(),
{
    if frames.len() > 0 {
        let rest = frames.drop_last();
        let inner = hits(rest, carries(bottom));
        let all = hits(frames, carries(bottom));
        lemma_parity_hits(rest, bottom);
        lemma_hits(rest, carries(bottom));
        assert forall|q: int| 0 <= q < all.len() implies parity_key(bottom)(
            frames[#[trigger] all[q]],
        ) == Some(parity_keys(frames, bottom)[q]) by {
            if q < inner.len() {
                assert(all[q] == inner[q]);
                assert(rest[inner[q]] == frames[inner[q]]);
            }
        }
    }
}

/// Where position `k` of two sequences taken in turns comes from: whether from
/// the first, and from which position of it.
spec fn turn(first: nat, second: nat, k: int) -> (bool, int) {
    let paired = if first < second {
        first
    } else {
        second
    };
    if k < 2 * paired {
        (k % 2 == 0, k / 2)
    } else if first > second {
        (true, k - second)
    } else {
        (false, k - first)
    }
}

/// The position that a place in one of two sequences has when they are taken in
/// turns.
spec fn turn_of(first: nat, second: nat, own: bool, q: int) -> int {
    if own {
        if q < second {
            2 * q
        } else {
            second + q
        }
    } else {
        if q < first {
            2 * q + 1
        } else {
            first + q
        }
    }
}

proof fn lemma_turn_of(first: nat, second: nat, own: bool, q: int)
    requires
        0 <= q,
        own ==> q < first,
        !own ==> q < second,
    ensures
        0 <= turn_of(first, second, own, q) < first + second,
        turn(first, second, turn_of(first, second, own, q)) == (own, q),
{
}

proof fn lemma_turns(first: nat, second: nat)
    ensures
        forall|k: int|
            0 <= k < first + second ==> {
                let t = #[trigger] turn(first, second, k);
                &&& 0 <= t.1
                &&& t.0 ==> t.1 < first
                &&& !t.0 ==> t.1 < second
            },
        forall|k: int, l: int|
            0 <= k < l < first + second ==> {
                let s = #[trigger] turn(first, second, k);
                let t = #[trigger] turn(first, second, l);
                s.0 == t.0 ==> s.1 < t.1
            },
        forall|k: int, j: int, l: int|
            0 <= k && j == k + 1 && j <= l < first + second && (#[trigger] turn(
                first,
                second,
                k,
            )).0 == (#[trigger] turn(first, second, j)).0 ==> (#[trigger] turn(
                first,
                second,
                l,
            )).0 == turn(first, second, k).0,
        forall|l: int|
            0 <= l < first + second && !turn(first, second, 0).0 ==> !(
            #[trigger] turn(first, second, l)).0,
{
}

/// Whether `frames` are the frames of the DPB in some order, where `hp` says
/// which of them each is.
spec fn frames_at(
    dpb: Seq<DpbEntry>,
    long: bool,
    frames: Seq<RefFrame>,
    hp: Seq<int>,
    current_frame_num: u32,
    max_frame_num: u32,
) -> bool {
    &&& frames.len() == hp.len()
    &&& forall|x: int|
        0 <= x < hp.len() ==> 0 <= #[trigger] hp[x] < frame_heads(dpb, long).len() && frames[x]
            == frame_of(
            dpb,
            long,
            frame_heads(dpb, long)[hp[x]],
            current_frame_num,
            max_frame_num,
        )
    &&& forall|x: int, y: int| 0 <= x < y < hp.len() ==> #[trigger] hp[x] != #[trigger] hp[y]
    &&& forall|j: int| 0 <= j < frame_heads(dpb, long).len() ==> #[trigger] hp.contains(j)
}

spec fn turn_at(frames: Seq<RefFrame>, current_bottom: bool, k: int) -> (bool, int) {
    turn(
        hits(frames, carries(current_bottom)).len(),
        hits(frames, carries(!current_bottom)).len(),
        k,
    )
}

/// The frame that position `k` of the list of fields comes from.
spec fn frame_at(frames: Seq<RefFrame>, current_bottom: bool, k: int) -> int {
    let t = turn_at(frames, current_bottom, k);
    if t.0 {
        hits(frames, carries(current_bottom))[t.1]
    } else {
        hits(frames, carries(!current_bottom))[t.1]
    }
}

/// Whether position `k` of the list of fields holds a bottom field.
spec fn bottom_at(frames: Seq<RefFrame>, current_bottom: bool, k: int) -> bool {
    turn_at(frames, current_bottom, k).0 == current_bottom
}

/// The frame number or index at position `k` of the list of fields.
spec fn id_at(
    dpb: Seq<DpbEntry>,
    long: bool,
    frames: Seq<RefFrame>,
    hp: Seq<int>,
    current_bottom: bool,
    k: int,
) -> u32 {
    frame_id(frame_heads(dpb, long)[hp[frame_at(frames, current_bottom, k)]], long)
}

/// The entry that position `k` of the list of fields comes from.
spec fn entry_at(
    dpb: Seq<DpbEntry>,
    long: bool,
    frames: Seq<RefFrame>,
    hp: Seq<int>,
    current_bottom: bool,
    k: int,
) -> int {
    slot(
        dpb,
        long,
        id_at(dpb, long, frames, hp, current_bottom, k),
        bottom_at(frames, current_bottom, k),
    )->Some_0
}

/// Whether entry `i` is of the wanted kind and no later entry stands for the
/// same field.
spec fn last_of_field(dpb: Seq<DpbEntry>, long: bool, i: int) -> bool {
    &&& 0 <= i < dpb.len()
    &&& is_wanted(dpb[i], long)
    &&& forall|j: int|
        i < j < dpb.len() ==> !(is_wanted(#[trigger] dpb[j], long) && frame_id(dpb[j], long)
            == frame_id(dpb[i], long) && (dpb[j].structure is BottomField) == (
        dpb[i].structure is BottomField))
}

proof fn lemma_entry_at(
    dpb: Seq<DpbEntry>,
    long: bool,
    frames: Seq<RefFrame>,
    hp: Seq<int>,
    current_frame_num: u32,
    max_frame_num: u32,
    current_bottom: bool,
    k: int,
)
    requires
        frames_at(dpb, long, frames, hp, current_frame_num, max_frame_num),
        0 <= k < interleaved(frames, current_bottom).len(),
    ensures
        ({
            let i = entry_at(dpb, long, frames, hp, current_bottom, k);
            &&& last_of_field(dpb, long, i)
            &&& interleaved(frames, current_bottom)[k] == dpb[i].dpb_key
            &&& (dpb[i].structure is BottomField) == bottom_at(frames, current_bottom, k)
            &&& 0 <= frame_at(frames, current_bottom, k) < frames.len()
            &&& frame_id(dpb[i], long) == id_at(dpb, long, frames, hp, current_bottom, k)
        }),
{
    let own = hits(frames, carries(current_bottom));
    let opp = hits(frames, carries(!current_bottom));
    lemma_hits(frames, carries(current_bottom));
    lemma_hits(frames, carries(!current_bottom));
    lemma_parity_hits(frames, current_bottom);
    lemma_parity_hits(frames, !current_bottom);
    lemma_turns(own.len(), opp.len());
    let t = turn(own.len(), opp.len(), k);
    let id = id_at(dpb, long, frames, hp, current_bottom, k);
    let x = frame_at(frames, current_bottom, k);
    let side = bottom_at(frames, current_bottom, k);
    lemma_slot(dpb, long, id, side);
    if t.0 {
        assert(x == own[t.1]);
        assert(carries(current_bottom)(frames[own[t.1]]));
    } else {
        assert(x == opp[t.1]);
        assert(carries(!current_bottom)(frames[opp[t.1]]));
    }
    assert(0 <= hp[x] < frame_heads(dpb, long).len());
    assert(parity_key(side)(frames[x]) == field_key(dpb, long, id, side));
}

proof fn lemma_entry_pair(
    dpb: Seq<DpbEntry>,
    long: bool,
    frames: Seq<RefFrame>,
    hp: Seq<int>,
    current_frame_num: u32,
    max_frame_num: u32,
    current_bottom: bool,
    k: int,
    l: int,
)
    requires
        frames_at(dpb, long, frames, hp, current_frame_num, max_frame_num),
        0 <= k < l < interleaved(frames, current_bottom).len(),
    ensures
        bottom_at(frames, current_bottom, k) == bottom_at(frames, current_bottom, l) ==> frame_at(
            frames,
            current_bottom,
            k,
        ) < frame_at(frames, current_bottom, l),
        entry_at(dpb, long, frames, hp, current_bottom, k) != entry_at(
            dpb,
            long,
            frames,
            hp,
            current_bottom,
            l,
        ),
        bottom_at(frames, current_bottom, k) == bottom_at(frames, current_bottom, k + 1)
            ==> bottom_at(frames, current_bottom, l) == bottom_at(frames, current_bottom, k),
{
    let heads = frame_heads(dpb, long);
    let own = hits(frames, carries(current_bottom));
    let opp = hits(frames, carries(!current_bottom));
    lemma_hits(frames, carries(current_bottom));
    lemma_hits(frames, carries(!current_bottom));
    lemma_parity_hits(frames, current_bottom);
    lemma_parity_hits(frames, !current_bottom);
    lemma_turns(own.len(), opp.len());
    lemma_entry_at(dpb, long, frames, hp, current_frame_num, max_frame_num, current_bottom, k);
    lemma_entry_at(dpb, long, frames, hp, current_frame_num, max_frame_num, current_bottom, l);
    let s = turn(own.len(), opp.len(), k);
    let t = turn(own.len(), opp.len(), l);
    let next = turn(own.len(), opp.len(), k + 1);
    assert(s.0 == next.0 ==> t.0 == s.0);
    let x = frame_at(frames, current_bottom, k);
    let y = frame_at(frames, current_bottom, l);
    if s.0 == t.0 {
        assert(s.1 < t.1);
        assert(x < y);
        law_frame_heads(dpb, long);
        assert(hp[x] != hp[y]);
        if hp[x] < hp[y] {
            assert(frame_id(heads[hp[x]], long) != frame_id(heads[hp[y]], long));
        } else {
            assert(frame_id(heads[hp[y]], long) != frame_id(heads[hp[x]], long));
        }
    }
}

proof fn lemma_entry_listed(
    dpb: Seq<DpbEntry>,
    long: bool,
    frames: Seq<RefFrame>,
    hp: Seq<int>,
    current_frame_num: u32,
    max_frame_num: u32,
    current_bottom: bool,
    i: int,
) -> (k: int)
    requires
        frames_at(dpb, long, frames, hp, current_frame_num, max_frame_num),
        last_of_field(dpb, long, i),
    ensures
        0 <= k < interleaved(frames, current_bottom).len(),
        entry_at(dpb, long, frames, hp, current_bottom, k) == i,
{
    let heads = frame_heads(dpb, long);
    let own = hits(frames, carries(current_bottom));
    let opp = hits(frames, carries(!current_bottom));
    lemma_hits(frames, carries(current_bottom));
    lemma_hits(frames, carries(!current_bottom));
    lemma_parity_hits(frames, current_bottom);
    lemma_parity_hits(frames, !current_bottom);
    law_frame_heads(dpb, long);
    let f = frame_id(dpb[i], long);
    let b = dpb[i].structure is BottomField;
    assert(has_head(heads, long, f));
    let j = choose|j: int| 0 <= j < heads.len() && frame_id(#[trigger] heads[j], long) == f;
    assert(hp.contains(j));
    let x = choose|x: int| 0 <= x < hp.len() && hp[x] == j;
    lemma_slot(dpb, long, f, b);
    assert(belongs_to(dpb[i], long, f));
    let s = slot(dpb, long, f, b)->Some_0;
    assert(s == i) by {
        if s > i {
            assert(belongs_to(dpb[s], long, f));
        }
    }
    assert(frames[x] == frame_of(dpb, long, heads[hp[x]], current_frame_num, max_frame_num));
    assert(carries(b)(frames[x]));
    let mine = b == current_bottom;
    let found = if mine {
        own
    } else {
        opp
    };
    assert(found.contains(x));
    let q = choose|q: int| 0 <= q < found.len() && found[q] == x;
    lemma_turn_of(own.len(), opp.len(), mine, q);
    turn_of(own.len(), opp.len(), mine, q)
}

/// What an ordered list of frames makes of the fields of the DPB: `r.0` gives
/// the entry and `r.1` the frame that each position of the list of fields comes
/// from.
proof fn lemma_interleaved_at(
    dpb: Seq<DpbEntry>,
    long: bool,
    frames: Seq<RefFrame>,
    hp: Seq<int>,
    current_frame_num: u32,
    max_frame_num: u32,
    current_bottom: bool,
) -> (r: (Seq<int>, Seq<int>))
    requires
        frames_at(dpb, long, frames, hp, current_frame_num, max_frame_num),
    ensures
        r.0.len() == interleaved(frames, current_bottom).len(),
        r.1.len() == r.0.len(),
        fields_at(dpb, long, current_bottom, interleaved(frames, current_bottom), r.0),
        forall|k: int|
            0 <= k < r.0.len() ==> 0 <= #[trigger] r.1[k] < frames.len() && frame_id(
                dpb[r.0[k]],
                long,
            ) == frame_id(frame_heads(dpb, long)[hp[r.1[k]]], long),
        forall|k: int, l: int|
            0 <= k < l < r.0.len() && (dpb[r.0[k]].structure is BottomField) == (
            dpb[r.0[l]].structure is BottomField) ==> #[trigger] r.1[k] < #[trigger] r.1[l],
{
    let list = interleaved(frames, current_bottom);
    let at = Seq::new(list.len(), |k: int| entry_at(dpb, long, frames, hp, current_bottom, k));
    let fr = Seq::new(list.len(), |k: int| frame_at(frames, current_bottom, k));
    let c = current_frame_num;
    let m = max_frame_num;
    assert forall|k: int| 0 <= k < list.len() implies {
        let i = #[trigger] at[k];
        &&& last_of_field(dpb, long, i)
        &&& list[k] == dpb[i].dpb_key
        &&& (dpb[i].structure is BottomField) == bottom_at(frames, current_bottom, k)
        &&& 0 <= fr[k] < frames.len()
        &&& frame_id(dpb[i], long) == frame_id(frame_heads(dpb, long)[hp[fr[k]]], long)
    } by {
        lemma_entry_at(dpb, long, frames, hp, c, m, current_bottom, k);
    }
    assert forall|k: int, l: int| 0 <= k < l < list.len() implies #[trigger] at[k]
        != #[trigger] at[l] by {
        lemma_entry_pair(dpb, long, frames, hp, c, m, current_bottom, k, l);
    }
    assert forall|k: int, l: int|
        0 <= k < l < list.len() && (dpb[at[k]].structure is BottomField) == (
        dpb[at[l]].structure is BottomField) implies #[trigger] fr[k] < #[trigger] fr[l] by {
        lemma_entry_pair(dpb, long, frames, hp, c, m, current_bottom, k, l);
        assert(last_of_field(dpb, long, at[k]) && last_of_field(dpb, long, at[l]));
    }
    assert forall|i: int| #[trigger] last_of_field(dpb, long, i) implies at.contains(i) by {
        let k = lemma_entry_listed(dpb, long, frames, hp, c, m, current_bottom, i);
        assert(at[k] == i);
    }
    assert forall|k: int, j: int, l: int|
        0 <= k && j == k + 1 && j <= l < at.len() && (dpb[
        #[trigger] at[k]].structure is BottomField) == (dpb[
        #[trigger] at[j]].structure is BottomField) implies (dpb[
    #[trigger] at[l]].structure is BottomField) == (dpb[at[k]].structure is BottomField) by {
        lemma_entry_pair(dpb, long, frames, hp, c, m, current_bottom, k, l);
    }
    assert forall|l: int|
        0 <= l < at.len() && (dpb[at[0]].structure is BottomField) != current_bottom implies (dpb[
    #[trigger] at[l]].structure is BottomField) != current_bottom by {
        assert(last_of_field(dpb, long, at[0]));
        lemma_parity_hits(frames, current_bottom);
        lemma_parity_hits(frames, !current_bottom);
        lemma_turns(
            hits(frames, carries(current_bottom)).len(),
            hits(frames, carries(!current_bottom)).len(),
        );
    }
    reveal(fields_at);
    (at, fr)
}

/// What holds of the entries of one part of a list of fields whatever the order
/// of the frames: each field of the wanted kind that the DPB offers is there
/// once, and the parities take turns.
#[verifier::opaque]
spec fn fields_at(
    dpb: Seq<DpbEntry>,
    long: bool,
    current_bottom: bool,
    list: Seq<u32>,
    at: Seq<int>,
) -> bool {
    &&& at.len() == list.len()
    &&& forall|k: int|
        0 <= k < at.len() ==> last_of_field(dpb, long, #[trigger] at[k]) && list[k]
            == dpb[at[k]].dpb_key
    &&& forall|k: int, l: int| 0 <= k < l < at.len() ==> #[trigger] at[k] != #[trigger] at[l]
    &&& forall|i: int| #[trigger] last_of_field(dpb, long, i) ==> at.contains(i)
    &&& forall|k: int, j: int, l: int|
        0 <= k && j == k + 1 && j <= l < at.len() && (dpb[
        #[trigger] at[k]].structure is BottomField) == (dpb[
        #[trigger] at[j]].structure is BottomField) ==> (dpb[
        #[trigger] at[l]].structure is BottomField) == (dpb[at[k]].structure is BottomField)
    &&& forall|l: int|
        0 <= l < at.len() && (dpb[at[0]].structure is BottomField) != current_bottom ==> (dpb[
        #[trigger] at[l]].structure is BottomField) != current_bottom
}

/// Whether entry `i` is used for reference and no later entry stands for the
/// same field: the same kind of reference, the same frame and the same parity,
/// where everything but a bottom field counts as a top field. Short-term
/// references of one frame share their `frame_num`, long-term ones their
/// `LongTermFrameIdx`.
pub open spec fn offered(dpb: Seq<DpbEntry>, i: int) -> bool {
    &&& 0 <= i < dpb.len()
    &&& !(dpb[i].marking is Unused)
    &&& forall|j: int|
        i < j < dpb.len() && (#[trigger] dpb[j]).marking == dpb[i].marking && (
        dpb[i].marking is ShortTerm ==> dpb[j].frame_num == dpb[i].frame_num) && (
        dpb[i].marking is LongTerm ==> dpb[j].long_term_frame_idx == dpb[i].long_term_frame_idx)
            ==> (dpb[j].structure is BottomField) != (dpb[i].structure is BottomField)
}

/// Whether `list` is a list of fields in which position `k` stands for entry
/// `at[k]` of the DPB.
///
/// Each field that the DPB offers is listed once, and the short-term ones stand
/// in front of the long-term ones. Among either kind the parities take turns:
/// once two neighbours are of one parity, so are all that follow. A field of the
/// parity of the current field comes first if there is one.
pub open spec fn fields_listed(
    dpb: Seq<DpbEntry>,
    current_bottom: bool,
    list: Seq<u32>,
    at: Seq<int>,
) -> bool {
    &&& at.len() == list.len()
    &&& forall|k: int|
        0 <= k < at.len() ==> offered(dpb, #[trigger] at[k]) && list[k] == dpb[at[k]].dpb_key
    &&& forall|k: int, l: int| 0 <= k < l < at.len() ==> #[trigger] at[k] != #[trigger] at[l]
    &&& forall|i: int| #[trigger] offered(dpb, i) ==> at.contains(i)
    &&& forall|k: int, l: int|
        0 <= k < l < at.len() && dpb[#[trigger] at[k]].marking is LongTerm ==> dpb[
        #[trigger] at[l]].marking is LongTerm
    &&& forall|k: int, j: int, l: int|
        0 <= k && j == k + 1 && j <= l < at.len() && dpb[#[trigger] at[k]].marking == dpb[
        #[trigger] at[j]].marking && dpb[at[k]].marking == dpb[#[trigger] at[l]].marking && (
        dpb[at[k]].structure is BottomField) == (dpb[at[j]].structure is BottomField) ==> (
        dpb[at[l]].structure is BottomField) == (dpb[at[k]].structure is BottomField)
    &&& forall|l: int|
        0 <= l < at.len() && dpb[at[0]].marking == dpb[#[trigger] at[l]].marking && (
        dpb[at[0]].structure is BottomField) != current_bottom ==> (
        dpb[at[l]].structure is BottomField) != current_bottom
    &&& forall|h: int, k: int, l: int|
        0 <= h && k == h + 1 && k <= l < at.len() && dpb[#[trigger] at[h]].marking != dpb[
        #[trigger] at[k]].marking && dpb[at[k]].marking == dpb[#[trigger] at[l]].marking && (
        dpb[at[k]].structure is BottomField) != current_bottom ==> (
        dpb[at[l]].structure is BottomField) != current_bottom
}

/// Whether the DPB mentions a short-term reference of `frame_num` in front of
/// every one of `other`.
pub open spec fn mentioned_first(dpb: Seq<DpbEntry>, frame_num: u32, other: u32) -> bool {
    exists|i: int|
        0 <= i < dpb.len() && (#[trigger] dpb[i]).marking is ShortTerm && dpb[i].frame_num
            == frame_num && forall|j: int|
            0 <= j < dpb.len() && (#[trigger] dpb[j]).marking is ShortTerm && dpb[j].frame_num
                == other ==> i < j
}

/// Whether `poc` is the lowest `PicOrderCnt` among the short-term references of
/// `frame_num`.
pub open spec fn is_frame_poc(dpb: Seq<DpbEntry>, frame_num: u32, poc: i32) -> bool {
    &&& forall|j: int|
        0 <= j < dpb.len() && (#[trigger] dpb[j]).marking is ShortTerm && dpb[j].frame_num
            == frame_num ==> poc <= dpb[j].pic_order_cnt
    &&& exists|j: int|
        0 <= j < dpb.len() && (#[trigger] dpb[j]).marking is ShortTerm && dpb[j].frame_num
            == frame_num && dpb[j].pic_order_cnt == poc
}

proof fn lemma_offered(dpb: Seq<DpbEntry>, i: int)
    ensures
        offered(dpb, i) <==> last_of_field(dpb, false, i) || last_of_field(dpb, true, i),
{
    if last_of_field(dpb, false, i) {
        assert forall|j: int|
            i < j < dpb.len() && (#[trigger] dpb[j]).marking == dpb[i].marking && (
            dpb[i].marking is ShortTerm ==> dpb[j].frame_num == dpb[i].frame_num) && (
            dpb[i].marking is LongTerm ==> dpb[j].long_term_frame_idx
                == dpb[i].long_term_frame_idx) implies (dpb[j].structure is BottomField) != (
        dpb[i].structure is BottomField) by {
            assert(is_wanted(dpb[j], false));
        }
    }
    if last_of_field(dpb, true, i) {
        assert forall|j: int|
            i < j < dpb.len() && (#[trigger] dpb[j]).marking == dpb[i].marking && (
            dpb[i].marking is ShortTerm ==> dpb[j].frame_num == dpb[i].frame_num) && (
            dpb[i].marking is LongTerm ==> dpb[j].long_term_frame_idx
                == dpb[i].long_term_frame_idx) implies (dpb[j].structure is BottomField) != (
        dpb[i].structure is BottomField) by {
            assert(is_wanted(dpb[j], true));
        }
    }
}

proof fn lemma_part_member(
    dpb: Seq<DpbEntry>,
    long: bool,
    current_bottom: bool,
    list: Seq<u32>,
    at: Seq<int>,
    k: int,
)
    requires
        fields_at(dpb, long, current_bottom, list, at),
        0 <= k < at.len(),
    ensures
        last_of_field(dpb, long, at[k]),
        list[k] == dpb[at[k]].dpb_key,
        list.len() == at.len(),
{
    reveal(fields_at);
}

proof fn lemma_part_len(
    dpb: Seq<DpbEntry>,
    long: bool,
    current_bottom: bool,
    list: Seq<u32>,
    at: Seq<int>,
)
    requires
        fields_at(dpb, long, current_bottom, list, at),
    ensures
        list.len() == at.len(),
{
    reveal(fields_at);
}

proof fn lemma_part_pair(
    dpb: Seq<DpbEntry>,
    long: bool,
    current_bottom: bool,
    list: Seq<u32>,
    at: Seq<int>,
    k: int,
    l: int,
)
    requires
        fields_at(dpb, long, current_bottom, list, at),
        0 <= k < l < at.len(),
    ensures
        at[k] != at[l],
        (dpb[at[k]].structure is BottomField) == (dpb[at[k + 1]].structure is BottomField) ==> (
        dpb[at[l]].structure is BottomField) == (dpb[at[k]].structure is BottomField),
        (dpb[at[k]].structure is BottomField) != current_bottom && (
        dpb[at[l]].structure is BottomField) == current_bottom ==> 0 < k && (
        dpb[at[0]].structure is BottomField) == current_bottom,
{
    reveal(fields_at);
    let j = k + 1;
    assert(at[j] == at[k + 1]);
}

proof fn lemma_part_contains(
    dpb: Seq<DpbEntry>,
    long: bool,
    current_bottom: bool,
    list: Seq<u32>,
    at: Seq<int>,
    i: int,
) -> (k: int)
    requires
        fields_at(dpb, long, current_bottom, list, at),
        last_of_field(dpb, long, i),
    ensures
        0 <= k < at.len(),
        at[k] == i,
{
    reveal(fields_at);
    assert(at.contains(i));
    choose|k: int| 0 <= k < at.len() && at[k] == i
}

/// The two parts of a list of fields joined.
proof fn lemma_parts_listed(
    dpb: Seq<DpbEntry>,
    current_bottom: bool,
    short_list: Seq<u32>,
    short: Seq<int>,
    long_list: Seq<u32>,
    long: Seq<int>,
)
    requires
        fields_at(dpb, false, current_bottom, short_list, short),
        fields_at(dpb, true, current_bottom, long_list, long),
    ensures
        fields_listed(dpb, current_bottom, short_list + long_list, short + long),
{
    let at = short + long;
    let n = short.len();
    let list = short_list + long_list;
    let cb = current_bottom;
    lemma_part_len(dpb, false, cb, short_list, short);
    lemma_part_len(dpb, true, cb, long_list, long);
    assert forall|k: int| 0 <= k < at.len() implies offered(dpb, #[trigger] at[k]) && list[k]
        == dpb[at[k]].dpb_key && (dpb[at[k]].marking is ShortTerm <==> k < n) && (
    dpb[at[k]].marking is LongTerm <==> k >= n) by {
        if k < n {
            lemma_part_member(dpb, false, cb, short_list, short, k);
        } else {
            lemma_part_member(dpb, true, cb, long_list, long, k - n);
        }
        lemma_offered(dpb, at[k]);
    }
    assert forall|k: int, l: int| 0 <= k < l < at.len() implies #[trigger] at[k]
        != #[trigger] at[l] by {
        if l < n {
            lemma_part_pair(dpb, false, cb, short_list, short, k, l);
        } else if k >= n {
            lemma_part_pair(dpb, true, cb, long_list, long, k - n, l - n);
        }
    }
    assert forall|i: int| #[trigger] offered(dpb, i) implies at.contains(i) by {
        lemma_offered(dpb, i);
        if last_of_field(dpb, false, i) {
            let k = lemma_part_contains(dpb, false, cb, short_list, short, i);
            assert(at[k] == i);
        } else {
            let k = lemma_part_contains(dpb, true, cb, long_list, long, i);
            assert(at[n + k] == i);
        }
    }
    assert forall|k: int, j: int, l: int|
        0 <= k && j == k + 1 && j <= l < at.len() && dpb[#[trigger] at[k]].marking == dpb[
        #[trigger] at[j]].marking && dpb[at[k]].marking == dpb[#[trigger] at[l]].marking && (
        dpb[at[k]].structure is BottomField) == (
        dpb[at[j]].structure is BottomField) implies (dpb[at[l]].structure is BottomField) == (
    dpb[at[k]].structure is BottomField) by {
        if k < n {
            lemma_part_pair(dpb, false, cb, short_list, short, k, l);
        } else {
            lemma_part_pair(dpb, true, cb, long_list, long, k - n, l - n);
            assert(at[j] == long[k - n + 1]);
        }
    }
    assert forall|l: int|
        0 <= l < at.len() && dpb[at[0]].marking == dpb[#[trigger] at[l]].marking && (
        dpb[at[0]].structure is BottomField) != current_bottom implies (
    dpb[at[l]].structure is BottomField) != current_bottom by {
        if l > 0 {
            if n > 0 {
                assert(dpb[at[0]].marking is ShortTerm);
                lemma_part_pair(dpb, false, cb, short_list, short, 0, l);
            } else {
                lemma_part_pair(dpb, true, cb, long_list, long, 0, l);
            }
        }
    }
    assert forall|h: int, k: int, l: int|
        0 <= h && k == h + 1 && k <= l < at.len() && dpb[#[trigger] at[h]].marking != dpb[
        #[trigger] at[k]].marking && dpb[at[k]].marking == dpb[#[trigger] at[l]].marking && (
        dpb[at[k]].structure is BottomField) != current_bottom implies (
    dpb[at[l]].structure is BottomField) != current_bottom by {
        assert(k == n);
        if l > k {
            lemma_part_pair(dpb, true, cb, long_list, long, 0, l - n);
        }
    }
}

proof fn lemma_filter_true(s: Seq<RefFrame>)
    ensures
        s.filter(|f: RefFrame| true) == s,
    decreases s.len(),
{
    reveal(Seq::filter);
    if s.len() > 0 {
        lemma_filter_true(s.drop_last());
    }
}

/// The frames of the DPB sorted, and which of them each is.
proof fn lemma_sorted_frames(
    dpb: Seq<DpbEntry>,
    long: bool,
    order: FrameOrder,
    current_frame_num: u32,
    max_frame_num: u32,
) -> (hp: Seq<int>)
    ensures
        ({
            let all = reference_frames(dpb, long, current_frame_num, max_frame_num);
            &&& frames_at(
                dpb,
                long,
                stable_sort(all, order.rank()),
                hp,
                current_frame_num,
                max_frame_num,
            )
            &&& forall|x: int, y: int|
                0 <= x < y < hp.len() ==> {
                    let p = (order.rank())(all[#[trigger] hp[x]]);
                    let q = (order.rank())(all[#[trigger] hp[y]]);
                    p < q || (p == q && hp[x] < hp[y])
                }
        }),
{
    let all = reference_frames(dpb, long, current_frame_num, max_frame_num);
    let yes = |f: RefFrame| true;
    lemma_filter_true(all);
    let hp = lemma_positions(all, yes, order.rank());
    assert forall|j: int| 0 <= j < frame_heads(dpb, long).len() implies #[trigger] hp.contains(
        j,
    ) by {
        assert(yes(all[j]));
    }
    hp
}

/// The earlier of two frames is mentioned first.
proof fn lemma_mentioned(dpb: Seq<DpbEntry>, x: int, y: int)
    requires
        0 <= x < y < frame_heads(dpb, false).len(),
    ensures
        mentioned_first(
            dpb,
            frame_heads(dpb, false)[x].frame_num,
            frame_heads(dpb, false)[y].frame_num,
        ),
{
    let heads = frame_heads(dpb, false);
    let at = head_at(dpb, false);
    lemma_head_at(dpb, false);
    let i = at[x];
    assert(at[x] < at[y]);
    assert forall|j: int|
        0 <= j < dpb.len() && (#[trigger] dpb[j]).marking is ShortTerm && dpb[j].frame_num
            == heads[y].frame_num implies i < j by {
        assert(belongs_to(dpb[j], false, frame_id(heads[y], false)));
        assert(at[y] <= j);
    }
    assert(dpb[i].marking is ShortTerm && dpb[i].frame_num == heads[x].frame_num);
}

/// The long-term part of every list of fields: by ascending `LongTermFrameIdx`
/// in each parity.
proof fn lemma_long_part(
    dpb: Seq<DpbEntry>,
    current_frame_num: u32,
    max_frame_num: u32,
    current_bottom: bool,
) -> (at: Seq<int>)
    ensures
        fields_at(
            dpb,
            true,
            current_bottom,
            long_list(dpb, current_frame_num, max_frame_num, current_bottom),
            at,
        ),
        forall|k: int, l: int|
            0 <= k < l < at.len() && (dpb[#[trigger] at[k]].structure is BottomField) == (dpb[
            #[trigger] at[l]].structure is BottomField) ==> dpb[at[k]].long_term_frame_idx
                < dpb[at[l]].long_term_frame_idx,
{
    let c = current_frame_num;
    let m = max_frame_num;
    let heads = frame_heads(dpb, true);
    let all = reference_frames(dpb, true, c, m);
    let order = FrameOrder::LongTermIdxAscending;
    let frames = long_term_field_frames(dpb, c, m);
    let hp = lemma_sorted_frames(dpb, true, order, c, m);
    let (at, fr) = lemma_interleaved_at(dpb, true, frames, hp, c, m, current_bottom);
    assert forall|k: int, l: int|
        0 <= k < l < at.len() && (dpb[#[trigger] at[k]].structure is BottomField) == (dpb[
        #[trigger] at[l]].structure is BottomField) implies dpb[at[k]].long_term_frame_idx
        < dpb[at[l]].long_term_frame_idx by {
        assert(fr[k] < fr[l]);
        let x = hp[fr[k]];
        let y = hp[fr[l]];
        assert((order.rank())(all[x]) == heads[x].long_term_frame_idx);
        assert((order.rank())(all[y]) == heads[y].long_term_frame_idx);
        law_frame_heads(dpb, true);
        assert(x != y);
        if x < y {
            assert(frame_id(heads[x], true) != frame_id(heads[y], true));
        } else {
            assert(frame_id(heads[y], true) != frame_id(heads[x], true));
        }
    }
    at
}

proof fn lemma_p_short_part(
    dpb: Seq<DpbEntry>,
    current_frame_num: u32,
    max_frame_num: u32,
    current_bottom: bool,
) -> (at: Seq<int>)
    ensures
        fields_at(
            dpb,
            false,
            current_bottom,
            p_short_list(dpb, current_frame_num, max_frame_num, current_bottom),
            at,
        ),
        forall|k: int, l: int|
            0 <= k < l < at.len() && (dpb[#[trigger] at[k]].structure is BottomField) == (dpb[
            #[trigger] at[l]].structure is BottomField) ==> {
                let a = dpb[at[k]];
                let b = dpb[at[l]];
                let current = current_picture(
                    current_frame_num,
                    max_frame_num,
                    false,
                    current_bottom,
                );
                ||| a.pic_num_for(current) > b.pic_num_for(current)
                ||| a.pic_num_for(current) == b.pic_num_for(current) && a.frame_num != b.frame_num
                    && mentioned_first(dpb, a.frame_num, b.frame_num)
            },
{
    let c = current_frame_num;
    let m = max_frame_num;
    let heads = frame_heads(dpb, false);
    let all = reference_frames(dpb, false, c, m);
    let order = FrameOrder::FrameNumWrapDescending;
    let frames = stable_sort(all, order.rank());
    let hp = lemma_sorted_frames(dpb, false, order, c, m);
    let (at, fr) = lemma_interleaved_at(dpb, false, frames, hp, c, m, current_bottom);
    let current = current_picture(c, m, false, current_bottom);
    assert forall|k: int, l: int|
        0 <= k < l < at.len() && (dpb[#[trigger] at[k]].structure is BottomField) == (dpb[
        #[trigger] at[l]].structure is BottomField) implies {
        let a = dpb[at[k]];
        let b = dpb[at[l]];
        ||| a.pic_num_for(current) > b.pic_num_for(current)
        ||| a.pic_num_for(current) == b.pic_num_for(current) && a.frame_num != b.frame_num
            && mentioned_first(dpb, a.frame_num, b.frame_num)
    } by {
        assert(fr[k] < fr[l]);
        let x = hp[fr[k]];
        let y = hp[fr[l]];
        let a = dpb[at[k]];
        let b = dpb[at[l]];
        assert(a.frame_num == heads[x].frame_num && b.frame_num == heads[y].frame_num);
        assert((order.rank())(all[x]) == -(a.pic_num_for(current) as int));
        assert((order.rank())(all[y]) == -(b.pic_num_for(current) as int));
        if a.pic_num_for(current) <= b.pic_num_for(current) {
            assert(x < y);
            lemma_mentioned(dpb, x, y);
            law_frame_heads(dpb, false);
            assert(frame_id(heads[x], false) != frame_id(heads[y], false));
        }
    }
    at
}

/// The initial list for a P slice of a field, position by position. It holds the
/// fields that the DPB offers as [`fields_listed`] says. Of two short-term fields
/// of one parity, the one of the frame that the `frame_num` counter left fewer
/// steps ago stands first, which is the one of the higher `PicNum` that the frame
/// has. Of two long-term fields of one parity, the one of the lower
/// `LongTermFrameIdx` stands first.
pub proof fn law_p_field_list(
    dpb: Seq<DpbEntry>,
    current_frame_num: u32,
    max_frame_num: u32,
    current_structure: PicStructure,
    current_bottom: bool,
) -> (at: Seq<int>)
    requires
        current_structure is TopField || current_structure is BottomField,
    ensures
        fields_listed(
            dpb,
            current_bottom,
            initial_list_p(
                dpb,
                current_frame_num,
                max_frame_num,
                current_structure,
                current_bottom,
            ),
            at,
        ),
        forall|k: int, l: int|
            0 <= k < l < at.len() && dpb[#[trigger] at[k]].marking == dpb[
            #[trigger] at[l]].marking && (dpb[at[k]].structure is BottomField) == (
            dpb[at[l]].structure is BottomField) ==> {
                let a = dpb[at[k]];
                let b = dpb[at[l]];
                let max = max_frame_num as int;
                let current = current_picture(
                    current_frame_num,
                    max_frame_num,
                    false,
                    current_bottom,
                );
                &&& a.marking is ShortTerm ==> {
                    ||| a.pic_num_for(current) > b.pic_num_for(current)
                    ||| a.pic_num_for(current) == b.pic_num_for(current) && a.frame_num
                        != b.frame_num && mentioned_first(dpb, a.frame_num, b.frame_num)
                }
                &&& a.marking is ShortTerm && a.frame_num < max && b.frame_num < max
                    && current_frame_num < max <= i32::MAX ==> (current_frame_num - a.frame_num)
                    % max < (current_frame_num - b.frame_num) % max
                &&& a.marking is LongTerm ==> a.long_term_frame_idx < b.long_term_frame_idx
            },
{
    let short = lemma_p_short_part(dpb, current_frame_num, max_frame_num, current_bottom);
    let long = lemma_long_part(dpb, current_frame_num, max_frame_num, current_bottom);
    lemma_p_field_order(dpb, current_frame_num, max_frame_num, current_bottom, short, long);
    lemma_parts_listed(
        dpb,
        current_bottom,
        p_short_list(dpb, current_frame_num, max_frame_num, current_bottom),
        short,
        long_list(dpb, current_frame_num, max_frame_num, current_bottom),
        long,
    );
    short + long
}

spec fn p_short_list(
    dpb: Seq<DpbEntry>,
    current_frame_num: u32,
    max_frame_num: u32,
    current_bottom: bool,
) -> Seq<u32> {
    interleaved(
        stable_sort(
            reference_frames(dpb, false, current_frame_num, max_frame_num),
            FrameOrder::FrameNumWrapDescending.rank(),
        ),
        current_bottom,
    )
}

spec fn long_list(
    dpb: Seq<DpbEntry>,
    current_frame_num: u32,
    max_frame_num: u32,
    current_bottom: bool,
) -> Seq<u32> {
    interleaved(long_term_field_frames(dpb, current_frame_num, max_frame_num), current_bottom)
}

proof fn lemma_p_field_order(
    dpb: Seq<DpbEntry>,
    current_frame_num: u32,
    max_frame_num: u32,
    current_bottom: bool,
    short: Seq<int>,
    long: Seq<int>,
)
    requires
        fields_at(
            dpb,
            false,
            current_bottom,
            p_short_list(dpb, current_frame_num, max_frame_num, current_bottom),
            short,
        ),
        fields_at(
            dpb,
            true,
            current_bottom,
            long_list(dpb, current_frame_num, max_frame_num, current_bottom),
            long,
        ),
        forall|k: int, l: int|
            0 <= k < l < short.len() && (dpb[#[trigger] short[k]].structure is BottomField) == (dpb[
            #[trigger] short[l]].structure is BottomField) ==> {
                let a = dpb[short[k]];
                let b = dpb[short[l]];
                let current = current_picture(
                    current_frame_num,
                    max_frame_num,
                    false,
                    current_bottom,
                );
                ||| a.pic_num_for(current) > b.pic_num_for(current)
                ||| a.pic_num_for(current) == b.pic_num_for(current) && a.frame_num != b.frame_num
                    && mentioned_first(dpb, a.frame_num, b.frame_num)
            },
        forall|k: int, l: int|
            0 <= k < l < long.len() && (dpb[#[trigger] long[k]].structure is BottomField) == (dpb[
            #[trigger] long[l]].structure is BottomField) ==> dpb[long[k]].long_term_frame_idx
                < dpb[long[l]].long_term_frame_idx,
    ensures
        ({
            let at = short + long;
            forall|k: int, l: int|
                0 <= k < l < at.len() && dpb[#[trigger] at[k]].marking == dpb[
                #[trigger] at[l]].marking && (dpb[at[k]].structure is BottomField) == (
                dpb[at[l]].structure is BottomField) ==> {
                    let a = dpb[at[k]];
                    let b = dpb[at[l]];
                    let max = max_frame_num as int;
                    let current = current_picture(
                        current_frame_num,
                        max_frame_num,
                        false,
                        current_bottom,
                    );
                    &&& a.marking is ShortTerm ==> {
                        ||| a.pic_num_for(current) > b.pic_num_for(current)
                        ||| a.pic_num_for(current) == b.pic_num_for(current) && a.frame_num
                            != b.frame_num && mentioned_first(dpb, a.frame_num, b.frame_num)
                    }
                    &&& a.marking is ShortTerm && a.frame_num < max && b.frame_num < max
                        && current_frame_num < max <= i32::MAX ==> (current_frame_num - a.frame_num)
                        % max < (current_frame_num - b.frame_num) % max
                    &&& a.marking is LongTerm ==> a.long_term_frame_idx < b.long_term_frame_idx
                }
        }),
{
    let at = short + long;
    let n = short.len();
    let cb = current_bottom;
    let current = current_picture(current_frame_num, max_frame_num, false, current_bottom);
    let short_keys = p_short_list(dpb, current_frame_num, max_frame_num, cb);
    let long_keys = long_list(dpb, current_frame_num, max_frame_num, cb);
    assert forall|k: int, l: int|
        0 <= k < l < at.len() && dpb[#[trigger] at[k]].marking == dpb[#[trigger] at[l]].marking && (
        dpb[at[k]].structure is BottomField) == (
        dpb[at[l]].structure is BottomField) implies {
        let a = dpb[at[k]];
        let b = dpb[at[l]];
        let max = max_frame_num as int;
        &&& a.marking is ShortTerm ==> {
            ||| a.pic_num_for(current) > b.pic_num_for(current)
            ||| a.pic_num_for(current) == b.pic_num_for(current) && a.frame_num != b.frame_num
                && mentioned_first(dpb, a.frame_num, b.frame_num)
        }
        &&& a.marking is ShortTerm && a.frame_num < max && b.frame_num < max && current_frame_num
            < max <= i32::MAX ==> (current_frame_num - a.frame_num) % max < (current_frame_num
            - b.frame_num) % max
        &&& a.marking is LongTerm ==> a.long_term_frame_idx < b.long_term_frame_idx
    } by {
        let a = dpb[at[k]];
        let b = dpb[at[l]];
        if k < n {
            assert(at[k] == short[k]);
            lemma_part_member(dpb, false, cb, short_keys, short, k);
            if l >= n {
                assert(at[l] == long[l - n]);
                lemma_part_member(dpb, true, cb, long_keys, long, l - n);
            } else {
                assert(at[l] == short[l]);
            }
            if a.frame_num < max_frame_num && b.frame_num < max_frame_num && current_frame_num
                < max_frame_num && max_frame_num <= i32::MAX {
                lemma_pic_num_is_age(a, current_frame_num, max_frame_num, current_bottom);
                lemma_pic_num_is_age(b, current_frame_num, max_frame_num, current_bottom);
            }
        } else {
            assert(at[k] == long[k - n] && at[l] == long[l - n]);
            lemma_part_member(dpb, true, cb, long_keys, long, k - n);
        }
    }
}

/// The frames of list 0 for a B slice, and which of the frames of the DPB each is.
proof fn lemma_b_frames0(
    dpb: Seq<DpbEntry>,
    current_poc: i32,
    current_frame_num: u32,
    max_frame_num: u32,
) -> (hp: Seq<int>)
    ensures
        ({
            let short = reference_frames(dpb, false, current_frame_num, max_frame_num);
            let frames = frames_back(short, current_poc) + frames_ahead(short, current_poc);
            &&& frames_at(dpb, false, frames, hp, current_frame_num, max_frame_num)
            &&& forall|x: int, y: int|
                0 <= x < y < hp.len() ==> {
                    let p = short[#[trigger] hp[x]].frame_poc;
                    let q = short[#[trigger] hp[y]].frame_poc;
                    ||| p <= current_poc && q > current_poc
                    ||| p <= current_poc && q < p
                    ||| p > current_poc && q > p
                    ||| p == q && hp[x] < hp[y]
                }
        }),
{
    let short = reference_frames(dpb, false, current_frame_num, max_frame_num);
    let back = lemma_positions(short, poc_at_most(current_poc), FrameOrder::PocDescending.rank());
    let ahead = lemma_positions(short, poc_above(current_poc), FrameOrder::PocAscending.rank());
    let hp = back + ahead;
    let frames = frames_back(short, current_poc) + frames_ahead(short, current_poc);
    let split = back.len();
    assert forall|x: int| 0 <= x < hp.len() implies 0 <= #[trigger] hp[x] < short.len()
        && frames[x] == short[hp[x]] by {
        if x < split {
            assert(hp[x] == back[x]);
        } else {
            assert(hp[x] == ahead[x - split]);
        }
    }
    assert forall|x: int, y: int| 0 <= x < y < hp.len() implies {
        let p = short[#[trigger] hp[x]].frame_poc;
        let q = short[#[trigger] hp[y]].frame_poc;
        ||| p <= current_poc && q > current_poc
        ||| p <= current_poc && q < p
        ||| p > current_poc && q > p
        ||| p == q && hp[x] < hp[y]
    } by {
        if y < split {
            assert(hp[x] == back[x] && hp[y] == back[y]);
        } else if x < split {
            assert(hp[x] == back[x] && hp[y] == ahead[y - split]);
        } else {
            assert(hp[x] == ahead[x - split] && hp[y] == ahead[y - split]);
        }
    }
    assert forall|j: int| 0 <= j < short.len() implies #[trigger] hp.contains(j) by {
        if short[j].frame_poc <= current_poc {
            assert(poc_at_most(current_poc)(short[j]));
            let x = choose|x: int| 0 <= x < back.len() && back[x] == j;
            assert(hp[x] == j);
        } else {
            assert(poc_above(current_poc)(short[j]));
            let x = choose|x: int| 0 <= x < ahead.len() && ahead[x] == j;
            assert(hp[split + x] == j);
        }
    }
    hp
}

/// The frames of list 1 for a B slice, and which of the frames of the DPB each is.
proof fn lemma_b_frames1(
    dpb: Seq<DpbEntry>,
    current_poc: i32,
    current_frame_num: u32,
    max_frame_num: u32,
) -> (hp: Seq<int>)
    ensures
        ({
            let short = reference_frames(dpb, false, current_frame_num, max_frame_num);
            let frames = frames_ahead(short, current_poc) + frames_back(short, current_poc);
            &&& frames_at(dpb, false, frames, hp, current_frame_num, max_frame_num)
            &&& forall|x: int, y: int|
                0 <= x < y < hp.len() ==> {
                    let p = short[#[trigger] hp[x]].frame_poc;
                    let q = short[#[trigger] hp[y]].frame_poc;
                    ||| p > current_poc && q <= current_poc
                    ||| p > current_poc && q > p
                    ||| p <= current_poc && q < p
                    ||| p == q && hp[x] < hp[y]
                }
        }),
{
    let short = reference_frames(dpb, false, current_frame_num, max_frame_num);
    let back = lemma_positions(short, poc_at_most(current_poc), FrameOrder::PocDescending.rank());
    let ahead = lemma_positions(short, poc_above(current_poc), FrameOrder::PocAscending.rank());
    let hp = ahead + back;
    let frames = frames_ahead(short, current_poc) + frames_back(short, current_poc);
    let split = ahead.len();
    assert forall|x: int| 0 <= x < hp.len() implies 0 <= #[trigger] hp[x] < short.len()
        && frames[x] == short[hp[x]] by {
        if x < split {
            assert(hp[x] == ahead[x]);
        } else {
            assert(hp[x] == back[x - split]);
        }
    }
    assert forall|x: int, y: int| 0 <= x < y < hp.len() implies {
        let p = short[#[trigger] hp[x]].frame_poc;
        let q = short[#[trigger] hp[y]].frame_poc;
        ||| p > current_poc && q <= current_poc
        ||| p > current_poc && q > p
        ||| p <= current_poc && q < p
        ||| p == q && hp[x] < hp[y]
    } by {
        if y < split {
            assert(hp[x] == ahead[x] && hp[y] == ahead[y]);
        } else if x < split {
            assert(hp[x] == ahead[x] && hp[y] == back[y - split]);
        } else {
            assert(hp[x] == back[x - split] && hp[y] == back[y - split]);
        }
    }
    assert forall|j: int| 0 <= j < short.len() implies #[trigger] hp.contains(j) by {
        if short[j].frame_poc <= current_poc {
            assert(poc_at_most(current_poc)(short[j]));
            let x = choose|x: int| 0 <= x < back.len() && back[x] == j;
            assert(hp[split + x] == j);
        } else {
            assert(poc_above(current_poc)(short[j]));
            let x = choose|x: int| 0 <= x < ahead.len() && ahead[x] == j;
            assert(hp[x] == j);
        }
    }
    hp
}

spec fn b_short_list0(
    dpb: Seq<DpbEntry>,
    current_poc: i32,
    current_frame_num: u32,
    max_frame_num: u32,
    current_bottom: bool,
) -> Seq<u32> {
    let short = reference_frames(dpb, false, current_frame_num, max_frame_num);
    interleaved(frames_back(short, current_poc) + frames_ahead(short, current_poc), current_bottom)
}

proof fn lemma_b_short_part0(
    dpb: Seq<DpbEntry>,
    current_poc: i32,
    current_frame_num: u32,
    max_frame_num: u32,
    current_bottom: bool,
) -> (at: Seq<int>)
    ensures
        fields_at(
            dpb,
            false,
            current_bottom,
            b_short_list0(dpb, current_poc, current_frame_num, max_frame_num, current_bottom),
            at,
        ),
        forall|k: int, l: int|
            0 <= k < l < at.len() && (dpb[#[trigger] at[k]].structure is BottomField) == (dpb[
            #[trigger] at[l]].structure is BottomField) ==> {
                let p = lowest_poc(dpb, false, dpb[at[k]].frame_num);
                let q = lowest_poc(dpb, false, dpb[at[l]].frame_num);
                ||| p <= current_poc && q > current_poc
                ||| p <= current_poc && q < p
                ||| p > current_poc && q > p
                ||| p == q && dpb[at[k]].frame_num != dpb[at[l]].frame_num && mentioned_first(
                    dpb,
                    dpb[at[k]].frame_num,
                    dpb[at[l]].frame_num,
                )
            },
{
    let c = current_frame_num;
    let m = max_frame_num;
    let heads = frame_heads(dpb, false);
    let all = reference_frames(dpb, false, c, m);
    let frames = frames_back(all, current_poc) + frames_ahead(all, current_poc);
    let hp = lemma_b_frames0(dpb, current_poc, c, m);
    let (at, fr) = lemma_interleaved_at(dpb, false, frames, hp, c, m, current_bottom);
    assert forall|k: int, l: int|
        0 <= k < l < at.len() && (dpb[#[trigger] at[k]].structure is BottomField) == (dpb[
        #[trigger] at[l]].structure is BottomField) implies {
        let p = lowest_poc(dpb, false, dpb[at[k]].frame_num);
        let q = lowest_poc(dpb, false, dpb[at[l]].frame_num);
        ||| p <= current_poc && q > current_poc
        ||| p <= current_poc && q < p
        ||| p > current_poc && q > p
        ||| p == q && dpb[at[k]].frame_num != dpb[at[l]].frame_num && mentioned_first(
            dpb,
            dpb[at[k]].frame_num,
            dpb[at[l]].frame_num,
        )
    } by {
        assert(fr[k] < fr[l]);
        let x = hp[fr[k]];
        let y = hp[fr[l]];
        let a = dpb[at[k]];
        let b = dpb[at[l]];
        assert(a.frame_num == heads[x].frame_num && b.frame_num == heads[y].frame_num);
        assert(all[x].frame_poc == lowest_poc(dpb, false, a.frame_num));
        assert(all[y].frame_poc == lowest_poc(dpb, false, b.frame_num));
        if x < y {
            lemma_mentioned(dpb, x, y);
            law_frame_heads(dpb, false);
            assert(frame_id(heads[x], false) != frame_id(heads[y], false));
        }
    }
    at
}

/// List 0 for a B slice of a field before the two lists are told apart.
proof fn lemma_b_field_list0(
    dpb: Seq<DpbEntry>,
    current_poc: i32,
    current_frame_num: u32,
    max_frame_num: u32,
    current_bottom: bool,
    poc: Seq<i32>,
) -> (at: Seq<int>)
    requires
        poc.len() == dpb.len(),
        forall|i: int|
            0 <= i < dpb.len() ==> #[trigger] poc[i] == lowest_poc(dpb, false, dpb[i].frame_num),
    ensures
        fields_listed(
            dpb,
            current_bottom,
            b_field_list0(dpb, current_poc, current_frame_num, max_frame_num, current_bottom),
            at,
        ),
        forall|k: int, l: int|
            0 <= k < l < at.len() && dpb[#[trigger] at[k]].marking == dpb[
            #[trigger] at[l]].marking && (dpb[at[k]].structure is BottomField) == (
            dpb[at[l]].structure is BottomField) ==> {
                &&& dpb[at[k]].marking is ShortTerm ==> {
                    let p = poc[at[k]];
                    let q = poc[at[l]];
                    ||| p <= current_poc && q > current_poc
                    ||| p <= current_poc && q < p
                    ||| p > current_poc && q > p
                    ||| p == q && dpb[at[k]].frame_num != dpb[at[l]].frame_num && mentioned_first(
                        dpb,
                        dpb[at[k]].frame_num,
                        dpb[at[l]].frame_num,
                    )
                }
                &&& dpb[at[k]].marking is LongTerm ==> dpb[at[k]].long_term_frame_idx
                    < dpb[at[l]].long_term_frame_idx
            },
{
    let short = lemma_b_short_part0(
        dpb,
        current_poc,
        current_frame_num,
        max_frame_num,
        current_bottom,
    );
    let long = lemma_long_part(dpb, current_frame_num, max_frame_num, current_bottom);
    let short_keys = b_short_list0(
        dpb,
        current_poc,
        current_frame_num,
        max_frame_num,
        current_bottom,
    );
    let long_keys = long_list(dpb, current_frame_num, max_frame_num, current_bottom);
    let at = short + long;
    let n = short.len();
    assert forall|k: int, l: int|
        0 <= k < l < at.len() && dpb[#[trigger] at[k]].marking == dpb[#[trigger] at[l]].marking && (
        dpb[at[k]].structure is BottomField) == (
        dpb[at[l]].structure is BottomField) implies {
        &&& dpb[at[k]].marking is ShortTerm ==> {
            let p = poc[at[k]];
            let q = poc[at[l]];
            ||| p <= current_poc && q > current_poc
            ||| p <= current_poc && q < p
            ||| p > current_poc && q > p
            ||| p == q && dpb[at[k]].frame_num != dpb[at[l]].frame_num && mentioned_first(
                dpb,
                dpb[at[k]].frame_num,
                dpb[at[l]].frame_num,
            )
        }
        &&& dpb[at[k]].marking is LongTerm ==> dpb[at[k]].long_term_frame_idx
            < dpb[at[l]].long_term_frame_idx
    } by {
        if k < n {
            assert(at[k] == short[k]);
            lemma_part_member(dpb, false, current_bottom, short_keys, short, k);
            if l >= n {
                assert(at[l] == long[l - n]);
                lemma_part_member(dpb, true, current_bottom, long_keys, long, l - n);
            } else {
                assert(at[l] == short[l]);
                lemma_part_member(dpb, false, current_bottom, short_keys, short, l);
            }
        } else {
            assert(at[k] == long[k - n] && at[l] == long[l - n]);
            lemma_part_member(dpb, true, current_bottom, long_keys, long, k - n);
        }
    }
    lemma_parts_listed(dpb, current_bottom, short_keys, short, long_keys, long);
    at
}

spec fn b_short_list1(
    dpb: Seq<DpbEntry>,
    current_poc: i32,
    current_frame_num: u32,
    max_frame_num: u32,
    current_bottom: bool,
) -> Seq<u32> {
    let short = reference_frames(dpb, false, current_frame_num, max_frame_num);
    interleaved(frames_ahead(short, current_poc) + frames_back(short, current_poc), current_bottom)
}

proof fn lemma_b_short_part1(
    dpb: Seq<DpbEntry>,
    current_poc: i32,
    current_frame_num: u32,
    max_frame_num: u32,
    current_bottom: bool,
) -> (at: Seq<int>)
    ensures
        fields_at(
            dpb,
            false,
            current_bottom,
            b_short_list1(dpb, current_poc, current_frame_num, max_frame_num, current_bottom),
            at,
        ),
        forall|k: int, l: int|
            0 <= k < l < at.len() && (dpb[#[trigger] at[k]].structure is BottomField) == (dpb[
            #[trigger] at[l]].structure is BottomField) ==> {
                let p = lowest_poc(dpb, false, dpb[at[k]].frame_num);
                let q = lowest_poc(dpb, false, dpb[at[l]].frame_num);
                ||| p > current_poc && q <= current_poc
                ||| p > current_poc && q > p
                ||| p <= current_poc && q < p
                ||| p == q && dpb[at[k]].frame_num != dpb[at[l]].frame_num && mentioned_first(
                    dpb,
                    dpb[at[k]].frame_num,
                    dpb[at[l]].frame_num,
                )
            },
{
    let c = current_frame_num;
    let m = max_frame_num;
    let heads = frame_heads(dpb, false);
    let all = reference_frames(dpb, false, c, m);
    let frames = frames_ahead(all, current_poc) + frames_back(all, current_poc);
    let hp = lemma_b_frames1(dpb, current_poc, c, m);
    let (at, fr) = lemma_interleaved_at(dpb, false, frames, hp, c, m, current_bottom);
    assert forall|k: int, l: int|
        0 <= k < l < at.len() && (dpb[#[trigger] at[k]].structure is BottomField) == (dpb[
        #[trigger] at[l]].structure is BottomField) implies {
        let p = lowest_poc(dpb, false, dpb[at[k]].frame_num);
        let q = lowest_poc(dpb, false, dpb[at[l]].frame_num);
        ||| p > current_poc && q <= current_poc
        ||| p > current_poc && q > p
        ||| p <= current_poc && q < p
        ||| p == q && dpb[at[k]].frame_num != dpb[at[l]].frame_num && mentioned_first(
            dpb,
            dpb[at[k]].frame_num,
            dpb[at[l]].frame_num,
        )
    } by {
        assert(fr[k] < fr[l]);
        let x = hp[fr[k]];
        let y = hp[fr[l]];
        let a = dpb[at[k]];
        let b = dpb[at[l]];
        assert(a.frame_num == heads[x].frame_num && b.frame_num == heads[y].frame_num);
        assert(all[x].frame_poc == lowest_poc(dpb, false, a.frame_num));
        assert(all[y].frame_poc == lowest_poc(dpb, false, b.frame_num));
        if x < y {
            lemma_mentioned(dpb, x, y);
            law_frame_heads(dpb, false);
            assert(frame_id(heads[x], false) != frame_id(heads[y], false));
        }
    }
    at
}

/// List 1 for a B slice of a field before the two lists are told apart.
proof fn lemma_b_field_list1(
    dpb: Seq<DpbEntry>,
    current_poc: i32,
    current_frame_num: u32,
    max_frame_num: u32,
    current_bottom: bool,
    poc: Seq<i32>,
) -> (at: Seq<int>)
    requires
        poc.len() == dpb.len(),
        forall|i: int|
            0 <= i < dpb.len() ==> #[trigger] poc[i] == lowest_poc(dpb, false, dpb[i].frame_num),
    ensures
        fields_listed(
            dpb,
            current_bottom,
            b_field_list1(dpb, current_poc, current_frame_num, max_frame_num, current_bottom),
            at,
        ),
        forall|k: int, l: int|
            0 <= k < l < at.len() && dpb[#[trigger] at[k]].marking == dpb[
            #[trigger] at[l]].marking && (dpb[at[k]].structure is BottomField) == (
            dpb[at[l]].structure is BottomField) ==> {
                &&& dpb[at[k]].marking is ShortTerm ==> {
                    let p = poc[at[k]];
                    let q = poc[at[l]];
                    ||| p > current_poc && q <= current_poc
                    ||| p > current_poc && q > p
                    ||| p <= current_poc && q < p
                    ||| p == q && dpb[at[k]].frame_num != dpb[at[l]].frame_num && mentioned_first(
                        dpb,
                        dpb[at[k]].frame_num,
                        dpb[at[l]].frame_num,
                    )
                }
                &&& dpb[at[k]].marking is LongTerm ==> dpb[at[k]].long_term_frame_idx
                    < dpb[at[l]].long_term_frame_idx
            },
{
    let short = lemma_b_short_part1(
        dpb,
        current_poc,
        current_frame_num,
        max_frame_num,
        current_bottom,
    );
    let long = lemma_long_part(dpb, current_frame_num, max_frame_num, current_bottom);
    let short_keys = b_short_list1(
        dpb,
        current_poc,
        current_frame_num,
        max_frame_num,
        current_bottom,
    );
    let long_keys = long_list(dpb, current_frame_num, max_frame_num, current_bottom);
    let at = short + long;
    let n = short.len();
    assert forall|k: int, l: int|
        0 <= k < l < at.len() && dpb[#[trigger] at[k]].marking == dpb[#[trigger] at[l]].marking && (
        dpb[at[k]].structure is BottomField) == (
        dpb[at[l]].structure is BottomField) implies {
        &&& dpb[at[k]].marking is ShortTerm ==> {
            let p = poc[at[k]];
            let q = poc[at[l]];
            ||| p > current_poc && q <= current_poc
            ||| p > current_poc && q > p
            ||| p <= current_poc && q < p
            ||| p == q && dpb[at[k]].frame_num != dpb[at[l]].frame_num && mentioned_first(
                dpb,
                dpb[at[k]].frame_num,
                dpb[at[l]].frame_num,
            )
        }
        &&& dpb[at[k]].marking is LongTerm ==> dpb[at[k]].long_term_frame_idx
            < dpb[at[l]].long_term_frame_idx
    } by {
        if k < n {
            assert(at[k] == short[k]);
            lemma_part_member(dpb, false, current_bottom, short_keys, short, k);
            if l >= n {
                assert(at[l] == long[l - n]);
                lemma_part_member(dpb, true, current_bottom, long_keys, long, l - n);
            } else {
                assert(at[l] == short[l]);
                lemma_part_member(dpb, false, current_bottom, short_keys, short, l);
            }
        } else {
            assert(at[k] == long[k - n] && at[l] == long[l - n]);
            lemma_part_member(dpb, true, current_bottom, long_keys, long, k - n);
        }
    }
    lemma_parts_listed(dpb, current_bottom, short_keys, short, long_keys, long);
    at
}

/// List 0 for a B slice of a field, position by position: `at.0` gives the entry
/// that each position stands for, and `at.1` for each short-term entry the
/// `PicOrderCnt` of its frame.
///
/// The list holds the fields that the DPB offers as [`fields_listed`] says. Of
/// two short-term fields of one parity, one of a frame at or below the current
/// `PicOrderCnt` stands in front of one of a frame above it; at or below it the
/// frame with the higher count comes first, above it the frame with the lower
/// count. Of two frames of one count, the DPB mentions the first one first. Of
/// two long-term fields of one parity, the one of the lower `LongTermFrameIdx`
/// stands first.
pub proof fn law_b_field_list0(
    dpb: Seq<DpbEntry>,
    current_poc: i32,
    current_structure: PicStructure,
    current_bottom: bool,
) -> (at: (Seq<int>, Seq<i32>))
    requires
        current_structure is TopField || current_structure is BottomField,
    ensures
        fields_listed(
            dpb,
            current_bottom,
            initial_lists_b(dpb, current_poc, current_structure, current_bottom).0,
            at.0,
        ),
        at.1.len() == dpb.len(),
        forall|i: int|
            0 <= i < dpb.len() && dpb[i].marking is ShortTerm ==> is_frame_poc(
                dpb,
                dpb[i].frame_num,
                #[trigger] at.1[i],
            ),
        forall|k: int, l: int|
            0 <= k < l < at.0.len() && dpb[#[trigger] at.0[k]].marking == dpb[
            #[trigger] at.0[l]].marking && (dpb[at.0[k]].structure is BottomField) == (
            dpb[at.0[l]].structure is BottomField) ==> {
                &&& dpb[at.0[k]].marking is ShortTerm ==> {
                    let p = at.1[at.0[k]];
                    let q = at.1[at.0[l]];
                    ||| p <= current_poc && q > current_poc
                    ||| p <= current_poc && q < p
                    ||| p > current_poc && q > p
                    ||| p == q && dpb[at.0[k]].frame_num != dpb[at.0[l]].frame_num
                        && mentioned_first(
                        dpb,
                        dpb[at.0[k]].frame_num,
                        dpb[at.0[l]].frame_num,
                    )
                }
                &&& dpb[at.0[k]].marking is LongTerm ==> dpb[at.0[k]].long_term_frame_idx
                    < dpb[at.0[l]].long_term_frame_idx
            },
{
    let poc = lemma_frame_pocs(dpb);
    let at = lemma_b_field_list0(dpb, current_poc, 0, u32::MAX, current_bottom, poc);
    (at, poc)
}

/// List 1 for a B slice of a field, position by position, before it is told apart
/// from list 0: `at.0` gives the entry that each position stands for, and `at.1`
/// for each short-term entry the `PicOrderCnt` of its frame.
///
/// The list holds the fields that the DPB offers as [`fields_listed`] says. Of
/// two short-term fields of one parity, one of a frame above the current
/// `PicOrderCnt` stands in front of one of a frame at or below it; above it the
/// frame with the lower count comes first, at or below it the frame with the
/// higher count. Of two frames of one count, the DPB mentions the first one
/// first. Of two long-term fields of one parity, the one of the lower
/// `LongTermFrameIdx` stands first. Only where this list would read as list 0 and
/// has two entries or more, its first two entries change places.
pub proof fn law_b_field_list1(
    dpb: Seq<DpbEntry>,
    current_poc: i32,
    current_structure: PicStructure,
    current_bottom: bool,
) -> (at: (Seq<int>, Seq<i32>))
    requires
        current_structure is TopField || current_structure is BottomField,
    ensures
        ({
            let list0 = initial_lists_b(dpb, current_poc, current_structure, current_bottom).0;
            let list1 = initial_lists_b(dpb, current_poc, current_structure, current_bottom).1;
            let plain = Seq::new(at.0.len(), |k: int| dpb[at.0[k]].dpb_key);
            &&& fields_listed(dpb, current_bottom, plain, at.0)
            &&& list1.len() == plain.len()
            &&& plain != list0 || plain.len() < 2 ==> list1 == plain
            &&& plain == list0 && plain.len() >= 2 ==> {
                &&& list1[0] == plain[1]
                &&& list1[1] == plain[0]
                &&& forall|k: int| 2 <= k < plain.len() ==> #[trigger] list1[k] == plain[k]
            }
        }),
        at.1.len() == dpb.len(),
        forall|i: int|
            0 <= i < dpb.len() && dpb[i].marking is ShortTerm ==> is_frame_poc(
                dpb,
                dpb[i].frame_num,
                #[trigger] at.1[i],
            ),
        forall|k: int, l: int|
            0 <= k < l < at.0.len() && dpb[#[trigger] at.0[k]].marking == dpb[
            #[trigger] at.0[l]].marking && (dpb[at.0[k]].structure is BottomField) == (
            dpb[at.0[l]].structure is BottomField) ==> {
                &&& dpb[at.0[k]].marking is ShortTerm ==> {
                    let p = at.1[at.0[k]];
                    let q = at.1[at.0[l]];
                    ||| p > current_poc && q <= current_poc
                    ||| p > current_poc && q > p
                    ||| p <= current_poc && q < p
                    ||| p == q && dpb[at.0[k]].frame_num != dpb[at.0[l]].frame_num
                        && mentioned_first(
                        dpb,
                        dpb[at.0[k]].frame_num,
                        dpb[at.0[l]].frame_num,
                    )
                }
                &&& dpb[at.0[k]].marking is LongTerm ==> dpb[at.0[k]].long_term_frame_idx
                    < dpb[at.0[l]].long_term_frame_idx
            },
{
    let poc = lemma_frame_pocs(dpb);
    let at = lemma_b_field_list1(dpb, current_poc, 0, u32::MAX, current_bottom, poc);
    let list = b_field_list1(dpb, current_poc, 0, u32::MAX, current_bottom);
    lemma_plain(dpb, at, current_bottom, list);
    (at, poc)
}

proof fn lemma_plain(dpb: Seq<DpbEntry>, at: Seq<int>, current_bottom: bool, list: Seq<u32>)
    requires
        fields_listed(dpb, current_bottom, list, at),
    ensures
        Seq::new(at.len(), |k: int| dpb[at[k]].dpb_key) == list,
{
    let plain = Seq::new(at.len(), |k: int| dpb[at[k]].dpb_key);
    assert forall|k: int| 0 <= k < plain.len() implies plain[k] == list[k] by {
        assert(offered(dpb, at[k]));
    }
    assert(plain =~= list);
}

proof fn lemma_frame_pocs(dpb: Seq<DpbEntry>) -> (poc: Seq<i32>)
    ensures
        poc.len() == dpb.len(),
        forall|i: int|
            0 <= i < dpb.len() ==> #[trigger] poc[i] == lowest_poc(dpb, false, dpb[i].frame_num),
        forall|i: int|
            0 <= i < dpb.len() && dpb[i].marking is ShortTerm ==> is_frame_poc(
                dpb,
                dpb[i].frame_num,
                #[trigger] poc[i],
            ),
{
    let poc = Seq::new(dpb.len(), |i: int| lowest_poc(dpb, false, dpb[i].frame_num));
    assert forall|i: int| 0 <= i < dpb.len() && dpb[i].marking is ShortTerm implies is_frame_poc(
        dpb,
        dpb[i].frame_num,
        #[trigger] poc[i],
    ) by {
        let id = dpb[i].frame_num;
        law_lowest_poc(dpb, false, id);
        assert(belongs_to(dpb[i], false, id));
        let j = choose|j: int|
            0 <= j < dpb.len() && belongs_to(#[trigger] dpb[j], false, id) && dpb[j].pic_order_cnt
                == lowest_poc(dpb, false, id);
        assert(dpb[j].marking is ShortTerm);
        assert forall|h: int|
            0 <= h < dpb.len() && (#[trigger] dpb[h]).marking is ShortTerm && dpb[h].frame_num
                == id implies poc[i] <= dpb[h].pic_order_cnt by {
            assert(belongs_to(dpb[h], false, id));
        }
    }
    poc
}

} // verus!
