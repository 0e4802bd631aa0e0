//! Modification of reference picture lists.

use vstd::prelude::*;

use crate::arith::{fits_i32, low_i32, wrap_i32};
use crate::picture::{current_picture, CurrentPicture, DpbEntry, RplmOp};

verus! {

/// The list entry that stands for "no reference picture".
pub const NO_REFERENCE: u32 = 0xffff_ffff;

/// `s` brought to length `n`: cut off, or padded with [`NO_REFERENCE`].
pub open spec fn fit(s: Seq<u32>, n: nat) -> Seq<u32> {
    Seq::new(
        n,
        |i: int|
            if i < s.len() {
                s[i]
            } else {
                NO_REFERENCE
            },
    )
}

/// Being another key than `key`.
pub open spec fn other_than(key: u32) -> spec_fn(u32) -> bool {
    |k: u32| k != key
}

/// A list of `n` entries after `key` was put in at position `at`: what stands
/// in front of `at` stays, then comes `key`, then the rest without `key`. A
/// position behind the end changes nothing.
pub open spec fn splice(list: Seq<u32>, at: nat, n: nat, key: u32) -> Seq<u32> {
    if at >= n {
        list
    } else {
        fit(list.take(at as int).push(key) + list.skip(at as int).filter(other_than(key)), n)
    }
}

/// A list of `n` entries after each of `keys` was put in, one behind the other
/// from the front.
pub open spec fn splice_all(list: Seq<u32>, keys: Seq<u32>, n: nat) -> Seq<u32>
    decreases keys.len(),
{
    if keys.len() == 0 {
        list
    } else {
        splice(
            splice_all(list, keys.drop_last(), n),
            (keys.len() - 1) as nat,
            n,
            keys.last(),
        )
    }
}

/// The key of the first entry of the DPB that `wanted` holds of.
pub open spec fn first_key(dpb: Seq<DpbEntry>, wanted: spec_fn(DpbEntry) -> bool) -> Option<u32> {
    let hits = dpb.filter(wanted);
    if hits.len() == 0 {
        None
    } else {
        Some(hits[0].dpb_key)
    }
}

/// Being a short-term reference of the given `PicNum`.
pub open spec fn short_term_numbered(pic_num: int, current: CurrentPicture) -> spec_fn(
    DpbEntry,
) -> bool {
    |e: DpbEntry| e.marking is ShortTerm && e.pic_num_for(current) == pic_num
}

/// Being a long-term reference of the given `LongTermPicNum`.
pub open spec fn long_term_numbered(pic_num: int, is_field: bool, bottom: bool) -> spec_fn(
    DpbEntry,
) -> bool {
    |e: DpbEntry| e.marking is LongTerm && e.long_term_pic_num_for(is_field, bottom) == pic_num
}

/// The distance that `abs_diff_pic_num_minus1` stands for, kept in 32 bits.
pub open spec fn pic_num_distance(abs_diff_minus1: u32) -> int {
    wrap_i32(abs_diff_minus1 + 1) as int
}

/// The picture number that `op` makes of the prediction `pred`, modulo
/// `MaxPicNum`. It is the prediction for the next operation. A long-term
/// operation leaves the prediction as it is.
pub open spec fn predicted(op: RplmOp, pred: int, current: CurrentPicture) -> int {
    match op {
        RplmOp::Subtract(d) => {
            let p = pred - pic_num_distance(d);
            if p < 0 {
                p + current.max_pic_num()
            } else {
                p
            }
        },
        RplmOp::Add(d) => {
            let p = pred + pic_num_distance(d);
            if p >= current.max_pic_num() {
                p - current.max_pic_num()
            } else {
                p
            }
        },
        RplmOp::LongTerm(_) => pred,
    }
}

/// The prediction after the first `n` operations. It starts at `CurrPicNum`.
pub open spec fn prediction(ops: Seq<RplmOp>, n: nat, current: CurrentPicture) -> int
    decreases n,
{
    if n == 0 {
        current.curr_pic_num()
    } else {
        predicted(ops[n - 1], prediction(ops, (n - 1) as nat, current), current)
    }
}

/// The `PicNum` of the picture that a predicted number names: a number above
/// `CurrPicNum` belongs to the previous turn.
pub open spec fn named_pic_num(p: int, current: CurrentPicture) -> int {
    if p > current.curr_pic_num() {
        p - current.max_pic_num()
    } else {
        p
    }
}

/// The property that singles out the pictures which `op` names, where `p` is
/// the predicted number that `op` leads to.
pub open spec fn named_by(op: RplmOp, p: int, current: CurrentPicture) -> spec_fn(
    DpbEntry,
) -> bool {
    match op {
        RplmOp::LongTerm(n) => long_term_numbered(
            wrap_i32(n as int) as int,
            current.is_field,
            current.bottom,
        ),
        _ => short_term_numbered(named_pic_num(p, current), current),
    }
}

/// The keys of the pictures that the first `n` operations find in the DPB, in
/// the order of the operations. An operation that names no picture of the DPB
/// contributes nothing.
pub open spec fn picks(
    ops: Seq<RplmOp>,
    n: nat,
    dpb: Seq<DpbEntry>,
    current: CurrentPicture,
) -> Seq<u32>
    decreases n,
{
    if n == 0 {
        Seq::empty()
    } else {
        let before = picks(ops, (n - 1) as nat, dpb, current);
        match first_key(dpb, named_by(ops[n - 1], prediction(ops, n, current), current)) {
            Some(key) => before.push(key),
            None => before,
        }
    }
}

/// A reference picture list after modification.
pub open spec fn modified_list(
    list: Seq<u32>,
    ops: Seq<RplmOp>,
    dpb: Seq<DpbEntry>,
    num_active: u32,
    current: CurrentPicture,
) -> Seq<u32> {
    splice_all(
        fit(list, num_active as nat),
        picks(ops, ops.len(), dpb, current),
        num_active as nat,
    )
}

/// Whether `LongTermPicNum` can be formed of each long-term reference that is
/// looked at in the search for the first one that `wanted` holds of.
pub open spec fn long_term_search_defined(
    dpb: Seq<DpbEntry>,
    wanted: spec_fn(DpbEntry) -> bool,
    is_field: bool,
) -> bool {
    forall|i: int|
        0 <= i < dpb.len() && (#[trigger] dpb[i]).marking is LongTerm && (forall|j: int|
            0 <= j < i ==> !wanted(#[trigger] dpb[j])) ==> dpb[i].long_term_pic_num_defined(
            is_field,
        )
}

/// Whether the arithmetic of one operation stays within 32 bits, where `pred`
/// is the prediction in front of it.
pub open spec fn op_defined(
    op: RplmOp,
    pred: int,
    dpb: Seq<DpbEntry>,
    current: CurrentPicture,
) -> bool {
    let p = predicted(op, pred, current);
    match op {
        RplmOp::Subtract(d) => {
            &&& d < u32::MAX
            &&& fits_i32(pred - pic_num_distance(d))
            &&& fits_i32(p)
            &&& fits_i32(named_pic_num(p, current))
        },
        RplmOp::Add(d) => {
            &&& d < u32::MAX
            &&& fits_i32(pred + pic_num_distance(d))
            &&& fits_i32(p)
            &&& fits_i32(named_pic_num(p, current))
        },
        RplmOp::LongTerm(_) => long_term_search_defined(
            dpb,
            named_by(op, p, current),
            current.is_field,
        ),
    }
}

/// Whether the arithmetic of a modification stays within 32 bits. It does for
/// every slice header that keeps to its value ranges (see
/// [`law_modification_in_range`](crate::modify_laws::law_modification_in_range)).
pub open spec fn modification_defined(
    ops: Seq<RplmOp>,
    dpb: Seq<DpbEntry>,
    current: CurrentPicture,
) -> bool {
    ops.len() > 0 ==> {
        &&& current.curr_pic_num_defined()
        &&& current.max_pic_num_defined()
        &&& forall|n: int|
            0 <= n < ops.len() ==> op_defined(
                #[trigger] ops[n],
                prediction(ops, n as nat, current),
                dpb,
                current,
            )
    }
}

proof fn lemma_first_hit(dpb: Seq<DpbEntry>, wanted: spec_fn(DpbEntry) -> bool, i: int)
    requires
        0 <= i < dpb.len(),
        wanted(dpb[i]),
        forall|j: int| 0 <= j < i ==> !wanted(#[trigger] dpb[j]),
    ensures
        first_key(dpb, wanted) == Some(dpb[i].dpb_key),
{
    let front = dpb.take(i);
    let back = dpb.skip(i + 1);
    assert(front.push(dpb[i]) + back == dpb);
    lemma_no_hit(front, wanted);
    front.lemma_filter_push(dpb[i], wanted);
    Seq::filter_distributes_over_add(front.push(dpb[i]), back, wanted);
}

proof fn lemma_no_hit(dpb: Seq<DpbEntry>, wanted: spec_fn(DpbEntry) -> bool)
    requires
        forall|j: int| 0 <= j < dpb.len() ==> !wanted(#[trigger] dpb[j]),
    ensures
        dpb.filter(wanted).len() == 0,
        first_key(dpb, wanted) is None,
{
    dpb.lemma_all_neg_filter_empty(wanted);
}

/// Looks for the short-term reference of the given `PicNum`.
fn find_short_term(dpb: &[DpbEntry], pic_num: i32, current: CurrentPicture) -> (r: Option<u32>)
    ensures
        r == first_key(dpb@, short_term_numbered(pic_num as int, current)),
{
    let ghost wanted = short_term_numbered(pic_num as int, current);
    let mut i: usize = 0;
    while i < dpb.len()
        invariant
            i <= dpb@.len(),
            wanted == short_term_numbered(pic_num as int, current),
            forall|j: int| 0 <= j < i ==> !wanted(#[trigger] dpb@[j]),
        decreases dpb@.len() - i,
    {
        let e: &DpbEntry = &dpb[i];
        if e.is_short_term() && e.pic_num(
            current.frame_num,
            current.max_frame_num,
            current.is_field,
            current.bottom,
        ) == pic_num {
            proof {
                lemma_first_hit(dpb@, wanted, i as int);
            }
            return Some(e.dpb_key);
        }
        i = i + 1;
    }
    proof {
        lemma_no_hit(dpb@, wanted);
    }
    None
}

/// Looks for the long-term reference of the given `LongTermPicNum`.
fn find_long_term(dpb: &[DpbEntry], pic_num: i32, is_field: bool, bottom: bool) -> (r: Option<u32>)
    requires
        long_term_search_defined(
            dpb@,
            long_term_numbered(pic_num as int, is_field, bottom),
            is_field,
        ),
    ensures
        r == first_key(dpb@, long_term_numbered(pic_num as int, is_field, bottom)),
{
    let ghost wanted = long_term_numbered(pic_num as int, is_field, bottom);
    let mut i: usize = 0;
    while i < dpb.len()
        invariant
            i <= dpb@.len(),
            wanted == long_term_numbered(pic_num as int, is_field, bottom),
            long_term_search_defined(dpb@, wanted, is_field),
            forall|j: int| 0 <= j < i ==> !wanted(#[trigger] dpb@[j]),
        decreases dpb@.len() - i,
    {
        let e: &DpbEntry = &dpb[i];
        if e.is_long_term() && e.long_term_pic_num(is_field, bottom) == pic_num {
            proof {
                lemma_first_hit(dpb@, wanted, i as int);
            }
            return Some(e.dpb_key);
        }
        i = i + 1;
    }
    proof {
        lemma_no_hit(dpb@, wanted);
    }
    None
}

/// Moves the prediction by the distance that a short-term operation gives.
fn advance_prediction(op: RplmOp, pred: i32, current: CurrentPicture) -> (r: i32)
    requires
        current.max_pic_num_defined(),
        op matches RplmOp::Subtract(d) ==> d < u32::MAX && fits_i32(pred - pic_num_distance(d)),
        op matches RplmOp::Add(d) ==> d < u32::MAX && fits_i32(pred + pic_num_distance(d)),
        fits_i32(predicted(op, pred as int, current)),
    ensures
        r == predicted(op, pred as int, current),
{
    match op {
        RplmOp::Subtract(abs_diff) => {
            let moved: i32 = pred - low_i32((abs_diff + 1) as i64);
            if moved < 0 {
                moved + current.pic_num_modulus()
            } else {
                moved
            }
        },
        RplmOp::Add(abs_diff) => {
            let moved: i32 = pred + low_i32((abs_diff + 1) as i64);
            let max_pic_num: i32 = current.pic_num_modulus();
            if moved >= max_pic_num {
                moved - max_pic_num
            } else {
                moved
            }
        },
        RplmOp::LongTerm(_) => pred,
    }
}

/// Looks for the picture that an operation names, where `p` is the predicted
/// number that the operation led to.
fn find_named(op: RplmOp, p: i32, dpb: &[DpbEntry], current: CurrentPicture) -> (r: Option<u32>)
    requires
        current.curr_pic_num_defined(),
        current.max_pic_num_defined(),
        match op {
            RplmOp::LongTerm(_) => long_term_search_defined(
                dpb@,
                named_by(op, p as int, current),
                current.is_field,
            ),
            _ => fits_i32(named_pic_num(p as int, current)),
        },
    ensures
        r == first_key(dpb@, named_by(op, p as int, current)),
{
    match op {
        RplmOp::LongTerm(long_term_pic_num) => {
            let number: i32 = low_i32(long_term_pic_num as i64);
            find_long_term(dpb, number, current.is_field, current.bottom)
        },
        _ => {
            let number: i32 = if p > current.own_pic_num() {
                p - current.pic_num_modulus()
            } else {
                p
            };
            find_short_term(dpb, number, current)
        },
    }
}

/// Brings a list to exactly `n` entries.
fn fit_list(list: &mut Vec<u32>, n: usize)
    ensures
        final(list)@ == fit(old(list)@, n as nat),
{
    let ghost start = list@;
    if list.len() > n {
        list.truncate(n);
    }
    while list.len() < n
        invariant
            list@.len() <= n,
            list@ == fit(start, list@.len()),
            start.len() <= list@.len() || list@.len() == n,
        decreases n - list@.len(),
    {
        list.push(NO_REFERENCE);
    }
}

/// Puts `target_key` in at `ref_idx_lx`, in front of what stands there, and
/// drops it from the rest of the list, which stays `num_active` long.
fn splice_into_list(list: &mut Vec<u32>, ref_idx_lx: usize, num_active: usize, target_key: u32)
    requires
        ref_idx_lx < num_active ==> ref_idx_lx <= old(list)@.len(),
    ensures
        final(list)@ == splice(old(list)@, ref_idx_lx as nat, num_active as nat, target_key),
{
    if ref_idx_lx >= num_active {
        return;
    }
    let ghost keep = other_than(target_key);
    let mut tmp: Vec<u32> = Vec::new();
    let mut i: usize = 0;
    while i < ref_idx_lx
        invariant
            i <= ref_idx_lx <= list@.len(),
            tmp@ == list@.take(i as int),
        decreases ref_idx_lx - i,
    {
        tmp.push(list[i]);
        i = i + 1;
    }
    tmp.push(target_key);
    let ghost front = tmp@;
    assert(list@.subrange(i as int, i as int).filter(keep) == Seq::<u32>::empty()) by {
        reveal(Seq::filter);
    }
    while i < list.len()
        invariant
            ref_idx_lx <= i <= list@.len(),
            keep == other_than(target_key),
            tmp@ == front + list@.subrange(ref_idx_lx as int, i as int).filter(keep),
        decreases list@.len() - i,
    {
        let k: u32 = list[i];
        proof {
            let done = list@.subrange(ref_idx_lx as int, i as int);
            assert(list@.subrange(ref_idx_lx as int, i + 1) == done.push(k));
            done.lemma_filter_push(k, keep);
        }
        if k != target_key {
            tmp.push(k);
        }
        i = i + 1;
    }
    assert(list@.subrange(ref_idx_lx as int, i as int) == list@.skip(ref_idx_lx as int));
    fit_list(&mut tmp, num_active);
    *list = tmp;
}

/// Applies list modification operations to a reference picture list.
///
/// The list is first brought to `num_active` entries: cut off if it has more,
/// padded with [`NO_REFERENCE`] if it has fewer. Each operation then names a
/// picture, a short-term one by its distance from the prediction or a long-term
/// one by its number. The first picture of the DPB that goes by that name is
/// put at the next position from the front, and is dropped from the rest of the
/// list. An operation that names no picture of the DPB leaves list and position
/// as they are.
pub fn modify_ref_pic_list(
    list: &mut Vec<u32>,
    ops: &[RplmOp],
    dpb: &[DpbEntry],
    num_active: u32,
    current_frame_num: u32,
    max_frame_num: u32,
    current_is_field: bool,
    current_bottom: bool,
)
    requires
        modification_defined(
            ops@,
            dpb@,
            current_picture(current_frame_num, max_frame_num, current_is_field, current_bottom),
        ),
    ensures
        final(list)@ == modified_list(
            old(list)@,
            ops@,
            dpb@,
            num_active,
            current_picture(current_frame_num, max_frame_num, current_is_field, current_bottom),
        ),
        final(list)@.len() == num_active,
{
    let current: CurrentPicture = CurrentPicture {
        frame_num: current_frame_num,
        max_frame_num: max_frame_num,
        is_field: current_is_field,
        bottom: current_bottom,
    };
    let target: usize = num_active as usize;
    fit_list(list, target);
    let ghost fitted = list@;
    if ops.len() == 0 {
        return;
    }
    let mut ref_idx_lx: usize = 0;
    let mut pic_num_lx_pred: i32 = current.own_pic_num();
    let mut n: usize = 0;
    while n < ops.len()
        invariant
            n <= ops@.len(),
            ops@.len() > 0,
            modification_defined(ops@, dpb@, current),
            target == num_active,
            fitted.len() == target,
            list@.len() == target,
            ref_idx_lx <= n,
            pic_num_lx_pred == prediction(ops@, n as nat, current),
            ref_idx_lx == picks(ops@, n as nat, dpb@, current).len(),
            list@ == splice_all(fitted, picks(ops@, n as nat, dpb@, current), target as nat),
        decreases ops@.len() - n,
    {
        let op: RplmOp = ops[n];
        assert(op_defined(ops@[n as int], prediction(ops@, n as nat, current), dpb@, current));
        pic_num_lx_pred = advance_prediction(op, pic_num_lx_pred, current);
        let found: Option<u32> = find_named(op, pic_num_lx_pred, dpb, current);
        if let Some(key) = found {
            proof {
                let before = picks(ops@, n as nat, dpb@, current);
                assert(before.push(key).drop_last() == before);
            }
            splice_into_list(list, ref_idx_lx, target, key);
            ref_idx_lx = ref_idx_lx + 1;
        }
        n = n + 1;
    }
}

} // verus!
