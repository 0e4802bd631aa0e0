//! What holds of every picture number.

use vstd::prelude::*;

use crate::arith::law_wrap_i32;
use crate::picture::{current_picture, frame_num_wrap, CurrentPicture, DpbEntry};

verus! {

/// `FrameNumWrap` counts back from the current picture: it is the current
/// `frame_num` less the age of the frame, which is how many steps of the counter
/// ago the frame had its `frame_num`. So it is at most the current `frame_num`
/// and less than a turn below it, and the older of two frames has the smaller
/// one.
pub proof fn law_frame_num_wrap(frame_num: u32, current_frame_num: u32, max_frame_num: u32)
    requires
        frame_num < max_frame_num,
        current_frame_num < max_frame_num,
    ensures
        ({
            let wrap = frame_num_wrap(frame_num, current_frame_num, max_frame_num);
            let age = (current_frame_num - frame_num) % (max_frame_num as int);
            &&& wrap == current_frame_num - age
            &&& current_frame_num - max_frame_num < wrap <= current_frame_num
            &&& wrap % (max_frame_num as int) == frame_num
        }),
{
    let max = max_frame_num as int;
    let behind = current_frame_num - frame_num;
    if behind < 0 {
        vstd::arithmetic::div_mod::lemma_mod_add_multiples_vanish(behind, max);
        vstd::arithmetic::div_mod::lemma_small_mod((behind + max) as nat, max as nat);
        vstd::arithmetic::div_mod::lemma_mod_add_multiples_vanish(frame_num - max, max);
    } else {
        vstd::arithmetic::div_mod::lemma_small_mod(behind as nat, max as nat);
    }
    vstd::arithmetic::div_mod::lemma_small_mod(frame_num as nat, max as nat);
}

/// In range, `PicNum` is what it is before it is kept in 32 bits.
proof fn lemma_pic_num_fits(e: DpbEntry, current: CurrentPicture)
    requires
        current.frame_num < current.max_frame_num <= 0x2000_0000,
        e.frame_num < current.max_frame_num,
    ensures
        e.pic_num_for(current) == ({
            let wrap = frame_num_wrap(e.frame_num, current.frame_num, current.max_frame_num);
            if !current.is_field {
                wrap
            } else if e.structure.has_parity(current.bottom) {
                2 * wrap + 1
            } else {
                2 * wrap
            }
        }),
{
    let wrap = frame_num_wrap(e.frame_num, current.frame_num, current.max_frame_num);
    law_wrap_i32(wrap, 0);
    law_wrap_i32(2 * wrap, 0);
    law_wrap_i32(2 * wrap + 1, 0);
}

proof fn lemma_current_numbers_fit(current: CurrentPicture)
    requires
        current.frame_num < current.max_frame_num <= 0x2000_0000,
    ensures
        current.curr_pic_num() == (if current.is_field {
            2 * current.frame_num + 1
        } else {
            current.frame_num as int
        }),
        current.max_pic_num() == (if current.is_field {
            2 * current.max_frame_num
        } else {
            current.max_frame_num as int
        }),
{
}

/// `PicNum` is at most `CurrPicNum` and less than `MaxPicNum` below it, and it
/// tells short-term references apart: two entries share one only if they share
/// their `frame_num` and, among fields, offer the parity of the current field
/// both or neither.
pub proof fn law_pic_num(a: DpbEntry, b: DpbEntry, current: CurrentPicture)
    requires
        current.frame_num < current.max_frame_num <= 0x2000_0000,
        a.frame_num < current.max_frame_num,
        b.frame_num < current.max_frame_num,
    ensures
        current.curr_pic_num() - current.max_pic_num() < a.pic_num_for(current)
            <= current.curr_pic_num(),
        a.pic_num_for(current) == b.pic_num_for(current) <==> a.frame_num == b.frame_num && (
        current.is_field ==> a.structure.has_parity(current.bottom) == b.structure.has_parity(
            current.bottom,
        )),
{
    lemma_pic_num_fits(a, current);
    lemma_pic_num_fits(b, current);
    lemma_current_numbers_fit(current);
}

/// `PicNum` over the fields of an entry, kept in 32 bits: it stays congruent
/// modulo 2^32 and is exact where it fits. A `frame_num` above the current one
/// counts as `max_frame_num` less. In a field that is doubled, and one more for a
/// frame, a field pair or a field of the parity of the current field. For numbers
/// in range it is the current `frame_num` less the age of the picture, the number
/// of steps since the counter left it.
pub proof fn law_pic_num_value(
    e: DpbEntry,
    current_frame_num: u32,
    max_frame_num: u32,
    current_is_field: bool,
    current_bottom: bool,
)
    ensures
        ({
            let number = e.pic_num_for(
                current_picture(current_frame_num, max_frame_num, current_is_field, current_bottom),
            ) as int;
            let bit: int = if e.structure is Frame || e.structure is FieldPair || (
            e.structure is BottomField) == current_bottom {
                1
            } else {
                0
            };
            let back = if e.frame_num > current_frame_num {
                e.frame_num - max_frame_num
            } else {
                e.frame_num as int
            };
            let max = max_frame_num as int;
            let age = (current_frame_num - e.frame_num) % max;
            let exact = if current_is_field {
                2 * back + bit
            } else {
                back
            };
            &&& (number - exact) % 0x1_0000_0000 == 0
            &&& i32::MIN <= exact <= i32::MAX ==> number == exact
            &&& e.frame_num < max && current_frame_num < max <= 0x2000_0000 ==> number == (
            if current_is_field {
                2 * (current_frame_num - age) + bit
            } else {
                current_frame_num - age
            })
        }),
{
    let wrap = frame_num_wrap(e.frame_num, current_frame_num, max_frame_num);
    law_wrap_i32(wrap, 0);
    law_wrap_i32(2 * wrap, 0);
    law_wrap_i32(2 * wrap + 1, 0);
    if e.frame_num < max_frame_num && current_frame_num < max_frame_num {
        law_frame_num_wrap(e.frame_num, current_frame_num, max_frame_num);
    }
}

/// `LongTermPicNum` over the fields of an entry, kept in 32 bits: it stays
/// congruent modulo 2^32 and is exact where it fits. It is the
/// `LongTermFrameIdx`, which in a field is doubled, and one more for a frame, a
/// field pair or a field of the parity of the current field.
pub proof fn law_long_term_pic_num_value(e: DpbEntry, current_is_field: bool, current_bottom: bool)
    ensures
        ({
            let number = e.long_term_pic_num_for(current_is_field, current_bottom) as int;
            let bit: int = if e.structure is Frame || e.structure is FieldPair || (
            e.structure is BottomField) == current_bottom {
                1
            } else {
                0
            };
            let exact = if current_is_field {
                2 * e.long_term_frame_idx + bit
            } else {
                e.long_term_frame_idx as int
            };
            &&& (number - exact) % 0x1_0000_0000 == 0
            &&& exact <= i32::MAX ==> number == exact
        }),
{
    let idx = e.long_term_frame_idx as int;
    law_wrap_i32(idx, 0);
    law_wrap_i32(2 * idx, 0);
    law_wrap_i32(2 * idx + 1, 0);
}

/// `LongTermPicNum` tells long-term references apart: two entries share one only
/// if they share their `LongTermFrameIdx` and, among fields, offer the parity of
/// the current field both or neither.
pub proof fn law_long_term_pic_num(a: DpbEntry, b: DpbEntry, is_field: bool, bottom: bool)
    requires
        a.long_term_pic_num_defined(is_field),
        b.long_term_pic_num_defined(is_field),
    ensures
        a.long_term_pic_num_for(is_field, bottom) == b.long_term_pic_num_for(is_field, bottom)
            <==> a.long_term_frame_idx == b.long_term_frame_idx && (is_field
            ==> a.structure.has_parity(bottom) == b.structure.has_parity(bottom)),
{
    let number = |e: DpbEntry|
        if !is_field {
            e.long_term_frame_idx as int
        } else if e.structure.has_parity(bottom) {
            2 * e.long_term_frame_idx + 1
        } else {
            2 * e.long_term_frame_idx
        };
    law_wrap_i32(number(a), number(b));
}

} // verus!
