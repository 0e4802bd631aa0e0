//! Decoded pictures as the buffer holds them, and the operations that a slice
//! header carries for them.

use vstd::prelude::*;

use crate::arith::{low_i32, wrap_i32};

verus! {

/// Marking state of a decoded picture in the DPB.
///
/// A reference picture is either short-term or long-term. A picture that is
/// unused for reference may be evicted by whoever owns the buffer.
#[derive(Debug, Clone, Copy, PartialEq, Eq, Structural)]
pub enum RefMarking {
    ShortTerm,
    LongTerm,
    /// Marked as "unused for reference".
    Unused,
}

/// Field / frame descriptor of a DPB entry or of the current picture.
#[derive(Debug, Clone, Copy, PartialEq, Eq, Structural)]
pub enum PicStructure {
    TopField,
    BottomField,
    Frame,
    /// Complementary field pair (two fields that share a `frame_num`).
    FieldPair,
}

impl PicStructure {
    /// Whether this is a single coded field.
    pub open spec fn is_single_field(self) -> bool {
        self is TopField || self is BottomField
    }

    /// Whether a picture of this structure has a field of the parity of the
    /// current field to offer. A frame and a field pair hold both parities.
    pub open spec fn has_parity(self, bottom: bool) -> bool {
        match self {
            PicStructure::TopField => !bottom,
            PicStructure::BottomField => bottom,
            PicStructure::Frame | PicStructure::FieldPair => true,
        }
    }

    /// True when this is a coded field (`field_pic_flag == 1` at decode time).
    pub fn is_field(self) -> (r: bool)
        ensures
            r == self.is_single_field(),
            r == (self is TopField || self is BottomField),
    {
        matches!(self, PicStructure::TopField | PicStructure::BottomField)
    }

    /// True when this is a bottom field.
    pub fn is_bottom(self) -> (r: bool)
        ensures
            r == (self is BottomField),
    {
        matches!(self, PicStructure::BottomField)
    }
}

/// `FrameNumWrap`: a `frame_num` above that of the current picture belongs to
/// the previous turn of the counter, so it counts as `max_frame_num` less.
pub open spec fn frame_num_wrap(frame_num: u32, current_frame_num: u32, max_frame_num: u32) -> int {
    if frame_num > current_frame_num {
        frame_num - max_frame_num
    } else {
        frame_num as int
    }
}

/// Computes `FrameNumWrap`.
pub(crate) fn wrapped_frame_num(
    frame_num: u32,
    current_frame_num: u32,
    max_frame_num: u32,
) -> (r: i64)
    ensures
        r == frame_num_wrap(frame_num, current_frame_num, max_frame_num),
{
    if frame_num > current_frame_num {
        frame_num as i64 - max_frame_num as i64
    } else {
        frame_num as i64
    }
}

/// What picture numbers are relative to: the picture that is being decoded, and
/// `MaxFrameNum`, the modulus of the `frame_num` counter.
#[derive(Debug, Clone, Copy)]
pub struct CurrentPicture {
    pub frame_num: u32,
    pub max_frame_num: u32,
    pub is_field: bool,
    pub bottom: bool,
}

/// The current picture of the given properties.
pub open spec fn current_picture(
    frame_num: u32,
    max_frame_num: u32,
    is_field: bool,
    bottom: bool,
) -> CurrentPicture {
    CurrentPicture { frame_num, max_frame_num, is_field, bottom }
}

impl CurrentPicture {
    /// `CurrPicNum`, kept in 32 bits: `frame_num`, or among fields one more
    /// than twice that.
    pub open spec fn curr_pic_num(self) -> int {
        wrap_i32(
            if self.is_field {
                2 * self.frame_num + 1
            } else {
                self.frame_num as int
            },
        ) as int
    }

    /// `MaxPicNum`, kept in 32 bits: `MaxFrameNum`, or among fields twice that.
    pub open spec fn max_pic_num(self) -> int {
        wrap_i32(
            if self.is_field {
                2 * self.max_frame_num
            } else {
                self.max_frame_num as int
            },
        ) as int
    }

    /// Whether `CurrPicNum` can be formed in 32 bits.
    pub open spec fn curr_pic_num_defined(self) -> bool {
        self.is_field ==> self.frame_num <= 0x7fff_ffff
    }

    /// Whether `MaxPicNum` can be formed in 32 bits.
    pub open spec fn max_pic_num_defined(self) -> bool {
        self.is_field ==> self.max_frame_num <= 0x7fff_ffff
    }

    /// Computes `CurrPicNum`.
    pub(crate) fn own_pic_num(&self) -> (r: i32)
        requires
            self.curr_pic_num_defined(),
        ensures
            r == self.curr_pic_num(),
    {
        if self.is_field {
            low_i32((2 * self.frame_num + 1) as i64)
        } else {
            low_i32(self.frame_num as i64)
        }
    }

    /// Computes `MaxPicNum`.
    pub(crate) fn pic_num_modulus(&self) -> (r: i32)
        requires
            self.max_pic_num_defined(),
        ensures
            r == self.max_pic_num(),
    {
        if self.is_field {
            low_i32((2 * self.max_frame_num) as i64)
        } else {
            low_i32(self.max_frame_num as i64)
        }
    }
}

/// A decoded picture as held in the DPB.
#[derive(Debug)]
pub struct DpbEntry {
    /// `frame_num` from the slice header(s) of the picture. Only meaningful
    /// for short-term references.
    pub frame_num: u32,
    pub top_field_order_cnt: i32,
    pub bottom_field_order_cnt: i32,
    /// `PicOrderCnt` of the picture: the lower of the two field counts for a
    /// frame or a complementary field pair, or the single field's count.
    pub pic_order_cnt: i32,
    pub structure: PicStructure,
    pub marking: RefMarking,
    /// `LongTermFrameIdx` when `marking` is long-term. Unused otherwise.
    pub long_term_frame_idx: u32,
    /// Storage key, supplied by the caller and not interpreted here.
    pub dpb_key: u32,
}

impl Clone for DpbEntry {
    fn clone(&self) -> (r: Self)
        ensures
            r == *self,
    {
        DpbEntry {
            frame_num: self.frame_num,
            top_field_order_cnt: self.top_field_order_cnt,
            bottom_field_order_cnt: self.bottom_field_order_cnt,
            pic_order_cnt: self.pic_order_cnt,
            structure: self.structure,
            marking: self.marking,
            long_term_frame_idx: self.long_term_frame_idx,
            dpb_key: self.dpb_key,
        }
    }
}

impl DpbEntry {
    /// `PicNum` of this entry, kept in 32 bits. In a frame it is
    /// `FrameNumWrap`; among fields it is twice that, and one more for an
    /// entry that offers the parity of the current field.
    pub open spec fn pic_num_for(self, current: CurrentPicture) -> i32 {
        let wrap = frame_num_wrap(self.frame_num, current.frame_num, current.max_frame_num);
        wrap_i32(
            if !current.is_field {
                wrap
            } else if self.structure.has_parity(current.bottom) {
                2 * wrap + 1
            } else {
                2 * wrap
            },
        )
    }

    /// `LongTermPicNum` of this entry, kept in 32 bits. In a frame it is
    /// `LongTermFrameIdx`; among fields it is twice that, and one more for an
    /// entry that offers the parity of the current field.
    pub open spec fn long_term_pic_num_for(self, is_field: bool, bottom: bool) -> i32 {
        wrap_i32(
            if !is_field {
                self.long_term_frame_idx as int
            } else if self.structure.has_parity(bottom) {
                2 * self.long_term_frame_idx + 1
            } else {
                2 * self.long_term_frame_idx
            },
        )
    }

    /// Whether `LongTermPicNum` can be formed in 32 bits: among fields
    /// `LongTermFrameIdx` is doubled.
    pub open spec fn long_term_pic_num_defined(self, current_is_field: bool) -> bool {
        current_is_field ==> self.long_term_frame_idx <= 0x7fff_ffff
    }

    /// Derives `PicNum` for a short-term reference.
    ///
    /// `current_frame_num` is the `frame_num` of the picture being decoded and
    /// `max_frame_num` is `MaxFrameNum`, the modulus of the counter.
    pub fn pic_num(
        &self,
        current_frame_num: u32,
        max_frame_num: u32,
        current_is_field: bool,
        current_bottom: bool,
    ) -> (r: i32)
        ensures
            r == self.pic_num_for(
                current_picture(current_frame_num, max_frame_num, current_is_field, current_bottom),
            ),
    {
        let wrap: i64 = wrapped_frame_num(self.frame_num, current_frame_num, max_frame_num);
        if !current_is_field {
            low_i32(wrap)
        } else if self.offers_parity(current_bottom) {
            low_i32(2 * wrap + 1)
        } else {
            low_i32(2 * wrap)
        }
    }

    /// Derives `LongTermPicNum` for a long-term reference.
    pub fn long_term_pic_num(&self, current_is_field: bool, current_bottom: bool) -> (r: i32)
        requires
            self.long_term_pic_num_defined(current_is_field),
        ensures
            r == self.long_term_pic_num_for(current_is_field, current_bottom),
    {
        if !current_is_field {
            low_i32(self.long_term_frame_idx as i64)
        } else if self.offers_parity(current_bottom) {
            low_i32((2 * self.long_term_frame_idx + 1) as i64)
        } else {
            low_i32((2 * self.long_term_frame_idx) as i64)
        }
    }

    /// Whether the entry holds a field of the given parity.
    pub(crate) fn offers_parity(&self, bottom: bool) -> (r: bool)
        ensures
            r == self.structure.has_parity(bottom),
    {
        match self.structure {
            PicStructure::TopField => !bottom,
            PicStructure::BottomField => bottom,
            PicStructure::Frame | PicStructure::FieldPair => true,
        }
    }

    /// True if this entry is a short-term reference.
    pub fn is_short_term(&self) -> (r: bool)
        ensures
            r == (self.marking is ShortTerm),
    {
        matches!(self.marking, RefMarking::ShortTerm)
    }

    /// True if this entry is a long-term reference.
    pub fn is_long_term(&self) -> (r: bool)
        ensures
            r == (self.marking is LongTerm),
    {
        matches!(self.marking, RefMarking::LongTerm)
    }

    /// True if this entry is used for reference at all.
    pub fn is_ref(&self) -> (r: bool)
        ensures
            r == !(self.marking is Unused),
    {
        !matches!(self.marking, RefMarking::Unused)
    }
}

/// Whether some picture of the DPB that is used for reference has this key.
pub open spec fn is_reference_key(dpb: Seq<DpbEntry>, key: u32) -> bool {
    exists|i: int|
        0 <= i < dpb.len() && !((#[trigger] dpb[i]).marking is Unused) && dpb[i].dpb_key == key
}

/// The value ranges of a slice header: the current `frame_num` is below
/// `MaxFrameNum`, which leaves picture numbers room in 32 bits, and among fields
/// so does the `LongTermFrameIdx` of each long-term reference.
pub open spec fn current_in_range(dpb: Seq<DpbEntry>, current: CurrentPicture) -> bool {
    &&& current.frame_num < current.max_frame_num <= 0x2000_0000
    &&& forall|i: int|
        0 <= i < dpb.len() && (#[trigger] dpb[i]).marking is LongTerm
            ==> dpb[i].long_term_pic_num_defined(current.is_field)
}

/// One `modification_of_pic_nums_idc` operation.
#[derive(Debug, Clone, Copy, PartialEq, Eq, Structural)]
pub enum RplmOp {
    /// idc 0: `abs_diff_pic_num_minus1`, subtract from the prediction.
    Subtract(u32),
    /// idc 1: `abs_diff_pic_num_minus1`, add to the prediction.
    Add(u32),
    /// idc 2: `long_term_pic_num` of the picture to splice in.
    LongTerm(u32),
}

/// One memory management control operation.
#[derive(Debug, Clone, Copy, PartialEq, Eq, Structural)]
pub enum MmcoOp {
    /// op 1: `difference_of_pic_nums_minus1`.
    MarkShortTermUnused(u32),
    /// op 2: `long_term_pic_num`.
    MarkLongTermUnused(u32),
    /// op 3: `(difference_of_pic_nums_minus1, long_term_frame_idx)`.
    AssignLongTerm(u32, u32),
    /// op 4: `max_long_term_frame_idx_plus1`.
    SetMaxLongTermIdx(u32),
    /// op 5: reset all references.
    MarkAllUnused,
    /// op 6: `long_term_frame_idx` for the current picture.
    AssignCurrentLongTerm(u32),
}

} // verus!
