//! Reference picture lists and reference picture marking for an H.264
//! decoder.
//!
//! The crate works on a decoded picture buffer (DPB), a slice of
//! [`DpbEntry`] values, and on lists of the storage keys of its entries. It
//! reads no bitstream and holds no samples.

pub mod arith;
pub mod effect_laws;
pub mod field_laws;
pub mod field_order_laws;
pub mod fields;
pub mod init;
pub mod init_laws;
pub mod marking;
pub mod marking_laws;
pub mod mmco;
pub mod modify;
pub mod modify_laws;
pub mod modify_step_laws;
pub mod order_laws;
pub mod picture;
pub mod picture_laws;
pub mod sliding_window;
pub mod sort;

pub use picture::{DpbEntry, MmcoOp, PicStructure, RefMarking, RplmOp};
pub use init::{init_ref_pic_list_p, init_ref_pic_lists_b};
pub use marking::perform_marking;
pub use mmco::apply_mmco;
pub use modify::modify_ref_pic_list;
pub use sliding_window::sliding_window_marking;
