//! Reference picture lists and marking on small buffers, with results worked out
//! by hand.

use h264_ref_list::{
    apply_mmco, init_ref_pic_list_p, init_ref_pic_lists_b, modify_ref_pic_list, perform_marking,
    sliding_window_marking, DpbEntry, MmcoOp, PicStructure, RefMarking, RplmOp,
};

fn st_frame(frame_num: u32, poc: i32, key: u32) -> DpbEntry {
    DpbEntry {
        frame_num,
        top_field_order_cnt: poc,
        bottom_field_order_cnt: poc,
        pic_order_cnt: poc,
        structure: PicStructure::Frame,
        marking: RefMarking::ShortTerm,
        long_term_frame_idx: 0,
        dpb_key: key,
    }
}

fn lt_frame(ltfi: u32, poc: i32, key: u32) -> DpbEntry {
    DpbEntry {
        frame_num: 0,
        top_field_order_cnt: poc,
        bottom_field_order_cnt: poc,
        pic_order_cnt: poc,
        structure: PicStructure::Frame,
        marking: RefMarking::LongTerm,
        long_term_frame_idx: ltfi,
        dpb_key: key,
    }
}

// FrameNumWrap is frame_num up to the current one.
#[test]
fn pic_num_no_wrap() {
    let e = st_frame(3, 0, 1);
    let pn = e.pic_num(5, 16, false, false);
    assert_eq!(pn, 3);
}

// FrameNumWrap = 15 - 16.
#[test]
fn pic_num_wrap() {
    let e = st_frame(15, 0, 1);
    let pn = e.pic_num(2, 16, false, false);
    assert_eq!(pn, -1);
}

#[test]
fn long_term_pic_num_frame() {
    let e = lt_frame(7, 0, 1);
    assert_eq!(e.long_term_pic_num(false, false), 7);
}

#[test]
fn long_term_pic_num_field_same_parity() {
    let mut e = lt_frame(3, 0, 1);
    e.structure = PicStructure::TopField;
    assert_eq!(e.long_term_pic_num(true, false), 2 * 3 + 1);
}

#[test]
fn long_term_pic_num_field_opposite_parity() {
    let mut e = lt_frame(3, 0, 1);
    e.structure = PicStructure::TopField;
    assert_eq!(e.long_term_pic_num(true, true), 2 * 3);
}

#[test]
fn init_p_list_short_only() {
    let dpb = vec![
        st_frame(1, 0, 101),
        st_frame(2, 0, 102),
        st_frame(3, 0, 103),
        st_frame(4, 0, 104),
    ];
    let list = init_ref_pic_list_p(&dpb, 5, 16, PicStructure::Frame, false);
    assert_eq!(list, vec![104, 103, 102, 101]);
}

// Three short-term references, then two long-term ones.
#[test]
fn init_p_list_spec_example() {
    let dpb = vec![
        st_frame(300, 0, 300),
        st_frame(302, 0, 302),
        st_frame(303, 0, 303),
        lt_frame(0, 0, 1000),
        lt_frame(3, 0, 1003),
    ];
    let list = init_ref_pic_list_p(&dpb, 304, 1 << 12, PicStructure::Frame, false);
    assert_eq!(list, vec![303, 302, 300, 1000, 1003]);
}

// List 0 looks back first, list 1 ahead.
#[test]
fn init_b_lists_spec_rules() {
    let dpb = vec![
        st_frame(1, 5, 105),
        st_frame(2, 6, 106),
        st_frame(3, 15, 115),
        st_frame(4, 20, 120),
    ];
    let (l0, l1) = init_ref_pic_lists_b(&dpb, 10, PicStructure::Frame, false);
    assert_eq!(l0, vec![106, 105, 115, 120]);
    assert_eq!(l1, vec![115, 120, 106, 105]);
}

// All references lie back, so both lists come out as [3, 2, 1] at first.
#[test]
fn init_b_lists_identical_swap() {
    let dpb = vec![st_frame(1, 1, 1), st_frame(2, 2, 2), st_frame(3, 3, 3)];
    let (l0, l1) = init_ref_pic_lists_b(&dpb, 10, PicStructure::Frame, false);
    assert_eq!(l0, vec![3, 2, 1]);
    assert_eq!(l1, vec![2, 3, 1]);
}

#[test]
fn init_b_lists_with_long_term() {
    let dpb = vec![
        st_frame(1, 5, 5),
        st_frame(2, 15, 15),
        lt_frame(2, 0, 92),
        lt_frame(0, 0, 90),
    ];
    let (l0, l1) = init_ref_pic_lists_b(&dpb, 10, PicStructure::Frame, false);
    assert_eq!(l0, vec![5, 15, 90, 92]);
    assert_eq!(l1, vec![15, 5, 90, 92]);
}

// CurrPicNum is 5, so the operation names PicNum 4.
#[test]
fn modify_subtract_applies() {
    let dpb = vec![
        st_frame(1, 0, 1),
        st_frame(2, 0, 2),
        st_frame(3, 0, 3),
        st_frame(4, 0, 4),
    ];
    let mut list = init_ref_pic_list_p(&dpb, 5, 16, PicStructure::Frame, false);
    let ops = [RplmOp::Subtract(0)];
    modify_ref_pic_list(&mut list, &ops, &dpb, 4, 5, 16, false, false);
    assert_eq!(list[0], 4);
    assert_eq!(&list[1..], &[3, 2, 1]);
}

// The prediction 10 + 6 reaches MaxPicNum and wraps to 0.
#[test]
fn modify_add_applies() {
    let dpb = vec![st_frame(0, 0, 42)];
    let mut list = vec![42];
    let ops = [RplmOp::Add(5)];
    modify_ref_pic_list(&mut list, &ops, &dpb, 1, 10, 16, false, false);
    assert_eq!(list, vec![42]);
}

// LongTermPicNum 5 moves to the front.
#[test]
fn modify_long_term_applies() {
    let dpb = vec![
        st_frame(1, 0, 10),
        lt_frame(3, 0, 20),
        lt_frame(5, 0, 30),
    ];
    let mut list = init_ref_pic_list_p(&dpb, 5, 16, PicStructure::Frame, false);
    assert_eq!(list, vec![10, 20, 30]);
    let ops = [RplmOp::LongTerm(5)];
    modify_ref_pic_list(&mut list, &ops, &dpb, 3, 5, 16, false, false);
    assert_eq!(list, vec![30, 10, 20]);
}

// Three short-term references where two are allowed.
#[test]
fn sliding_window_evicts_oldest() {
    let mut dpb = vec![st_frame(1, 0, 1), st_frame(2, 0, 2), st_frame(3, 0, 3)];
    sliding_window_marking(&mut dpb, 2, 4, 16);
    assert_eq!(dpb[0].marking, RefMarking::Unused);
    assert_eq!(dpb[1].marking, RefMarking::ShortTerm);
    assert_eq!(dpb[2].marking, RefMarking::ShortTerm);
}

#[test]
fn sliding_window_no_eviction_when_below_cap() {
    let mut dpb = vec![st_frame(1, 0, 1)];
    sliding_window_marking(&mut dpb, 2, 2, 16);
    assert_eq!(dpb[0].marking, RefMarking::ShortTerm);
}

// picNumX = 4 - 1.
#[test]
fn mmco_mark_short_term_unused() {
    let mut dpb = vec![st_frame(1, 0, 1), st_frame(2, 0, 2), st_frame(3, 0, 3)];
    let mut current = st_frame(4, 0, 4);
    let ops = [MmcoOp::MarkShortTermUnused(0)];
    let mmco5 = apply_mmco(&mut dpb, &ops, &mut current, 4, 16);
    assert!(!mmco5);
    assert_eq!(dpb[0].marking, RefMarking::ShortTerm);
    assert_eq!(dpb[1].marking, RefMarking::ShortTerm);
    assert_eq!(dpb[2].marking, RefMarking::Unused);
}

#[test]
fn mmco_mark_long_term_unused() {
    let mut dpb = vec![lt_frame(0, 0, 100), lt_frame(3, 0, 103)];
    let mut current = st_frame(4, 0, 4);
    let ops = [MmcoOp::MarkLongTermUnused(3)];
    let mmco5 = apply_mmco(&mut dpb, &ops, &mut current, 4, 16);
    assert!(!mmco5);
    assert_eq!(dpb[0].marking, RefMarking::LongTerm);
    assert_eq!(dpb[1].marking, RefMarking::Unused);
}

// picNumX = 3. Index 5 is taken away from its holder.
#[test]
fn mmco_assign_long_term() {
    let mut dpb = vec![
        st_frame(2, 0, 2),
        st_frame(3, 0, 3),
        lt_frame(5, 0, 105),
    ];
    let mut current = st_frame(4, 0, 4);
    let ops = [MmcoOp::AssignLongTerm(0, 5)];
    let mmco5 = apply_mmco(&mut dpb, &ops, &mut current, 4, 16);
    assert!(!mmco5);
    assert_eq!(dpb[0].marking, RefMarking::ShortTerm);
    assert_eq!(dpb[1].marking, RefMarking::LongTerm);
    assert_eq!(dpb[1].long_term_frame_idx, 5);
    assert_eq!(dpb[2].marking, RefMarking::Unused);
}

// The highest index that stays is 3.
#[test]
fn mmco_set_max_long_term_idx() {
    let mut dpb = vec![lt_frame(0, 0, 10), lt_frame(3, 0, 13), lt_frame(7, 0, 17)];
    let mut current = st_frame(5, 0, 5);
    let ops = [MmcoOp::SetMaxLongTermIdx(4)];
    apply_mmco(&mut dpb, &ops, &mut current, 5, 16);
    assert_eq!(dpb[0].marking, RefMarking::LongTerm);
    assert_eq!(dpb[1].marking, RefMarking::LongTerm);
    assert_eq!(dpb[2].marking, RefMarking::Unused);
}

#[test]
fn mmco_set_max_long_term_idx_zero_clears_all() {
    let mut dpb = vec![lt_frame(0, 0, 10), lt_frame(3, 0, 13)];
    let mut current = st_frame(5, 0, 5);
    let ops = [MmcoOp::SetMaxLongTermIdx(0)];
    apply_mmco(&mut dpb, &ops, &mut current, 5, 16);
    assert_eq!(dpb[0].marking, RefMarking::Unused);
    assert_eq!(dpb[1].marking, RefMarking::Unused);
}

#[test]
fn mmco_mark_all_unused() {
    let mut dpb = vec![st_frame(1, 0, 1), lt_frame(0, 0, 10)];
    let mut current = st_frame(5, 0, 5);
    let ops = [MmcoOp::MarkAllUnused];
    let mmco5 = apply_mmco(&mut dpb, &ops, &mut current, 5, 16);
    assert!(mmco5);
    assert_eq!(dpb[0].marking, RefMarking::Unused);
    assert_eq!(dpb[1].marking, RefMarking::Unused);
}

// Index 3 is taken away from its holder.
#[test]
fn mmco_assign_current_long_term() {
    let mut dpb = vec![lt_frame(3, 0, 103)];
    let mut current = st_frame(5, 0, 5);
    let ops = [MmcoOp::AssignCurrentLongTerm(3)];
    apply_mmco(&mut dpb, &ops, &mut current, 5, 16);
    assert_eq!(dpb[0].marking, RefMarking::Unused);
    assert_eq!(current.marking, RefMarking::LongTerm);
    assert_eq!(current.long_term_frame_idx, 3);
}

#[test]
fn marking_idr_short_term() {
    let mut dpb = vec![st_frame(1, 0, 1), lt_frame(0, 0, 10)];
    let mut current = st_frame(0, 0, 99);
    let mmco5 = perform_marking(
        &mut dpb,
        &mut current,
        4,
        true,
        false,
        false,
        None,
        0,
        16,
    );
    assert!(!mmco5);
    assert_eq!(dpb[0].marking, RefMarking::Unused);
    assert_eq!(dpb[1].marking, RefMarking::Unused);
    assert_eq!(current.marking, RefMarking::ShortTerm);
}

#[test]
fn marking_idr_long_term() {
    let mut dpb = vec![st_frame(1, 0, 1)];
    let mut current = st_frame(0, 0, 99);
    perform_marking(&mut dpb, &mut current, 4, true, true, false, None, 0, 16);
    assert_eq!(dpb[0].marking, RefMarking::Unused);
    assert_eq!(current.marking, RefMarking::LongTerm);
    assert_eq!(current.long_term_frame_idx, 0);
}

#[test]
fn marking_non_idr_sliding_window() {
    let mut dpb = vec![st_frame(1, 0, 1), st_frame(2, 0, 2), st_frame(3, 0, 3)];
    let mut current = st_frame(4, 0, 4);
    let mmco5 = perform_marking(
        &mut dpb,
        &mut current,
        2,
        false,
        false,
        false,
        None,
        4,
        16,
    );
    assert!(!mmco5);
    assert_eq!(dpb[0].marking, RefMarking::Unused);
    assert_eq!(current.marking, RefMarking::ShortTerm);
}

// The current picture is not long-term, so it becomes short-term.
#[test]
fn marking_non_idr_adaptive_mmco5() {
    let mut dpb = vec![st_frame(1, 0, 1)];
    let mut current = st_frame(4, 0, 4);
    let ops = [MmcoOp::MarkAllUnused];
    let mmco5 = perform_marking(
        &mut dpb,
        &mut current,
        4,
        false,
        false,
        false,
        Some(&ops),
        4,
        16,
    );
    assert!(mmco5);
    assert_eq!(dpb[0].marking, RefMarking::Unused);
    assert_eq!(current.marking, RefMarking::ShortTerm);
}

// One entry where three are active.
#[test]
fn modify_pads_and_truncates() {
    let dpb = vec![st_frame(1, 0, 1)];
    let mut list = vec![1];
    modify_ref_pic_list(&mut list, &[], &dpb, 3, 2, 16, false, false);
    assert_eq!(list.len(), 3);
    assert_eq!(list[0], 1);
    assert_eq!(list[1], u32::MAX);
    assert_eq!(list[2], u32::MAX);
}
