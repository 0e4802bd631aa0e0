//! Numbers at the edges, missing pictures, and the laws on sample values.

use h264_ref_list::arith::low_i32;
use h264_ref_list::{
    apply_mmco, init_ref_pic_list_p, init_ref_pic_lists_b, modify_ref_pic_list, perform_marking,
    sliding_window_marking, DpbEntry, MmcoOp, PicStructure, RefMarking, RplmOp,
};

fn short(frame_num: u32, key: u32) -> DpbEntry {
    DpbEntry {
        frame_num,
        top_field_order_cnt: 0,
        bottom_field_order_cnt: 0,
        pic_order_cnt: 0,
        structure: PicStructure::Frame,
        marking: RefMarking::ShortTerm,
        long_term_frame_idx: 0,
        dpb_key: key,
    }
}

fn at_poc(poc: i32, key: u32) -> DpbEntry {
    let mut e = short(key, key);
    e.pic_order_cnt = poc;
    e
}

fn long(idx: u32, key: u32) -> DpbEntry {
    let mut e = short(0, key);
    e.marking = RefMarking::LongTerm;
    e.long_term_frame_idx = idx;
    e
}

fn field_of(frame_num: u32, bottom: bool, key: u32) -> DpbEntry {
    let mut e = short(frame_num, key);
    e.structure = if bottom { PicStructure::BottomField } else { PicStructure::TopField };
    e
}

fn markings(dpb: &[DpbEntry]) -> Vec<RefMarking> {
    dpb.iter().map(|e| e.marking).collect()
}

const S: RefMarking = RefMarking::ShortTerm;
const L: RefMarking = RefMarking::LongTerm;
const U: RefMarking = RefMarking::Unused;

#[test]
fn low_bits_are_kept() {
    assert_eq!(low_i32(0), 0);
    assert_eq!(low_i32(-1), -1);
    assert_eq!(low_i32(0x7fff_ffff), i32::MAX);
    assert_eq!(low_i32(0x8000_0000), i32::MIN);
    assert_eq!(low_i32(0xffff_ffff), -1);
    assert_eq!(low_i32(-0x8000_0001), i32::MAX);
    assert_eq!(low_i32(0x1_0000_0005), 5);
}

#[test]
fn structure_predicates() {
    assert!(PicStructure::TopField.is_field() && PicStructure::BottomField.is_field());
    assert!(!PicStructure::Frame.is_field() && !PicStructure::FieldPair.is_field());
    assert!(PicStructure::BottomField.is_bottom());
    assert!(!PicStructure::TopField.is_bottom() && !PicStructure::Frame.is_bottom());
}

#[test]
fn marking_predicates() {
    let mut e = short(1, 1);
    assert!(e.is_short_term() && !e.is_long_term() && e.is_ref());
    e.marking = L;
    assert!(!e.is_short_term() && e.is_long_term() && e.is_ref());
    e.marking = U;
    assert!(!e.is_short_term() && !e.is_long_term() && !e.is_ref());
}

#[test]
fn clone_keeps_every_field() {
    let e = DpbEntry {
        frame_num: 1,
        top_field_order_cnt: -2,
        bottom_field_order_cnt: 3,
        pic_order_cnt: -4,
        structure: PicStructure::FieldPair,
        marking: RefMarking::LongTerm,
        long_term_frame_idx: 5,
        dpb_key: 6,
    };
    let c = e.clone();
    assert_eq!(format!("{:?}", c), format!("{:?}", e));
    assert_eq!(c.long_term_frame_idx, 5);
}

#[test]
fn pic_num_of_fields_goes_by_parity() {
    let top = field_of(3, false, 1);
    let bottom = field_of(3, true, 2);
    assert_eq!(top.pic_num(5, 16, true, false), 7);
    assert_eq!(top.pic_num(5, 16, true, true), 6);
    assert_eq!(bottom.pic_num(5, 16, true, true), 7);
    assert_eq!(bottom.pic_num(5, 16, true, false), 6);
    // A frame offers both parities.
    assert_eq!(short(3, 3).pic_num(5, 16, true, true), 7);
    // FrameNumWrap is -2 here.
    assert_eq!(field_of(14, false, 4).pic_num(5, 16, true, false), -3);
    assert_eq!(field_of(14, false, 4).pic_num(5, 16, true, true), -4);
}

#[test]
fn pic_num_is_kept_in_32_bits() {
    assert_eq!(short(0xffff_ffff, 1).pic_num(0xffff_ffff, 0, false, false), -1);
    assert_eq!(short(0x4000_0000, 1).pic_num(0x4000_0000, 0, true, false), i32::MIN + 1);
}

#[test]
fn long_term_pic_num_at_the_edge() {
    assert_eq!(long(0xffff_ffff, 1).long_term_pic_num(false, false), -1);
    assert_eq!(long(0x7fff_ffff, 1).long_term_pic_num(true, false), -1);
    assert_eq!(long(0x3fff_ffff, 1).long_term_pic_num(true, true), i32::MAX);
}

#[test]
fn pic_num_counts_back_from_the_current_picture() {
    // frame_num, and how many steps ago the counter had it, where it is now 5.
    for (frame_num, age) in [(5, 0), (4, 1), (0, 5), (15, 6), (6, 15)] {
        assert_eq!(short(frame_num, 1).pic_num(5, 16, false, false), 5 - age);
    }
}

#[test]
fn p_list_keeps_the_order_of_equals() {
    let dpb = vec![short(2, 21), short(3, 30), short(2, 22), long(1, 11), long(1, 12)];
    assert_eq!(
        init_ref_pic_list_p(&dpb, 5, 16, PicStructure::Frame, false),
        vec![30, 21, 22, 11, 12]
    );
}

#[test]
fn p_list_puts_wrapped_numbers_last() {
    let dpb = vec![short(15, 15), short(1, 1), short(14, 14), short(0, 100)];
    assert_eq!(
        init_ref_pic_list_p(&dpb, 2, 16, PicStructure::FieldPair, false),
        vec![1, 100, 15, 14]
    );
}

#[test]
fn unused_pictures_are_not_listed() {
    let mut dpb = vec![short(1, 1), short(2, 2), long(0, 3)];
    dpb[1].marking = U;
    assert_eq!(init_ref_pic_list_p(&dpb, 5, 16, PicStructure::Frame, false), vec![1, 3]);
    let (l0, l1) = init_ref_pic_lists_b(&dpb, -1, PicStructure::Frame, false);
    assert_eq!(l0, vec![1, 3]);
    assert_eq!(l1, vec![3, 1]);
}

#[test]
fn picture_at_the_current_poc_goes_with_the_rest() {
    let dpb = vec![at_poc(8, 8), at_poc(10, 10), at_poc(12, 12)];
    let (l0, l1) = init_ref_pic_lists_b(&dpb, 10, PicStructure::Frame, false);
    assert_eq!(l0, vec![8, 10, 12]);
    assert_eq!(l1, vec![12, 10, 8]);
}

#[test]
fn b_lists_agree_only_where_the_swap_shows_nothing() {
    // The same key twice: after the swap the lists still read the same.
    let dpb = vec![at_poc(1, 7), at_poc(2, 7)];
    let (l0, l1) = init_ref_pic_lists_b(&dpb, 10, PicStructure::Frame, false);
    assert_eq!(l0, vec![7, 7]);
    assert_eq!(l1, vec![7, 7]);
}

#[test]
fn negative_poc_orders_below_zero() {
    let dpb = vec![at_poc(-4, 1), at_poc(i32::MIN, 2), at_poc(i32::MAX, 3), at_poc(0, 4)];
    let (l0, l1) = init_ref_pic_lists_b(&dpb, -1, PicStructure::Frame, false);
    assert_eq!(l0, vec![1, 2, 4, 3]);
    assert_eq!(l1, vec![4, 3, 1, 2]);
}

#[test]
fn modification_cuts_a_long_list() {
    let mut list = vec![4, 3, 2, 1];
    modify_ref_pic_list(&mut list, &[], &[], 2, 5, 16, false, false);
    assert_eq!(list, vec![4, 3]);
    modify_ref_pic_list(&mut list, &[], &[], 0, 5, 16, false, false);
    assert!(list.is_empty());
}

#[test]
fn missing_picture_leaves_list_and_position() {
    let dpb = vec![short(1, 1), short(2, 2), short(3, 3), short(4, 4)];
    let mut list = vec![4, 3, 2, 1];
    // 5 - 6 wraps to PicNum 15 - 16, which is not there. The prediction moves on
    // all the same: 15 + 4 wraps to 3.
    let ops = [RplmOp::Subtract(5), RplmOp::LongTerm(0), RplmOp::Add(3)];
    modify_ref_pic_list(&mut list, &ops, &dpb, 4, 5, 16, false, false);
    assert_eq!(list, vec![3, 4, 2, 1]);
}

#[test]
fn picks_lead_in_the_order_of_the_operations() {
    let dpb = vec![short(1, 1), short(2, 2), short(3, 3), short(4, 4), long(6, 60)];
    let mut list = vec![4, 3, 2, 1, 60];
    let ops = [RplmOp::Subtract(2), RplmOp::LongTerm(6), RplmOp::Subtract(0)];
    modify_ref_pic_list(&mut list, &ops, &dpb, 5, 5, 16, false, false);
    assert_eq!(list, vec![2, 60, 1, 4, 3]);
}

#[test]
fn pick_from_outside_the_list_pushes_the_last_entry_out() {
    let dpb = vec![short(1, 1), short(2, 2), short(3, 3), short(4, 4)];
    let mut list = vec![4, 3];
    modify_ref_pic_list(&mut list, &[RplmOp::Subtract(3)], &dpb, 2, 5, 16, false, false);
    assert_eq!(list, vec![1, 4]);
}

#[test]
fn operations_behind_the_end_of_the_list_change_nothing() {
    let dpb = vec![short(1, 1), short(2, 2)];
    let mut list = vec![2, 1];
    let ops = [RplmOp::Subtract(3), RplmOp::Add(0)];
    modify_ref_pic_list(&mut list, &ops, &dpb, 1, 5, 16, false, false);
    assert_eq!(list, vec![1]);
}

#[test]
fn first_of_several_pictures_of_one_number_is_picked() {
    let dpb = vec![short(1, 10), short(1, 20)];
    let mut list = vec![20, 10];
    modify_ref_pic_list(&mut list, &[RplmOp::Subtract(3)], &dpb, 2, 5, 16, false, false);
    assert_eq!(list, vec![10, 20]);
}

#[test]
fn add_undoes_subtract() {
    // Down by 9 past zero and up by 9 again: the prediction is back at 5, and
    // the last step names PicNum 4.
    let dpb = vec![short(4, 4), short(3, 3)];
    let mut list = vec![3, 4];
    let ops = [RplmOp::Subtract(8), RplmOp::Add(8), RplmOp::Subtract(0)];
    modify_ref_pic_list(&mut list, &ops, &dpb, 2, 5, 16, false, false);
    assert_eq!(list, vec![4, 3]);
}

#[test]
fn twice_listed_picture_is_dropped_twice() {
    let dpb = vec![short(4, 5), short(3, 9)];
    let mut list = vec![5, 5, 3];
    // Putting 9 in pushes 3 out, and putting 5 in then drops both 5s.
    let ops = [RplmOp::Subtract(1), RplmOp::Add(0)];
    modify_ref_pic_list(&mut list, &ops, &dpb, 3, 5, 16, false, false);
    assert_eq!(list, vec![9, 5, u32::MAX]);
}

#[test]
fn modified_list_holds_no_picture_twice() {
    let dpb = vec![short(1, 1), short(2, 2), short(3, 3), short(4, 4)];
    let mut list = vec![4, 3, 2, 1];
    let ops = [RplmOp::Subtract(3), RplmOp::Add(0), RplmOp::Add(1)];
    modify_ref_pic_list(&mut list, &ops, &dpb, 6, 5, 16, false, false);
    assert_eq!(list, vec![1, 2, 4, 3, u32::MAX, u32::MAX]);
}

#[test]
fn sliding_window_goes_by_frame_num_wrap() {
    let mut dpb = vec![short(1, 1), short(15, 15), short(0, 100)];
    sliding_window_marking(&mut dpb, 3, 2, 16);
    assert_eq!(markings(&dpb), vec![S, U, S]);
}

#[test]
fn sliding_window_gives_up_both_fields_of_a_frame() {
    let mut dpb = vec![
        field_of(1, false, 10),
        field_of(1, true, 11),
        field_of(2, false, 20),
        field_of(2, true, 21),
    ];
    sliding_window_marking(&mut dpb, 3, 3, 16);
    assert_eq!(markings(&dpb), vec![S, S, S, S]);
    sliding_window_marking(&mut dpb, 2, 3, 16);
    assert_eq!(markings(&dpb), vec![U, U, S, S]);
}

#[test]
fn second_field_evicts_nothing() {
    let mut dpb = vec![field_of(1, false, 10), field_of(2, false, 20)];
    sliding_window_marking(&mut dpb, 1, 2, 16);
    assert_eq!(markings(&dpb), vec![S, S]);
}

#[test]
fn long_term_frames_take_room_and_stay() {
    let mut dpb = vec![long(0, 1), long(0, 2), long(1, 3), short(4, 4)];
    // Two long-term frames and one short-term frame.
    sliding_window_marking(&mut dpb, 4, 5, 16);
    assert_eq!(markings(&dpb), vec![L, L, L, S]);
    sliding_window_marking(&mut dpb, 3, 5, 16);
    assert_eq!(markings(&dpb), vec![L, L, L, U]);
    // Only long-term references are left, so nothing can be given up.
    sliding_window_marking(&mut dpb, 1, 5, 16);
    assert_eq!(markings(&dpb), vec![L, L, L, U]);
}

#[test]
fn capacity_is_at_least_one() {
    let mut dpb = vec![short(1, 1)];
    sliding_window_marking(&mut dpb, 0, 2, 16);
    assert_eq!(markings(&dpb), vec![U]);
    let mut empty: Vec<DpbEntry> = Vec::new();
    sliding_window_marking(&mut empty, 0, 2, 16);
    assert!(empty.is_empty());
}

#[test]
fn long_term_reference_of_the_current_number_counts_as_joined() {
    let mut dpb = vec![short(1, 1), long(0, 2)];
    // The long-term entry carries frame_num 0.
    sliding_window_marking(&mut dpb, 1, 0, 16);
    assert_eq!(markings(&dpb), vec![S, L]);
}

#[test]
fn oldest_frame_is_the_same_from_any_number_in_one_turn() {
    for current in [0, 8, 15] {
        let mut dpb = vec![short(5, 5), short(3, 3), short(7, 7)];
        sliding_window_marking(&mut dpb, 3, current, 16);
        assert_eq!(markings(&dpb), vec![S, U, S]);
    }
    // From the middle of them it is not: 5 and 7 belong to the previous turn.
    let mut dpb = vec![short(5, 5), short(3, 3), short(7, 7)];
    sliding_window_marking(&mut dpb, 3, 4, 16);
    assert_eq!(markings(&dpb), vec![U, S, S]);
}

#[test]
fn buffer_stays_within_capacity() {
    let mut dpb: Vec<DpbEntry> = Vec::new();
    for n in 0..40u32 {
        let frame_num = n % 16;
        let mut current = short(frame_num, n);
        current.marking = U;
        let mmco5 =
            perform_marking(&mut dpb, &mut current, 3, false, false, false, None, frame_num, 16);
        assert!(!mmco5);
        dpb.retain(|e| e.is_ref());
        dpb.push(current);
        assert_eq!(dpb.len(), if n < 3 { n as usize + 1 } else { 3 });
    }
    let keys: Vec<u32> = dpb.iter().map(|e| e.dpb_key).collect();
    assert_eq!(keys, vec![37, 38, 39]);
}

#[test]
fn mmco_in_a_field_marks_one_field() {
    let mut dpb = vec![field_of(3, false, 30), field_of(3, true, 31)];
    let mut current = field_of(4, true, 41);
    // CurrPicNum is 9. From a bottom field, the bottom field of frame 3 has
    // PicNum 7 and its top field 6.
    apply_mmco(&mut dpb, &[MmcoOp::MarkShortTermUnused(2)], &mut current, 4, 16);
    assert_eq!(markings(&dpb), vec![U, S]);
    apply_mmco(&mut dpb, &[MmcoOp::MarkShortTermUnused(1)], &mut current, 4, 16);
    assert_eq!(markings(&dpb), vec![U, U]);
}

#[test]
fn mmco_reaches_the_previous_turn() {
    let mut dpb = vec![short(15, 15), short(1, 1)];
    let mut current = short(2, 2);
    // picNumX = 2 - 3 = -1.
    apply_mmco(&mut dpb, &[MmcoOp::MarkShortTermUnused(2)], &mut current, 2, 16);
    assert_eq!(markings(&dpb), vec![U, S]);
}

#[test]
fn mmco_names_of_the_other_kind_do_not_match() {
    let mut dpb = vec![short(3, 3), long(3, 4)];
    let mut current = short(4, 5);
    apply_mmco(&mut dpb, &[MmcoOp::MarkLongTermUnused(0)], &mut current, 4, 16);
    assert_eq!(markings(&dpb), vec![S, L]);
    // PicNum 3 is the short-term picture, LongTermPicNum 3 the long-term one.
    apply_mmco(&mut dpb, &[MmcoOp::MarkShortTermUnused(0)], &mut current, 4, 16);
    assert_eq!(markings(&dpb), vec![U, L]);
    apply_mmco(&mut dpb, &[MmcoOp::MarkLongTermUnused(3)], &mut current, 4, 16);
    assert_eq!(markings(&dpb), vec![U, U]);
    assert_eq!(current.marking, S);
}

#[test]
fn mmco_operations_apply_in_order() {
    // Operation 3 gives index 2 to a picture, operation 4 then takes it away.
    let ops = [MmcoOp::AssignLongTerm(0, 2), MmcoOp::SetMaxLongTermIdx(2)];
    let mut dpb = vec![short(3, 3), short(2, 2)];
    let mut current = short(4, 4);
    apply_mmco(&mut dpb, &ops, &mut current, 4, 16);
    assert_eq!(markings(&dpb), vec![U, S]);
    // The other way round the picture keeps it.
    let ops = [MmcoOp::SetMaxLongTermIdx(2), MmcoOp::AssignLongTerm(0, 2)];
    let mut dpb = vec![short(3, 3), short(2, 2)];
    apply_mmco(&mut dpb, &ops, &mut current, 4, 16);
    assert_eq!(markings(&dpb), vec![L, S]);
    assert_eq!(dpb[0].long_term_frame_idx, 2);
}

#[test]
fn mmco_runs_compose() {
    let ops = [
        MmcoOp::AssignLongTerm(0, 1),
        MmcoOp::MarkShortTermUnused(1),
        MmcoOp::AssignLongTerm(2, 1),
    ];
    let start = vec![short(3, 3), short(2, 2), short(1, 1)];
    let mut current = short(4, 4);
    let mut whole = start.clone();
    apply_mmco(&mut whole, &ops, &mut current, 4, 16);
    let mut parts = start.clone();
    apply_mmco(&mut parts, &ops[..1], &mut current, 4, 16);
    apply_mmco(&mut parts, &ops[1..], &mut current, 4, 16);
    assert_eq!(markings(&whole), vec![U, U, L]);
    assert_eq!(format!("{:?}", whole), format!("{:?}", parts));
}

#[test]
fn mark_all_unused_is_reported_wherever_it_stands() {
    let ops = [MmcoOp::MarkAllUnused, MmcoOp::AssignCurrentLongTerm(4)];
    let mut dpb = vec![short(3, 3), long(4, 5)];
    let mut current = short(4, 4);
    assert!(apply_mmco(&mut dpb, &ops, &mut current, 4, 16));
    assert_eq!(markings(&dpb), vec![U, U]);
    assert_eq!(current.marking, L);
    assert_eq!(current.long_term_frame_idx, 4);
}

#[test]
fn no_operations_change_nothing() {
    let mut dpb = vec![short(3, 3), long(4, 5)];
    let mut current = short(4, 4);
    current.marking = U;
    assert!(!apply_mmco(&mut dpb, &[], &mut current, 4, 16));
    assert_eq!(markings(&dpb), vec![S, L]);
    assert_eq!(current.marking, U);
}

#[test]
fn marking_changes_markings_only() {
    let mut dpb = vec![short(3, 3), long(4, 5), short(2, 2)];
    dpb[2].marking = U;
    let before = dpb.clone();
    let mut current = short(4, 4);
    let ops = [MmcoOp::AssignLongTerm(0, 9)];
    perform_marking(&mut dpb, &mut current, 4, false, false, false, Some(&ops), 4, 16);
    assert_eq!(markings(&dpb), vec![L, L, U]);
    for (a, b) in dpb.iter().zip(before.iter()) {
        assert_eq!(a.frame_num, b.frame_num);
        assert_eq!(a.pic_order_cnt, b.pic_order_cnt);
        assert_eq!(a.structure, b.structure);
        assert_eq!(a.dpb_key, b.dpb_key);
    }
}

#[test]
fn adaptive_marking_keeps_a_long_term_current_picture() {
    let mut dpb = vec![long(2, 5)];
    let mut current = short(4, 4);
    current.marking = U;
    let ops = [MmcoOp::AssignCurrentLongTerm(2)];
    let mmco5 = perform_marking(&mut dpb, &mut current, 4, false, true, true, Some(&ops), 4, 16);
    assert!(!mmco5);
    assert_eq!(markings(&dpb), vec![U]);
    assert_eq!(current.marking, L);
    assert_eq!(current.long_term_frame_idx, 2);
}

#[test]
fn adaptive_marking_forgets_how_the_picture_was_marked() {
    let mut dpb: Vec<DpbEntry> = Vec::new();
    let mut current = long(3, 9);
    let mmco5 = perform_marking(&mut dpb, &mut current, 4, false, false, false, Some(&[]), 4, 16);
    assert!(!mmco5);
    assert_eq!(current.marking, S);
    // Operations on other pictures make no difference.
    let mut dpb = vec![short(3, 3), long(3, 5)];
    let mut current = long(3, 9);
    let ops = [MmcoOp::AssignLongTerm(0, 3), MmcoOp::MarkAllUnused];
    let mmco5 = perform_marking(&mut dpb, &mut current, 4, false, false, false, Some(&ops), 4, 16);
    assert!(mmco5);
    assert_eq!(markings(&dpb), vec![U, U]);
    assert_eq!(current.marking, S);
}

#[test]
fn adaptive_marking_takes_the_last_index_for_the_current_picture() {
    for before in [S, L, U] {
        let mut dpb = vec![long(1, 5), long(2, 6)];
        let mut current = long(7, 9);
        current.marking = before;
        let ops = [
            MmcoOp::AssignCurrentLongTerm(1),
            MmcoOp::AssignCurrentLongTerm(2),
            MmcoOp::MarkShortTermUnused(0),
        ];
        perform_marking(&mut dpb, &mut current, 4, false, false, false, Some(&ops), 4, 16);
        assert_eq!(markings(&dpb), vec![U, U]);
        assert_eq!(current.marking, L);
        assert_eq!(current.long_term_frame_idx, 2);
    }
}

#[test]
fn prior_marking_has_no_effect_without_operations() {
    for before in [S, L, U] {
        let mut current = long(3, 9);
        current.marking = before;
        perform_marking(&mut [], &mut current, 4, false, false, false, None, 4, 16);
        assert_eq!(current.marking, S);
        current.marking = before;
        perform_marking(&mut [], &mut current, 4, true, false, false, None, 0, 16);
        assert_eq!(current.marking, S);
    }
}

#[test]
fn adaptive_marking_without_operations_evicts_nothing() {
    let mut dpb = vec![short(1, 1), short(2, 2)];
    let mut current = short(4, 4);
    current.marking = U;
    let mmco5 = perform_marking(&mut dpb, &mut current, 1, false, false, false, Some(&[]), 4, 16);
    assert!(!mmco5);
    assert_eq!(markings(&dpb), vec![S, S]);
    assert_eq!(current.marking, S);
}

#[test]
fn idr_ignores_operations() {
    let mut dpb = vec![short(1, 1), long(2, 5)];
    let mut current = short(0, 4);
    current.marking = U;
    let ops = [MmcoOp::MarkAllUnused, MmcoOp::AssignCurrentLongTerm(7)];
    let mmco5 = perform_marking(&mut dpb, &mut current, 4, true, false, false, Some(&ops), 0, 16);
    assert!(!mmco5);
    assert_eq!(markings(&dpb), vec![U, U]);
    assert_eq!(current.marking, S);
    assert_eq!(current.long_term_frame_idx, 0);
}

#[test]
fn lists_of_one_picture_differ_in_order_only() {
    let mut dpb = vec![at_poc(4, 1), at_poc(9, 2), at_poc(6, 3), long(1, 4), long(0, 5)];
    dpb[2].marking = U;
    let p = init_ref_pic_list_p(&dpb, 8, 16, PicStructure::Frame, false);
    let (l0, l1) = init_ref_pic_lists_b(&dpb, 5, PicStructure::Frame, false);
    assert_eq!(p, vec![2, 1, 5, 4]);
    assert_eq!(l0, vec![1, 2, 5, 4]);
    assert_eq!(l1, vec![2, 1, 5, 4]);
}

#[test]
fn key_of_an_unused_picture_may_be_taken_again() {
    let mut dpb = vec![at_poc(4, 1), at_poc(4, 1), at_poc(6, 2)];
    dpb[0].marking = U;
    assert_eq!(init_ref_pic_list_p(&dpb, 8, 16, PicStructure::Frame, false), vec![2, 1]);
    let (l0, l1) = init_ref_pic_lists_b(&dpb, 5, PicStructure::Frame, false);
    assert_eq!(l0, vec![1, 2]);
    assert_eq!(l1, vec![2, 1]);
}

#[test]
fn operation_three_keeps_indices_distinct() {
    let mut dpb = vec![short(3, 3), short(2, 2), long(1, 10)];
    let mut current = short(4, 4);
    let ops = [MmcoOp::AssignLongTerm(0, 1), MmcoOp::AssignLongTerm(1, 1)];
    apply_mmco(&mut dpb, &ops, &mut current, 4, 16);
    assert_eq!(markings(&dpb), vec![U, L, U]);
    assert_eq!(dpb[1].long_term_frame_idx, 1);
}
