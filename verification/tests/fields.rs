//! Lists for field pictures.

use h264_ref_list::{
    init_ref_pic_list_p, init_ref_pic_lists_b, modify_ref_pic_list, DpbEntry, PicStructure,
    RefMarking, RplmOp,
};

fn field(frame_num: u32, poc: i32, bottom: bool, key: u32) -> DpbEntry {
    DpbEntry {
        frame_num,
        top_field_order_cnt: poc,
        bottom_field_order_cnt: poc,
        pic_order_cnt: poc,
        structure: if bottom { PicStructure::BottomField } else { PicStructure::TopField },
        marking: RefMarking::ShortTerm,
        long_term_frame_idx: 0,
        dpb_key: key,
    }
}

fn long_field(idx: u32, bottom: bool, key: u32) -> DpbEntry {
    let mut e = field(0, 0, bottom, key);
    e.marking = RefMarking::LongTerm;
    e.long_term_frame_idx = idx;
    e
}

/// Frames 1 to 3, each with a top field of key 10 * n and a bottom field of one
/// more.
fn three_pairs() -> Vec<DpbEntry> {
    vec![
        field(1, 2, false, 10),
        field(1, 3, true, 11),
        field(2, 4, false, 20),
        field(2, 5, true, 21),
        field(3, 6, false, 30),
        field(3, 7, true, 31),
    ]
}

#[test]
fn p_field_list_alternates_from_own_parity() {
    let dpb = three_pairs();
    assert_eq!(
        init_ref_pic_list_p(&dpb, 4, 16, PicStructure::TopField, false),
        vec![30, 31, 20, 21, 10, 11]
    );
    assert_eq!(
        init_ref_pic_list_p(&dpb, 4, 16, PicStructure::BottomField, true),
        vec![31, 30, 21, 20, 11, 10]
    );
}

#[test]
fn p_field_list_orders_by_frame_num_wrap() {
    // Frames 14 and 15 belong to the previous turn of the counter.
    let dpb = vec![
        field(15, 0, false, 150),
        field(1, 0, false, 10),
        field(14, 0, false, 140),
        field(0, 0, false, 1),
    ];
    assert_eq!(
        init_ref_pic_list_p(&dpb, 1, 16, PicStructure::TopField, false),
        vec![10, 1, 150, 140]
    );
}

#[test]
fn p_field_list_holds_first_field_of_current_frame() {
    let dpb = vec![field(1, 0, false, 10), field(1, 0, true, 11), field(2, 4, false, 20)];
    assert_eq!(
        init_ref_pic_list_p(&dpb, 2, 16, PicStructure::BottomField, true),
        vec![11, 20, 10]
    );
}

#[test]
fn fields_of_one_parity_follow_when_the_other_ends() {
    let dpb = vec![
        field(1, 0, false, 10),
        field(2, 0, false, 20),
        field(3, 0, false, 30),
        field(1, 0, true, 11),
    ];
    assert_eq!(
        init_ref_pic_list_p(&dpb, 4, 16, PicStructure::TopField, false),
        vec![30, 11, 20, 10]
    );
    assert_eq!(
        init_ref_pic_list_p(&dpb, 4, 16, PicStructure::BottomField, true),
        vec![11, 30, 20, 10]
    );
}

#[test]
fn p_field_list_ends_with_long_term_by_index() {
    let mut dpb = three_pairs();
    dpb.truncate(2);
    dpb.push(long_field(4, true, 41));
    dpb.push(long_field(2, false, 52));
    dpb.push(long_field(4, false, 40));
    assert_eq!(
        init_ref_pic_list_p(&dpb, 4, 16, PicStructure::TopField, false),
        vec![10, 11, 52, 41, 40]
    );
}

#[test]
fn short_and_long_term_fields_of_one_number_do_not_pair() {
    // The long-term field has index 1, the short-term field frame_num 1.
    let dpb = vec![field(1, 0, false, 10), long_field(1, true, 99)];
    assert_eq!(init_ref_pic_list_p(&dpb, 4, 16, PicStructure::BottomField, true), vec![10, 99]);
}

#[test]
fn later_entry_supersedes_the_same_field() {
    let dpb = vec![field(1, 0, false, 10), field(1, 0, false, 12), field(1, 0, true, 11)];
    assert_eq!(init_ref_pic_list_p(&dpb, 4, 16, PicStructure::TopField, false), vec![12, 11]);
}

#[test]
fn frame_entry_counts_as_top_field() {
    let mut frame = field(1, 0, false, 10);
    frame.structure = PicStructure::Frame;
    let mut pair = field(2, 0, false, 20);
    pair.structure = PicStructure::FieldPair;
    let dpb = vec![frame, pair, field(3, 0, true, 31)];
    assert_eq!(
        init_ref_pic_list_p(&dpb, 4, 16, PicStructure::TopField, false),
        vec![20, 31, 10]
    );
}

#[test]
fn unused_fields_are_not_listed() {
    let mut dpb = three_pairs();
    dpb[2].marking = RefMarking::Unused;
    assert_eq!(
        init_ref_pic_list_p(&dpb, 4, 16, PicStructure::TopField, false),
        vec![30, 31, 10, 21, 11]
    );
}

#[test]
fn b_field_lists_part_frames_by_poc() {
    // Frames at 2, 4 and 6, the current field at 4: the frame at 4 counts as
    // back in both lists.
    let dpb = three_pairs();
    let (l0, l1) = init_ref_pic_lists_b(&dpb, 4, PicStructure::TopField, false);
    assert_eq!(l0, vec![20, 21, 10, 11, 30, 31]);
    assert_eq!(l1, vec![30, 31, 20, 21, 10, 11]);
}

#[test]
fn frame_poc_is_the_lower_of_its_fields() {
    // The second field of frame 1 brings its count down to 1, below the current.
    let dpb = vec![field(1, 9, false, 10), field(1, 1, true, 11), field(2, 8, false, 20)];
    let (l0, l1) = init_ref_pic_lists_b(&dpb, 5, PicStructure::TopField, false);
    assert_eq!(l0, vec![10, 11, 20]);
    assert_eq!(l1, vec![20, 11, 10]);
}

#[test]
fn identical_b_field_lists_swap() {
    let dpb = three_pairs();
    let (l0, l1) = init_ref_pic_lists_b(&dpb, 100, PicStructure::BottomField, true);
    assert_eq!(l0, vec![31, 30, 21, 20, 11, 10]);
    assert_eq!(l1, vec![30, 31, 21, 20, 11, 10]);
}

#[test]
fn b_field_lists_end_with_long_term() {
    let mut dpb = three_pairs();
    dpb.insert(0, long_field(7, false, 70));
    dpb.insert(0, long_field(3, true, 33));
    let (l0, l1) = init_ref_pic_lists_b(&dpb, 4, PicStructure::BottomField, true);
    assert_eq!(l0, vec![21, 20, 11, 10, 31, 30, 33, 70]);
    assert_eq!(l1, vec![31, 30, 21, 20, 11, 10, 33, 70]);
}

#[test]
fn single_entry_lists_stay_identical() {
    let dpb = vec![field(1, 0, false, 10)];
    let (l0, l1) = init_ref_pic_lists_b(&dpb, 4, PicStructure::TopField, false);
    assert_eq!(l0, vec![10]);
    assert_eq!(l1, vec![10]);
}

#[test]
fn empty_buffer_gives_empty_field_lists() {
    assert!(init_ref_pic_list_p(&[], 4, 16, PicStructure::TopField, false).is_empty());
    let (l0, l1) = init_ref_pic_lists_b(&[], 4, PicStructure::TopField, false);
    assert!(l0.is_empty() && l1.is_empty());
}

#[test]
fn field_lists_hold_the_same_fields() {
    let mut dpb = three_pairs();
    dpb[4].marking = RefMarking::LongTerm;
    dpb[4].long_term_frame_idx = 1;
    dpb[0].marking = RefMarking::Unused;
    let mut p = init_ref_pic_list_p(&dpb, 4, 16, PicStructure::TopField, false);
    let (mut l0, mut l1) = init_ref_pic_lists_b(&dpb, 4, PicStructure::TopField, false);
    p.sort();
    l0.sort();
    l1.sort();
    assert_eq!(p, vec![11, 20, 21, 30, 31]);
    assert_eq!(l0, p);
    assert_eq!(l1, p);
}

#[test]
fn modification_in_a_field_counts_in_fields() {
    // CurrPicNum is 9. The top field of frame 3 has PicNum 7, its bottom field 6.
    let dpb = three_pairs();
    let mut list = init_ref_pic_list_p(&dpb, 4, 16, PicStructure::TopField, false);
    let ops = [RplmOp::Subtract(2), RplmOp::Subtract(0), RplmOp::Add(0)];
    modify_ref_pic_list(&mut list, &ops, &dpb, 6, 4, 16, true, false);
    // 9 - 3 = 6, then 6 - 1 = 5, then 5 + 1 = 6 again: the picture is listed a
    // second time.
    assert_eq!(list, vec![31, 20, 31, 30, 21, 10]);
}

#[test]
fn long_term_modification_in_a_field_goes_by_parity() {
    let dpb = vec![long_field(2, false, 52), long_field(2, true, 53)];
    let mut list = vec![52, 53];
    // From the bottom field, LongTermPicNum is 5 for the bottom field, 4 for the
    // top field.
    modify_ref_pic_list(&mut list, &[RplmOp::LongTerm(5)], &dpb, 2, 4, 16, true, true);
    assert_eq!(list, vec![53, 52]);
    modify_ref_pic_list(&mut list, &[RplmOp::LongTerm(4)], &dpb, 2, 4, 16, true, true);
    assert_eq!(list, vec![52, 53]);
}
