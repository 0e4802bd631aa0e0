//! What each operation of a list modification does.

use vstd::prelude::*;

use crate::arith::law_wrap_i32;
use crate::modify::{
    first_key, fit, modified_list, named_by, other_than, pic_num_distance, picks, predicted,
    prediction, splice_all,
};
use crate::modify_laws::{
    law_named_picture, law_picks_lead, law_prediction_step, op_in_range,
};
use crate::order_laws::{hits, lemma_hits};
use crate::picture::{current_picture, CurrentPicture, DpbEntry, PicStructure, RplmOp};

verus! {

/// 1 for an entry that has a field of the parity of the current field, or both
/// fields; 0 for a field of the opposite parity.
pub open spec fn parity_bit(structure: PicStructure, current_bottom: bool) -> int {
    match structure {
        PicStructure::Frame => 1,
        PicStructure::FieldPair => 1,
        PicStructure::TopField => if current_bottom {
            0
        } else {
            1
        },
        PicStructure::BottomField => if current_bottom {
            1
        } else {
            0
        },
    }
}

/// Whether `op` is about entry `e`, where `number` is the picture number modulo
/// `MaxPicNum` that the operation leads to. An operation on short-term references
/// is about those whose `frame_num` that is, an operation on long-term references
/// about those whose `LongTermFrameIdx` it gives. Among fields either is doubled,
/// and one more for a field of the parity of the current field.
pub open spec fn is_about(
    op: RplmOp,
    number: int,
    e: DpbEntry,
    current_is_field: bool,
    current_bottom: bool,
) -> bool {
    match op {
        RplmOp::LongTerm(n) => e.marking is LongTerm && n == (if current_is_field {
            2 * e.long_term_frame_idx + parity_bit(e.structure, current_bottom)
        } else {
            e.long_term_frame_idx as int
        }),
        _ => e.marking is ShortTerm && number == (if current_is_field {
            2 * e.frame_num + parity_bit(e.structure, current_bottom)
        } else {
            e.frame_num as int
        }),
    }
}

/// How a modification stands between two operations: the picture number that the
/// next one starts from, the position that it fills, and the list.
pub ghost struct Progress {
    pub number: int,
    pub position: int,
    pub list: Seq<u32>,
}

/// How an operation changes list and position, where `wanted` singles out the
/// entries that it is about and `hit` is the index of the entry that it finds.
pub open spec fn takes_position(
    dpb: Seq<DpbEntry>,
    num_active: u32,
    wanted: spec_fn(DpbEntry) -> bool,
    before: Progress,
    hit: Option<int>,
    after: Progress,
) -> bool {
    match hit {
        // The first entry that the operation is about takes the position. What
        // stood there or behind moves on, without the key of that entry.
        Some(i) => {
            let key = dpb[i].dpb_key;
            let rest = before.list.skip(before.position).filter(|x: u32| x != key);
            &&& 0 <= i < dpb.len()
            &&& wanted(dpb[i])
            &&& forall|j: int| 0 <= j < i ==> !wanted(#[trigger] dpb[j])
            &&& after.position == before.position + 1
            &&& before.position >= num_active ==> after.list == before.list
            &&& before.position < num_active ==> after.list.len() == num_active && forall|j: int|
                0 <= j < num_active ==> #[trigger] after.list[j] == (if j < before.position {
                    before.list[j]
                } else if j == before.position {
                    key
                } else if j - before.position - 1 < rest.len() {
                    rest[j - before.position - 1]
                } else {
                    u32::MAX
                })
        },
        // Without such an entry list and position stay.
        None => {
            &&& forall|j: int| 0 <= j < dpb.len() ==> !wanted(#[trigger] dpb[j])
            &&& after.position == before.position
            &&& after.list == before.list
        },
    }
}

/// What one operation does, where `hit` is the index of the entry that it finds:
/// the number moves by the distance that the operation gives, modulo `MaxPicNum`,
/// and the first entry that the operation is about takes the position.
pub open spec fn does_one_step(
    op: RplmOp,
    dpb: Seq<DpbEntry>,
    num_active: u32,
    max_frame_num: u32,
    current_is_field: bool,
    current_bottom: bool,
    before: Progress,
    hit: Option<int>,
    after: Progress,
) -> bool {
    let modulus = if current_is_field {
        2 * max_frame_num
    } else {
        max_frame_num as int
    };
    &&& match op {
        RplmOp::Subtract(d) => after.number == (before.number - (d + 1)) % modulus,
        RplmOp::Add(d) => after.number == (before.number + (d + 1)) % modulus,
        RplmOp::LongTerm(_) => after.number == before.number,
    }
    &&& takes_position(
        dpb,
        num_active,
        |e: DpbEntry| is_about(op, after.number, e, current_is_field, current_bottom),
        before,
        hit,
        after,
    )
}

/// What one operation does for numbers of any range: the number moves by the
/// distance that the operation gives, and by `MaxPicNum` once where it falls
/// below zero or reaches `MaxPicNum`. An operation on short-term references is
/// about those whose `PicNum` the number is, less `MaxPicNum` where it is above
/// the number of the current picture.
pub open spec fn does_exact_step(
    op: RplmOp,
    dpb: Seq<DpbEntry>,
    num_active: u32,
    current_frame_num: u32,
    max_frame_num: u32,
    current_is_field: bool,
    current_bottom: bool,
    before: Progress,
    hit: Option<int>,
    after: Progress,
) -> bool {
    let modulus = if current_is_field {
        2 * max_frame_num
    } else {
        max_frame_num as int
    };
    let own = if current_is_field {
        2 * current_frame_num + 1
    } else {
        current_frame_num as int
    };
    let named = if after.number > own {
        after.number - modulus
    } else {
        after.number
    };
    &&& match op {
        RplmOp::Subtract(d) => after.number == (if before.number - (d + 1) < 0 {
            before.number - (d + 1) + modulus
        } else {
            before.number - (d + 1)
        }),
        RplmOp::Add(d) => after.number == (if before.number + (d + 1) >= modulus {
            before.number + (d + 1) - modulus
        } else {
            before.number + (d + 1)
        }),
        RplmOp::LongTerm(_) => after.number == before.number,
    }
    &&& takes_position(
        dpb,
        num_active,
        |e: DpbEntry|
            if op is LongTerm {
                is_about(op, after.number, e, current_is_field, current_bottom)
            } else {
                e.marking is ShortTerm && e.pic_num_for(
                    current_picture(
                        current_frame_num,
                        max_frame_num,
                        current_is_field,
                        current_bottom,
                    ),
                ) == named
            },
        before,
        hit,
        after,
    )
}

spec fn progress_at(
    list: Seq<u32>,
    ops: Seq<RplmOp>,
    dpb: Seq<DpbEntry>,
    num_active: u32,
    current: CurrentPicture,
    k: nat,
) -> Progress {
    Progress {
        number: prediction(ops, k, current),
        position: picks(ops, k, dpb, current).len() as int,
        list: splice_all(
            fit(list, num_active as nat),
            picks(ops, k, dpb, current),
            num_active as nat,
        ),
    }
}

spec fn hit_at(ops: Seq<RplmOp>, dpb: Seq<DpbEntry>, current: CurrentPicture, k: nat) -> Option<
    int,
> {
    let found = hits(dpb, named_by(ops[k as int], prediction(ops, k + 1, current), current));
    if found.len() == 0 {
        None
    } else {
        Some(found[0])
    }
}

proof fn lemma_named(op: RplmOp, p: int, e: DpbEntry, current: CurrentPicture)
    requires
        current.frame_num < current.max_frame_num <= 0x2000_0000,
        0 <= p < current.max_pic_num(),
        e.marking is ShortTerm ==> e.frame_num < current.max_frame_num,
        e.marking is LongTerm && current.is_field ==> e.long_term_frame_idx <= i32::MAX,
    ensures
        named_by(op, p, current)(e) <==> is_about(op, p, e, current.is_field, current.bottom),
{
    match op {
        RplmOp::LongTerm(n) => {
            lemma_long_term_named(n, p, e, current);
        },
        _ => {
            if e.marking is ShortTerm {
                law_named_picture(e, p, current);
            }
        },
    }
}

/// List and position, whatever the numbers.
proof fn lemma_takes_position(
    list: Seq<u32>,
    ops: Seq<RplmOp>,
    dpb: Seq<DpbEntry>,
    num_active: u32,
    current: CurrentPicture,
    k: nat,
    wanted: spec_fn(DpbEntry) -> bool,
)
    requires
        k < ops.len(),
        forall|j: int|
            0 <= j < dpb.len() ==> wanted(#[trigger] dpb[j]) == named_by(
                ops[k as int],
                prediction(ops, k + 1, current),
                current,
            )(dpb[j]),
    ensures
        takes_position(
            dpb,
            num_active,
            wanted,
            progress_at(list, ops, dpb, num_active, current, k),
            hit_at(ops, dpb, current, k),
            progress_at(list, ops, dpb, num_active, current, k + 1),
        ),
{
    let op = ops[k as int];
    let n = num_active as nat;
    let named = named_by(op, prediction(ops, k + 1, current), current);
    let found = hits(dpb, named);
    let before = picks(ops, k, dpb, current);
    let after = picks(ops, k + 1, dpb, current);
    let fitted = fit(list, n);
    let prior = splice_all(fitted, before, n);
    lemma_hits(dpb, named);
    lemma_list_len(fitted, before, n);
    let kept = dpb.filter(named);
    assert(kept.len() == found.len()) by {
        assert(found.map_values(|i: int| dpb[i]).len() == found.len());
    }
    if found.len() == 0 {
        assert(after == before);
        assert forall|j: int| 0 <= j < dpb.len() implies !wanted(#[trigger] dpb[j]) by {
            if named(dpb[j]) {
                assert(found.contains(j));
            }
        }
    } else {
        let i = found[0];
        let key = dpb[i].dpb_key;
        assert(named(dpb[i]));
        assert(kept[0] == dpb[i]) by {
            assert(found.map_values(|h: int| dpb[h])[0] == dpb[i]);
        }
        assert(first_key(dpb, named) == Some(key));
        assert(after == before.push(key));
        assert(after.drop_last() == before);
        assert forall|j: int| 0 <= j < i implies !wanted(#[trigger] dpb[j]) by {
            if named(dpb[j]) {
                let q = choose|q: int| 0 <= q < found.len() && found[q] == j;
                if q > 0 {
                    assert(found[0] < found[q]);
                }
            }
        }
        assert(other_than(key) =~= (|x: u32| x != key));
        let at = before.len();
        if at < n {
            let rest = prior.skip(at as int).filter(other_than(key));
            let next = splice_all(fitted, after, n);
            assert(next == fit(prior.take(at as int).push(key) + rest, n));
            assert(prior.take(at as int).len() == at);
        }
    }
}

proof fn lemma_list_len(list: Seq<u32>, keys: Seq<u32>, n: nat)
    requires
        list.len() == n,
    ensures
        splice_all(list, keys, n).len() == n,
    decreases keys.len(),
{
    if keys.len() > 0 {
        lemma_list_len(list, keys.drop_last(), n);
    }
}

proof fn lemma_modulus(current: CurrentPicture)
    requires
        current.frame_num < current.max_frame_num <= 0x2000_0000,
    ensures
        current.max_pic_num() == (if current.is_field {
            2 * current.max_frame_num
        } else {
            current.max_frame_num as int
        }),
        current.curr_pic_num() == (if current.is_field {
            2 * current.frame_num + 1
        } else {
            current.frame_num as int
        }),
{
}

/// A modification goes operation by operation: there is a course from the list
/// as it is handed in, cut or padded, to the list as it comes out, and each of
/// its steps is what [`does_one_step`] says. It starts from the number of the
/// current picture and at the front of the list. This is for value ranges that a
/// slice header keeps to.
pub proof fn law_modification_course(
    list: Seq<u32>,
    ops: Seq<RplmOp>,
    dpb: Seq<DpbEntry>,
    num_active: u32,
    current_frame_num: u32,
    max_frame_num: u32,
    current_is_field: bool,
    current_bottom: bool,
) -> (r: (Seq<Progress>, Seq<Option<int>>))
    requires
        current_frame_num < max_frame_num <= 0x2000_0000,
        forall|i: int|
            0 <= i < dpb.len() && (#[trigger] dpb[i]).marking is ShortTerm ==> dpb[i].frame_num
                < max_frame_num,
        forall|i: int|
            0 <= i < dpb.len() && (#[trigger] dpb[i]).marking is LongTerm && current_is_field
                ==> dpb[i].long_term_frame_idx <= i32::MAX,
        forall|k: int|
            0 <= k < ops.len() ==> match #[trigger] ops[k] {
                RplmOp::Subtract(d) => d < max_frame_num || (current_is_field && d < 2
                    * max_frame_num),
                RplmOp::Add(d) => d < max_frame_num || (current_is_field && d < 2 * max_frame_num),
                RplmOp::LongTerm(_) => true,
            },
    ensures
        r.0.len() == ops.len() + 1,
        r.1.len() == ops.len(),
        r.0[0].number == (if current_is_field {
            2 * current_frame_num + 1
        } else {
            current_frame_num as int
        }),
        r.0[0].position == 0,
        r.0[0].list.len() == num_active,
        forall|j: int|
            0 <= j < num_active ==> #[trigger] r.0[0].list[j] == (if j < list.len() {
                list[j]
            } else {
                u32::MAX
            }),
        forall|k: int|
            0 <= k < ops.len() ==> does_one_step(
                ops[k],
                dpb,
                num_active,
                max_frame_num,
                current_is_field,
                current_bottom,
                r.0[k],
                #[trigger] r.1[k],
                r.0[k + 1],
            ),
        r.0[ops.len() as int].list == modified_list(
            list,
            ops,
            dpb,
            num_active,
            current_picture(current_frame_num, max_frame_num, current_is_field, current_bottom),
        ),
{
    let current = current_picture(
        current_frame_num,
        max_frame_num,
        current_is_field,
        current_bottom,
    );
    let course = Seq::new(
        ops.len() + 1,
        |k: int| progress_at(list, ops, dpb, num_active, current, k as nat),
    );
    let found = Seq::new(ops.len(), |k: int| hit_at(ops, dpb, current, k as nat));
    lemma_modulus(current);
    assert forall|k: int| 0 <= k < ops.len() implies does_one_step(
        ops[k],
        dpb,
        num_active,
        max_frame_num,
        current_is_field,
        current_bottom,
        course[k],
        #[trigger] found[k],
        course[k + 1],
    ) by {
        let number = prediction(ops, (k + 1) as nat, current);
        let wanted = |e: DpbEntry|
            is_about(ops[k], number, e, current_is_field, current_bottom);
        lemma_number_in_range(ops, k as nat, current);
        lemma_number_in_range(ops, (k + 1) as nat, current);
        law_prediction_step(ops[k], prediction(ops, k as nat, current), current);
        assert(number == predicted(ops[k], prediction(ops, k as nat, current), current));
        assert forall|j: int| 0 <= j < dpb.len() implies wanted(#[trigger] dpb[j]) == named_by(
            ops[k],
            number,
            current,
        )(dpb[j]) by {
            lemma_named(ops[k], number, dpb[j], current);
        }
        lemma_takes_position(list, ops, dpb, num_active, current, k as nat, wanted);
        assert(wanted =~= (|e: DpbEntry|
            is_about(ops[k], course[k + 1].number, e, current_is_field, current_bottom)));
    }
    (course, found)
}

proof fn lemma_number_in_range(ops: Seq<RplmOp>, k: nat, current: CurrentPicture)
    requires
        k <= ops.len(),
        current.frame_num < current.max_frame_num <= 0x2000_0000,
        forall|i: int| 0 <= i < ops.len() ==> op_in_range(#[trigger] ops[i], current),
    ensures
        0 <= prediction(ops, k, current) < current.max_pic_num(),
    decreases k,
{
    lemma_modulus(current);
    if k > 0 {
        lemma_number_in_range(ops, (k - 1) as nat, current);
        law_prediction_step(ops[k - 1], prediction(ops, (k - 1) as nat, current), current);
    }
}

/// The course of a modification as in [`law_modification_course`], for numbers of
/// any range that fit in 32 bits: each step is what [`does_exact_step`] says.
pub proof fn law_modification_course_exact(
    list: Seq<u32>,
    ops: Seq<RplmOp>,
    dpb: Seq<DpbEntry>,
    num_active: u32,
    current_frame_num: u32,
    max_frame_num: u32,
    current_is_field: bool,
    current_bottom: bool,
) -> (r: (Seq<Progress>, Seq<Option<int>>))
    requires
        current_frame_num <= i32::MAX && max_frame_num <= i32::MAX,
        current_is_field ==> 2 * current_frame_num + 1 <= i32::MAX && 2 * max_frame_num <= i32::MAX,
        forall|i: int|
            0 <= i < dpb.len() && (#[trigger] dpb[i]).marking is LongTerm && current_is_field
                ==> dpb[i].long_term_frame_idx <= i32::MAX,
        forall|k: int|
            0 <= k < ops.len() ==> match #[trigger] ops[k] {
                RplmOp::Subtract(d) => d < i32::MAX,
                RplmOp::Add(d) => d < i32::MAX,
                RplmOp::LongTerm(_) => true,
            },
    ensures
        r.0.len() == ops.len() + 1,
        r.1.len() == ops.len(),
        r.0[0].number == (if current_is_field {
            2 * current_frame_num + 1
        } else {
            current_frame_num as int
        }),
        r.0[0].position == 0,
        r.0[0].list.len() == num_active,
        forall|j: int|
            0 <= j < num_active ==> #[trigger] r.0[0].list[j] == (if j < list.len() {
                list[j]
            } else {
                u32::MAX
            }),
        forall|k: int|
            0 <= k < ops.len() ==> does_exact_step(
                ops[k],
                dpb,
                num_active,
                current_frame_num,
                max_frame_num,
                current_is_field,
                current_bottom,
                r.0[k],
                #[trigger] r.1[k],
                r.0[k + 1],
            ),
        r.0[ops.len() as int].list == modified_list(
            list,
            ops,
            dpb,
            num_active,
            current_picture(current_frame_num, max_frame_num, current_is_field, current_bottom),
        ),
{
    let current = current_picture(
        current_frame_num,
        max_frame_num,
        current_is_field,
        current_bottom,
    );
    let course = Seq::new(
        ops.len() + 1,
        |k: int| progress_at(list, ops, dpb, num_active, current, k as nat),
    );
    let found = Seq::new(ops.len(), |k: int| hit_at(ops, dpb, current, k as nat));
    let modulus = current.max_pic_num();
    let own = current.curr_pic_num();
    lemma_numbers_fit(current);
    assert forall|k: int| 0 <= k < ops.len() implies does_exact_step(
        ops[k],
        dpb,
        num_active,
        current_frame_num,
        max_frame_num,
        current_is_field,
        current_bottom,
        course[k],
        #[trigger] found[k],
        course[k + 1],
    ) by {
        let op = ops[k];
        let pred = prediction(ops, k as nat, current);
        let number = prediction(ops, (k + 1) as nat, current);
        assert(number == predicted(op, pred, current));
        lemma_distance(op);
        let named = if number > own {
            number - modulus
        } else {
            number
        };
        let wanted = |e: DpbEntry|
            if op is LongTerm {
                is_about(op, number, e, current_is_field, current_bottom)
            } else {
                e.marking is ShortTerm && e.pic_num_for(current) == named
            };
        assert forall|j: int| 0 <= j < dpb.len() implies wanted(#[trigger] dpb[j]) == named_by(
            op,
            number,
            current,
        )(dpb[j]) by {
            if let RplmOp::LongTerm(n) = op {
                lemma_long_term_named(n, number, dpb[j], current);
            }
        }
        lemma_takes_position(list, ops, dpb, num_active, current, k as nat, wanted);
    }
    (course, found)
}

proof fn lemma_distance(op: RplmOp)
    ensures
        op matches RplmOp::Subtract(d) ==> d < i32::MAX ==> pic_num_distance(d) == d + 1,
        op matches RplmOp::Add(d) ==> d < i32::MAX ==> pic_num_distance(d) == d + 1,
{
}

proof fn lemma_numbers_fit(current: CurrentPicture)
    requires
        current.frame_num <= i32::MAX && current.max_frame_num <= i32::MAX,
        current.is_field ==> 2 * current.frame_num + 1 <= i32::MAX && 2 * current.max_frame_num
            <= i32::MAX,
    ensures
        current.max_pic_num() == (if current.is_field {
            2 * current.max_frame_num
        } else {
            current.max_frame_num as int
        }),
        current.curr_pic_num() == (if current.is_field {
            2 * current.frame_num + 1
        } else {
            current.frame_num as int
        }),
{
}

proof fn lemma_long_term_named(n: u32, number: int, e: DpbEntry, current: CurrentPicture)
    requires
        e.marking is LongTerm && current.is_field ==> e.long_term_frame_idx <= i32::MAX,
    ensures
        named_by(RplmOp::LongTerm(n), number, current)(e) <==> is_about(
            RplmOp::LongTerm(n),
            number,
            e,
            current.is_field,
            current.bottom,
        ),
{
    let value = if current.is_field {
        2 * e.long_term_frame_idx + parity_bit(e.structure, current.bottom)
    } else {
        e.long_term_frame_idx as int
    };
    law_wrap_i32(value, n as int);
}

/// A single operation on long-term references: where some long-term reference
/// has the number that it gives, the key of the first such entry leads the list.
/// Where none has, the list is only cut or padded.
pub proof fn law_single_long_term_operation(
    list: Seq<u32>,
    number: u32,
    dpb: Seq<DpbEntry>,
    num_active: u32,
    current_frame_num: u32,
    max_frame_num: u32,
    current_is_field: bool,
    current_bottom: bool,
) -> (first: Option<int>)
    requires
        num_active > 0,
        forall|i: int|
            0 <= i < dpb.len() && (#[trigger] dpb[i]).marking is LongTerm && current_is_field
                ==> dpb[i].long_term_frame_idx <= i32::MAX,
    ensures
        ({
            let result = modified_list(
                list,
                seq![RplmOp::LongTerm(number)],
                dpb,
                num_active,
                current_picture(
                    current_frame_num,
                    max_frame_num,
                    current_is_field,
                    current_bottom,
                ),
            );
            let named = |e: DpbEntry|
                e.marking is LongTerm && number == (if !current_is_field {
                    e.long_term_frame_idx as int
                } else if e.structure is Frame || e.structure is FieldPair || (
                e.structure is BottomField) == current_bottom {
                    2 * e.long_term_frame_idx + 1
                } else {
                    2 * e.long_term_frame_idx
                });
            match first {
                Some(i) => {
                    &&& 0 <= i < dpb.len()
                    &&& named(dpb[i])
                    &&& forall|j: int| 0 <= j < i ==> !named(#[trigger] dpb[j])
                    &&& result[0] == dpb[i].dpb_key
                },
                None => {
                    &&& forall|j: int| 0 <= j < dpb.len() ==> !named(#[trigger] dpb[j])
                    &&& result.len() == num_active
                    &&& forall|j: int|
                        0 <= j < num_active ==> #[trigger] result[j] == (if j < list.len() {
                            list[j]
                        } else {
                            u32::MAX
                        })
                },
            }
        }),
{
    let current = current_picture(
        current_frame_num,
        max_frame_num,
        current_is_field,
        current_bottom,
    );
    let op = RplmOp::LongTerm(number);
    let ops = seq![op];
    let p = prediction(ops, 1, current);
    let wanted = named_by(op, p, current);
    let found = hits(dpb, wanted);
    let kept = dpb.filter(wanted);
    lemma_hits(dpb, wanted);
    law_picks_lead(list, ops, dpb, num_active, current);
    reveal_with_fuel(picks, 2);
    assert(kept.len() == found.len()) by {
        assert(found.map_values(|i: int| dpb[i]).len() == found.len());
    }
    assert forall|j: int| 0 <= j < dpb.len() implies wanted(#[trigger] dpb[j]) == is_about(
        op,
        p,
        dpb[j],
        current_is_field,
        current_bottom,
    ) by {
        lemma_long_term_named(number, p, dpb[j], current);
    }
    if found.len() == 0 {
        assert forall|j: int| 0 <= j < dpb.len() implies !wanted(#[trigger] dpb[j]) by {
            if wanted(dpb[j]) {
                assert(found.contains(j));
            }
        }
        None
    } else {
        let i = found[0];
        assert(kept[0] == dpb[i]) by {
            assert(found.map_values(|h: int| dpb[h])[0] == dpb[i]);
        }
        assert forall|j: int| 0 <= j < i implies !wanted(#[trigger] dpb[j]) by {
            if wanted(dpb[j]) {
                let q = choose|q: int| 0 <= q < found.len() && found[q] == j;
                if q > 0 {
                    assert(found[0] < found[q]);
                }
            }
        }
        assert(picks(ops, ops.len(), dpb, current)[0] == dpb[i].dpb_key);
        Some(i)
    }
}

} // verus!
