//! What holds of every modification of a reference picture list.

use vstd::prelude::*;

use crate::modify::{
    first_key, fit, modification_defined, modified_list, named_by, named_pic_num, op_defined,
    other_than, pic_num_distance, picks, predicted, prediction, splice_all, NO_REFERENCE,
};
use crate::picture::{current_in_range, is_reference_key, CurrentPicture, DpbEntry, RplmOp};

verus! {

/// Being none of `keys`.
pub open spec fn not_among(keys: Seq<u32>) -> spec_fn(u32) -> bool {
    |k: u32| !keys.contains(k)
}

proof fn lemma_splice_all_front(list: Seq<u32>, keys: Seq<u32>, n: nat)
    requires
        list.len() == n,
    ensures
        splice_all(list, keys, n).len() == n,
        forall|i: int|
            0 <= i < keys.len() && i < n ==> splice_all(list, keys, n)[i] == #[trigger] keys[i],
    decreases keys.len(),
{
    if keys.len() > 0 {
        let before = keys.drop_last();
        lemma_splice_all_front(list, before, n);
        assert(forall|i: int| 0 <= i < before.len() ==> before[i] == #[trigger] keys[i]);
    }
}

/// A modified list is exactly `num_active` long, and the pictures that the
/// operations found lead it, in the order of the operations. If they found
/// none, the list is only cut or padded.
pub proof fn law_picks_lead(
    list: Seq<u32>,
    ops: Seq<RplmOp>,
    dpb: Seq<DpbEntry>,
    num_active: u32,
    current: CurrentPicture,
)
    ensures
        modified_list(list, ops, dpb, num_active, current).len() == num_active,
        forall|i: int|
            0 <= i < picks(ops, ops.len(), dpb, current).len() && i < num_active ==> modified_list(
                list,
                ops,
                dpb,
                num_active,
                current,
            )[i] == #[trigger] picks(ops, ops.len(), dpb, current)[i],
        picks(ops, ops.len(), dpb, current).len() == 0 ==> modified_list(
            list,
            ops,
            dpb,
            num_active,
            current,
        ) == fit(list, num_active as nat),
{
    lemma_splice_all_front(
        fit(list, num_active as nat),
        picks(ops, ops.len(), dpb, current),
        num_active as nat,
    );
}

proof fn lemma_drop_one(s: Seq<u32>, key: u32)
    requires
        forall|i: int, j: int|
            0 <= i < j < s.len() && #[trigger] s[i] == #[trigger] s[j] ==> s[i] != key,
    ensures
        s.filter(other_than(key)).len() >= s.len() - 1,
        !s.contains(key) ==> s.filter(other_than(key)) == s,
    decreases s.len(),
{
    reveal(Seq::filter);
    if s.len() > 0 {
        let rest = s.drop_last();
        assert(forall|i: int| 0 <= i < rest.len() ==> #[trigger] rest[i] == s[i]);
        lemma_drop_one(rest, key);
        assert(rest.push(s.last()) == s);
        if s.last() == key {
            assert(s[s.len() - 1] == key);
            if rest.contains(key) {
                let i = choose|i: int| 0 <= i < rest.len() && rest[i] == key;
                assert(s[i] == s[s.len() - 1]);
            }
        } else if !s.contains(key) {
            assert(!rest.contains(key)) by {
                if rest.contains(key) {
                    let i = choose|i: int| 0 <= i < rest.len() && rest[i] == key;
                    assert(s[i] == key);
                }
            }
        }
    }
}

proof fn lemma_filter_and(s: Seq<u32>, keys: Seq<u32>, key: u32)
    ensures
        s.filter(not_among(keys.push(key))) == s.filter(not_among(keys)).filter(other_than(key)),
    decreases s.len(),
{
    reveal(Seq::filter);
    if s.len() > 0 {
        lemma_filter_and(s.drop_last(), keys, key);
        let k = s.last();
        assert(keys.push(key).contains(k) <==> keys.contains(k) || k == key) by {
            if keys.contains(k) {
                let i = choose|i: int| 0 <= i < keys.len() && keys[i] == k;
                assert(keys.push(key)[i] == k);
            }
            if k == key {
                assert(keys.push(key)[keys.len() as int] == k);
            }
        }
        let inner = s.drop_last().filter(not_among(keys));
        inner.lemma_filter_push(k, other_than(key));
    }
}

/// No element of `s` that is among `keys` stands in it twice.
pub open spec fn picked_at_most_once(s: Seq<u32>, keys: Seq<u32>) -> bool {
    forall|i: int, j: int|
        0 <= i < j < s.len() && #[trigger] s[i] == #[trigger] s[j] ==> !keys.contains(s[i])
}

proof fn lemma_filter_keeps_single(s: Seq<u32>, p: spec_fn(u32) -> bool, key: u32)
    requires
        forall|i: int, j: int|
            0 <= i < j < s.len() && #[trigger] s[i] == #[trigger] s[j] ==> s[i] != key,
    ensures
        forall|i: int, j: int|
            0 <= i < j < s.filter(p).len() && #[trigger] s.filter(p)[i] == #[trigger] s.filter(p)[j]
                ==> s.filter(p)[i] != key,
        !s.contains(key) ==> !s.filter(p).contains(key),
    decreases s.len(),
{
    reveal(Seq::filter);
    if s.len() > 0 {
        let rest = s.drop_last();
        let f = rest.filter(p);
        assert(forall|i: int| 0 <= i < rest.len() ==> #[trigger] rest[i] == s[i]);
        lemma_filter_keeps_single(rest, p, key);
        assert(s[s.len() - 1] == s.last());
        if s.last() == key {
            assert(!rest.contains(key)) by {
                if rest.contains(key) {
                    let i = choose|i: int| 0 <= i < rest.len() && rest[i] == key;
                    assert(s[i] == s[s.len() - 1]);
                }
            }
            assert(forall|i: int| 0 <= i < f.len() ==> #[trigger] f[i] != key) by {
                assert forall|i: int| 0 <= i < f.len() implies #[trigger] f[i] != key by {
                    if f[i] == key {
                        assert(f.contains(key));
                    }
                }
            }
        }
        if !s.contains(key) {
            assert(!rest.contains(key)) by {
                if rest.contains(key) {
                    let i = choose|i: int| 0 <= i < rest.len() && rest[i] == key;
                    assert(s[i] == key);
                }
            }
            assert(!s.filter(p).contains(key)) by {
                if s.filter(p).contains(key) {
                    let i = choose|i: int| 0 <= i < s.filter(p).len() && s.filter(p)[i] == key;
                    if i < f.len() {
                        assert(f[i] == key);
                    }
                }
            }
        }
    }
}

/// Filtering a list that was cut or padded to `n` entries, and what stands in
/// front of position `n - 1` of the outcome: as if neither cut nor padded.
proof fn lemma_filter_fitted(a: Seq<u32>, n: nat, key: u32)
    requires
        n > 0,
        forall|i: int, j: int|
            0 <= i < j < a.len() && #[trigger] a[i] == #[trigger] a[j] ==> a[i] != key,
    ensures
        fit(fit(a, n).filter(other_than(key)), (n - 1) as nat) == fit(
            a.filter(other_than(key)),
            (n - 1) as nat,
        ),
{
    let keep = other_than(key);
    if a.len() >= n {
        let front = a.take(n as int);
        let back = a.skip(n as int);
        assert(fit(a, n) == front);
        assert(front + back == a);
        Seq::filter_distributes_over_add(front, back, keep);
        assert(forall|i: int| 0 <= i < front.len() ==> #[trigger] front[i] == a[i]);
        lemma_drop_one(front, key);
    } else {
        let pad = Seq::new((n - a.len()) as nat, |i: int| NO_REFERENCE);
        assert(fit(a, n) == a + pad);
        Seq::filter_distributes_over_add(a, pad, keep);
        let kept = pad.filter(keep);
        assert forall|i: int| 0 <= i < kept.len() implies #[trigger] kept[i] == NO_REFERENCE by {
            assert(kept.contains(kept[i]));
            pad.lemma_filter_contains_rev(keep, kept[i]);
        }
    }
}

proof fn lemma_splice_all_closed(kept: Seq<u32>, keys: Seq<u32>, n: nat)
    requires
        kept.len() <= n,
        picked_at_most_once(kept, keys),
    ensures
        splice_all(fit(kept, n), keys, n) == fit(keys + kept.filter(not_among(keys)), n),
    decreases keys.len(),
{
    let list = fit(kept, n);
    if keys.len() == 0 {
        lemma_filter_all(kept, not_among(keys));
        assert(keys + kept == kept);
    } else {
        let before = keys.drop_last();
        let key = keys.last();
        let m = before.len();
        let rest = kept.filter(not_among(before));
        assert(forall|k: u32| before.contains(k) ==> #[trigger] keys.contains(k)) by {
            assert forall|k: u32| before.contains(k) implies #[trigger] keys.contains(k) by {
                let i = choose|i: int| 0 <= i < before.len() && before[i] == k;
                assert(keys[i] == k);
            }
        }
        lemma_splice_all_closed(kept, before, n);
        lemma_splice_all_front(list, before, n);
        assert(before.push(key) == keys);
        let prior = splice_all(list, before, n);
        if m >= n {
            assert(prior == fit(keys + kept.filter(not_among(keys)), n));
        } else {
            assert(keys.contains(key)) by {
                assert(keys[keys.len() - 1] == key);
            }
            lemma_filter_keeps_single(kept, not_among(before), key);
            lemma_filter_and(kept, before, key);
            lemma_filter_fitted(rest, (n - m) as nat, key);
            assert(prior.take(m as int) == before);
            assert(prior.skip(m as int) == fit(rest, (n - m) as nat));
            let got = fit(rest, (n - m) as nat).filter(other_than(key));
            let want = rest.filter(other_than(key));
            assert forall|i: int| 0 <= i < n implies #[trigger] fit(keys + got, n)[i] == fit(
                keys + want,
                n,
            )[i] by {
                if i > m {
                    let j = i - m - 1;
                    assert(fit(got, (n - m - 1) as nat)[j] == fit(want, (n - m - 1) as nat)[j]);
                }
            }
            assert(fit(keys + got, n) == fit(keys + want, n));
        }
    }
}

proof fn lemma_filter_all(s: Seq<u32>, p: spec_fn(u32) -> bool)
    requires
        forall|k: u32| #[trigger] p(k),
    ensures
        s.filter(p) == s,
    decreases s.len(),
{
    reveal(Seq::filter);
    if s.len() > 0 {
        lemma_filter_all(s.drop_last(), p);
    }
}

/// The part of a list that is not cut off when it is brought to `n` entries.
pub open spec fn kept_front(list: Seq<u32>, n: nat) -> Seq<u32> {
    if list.len() > n {
        list.take(n as int)
    } else {
        list
    }
}

/// A modified list in one piece: first the pictures that the operations found,
/// in the order of the operations, then the other entries of the list in the
/// order in which they stood, cut or padded to `num_active` entries. This holds
/// wherever none of those pictures stood in the list twice.
pub proof fn law_modified_list_closed_form(
    list: Seq<u32>,
    ops: Seq<RplmOp>,
    dpb: Seq<DpbEntry>,
    num_active: u32,
    current: CurrentPicture,
)
    requires
        picked_at_most_once(
            kept_front(list, num_active as nat),
            picks(ops, ops.len(), dpb, current),
        ),
    ensures
        modified_list(list, ops, dpb, num_active, current) == fit(
            picks(ops, ops.len(), dpb, current) + kept_front(list, num_active as nat).filter(
                not_among(picks(ops, ops.len(), dpb, current)),
            ),
            num_active as nat,
        ),
{
    let kept = kept_front(list, num_active as nat);
    assert(fit(kept, num_active as nat) == fit(list, num_active as nat));
    lemma_splice_all_closed(kept, picks(ops, ops.len(), dpb, current), num_active as nat);
}

/// Where neither the part of a list that is kept nor the pictures that the
/// operations found hold a key twice, the modified list does not either, except
/// for [`NO_REFERENCE`].
pub proof fn law_modified_list_distinct(
    list: Seq<u32>,
    ops: Seq<RplmOp>,
    dpb: Seq<DpbEntry>,
    num_active: u32,
    current: CurrentPicture,
    i: int,
    j: int,
)
    requires
        kept_front(list, num_active as nat).no_duplicates(),
        picks(ops, ops.len(), dpb, current).no_duplicates(),
        0 <= i < j < num_active,
    ensures
        modified_list(list, ops, dpb, num_active, current)[i] == modified_list(
            list,
            ops,
            dpb,
            num_active,
            current,
        )[j] ==> modified_list(list, ops, dpb, num_active, current)[i] == NO_REFERENCE,
{
    broadcast use vstd::seq_lib::group_filter_ensures;
    let kept = kept_front(list, num_active as nat);
    let keys = picks(ops, ops.len(), dpb, current);
    let rest = kept.filter(not_among(keys));
    law_modified_list_closed_form(list, ops, dpb, num_active, current);
    lemma_filter_distinct(kept, not_among(keys));
    if j < keys.len() + rest.len() {
        if i < keys.len() && j >= keys.len() {
            assert(not_among(keys)(rest[j - keys.len()]));
            assert(keys.contains(keys[i]));
        }
    }
}

proof fn lemma_filter_distinct(s: Seq<u32>, p: spec_fn(u32) -> bool)
    requires
        s.no_duplicates(),
    ensures
        s.filter(p).no_duplicates(),
    decreases s.len(),
{
    reveal(Seq::filter);
    if s.len() > 0 {
        let rest = s.drop_last();
        let inner = rest.filter(p);
        lemma_filter_distinct(rest, p);
        assert(!inner.contains(s.last())) by {
            if inner.contains(s.last()) {
                rest.lemma_filter_contains_rev(p, s.last());
                let h = choose|h: int| 0 <= h < rest.len() && rest[h] == s.last();
                assert(s[h] == s[s.len() - 1]);
            }
        }
    }
}

proof fn lemma_pick_is_reference(
    ops: Seq<RplmOp>,
    n: nat,
    dpb: Seq<DpbEntry>,
    current: CurrentPicture,
    key: u32,
)
    requires
        picks(ops, n, dpb, current).contains(key),
    ensures
        is_reference_key(dpb, key),
    decreases n,
{
    let before = picks(ops, (n - 1) as nat, dpb, current);
    let wanted = named_by(ops[n - 1], prediction(ops, n, current), current);
    if before.contains(key) {
        lemma_pick_is_reference(ops, (n - 1) as nat, dpb, current, key);
    } else {
        let all = picks(ops, n, dpb, current);
        let i = choose|i: int| 0 <= i < all.len() && all[i] == key;
        assert(first_key(dpb, wanted) == Some(key)) by {
            if i < before.len() {
                assert(before[i] == key);
            }
        }
        let hits = dpb.filter(wanted);
        broadcast use vstd::seq_lib::group_filter_ensures;
        assert(wanted(hits[0]));
        assert(hits.contains(hits[0]));
        dpb.lemma_filter_contains_rev(wanted, hits[0]);
        let j = choose|j: int| 0 <= j < dpb.len() && dpb[j] == hits[0];
        assert(dpb[j].dpb_key == key);
    }
}

proof fn lemma_splice_all_entries(list: Seq<u32>, keys: Seq<u32>, n: nat, i: int)
    requires
        list.len() == n,
        0 <= i < n,
    ensures
        ({
            let k = splice_all(list, keys, n)[i];
            k == NO_REFERENCE || list.contains(k) || keys.contains(k)
        }),
    decreases keys.len(),
{
    if keys.len() == 0 {
        assert(list.contains(list[i]));
    } else {
        let before = keys.drop_last();
        let key = keys.last();
        let at = before.len();
        let prior = splice_all(list, before, n);
        lemma_splice_all_front(list, before, n);
        assert forall|j: int| 0 <= j < n implies ({
            let k = #[trigger] prior[j];
            k == NO_REFERENCE || list.contains(k) || keys.contains(k)
        }) by {
            lemma_splice_all_entries(list, before, n, j);
            if before.contains(prior[j]) {
                let h = choose|h: int| 0 <= h < before.len() && before[h] == prior[j];
                assert(keys[h] == prior[j]);
            }
        }
        if at < n {
            let tail = prior.skip(at as int);
            let rest = tail.filter(other_than(key));
            if i == at {
                assert(keys[at as int] == key);
            } else if i > at && i - at - 1 < rest.len() {
                let k = rest[i - at - 1];
                assert(rest.contains(k));
                tail.lemma_filter_contains_rev(other_than(key), k);
                let h = choose|h: int| 0 <= h < tail.len() && tail[h] == k;
                assert(prior[at + h] == k);
            }
        }
    }
}

/// Every entry of a modified list comes from the list as it was, or is the key
/// of a picture in the DPB that is used for reference, or is
/// [`NO_REFERENCE`].
pub proof fn law_modified_entries_known(
    list: Seq<u32>,
    ops: Seq<RplmOp>,
    dpb: Seq<DpbEntry>,
    num_active: u32,
    current: CurrentPicture,
    i: int,
)
    requires
        0 <= i < num_active,
    ensures
        ({
            let k = modified_list(list, ops, dpb, num_active, current)[i];
            ||| k == NO_REFERENCE
            ||| list.contains(k)
            ||| is_reference_key(dpb, k)
        }),
{
    let n = num_active as nat;
    let keys = picks(ops, ops.len(), dpb, current);
    let k = modified_list(list, ops, dpb, num_active, current)[i];
    lemma_splice_all_entries(fit(list, n), keys, n, i);
    if keys.contains(k) {
        lemma_pick_is_reference(ops, ops.len(), dpb, current, k);
    } else if fit(list, n).contains(k) {
        let h = choose|h: int| 0 <= h < n && fit(list, n)[h] == k;
        if h < list.len() {
            assert(list[h] == k);
        }
    }
}

/// The value range of an operation: a distance between picture numbers is at
/// most `MaxPicNum`.
pub open spec fn op_in_range(op: RplmOp, current: CurrentPicture) -> bool {
    match op {
        RplmOp::Subtract(d) => d < current.max_pic_num(),
        RplmOp::Add(d) => d < current.max_pic_num(),
        RplmOp::LongTerm(_) => true,
    }
}

proof fn lemma_mod_one_turn(q: int, max: int)
    requires
        0 < max,
        -max <= q < 2 * max,
    ensures
        q % max == (if q < 0 {
            q + max
        } else if q >= max {
            q - max
        } else {
            q
        }),
{
    if q < 0 {
        vstd::arithmetic::div_mod::lemma_mod_add_multiples_vanish(q, max);
        vstd::arithmetic::div_mod::lemma_small_mod((q + max) as nat, max as nat);
    } else if q >= max {
        vstd::arithmetic::div_mod::lemma_mod_sub_multiples_vanish(q, max);
        vstd::arithmetic::div_mod::lemma_small_mod((q - max) as nat, max as nat);
    } else {
        vstd::arithmetic::div_mod::lemma_small_mod(q as nat, max as nat);
    }
}

proof fn lemma_numbers_in_range(current: CurrentPicture)
    requires
        current.frame_num < current.max_frame_num <= 0x2000_0000,
    ensures
        0 <= current.curr_pic_num() < current.max_pic_num() <= 0x4000_0000,
        forall|d: u32| d < current.max_pic_num() ==> #[trigger] pic_num_distance(d) == d + 1,
{
}

/// One operation in range moves a prediction below `MaxPicNum` to a number
/// below `MaxPicNum`, by its distance and modulo `MaxPicNum`, and the picture
/// number that it names is at most `CurrPicNum` and less than a turn away.
pub proof fn law_prediction_step(op: RplmOp, pred: int, current: CurrentPicture)
    requires
        current.frame_num < current.max_frame_num <= 0x2000_0000,
        op_in_range(op, current),
        0 <= pred < current.max_pic_num(),
    ensures
        0 <= predicted(op, pred, current) < current.max_pic_num(),
        op matches RplmOp::Subtract(d) ==> predicted(op, pred, current) == (pred - (d + 1))
            % current.max_pic_num(),
        op matches RplmOp::Add(d) ==> predicted(op, pred, current) == (pred + (d + 1))
            % current.max_pic_num(),
        current.curr_pic_num() - current.max_pic_num() < named_pic_num(
            predicted(op, pred, current),
            current,
        ) <= current.curr_pic_num(),
        named_pic_num(predicted(op, pred, current), current) % current.max_pic_num()
            == predicted(op, pred, current),
{
    let max = current.max_pic_num();
    lemma_numbers_in_range(current);
    match op {
        RplmOp::Subtract(d) => {
            assert(pic_num_distance(d) == d + 1);
            lemma_mod_one_turn(pred - (d + 1), max);
        },
        RplmOp::Add(d) => {
            assert(pic_num_distance(d) == d + 1);
            lemma_mod_one_turn(pred + (d + 1), max);
        },
        RplmOp::LongTerm(_) => {},
    }
    lemma_mod_one_turn(named_pic_num(predicted(op, pred, current), current), max);
}

/// Moving a prediction down by a distance and up by the same distance, in
/// either order, gives the prediction back.
pub proof fn law_add_undoes_subtract(d: u32, pred: int, current: CurrentPicture)
    requires
        current.frame_num < current.max_frame_num <= 0x2000_0000,
        d < current.max_pic_num(),
        0 <= pred < current.max_pic_num(),
    ensures
        predicted(RplmOp::Add(d), predicted(RplmOp::Subtract(d), pred, current), current) == pred,
        predicted(RplmOp::Subtract(d), predicted(RplmOp::Add(d), pred, current), current) == pred,
{
    lemma_numbers_in_range(current);
    assert(pic_num_distance(d) == d + 1);
}

proof fn lemma_prediction_in_range(ops: Seq<RplmOp>, n: nat, current: CurrentPicture)
    requires
        current.frame_num < current.max_frame_num <= 0x2000_0000,
        n <= ops.len(),
        forall|i: int| 0 <= i < ops.len() ==> op_in_range(#[trigger] ops[i], current),
    ensures
        0 <= prediction(ops, n, current) < current.max_pic_num(),
    decreases n,
{
    if n > 0 {
        lemma_prediction_in_range(ops, (n - 1) as nat, current);
        law_prediction_step(ops[n - 1], prediction(ops, (n - 1) as nat, current), current);
    }
}

/// A slice header that keeps to its value ranges meets what
/// [`modify_ref_pic_list`](crate::modify::modify_ref_pic_list) asks for: no
/// arithmetic leaves 32 bits. The prediction stays below `MaxPicNum`
/// throughout.
pub proof fn law_modification_in_range(
    ops: Seq<RplmOp>,
    dpb: Seq<DpbEntry>,
    current: CurrentPicture,
)
    requires
        current_in_range(dpb, current),
        forall|i: int| 0 <= i < ops.len() ==> op_in_range(#[trigger] ops[i], current),
    ensures
        modification_defined(ops, dpb, current),
        forall|n: nat|
            n <= ops.len() ==> 0 <= #[trigger] prediction(ops, n, current) < current.max_pic_num(),
{
    assert forall|n: nat| n <= ops.len() implies 0 <= #[trigger] prediction(ops, n, current)
        < current.max_pic_num() by {
        lemma_prediction_in_range(ops, n, current);
    }
    assert forall|n: int| 0 <= n < ops.len() implies op_defined(
        #[trigger] ops[n],
        prediction(ops, n as nat, current),
        dpb,
        current,
    ) by {
        lemma_prediction_in_range(ops, n as nat, current);
        law_prediction_step(ops[n], prediction(ops, n as nat, current), current);
    }
}

/// A predicted number below `MaxPicNum` names exactly the short-term
/// references whose `frame_num` it is. Among fields it is twice the
/// `frame_num`, and one more for an entry that offers the parity of the current
/// field.
pub proof fn law_named_picture(e: DpbEntry, p: int, current: CurrentPicture)
    requires
        current.frame_num < current.max_frame_num <= 0x2000_0000,
        e.frame_num < current.max_frame_num,
        0 <= p < current.max_pic_num(),
    ensures
        e.pic_num_for(current) == named_pic_num(p, current) <==> p == (if !current.is_field {
            e.frame_num as int
        } else if e.structure.has_parity(current.bottom) {
            2 * e.frame_num + 1
        } else {
            2 * e.frame_num
        }),
{
}

} // verus!
