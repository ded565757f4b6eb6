//! What holds of the values that reducing and scanning put on the stack, where it takes that the
//! numbers of a runtime are well behaved to say so.
use crate::array::ArrayView;
use crate::env::{
    may_make, may_reply, Call, ErrorViewOf, FunctionOf, Runtime, StateView, ValueViewOf,
};
use crate::fast::{reduced, reduces, scanned};
use crate::function::{Dyadic, Identity, Primitive, Signature};
use crate::laws::calls::{first_accumulated, first_scanned, law_scan_keeps_row_count};
use crate::laws::items::{
    law_flip_of_unordered, law_reduced_single_valued, law_scan_ends_in_reduction,
    law_scan_of_first_rows, law_scanned_single_valued, single_valued,
};
use crate::pervade::{byte_of, byte_steps, converted, num_steps};
use crate::reduce::{
    accumulates, collects, folds_right, optional, placed, reduces_coms, reduces_nums,
    reduces_value,
};
use crate::scan::{scans_generic, scans_rows, scans_value};
use crate::value::ValueView;
use vstd::prelude::*;

verus! {

/// Whether a byte stands for one number only.
pub open spec fn converts_one_way<R: Runtime>(rt: R) -> bool {
    forall|byte: u8, x: R::Num, y: R::Num|
        #[trigger] call_ensures(R::byte_to_num, (&rt, byte), x) && #[trigger] call_ensures(
            R::byte_to_num,
            (&rt, byte),
            y,
        ) ==> x == y
}

/// Whether an identity stands for one number only.
pub open spec fn identifies_one_way<R: Runtime>(rt: R, identity: Identity) -> bool {
    forall|x: R::Num, y: R::Num|
        #[trigger] call_ensures(R::num_identity, (&rt, identity), x) && #[trigger] call_ensures(
            R::num_identity,
            (&rt, identity),
            y,
        ) ==> x == y
}

/// Bytes are converted to one array only where a byte stands for one number only.
proof fn lemma_converted_one_way<R: Runtime>(
    rt: R,
    a: ArrayView<u8>,
    x: ArrayView<R::Num>,
    y: ArrayView<R::Num>,
)
    requires
        converts_one_way(rt),
        converted(rt, a, x),
        converted(rt, a, y),
    ensures
        x == y,
{
    assert forall|i: int| 0 <= i < a.items.len() implies x.items[i] == y.items[i] by {
        assert(call_ensures(R::byte_to_num, (&rt, a.items[i]), x.items[i]));
        assert(call_ensures(R::byte_to_num, (&rt, a.items[i]), y.items[i]));
    }
    assert(x.items == y.items);
}

/// Reducing numbers with a primitive puts one value only on the stack where its operation gives one
/// number only, and so does its identity.
pub proof fn law_reduce_of_numbers_settled<R: Runtime>(
    rt: R,
    pack_boxes: bool,
    f: FunctionOf<R>,
    a: ArrayView<R::Num>,
    s: StateView<R>,
    end: StateView<R>,
    result: Result<(), ErrorViewOf<R>>,
    other_end: StateView<R>,
    other: Result<(), ErrorViewOf<R>>,
)
    requires
        f.primitive matches Some((prim, flipped)) && prim.reduction() matches Some((op, identity))
            && single_valued(num_steps(rt, op, flipped)) && identifies_one_way(rt, identity),
        reduces_value(rt, pack_boxes, f, ValueView::Num(a), s, end, result),
        reduces_value(rt, pack_boxes, f, ValueView::Num(a), s, other_end, other),
    ensures
        result == Ok::<(), ErrorViewOf<R>>(()),
        other == result,
        other_end == end,
{
    let (prim, flipped) = f.primitive->0;
    let (op, identity) = prim.reduction()->0;
    let step = num_steps(rt, op, flipped);
    let x = choose|out: ArrayView<R::Num>| #[trigger]
        reduces_nums(rt, op, flipped, identity, a, out) && end == s.push(ValueView::Num(out));
    let y = choose|out: ArrayView<R::Num>| #[trigger]
        reduces_nums(rt, op, flipped, identity, a, out) && other_end == s.push(
            ValueView::Num(out),
        );
    let i = choose|id: R::Num|
        call_ensures(R::num_identity, (&rt, identity), id) && #[trigger] reduced(step, id, a, x);
    let j = choose|id: R::Num|
        call_ensures(R::num_identity, (&rt, identity), id) && #[trigger] reduced(step, id, a, y);
    law_reduced_single_valued(step, i, a, x, y);
}

/// Scanning numbers with a primitive puts one value only on the stack where its operation gives one
/// number only.
pub proof fn law_scan_of_numbers_settled<R: Runtime>(
    rt: R,
    f: FunctionOf<R>,
    a: ArrayView<R::Num>,
    s: StateView<R>,
    end: StateView<R>,
    result: Result<(), ErrorViewOf<R>>,
    other_end: StateView<R>,
    other: Result<(), ErrorViewOf<R>>,
)
    requires
        f.primitive matches Some((prim, flipped)) && prim.scanning() matches Some(op)
            && single_valued(num_steps(rt, op, flipped)),
        a.wf(),
        a.rank() > 0,
        scans_value(rt, f, ValueView::Num(a), s, end, result),
        scans_value(rt, f, ValueView::Num(a), s, other_end, other),
    ensures
        result == Ok::<(), ErrorViewOf<R>>(()),
        other == result,
        other_end == end,
{
    let (prim, flipped) = f.primitive->0;
    let step = num_steps(rt, prim.scanning()->0, flipped);
    let x = choose|out: ArrayView<R::Num>| #[trigger]
        scanned(step, a, out) && end == s.push(ValueView::Num(out));
    let y = choose|out: ArrayView<R::Num>| #[trigger]
        scanned(step, a, out) && other_end == s.push(ValueView::Num(out));
    law_scanned_single_valued(step, a, x, y);
}

/// Reducing bytes with a primitive puts on the stack what reducing the numbers that they stand for
/// puts there.
pub proof fn law_reduce_of_bytes<R: Runtime>(
    rt: R,
    pack_boxes: bool,
    f: FunctionOf<R>,
    bytes: ArrayView<u8>,
    nums: ArrayView<R::Num>,
    s: StateView<R>,
    end: StateView<R>,
    result: Result<(), ErrorViewOf<R>>,
)
    requires
        f.primitive matches Some((prim, _)) && prim.reduction() is Some,
        converts_one_way(rt),
        converted(rt, bytes, nums),
    ensures
        reduces_value(rt, pack_boxes, f, ValueView::Byte(bytes), s, end, result)
            <==> reduces_value(rt, pack_boxes, f, ValueView::Num(nums), s, end, result),
{
    let (prim, flipped) = f.primitive->0;
    let (op, identity) = prim.reduction()->0;
    if reduces_value(rt, pack_boxes, f, ValueView::Byte(bytes), s, end, result) {
        let (x, out) = choose|x: ArrayView<R::Num>, out: ArrayView<R::Num>|
            #![trigger reduces_nums(rt, op, flipped, identity, x, out)]
            converted(rt, bytes, x) && reduces_nums(rt, op, flipped, identity, x, out) && end
                == s.push(ValueView::Num(out));
        lemma_converted_one_way(rt, bytes, x, nums);
    }
}

/// Scanning bytes with a primitive whose operation does not give bytes puts on the stack what
/// scanning the numbers that they stand for puts there.
pub proof fn law_scan_of_bytes_as_numbers<R: Runtime>(
    rt: R,
    f: FunctionOf<R>,
    bytes: ArrayView<u8>,
    nums: ArrayView<R::Num>,
    s: StateView<R>,
    end: StateView<R>,
    result: Result<(), ErrorViewOf<R>>,
)
    requires
        f.primitive matches Some((prim, _)) && prim.scanning() matches Some(op) && !op.bytewise(),
        converts_one_way(rt),
        converted(rt, bytes, nums),
    ensures
        scans_value(rt, f, ValueView::Byte(bytes), s, end, result) <==> scans_value(
            rt,
            f,
            ValueView::Num(nums),
            s,
            end,
            result,
        ),
{
    let (prim, flipped) = f.primitive->0;
    let step = num_steps(rt, prim.scanning()->0, flipped);
    if bytes.rank() > 0 && scans_value(rt, f, ValueView::Byte(bytes), s, end, result) {
        let (x, out) = choose|x: ArrayView<R::Num>, out: ArrayView<R::Num>|
            #![trigger scanned(step, x, out)]
            converted(rt, bytes, x) && scanned(step, x, out) && end == s.push(
                ValueView::Num(out),
            );
        lemma_converted_one_way(rt, bytes, x, nums);
    }
}

/// Whether what an operation gives for the numbers that two bytes stand for is a number that the
/// byte it gives for the two bytes stands for.
pub open spec fn stays_among_bytes<R: Runtime>(rt: R, op: Dyadic) -> bool {
    forall|a: u8, b: u8, x: R::Num, y: R::Num, z: R::Num|
        #[trigger] call_ensures(R::byte_to_num, (&rt, a), x) && #[trigger] call_ensures(
            R::byte_to_num,
            (&rt, b),
            y,
        ) && #[trigger] call_ensures(R::num_num, (&rt, op, x, y), z) ==> call_ensures(
            R::byte_to_num,
            (&rt, byte_of(op, a, b)),
            z,
        )
}

/// Whether an operation may give, for the numbers that two bytes stand for, each number that the
/// byte it gives for the two bytes stands for.
pub open spec fn covers_bytes<R: Runtime>(rt: R, op: Dyadic) -> bool {
    forall|a: u8, b: u8, x: R::Num, y: R::Num, z: R::Num|
        #[trigger] call_ensures(R::byte_to_num, (&rt, a), x) && #[trigger] call_ensures(
            R::byte_to_num,
            (&rt, b),
            y,
        ) && #[trigger] call_ensures(R::byte_to_num, (&rt, byte_of(op, a, b)), z) ==> call_ensures(
            R::num_num,
            (&rt, op, x, y),
            z,
        )
}

/// A scan of the numbers that bytes stand for holds the numbers that the scan of the bytes stands
/// for, where the operation agrees on bytes and on the numbers that they stand for.
pub proof fn law_scan_of_converted_bytes<R: Runtime>(
    rt: R,
    op: Dyadic,
    flipped: bool,
    bytes: ArrayView<u8>,
    out: ArrayView<u8>,
    nums: ArrayView<R::Num>,
    num_out: ArrayView<R::Num>,
)
    requires
        op.bytewise(),
        stays_among_bytes(rt, op),
        bytes.wf(),
        bytes.rank() > 0,
        converted(rt, bytes, nums),
        scanned(byte_steps(op), bytes, out),
        scanned(num_steps(rt, op, flipped), nums, num_out),
    ensures
        converted(rt, out, num_out),
{
    assert forall|p: int| 0 <= p < out.items.len() implies call_ensures(
        R::byte_to_num,
        (&rt, out.items[p]),
        #[trigger] num_out.items[p],
    ) by {
        lemma_converted_at(rt, op, flipped, bytes, out, nums, num_out, p);
    }
}

proof fn lemma_converted_at<R: Runtime>(
    rt: R,
    op: Dyadic,
    flipped: bool,
    bytes: ArrayView<u8>,
    out: ArrayView<u8>,
    nums: ArrayView<R::Num>,
    num_out: ArrayView<R::Num>,
    p: int,
)
    requires
        op.bytewise(),
        stays_among_bytes(rt, op),
        bytes.wf(),
        bytes.rank() > 0,
        converted(rt, bytes, nums),
        scanned(byte_steps(op), bytes, out),
        scanned(num_steps(rt, op, flipped), nums, num_out),
        0 <= p < out.items.len(),
    ensures
        call_ensures(R::byte_to_num, (&rt, out.items[p]), num_out.items[p]),
    decreases p,
{
    let n = bytes.row_len() as int;
    assert(call_ensures(R::byte_to_num, (&rt, bytes.items[p]), nums.items[p]));
    assert(out.items[p] == out.items[p] && num_out.items[p] == num_out.items[p]);
    if p >= n {
        lemma_some_items(bytes);
        lemma_converted_at(rt, op, flipped, bytes, out, nums, num_out, p - n);
        assert(num_steps(rt, op, flipped)(num_out.items[p - n], nums.items[p], num_out.items[p]));
        assert(call_ensures(
            R::num_num,
            (&rt, op, num_out.items[p - n], nums.items[p]),
            num_out.items[p],
        ));
        assert(byte_steps(op)(out.items[p - n], bytes.items[p], out.items[p]));
    }
}

/// The rows of an array that has items have items.
proof fn lemma_some_items<T>(a: ArrayView<T>)
    requires
        a.wf(),
        a.rank() > 0,
        a.items.len() > 0,
    ensures
        a.row_len() > 0,
{
    let c = a.shape[0] as int;
    let n = a.row_len() as int;
    assert(n == 0 ==> c * n == 0) by (nonlinear_arith);
}

/// The numbers that the scan of bytes stands for are a scan of the numbers that the bytes stand
/// for, where the operation agrees on bytes and on the numbers that they stand for.
pub proof fn law_converted_scan_of_bytes<R: Runtime>(
    rt: R,
    op: Dyadic,
    flipped: bool,
    bytes: ArrayView<u8>,
    out: ArrayView<u8>,
    nums: ArrayView<R::Num>,
    num_out: ArrayView<R::Num>,
)
    requires
        op.bytewise(),
        covers_bytes(rt, op),
        converts_one_way(rt),
        bytes.wf(),
        bytes.rank() > 0,
        converted(rt, bytes, nums),
        scanned(byte_steps(op), bytes, out),
        converted(rt, out, num_out),
    ensures
        scanned(num_steps(rt, op, flipped), nums, num_out),
{
    let n = bytes.row_len() as int;
    let step = num_steps(rt, op, flipped);
    assert forall|p: int| 0 <= p < nums.items.len() implies if p < nums.row_len() {
        #[trigger] num_out.items[p] == nums.items[p]
    } else {
        step(num_out.items[p - nums.row_len()], nums.items[p], num_out.items[p])
    } by {
        assert(call_ensures(R::byte_to_num, (&rt, bytes.items[p]), nums.items[p]));
        assert(call_ensures(R::byte_to_num, (&rt, out.items[p]), num_out.items[p]));
        if p >= n {
            assert(call_ensures(R::byte_to_num, (&rt, out.items[p - n]), num_out.items[p - n]));
            assert(byte_steps(op)(out.items[p - n], bytes.items[p], out.items[p]));
        }
    }
}

/// Scanning bytes with a primitive whose operation gives bytes puts bytes on the stack, and they
/// stand for the numbers that scanning the numbers puts there, where the operation agrees on bytes
/// and on the numbers that they stand for.
pub proof fn law_scan_of_bytes_as_bytes<R: Runtime>(
    rt: R,
    f: FunctionOf<R>,
    bytes: ArrayView<u8>,
    nums: ArrayView<R::Num>,
    s: StateView<R>,
    end: StateView<R>,
    result: Result<(), ErrorViewOf<R>>,
    num_end: StateView<R>,
    num_result: Result<(), ErrorViewOf<R>>,
)
    requires
        f.primitive matches Some((prim, _)) && prim.scanning() matches Some(op) && op.bytewise()
            && stays_among_bytes(rt, op),
        bytes.wf(),
        bytes.rank() > 0,
        converted(rt, bytes, nums),
        scans_value(rt, f, ValueView::Byte(bytes), s, end, result),
        scans_value(rt, f, ValueView::Num(nums), s, num_end, num_result),
    ensures
        result == Ok::<(), ErrorViewOf<R>>(()),
        num_result == result,
        exists|out: ArrayView<u8>, num_out: ArrayView<R::Num>| #[trigger]
            converted(rt, out, num_out) && end == s.push(ValueView::Byte(out)) && num_end == s.push(
                ValueView::Num(num_out),
            ),
{
    let (prim, flipped) = f.primitive->0;
    let op = prim.scanning()->0;
    let out = choose|out: ArrayView<u8>| #[trigger]
        scanned(byte_steps(op), bytes, out) && end == s.push(ValueView::Byte(out));
    let num_out = choose|out: ArrayView<R::Num>| #[trigger]
        scanned(num_steps(rt, op, flipped), nums, out) && num_end == s.push(ValueView::Num(out));
    law_scan_of_converted_bytes(rt, op, flipped, bytes, out, nums, num_out);
}

/// The last row of what scanning numbers with a primitive puts on the stack is what reducing them
/// with it puts there, where its operation gives one number only.
pub proof fn law_scan_ends_in_reduce<R: Runtime>(
    rt: R,
    pack_boxes: bool,
    f: FunctionOf<R>,
    a: ArrayView<R::Num>,
    s: StateView<R>,
    end: StateView<R>,
    result: Result<(), ErrorViewOf<R>>,
    reduce_end: StateView<R>,
    reduce_result: Result<(), ErrorViewOf<R>>,
)
    requires
        f.primitive matches Some((prim, flipped)) && prim.reduction() matches Some((op, _))
            && single_valued(num_steps(rt, op, flipped)),
        a.wf(),
        a.rank() > 0,
        a.row_count() > 0,
        scans_value(rt, f, ValueView::Num(a), s, end, result),
        reduces_value(rt, pack_boxes, f, ValueView::Num(a), s, reduce_end, reduce_result),
    ensures
        result == Ok::<(), ErrorViewOf<R>>(()),
        reduce_result == result,
        exists|out: ArrayView<R::Num>|
            #![trigger s.push(ValueView::Num(out))]
            out.row_count() == a.row_count() && end == s.push(ValueView::Num(out)) && reduce_end
                == s.push(ValueView::Num(out.row(a.row_count() - 1))),
{
    let (prim, flipped) = f.primitive->0;
    let (op, identity) = prim.reduction()->0;
    let step = num_steps(rt, op, flipped);
    assert(prim.scanning() == Some(op));
    let out = choose|out: ArrayView<R::Num>| #[trigger]
        scanned(step, a, out) && end == s.push(ValueView::Num(out));
    let last = choose|out: ArrayView<R::Num>| #[trigger]
        reduces_nums(rt, op, flipped, identity, a, out) && reduce_end == s.push(
            ValueView::Num(out),
        );
    let id = choose|id: R::Num|
        call_ensures(R::num_identity, (&rt, identity), id) && #[trigger] reduced(
            step,
            id,
            a,
            last,
        );
    law_scan_ends_in_reduction(step, id, a, out);
    law_reduced_single_valued(step, id, a, out.row(a.row_count() - 1), last);
}

/// The first rows of what scanning numbers with a primitive puts on the stack are what scanning the
/// first rows puts there, where its operation gives one number only.
pub proof fn law_scan_of_first_rows_of_value<R: Runtime>(
    rt: R,
    f: FunctionOf<R>,
    a: ArrayView<R::Num>,
    k: nat,
    s: StateView<R>,
    end: StateView<R>,
    result: Result<(), ErrorViewOf<R>>,
    first_end: StateView<R>,
    first_result: Result<(), ErrorViewOf<R>>,
)
    requires
        f.primitive matches Some((prim, flipped)) && prim.scanning() matches Some(op)
            && single_valued(num_steps(rt, op, flipped)),
        a.wf(),
        a.rank() > 0,
        1 <= k <= a.row_count(),
        scans_value(rt, f, ValueView::Num(a), s, end, result),
        scans_value(rt, f, ValueView::Num(a.first_rows(k)), s, first_end, first_result),
    ensures
        result == Ok::<(), ErrorViewOf<R>>(()),
        first_result == result,
        exists|out: ArrayView<R::Num>|
            #![trigger s.push(ValueView::Num(out))]
            end == s.push(ValueView::Num(out)) && first_end == s.push(
                ValueView::Num(out.first_rows(k)),
            ),
{
    let (prim, flipped) = f.primitive->0;
    let step = num_steps(rt, prim.scanning()->0, flipped);
    let out = choose|out: ArrayView<R::Num>| #[trigger]
        scanned(step, a, out) && end == s.push(ValueView::Num(out));
    let first = choose|out: ArrayView<R::Num>| #[trigger]
        scanned(step, a.first_rows(k), out) && first_end == s.push(ValueView::Num(out));
    law_scan_of_first_rows(step, a, out, k);
    law_scanned_single_valued(step, a.first_rows(k), first, out.first_rows(k));
}

/// The list of two items.
pub open spec fn pair<T>(a: T, b: T) -> ArrayView<T> {
    ArrayView { shape: seq![2usize], items: seq![a, b] }
}

/// What the list of two items reduces to is what combining them gives.
proof fn lemma_pair_reduced<T>(
    step: spec_fn(T, T, T) -> bool,
    identity: T,
    a: T,
    b: T,
    out: ArrayView<T>,
)
    ensures
        reduced(step, identity, pair(a, b), out) <==> {
            &&& out.shape == Seq::<usize>::empty()
            &&& out.items.len() == 1
            &&& step(a, b, out.items[0])
        },
{
    let p = pair(a, b);
    assert(p.row_shape() == Seq::<usize>::empty());
    assert(p.row_len() == 1);
    assert(p.column(0) == seq![a, b]);
    reveal_with_fuel(reduces, 3);
    if out.items.len() == 1 {
        let c = out.items[0];
        assert(p.column(0).drop_last() == seq![a]);
        assert(p.column(0).last() == b);
        if step(a, b, c) {
            assert(reduces(step, seq![a], a) && step(a, b, c));
            assert(reduces(step, p.column(0), c));
        }
        if reduces(step, p.column(0), c) {
            let before = choose|before: T|
                reduces(step, p.column(0).drop_last(), before) && #[trigger] step(before, b, c);
            assert(before == seq![a][0]);
        }
    }
}

/// The scan of the list of two items is the first one and what combining them gives.
proof fn lemma_pair_scanned<T>(step: spec_fn(T, T, T) -> bool, a: T, b: T, out: ArrayView<T>)
    ensures
        scanned(step, pair(a, b), out) <==> out == pair(a, out.items[1]) && step(
            a,
            b,
            out.items[1],
        ),
{
    let p = pair(a, b);
    assert(p.row_shape() == Seq::<usize>::empty());
    assert(p.row_len() == 1);
    if scanned(step, p, out) {
        assert(out.items[0] == a);
        assert(out.items[1] == out.items[1]);
        assert(out.items == seq![a, out.items[1]]);
    }
}

/// Reducing the list of two numbers with a flipped primitive that minds the order of its operands
/// puts on the stack what reducing the list the other way round with the primitive puts there.
pub proof fn law_reduce_flipped_pair<R: Runtime>(
    rt: R,
    pack_boxes: bool,
    prim: Primitive,
    flip: FunctionOf<R>,
    plain: FunctionOf<R>,
    a: R::Num,
    b: R::Num,
    s: StateView<R>,
    end: StateView<R>,
    result: Result<(), ErrorViewOf<R>>,
)
    requires
        flip.primitive matches Some((p, flipped)) && p == prim && flipped,
        plain.primitive matches Some((p, flipped)) && p == prim && !flipped,
        prim.reduction() matches Some((op, _)) && op.ordered(),
    ensures
        reduces_value(rt, pack_boxes, flip, ValueView::Num(pair(a, b)), s, end, result)
            <==> reduces_value(rt, pack_boxes, plain, ValueView::Num(pair(b, a)), s, end, result),
{
    let (op, identity) = prim.reduction()->0;
    let from = num_steps(rt, op, true);
    let to = num_steps(rt, op, false);
    assert forall|id: R::Num, out: ArrayView<R::Num>|
        reduced(from, id, pair(a, b), out) == reduced(to, id, pair(b, a), out) by {
        lemma_pair_reduced(from, id, a, b, out);
        lemma_pair_reduced(to, id, b, a, out);
    }
    assert forall|out: ArrayView<R::Num>|
        reduces_nums(rt, op, true, identity, pair(a, b), out) == reduces_nums(
            rt,
            op,
            false,
            identity,
            pair(b, a),
            out,
        ) by {
        if reduces_nums(rt, op, true, identity, pair(a, b), out) {
            let id = choose|id: R::Num|
                call_ensures(R::num_identity, (&rt, identity), id) && #[trigger] reduced(
                    from,
                    id,
                    pair(a, b),
                    out,
                );
            assert(reduced(to, id, pair(b, a), out));
        }
        if reduces_nums(rt, op, false, identity, pair(b, a), out) {
            let id = choose|id: R::Num|
                call_ensures(R::num_identity, (&rt, identity), id) && #[trigger] reduced(
                    to,
                    id,
                    pair(b, a),
                    out,
                );
            assert(reduced(from, id, pair(a, b), out));
        }
    }
    if reduces_value(rt, pack_boxes, flip, ValueView::Num(pair(a, b)), s, end, result) {
        let out = choose|out: ArrayView<R::Num>| #[trigger]
            reduces_nums(rt, op, true, identity, pair(a, b), out) && end == s.push(
                ValueView::Num(out),
            );
        assert(reduces_nums(rt, op, false, identity, pair(b, a), out));
    }
    if reduces_value(rt, pack_boxes, plain, ValueView::Num(pair(b, a)), s, end, result) {
        let out = choose|out: ArrayView<R::Num>| #[trigger]
            reduces_nums(rt, op, false, identity, pair(b, a), out) && end == s.push(
                ValueView::Num(out),
            );
        assert(reduces_nums(rt, op, true, identity, pair(a, b), out));
    }
}

/// Scanning the list of two numbers with a flipped primitive that minds the order of its operands
/// leaves the first one and puts the number behind it that scanning the list the other way round
/// with the primitive puts behind the other one.
pub proof fn law_scan_flipped_pair<R: Runtime>(
    rt: R,
    prim: Primitive,
    flip: FunctionOf<R>,
    plain: FunctionOf<R>,
    a: R::Num,
    b: R::Num,
    s: StateView<R>,
    end: StateView<R>,
    result: Result<(), ErrorViewOf<R>>,
)
    requires
        flip.primitive matches Some((p, flipped)) && p == prim && flipped,
        plain.primitive matches Some((p, flipped)) && p == prim && !flipped,
        prim.scanning() matches Some(op) && op.ordered(),
    ensures
        scans_value(rt, flip, ValueView::Num(pair(a, b)), s, end, result) <==> {
            &&& result == Ok::<(), ErrorViewOf<R>>(())
            &&& exists|c: R::Num|
                end == s.push(ValueView::Num(#[trigger] pair(a, c))) && scans_value(
                    rt,
                    plain,
                    ValueView::Num(pair(b, a)),
                    s,
                    s.push(ValueView::Num(pair(b, c))),
                    Ok(()),
                )
        },
{
    let op = prim.scanning()->0;
    let from = num_steps(rt, op, true);
    let to = num_steps(rt, op, false);
    if scans_value(rt, flip, ValueView::Num(pair(a, b)), s, end, result) {
        let out = choose|out: ArrayView<R::Num>| #[trigger]
            scanned(from, pair(a, b), out) && end == s.push(ValueView::Num(out));
        lemma_pair_scanned(from, a, b, out);
        let c = out.items[1];
        lemma_pair_scanned(to, b, a, pair(b, c));
        assert(pair(b, c).items[1] == c);
        assert(scanned(to, pair(b, a), pair(b, c)));
        assert(end == s.push(ValueView::Num(pair(a, c))));
    }
    if result is Ok && exists|c: R::Num|
        end == s.push(ValueView::Num(#[trigger] pair(a, c))) && scans_value(
            rt,
            plain,
            ValueView::Num(pair(b, a)),
            s,
            s.push(ValueView::Num(pair(b, c))),
            Ok(()),
        ) {
        let c = choose|c: R::Num|
            end == s.push(ValueView::Num(#[trigger] pair(a, c))) && scans_value(
                rt,
                plain,
                ValueView::Num(pair(b, a)),
                s,
                s.push(ValueView::Num(pair(b, c))),
                Ok(()),
            );
        let last = s.push(ValueView::Num(pair(b, c)));
        let out = choose|out: ArrayView<R::Num>| #[trigger]
            scanned(to, pair(b, a), out) && last == s.push(ValueView::Num(out));
        assert(last.top() == ValueView::<R::Num, R::Complex, R::Boxed>::Num(out));
        assert(out == pair(b, c));
        lemma_pair_scanned(to, b, a, out);
        lemma_pair_scanned(from, a, b, pair(a, c));
        assert(pair(a, c).items[1] == c);
        assert(scanned(from, pair(a, b), pair(a, c)));
    }
}

/// Reducing numbers, bytes or complex numbers with a primitive that does not mind the order of its
/// operands is the same when the primitive is flipped.
pub proof fn law_reduce_ignores_flip<R: Runtime>(
    rt: R,
    pack_boxes: bool,
    prim: Primitive,
    flip: FunctionOf<R>,
    plain: FunctionOf<R>,
    xs: ValueViewOf<R>,
    s: StateView<R>,
    end: StateView<R>,
    result: Result<(), ErrorViewOf<R>>,
)
    requires
        flip.primitive matches Some((p, flipped)) && p == prim && flipped,
        plain.primitive matches Some((p, flipped)) && p == prim && !flipped,
        prim.reduction() matches Some((op, _)) && !op.ordered(),
        xs is Num || xs is Byte || xs is Complex,
    ensures
        reduces_value(rt, pack_boxes, flip, xs, s, end, result) <==> reduces_value(
            rt,
            pack_boxes,
            plain,
            xs,
            s,
            end,
            result,
        ),
{
    let (op, identity) = prim.reduction()->0;
    law_flip_of_unordered(rt, op);
    assert forall|a: ArrayView<R::Num>, out: ArrayView<R::Num>|
        #![trigger reduces_nums(rt, op, true, identity, a, out)]
        #![trigger reduces_nums(rt, op, false, identity, a, out)]
        reduces_nums(rt, op, true, identity, a, out) == reduces_nums(
            rt,
            op,
            false,
            identity,
            a,
            out,
        ) by {}
    assert forall|a: ArrayView<R::Complex>, out: ArrayView<R::Complex>|
        #![trigger reduces_coms(rt, op, true, identity, a, out)]
        #![trigger reduces_coms(rt, op, false, identity, a, out)]
        reduces_coms(rt, op, true, identity, a, out) == reduces_coms(
            rt,
            op,
            false,
            identity,
            a,
            out,
        ) by {}
}

/// Scanning numbers or bytes with a primitive that does not mind the order of its operands is the
/// same when the primitive is flipped.
pub proof fn law_scan_ignores_flip<R: Runtime>(
    rt: R,
    prim: Primitive,
    flip: FunctionOf<R>,
    plain: FunctionOf<R>,
    xs: ValueViewOf<R>,
    s: StateView<R>,
    end: StateView<R>,
    result: Result<(), ErrorViewOf<R>>,
)
    requires
        flip.primitive matches Some((p, flipped)) && p == prim && flipped,
        plain.primitive matches Some((p, flipped)) && p == prim && !flipped,
        prim.scanning() matches Some(op) && !op.ordered(),
        xs is Num || xs is Byte,
    ensures
        scans_value(rt, flip, xs, s, end, result) <==> scans_value(
            rt,
            plain,
            xs,
            s,
            end,
            result,
        ),
{
    law_flip_of_unordered(rt, prim.scanning()->0);
}

/// Whether two values have items of one kind under one shape.
pub open spec fn alike<N, C, B>(x: ValueView<N, C, B>, y: ValueView<N, C, B>) -> bool {
    x.shape() == y.shape() && match (x, y) {
        (ValueView::Num(_), ValueView::Num(_)) => true,
        (ValueView::Byte(_), ValueView::Byte(_)) => true,
        (ValueView::Complex(_), ValueView::Complex(_)) => true,
        (ValueView::Char(_), ValueView::Char(_)) => true,
        (ValueView::Boxed(_), ValueView::Boxed(_)) => true,
        _ => false,
    }
}

/// Whether all values of a list are alike.
pub open spec fn all_alike<N, C, B>(list: Seq<ValueView<N, C, B>>) -> bool {
    forall|i: int| 0 <= i < list.len() ==> alike(list[0], #[trigger] list[i])
}

/// Whether a value that is made of rows that are alike has these rows.
pub open spec fn keeps_rows<R: Runtime>(rt: R) -> bool {
    forall|list: Seq<ValueViewOf<R>>, value: ValueViewOf<R>|
        list.len() > 0 && all_alike(list) && #[trigger] may_make(rt, list, Ok(value))
            ==> value.rows() == list
}

/// Whether calling a function on two values that are alike leaves one on top that is like them.
pub open spec fn keeps_kind<R: Runtime>(rt: R, f: FunctionOf<R>) -> bool {
    forall|
        s: StateView<R>,
        a: ValueViewOf<R>,
        b: ValueViewOf<R>,
        t: StateView<R>,
        reply: Result<bool, R::Error>,
    |
        alike(a, b) && #[trigger] may_reply(rt, f, s.push(b).push(a), t, reply) && reply is Ok
            && t.values.len() > 0 ==> alike(a, t.top())
}

/// Whether a function never breaks and does the same whenever it is called on the same stacks.
pub open spec fn steady<R: Runtime>(rt: R, f: FunctionOf<R>) -> bool {
    &&& forall|s: StateView<R>, t: StateView<R>, reply: Result<bool, R::Error>| #[trigger]
        may_reply(rt, f, s, t, reply) ==> reply != Ok::<bool, R::Error>(true)
    &&& forall|
        s: StateView<R>,
        t: StateView<R>,
        reply: Result<bool, R::Error>,
        u: StateView<R>,
        other: Result<bool, R::Error>,
    |
        #[trigger] may_reply(rt, f, s, t, reply) && #[trigger] may_reply(rt, f, s, u, other) ==> t
            == u && reply == other
}

/// The rows of a scan are alike where the function leaves what is like its arguments.
proof fn lemma_scan_alike<R: Runtime>(
    rt: R,
    f: FunctionOf<R>,
    xs: ValueViewOf<R>,
    k: int,
    done: Seq<ValueViewOf<R>>,
    s: StateView<R>,
    end: StateView<R>,
    list: Seq<ValueViewOf<R>>,
)
    requires
        keeps_kind(rt, f),
        0 < k <= xs.row_count(),
        done.len() == k,
        done[0] == xs.row(0),
        all_alike(done),
        scans_rows(rt, f, xs.rows(), k, done, s, end, Ok(list)),
    ensures
        all_alike(list),
    decreases xs.row_count() - k,
{
    let rows = xs.rows();
    if k < rows.len() {
        let (t, reply) = first_scanned(rt, f, rows, k, done, s, end, Ok(list));
        assert(alike(done[0], done.last()));
        assert(alike(xs.row(0), xs.row(k)));
        assert(alike(done.last(), rows[k]));
        assert(alike(done.last(), t.top()));
        let more = done.push(t.top());
        assert(all_alike(more));
        if reply == Ok::<bool, R::Error>(false) {
            lemma_scan_alike(rt, f, xs, k + 1, more, t.pop(), end, list);
        } else {
            assert(list == more + rows.skip(k + 1));
            assert forall|i: int| 0 <= i < list.len() implies alike(
                list[0],
                #[trigger] list[i],
            ) by {
                if i < more.len() {
                    assert(list[i] == more[i]);
                } else {
                    assert(list[i] == xs.row(i));
                }
            }
        }
    }
}

/// A scan and a reduction by a steady function end alike: the last row of the one is the other.
proof fn lemma_scan_ends_in_accumulated<R: Runtime>(
    rt: R,
    f: FunctionOf<R>,
    rows: Seq<ValueViewOf<R>>,
    k: int,
    done: Seq<ValueViewOf<R>>,
    s: StateView<R>,
    end: StateView<R>,
    list: Seq<ValueViewOf<R>>,
    other_end: StateView<R>,
    acc: ValueViewOf<R>,
)
    requires
        steady(rt, f),
        0 < k <= rows.len(),
        done.len() == k,
        scans_rows(rt, f, rows, k, done, s, end, Ok(list)),
        accumulates(rt, f, rows, k, done.last(), s, other_end, Ok(acc)),
    ensures
        list.len() == rows.len(),
        list.last() == acc,
        end == other_end,
    decreases rows.len() - k,
{
    if k < rows.len() {
        let (t, reply) = first_scanned(rt, f, rows, k, done, s, end, Ok(list));
        let (u, other) = first_accumulated(rt, f, rows, k, done.last(), s, other_end, Ok(acc));
        lemma_scan_ends_in_accumulated(
            rt,
            f,
            rows,
            k + 1,
            done.push(t.top()),
            t.pop(),
            end,
            list,
            other_end,
            acc,
        );
    }
}

/// The value that scanning by calling a function puts on the stack has as many rows as the value
/// that is scanned, and the same first row, where rows that are alike stay what they are when they
/// are put together and the function leaves what is like its arguments.
pub proof fn law_scan_value_has_the_rows<R: Runtime>(
    rt: R,
    f: FunctionOf<R>,
    xs: ValueViewOf<R>,
    s: StateView<R>,
    end: StateView<R>,
)
    requires
        f.signature == (Signature { args: 2, outputs: 1 }),
        keeps_rows(rt),
        keeps_kind(rt, f),
        xs.row_count() > 0,
        scans_generic(rt, f, xs, s, end, Ok(())),
    ensures
        end.values.len() > 0,
        end.top().row_count() == xs.row_count(),
        end.top().row(0) == xs.row(0),
{
    let (t, list) = scan_list(rt, f, xs, s, end);
    let value = end.top();
    assert(value.rows()[0] == value.row(0));
}

/// The list of rows of a scan that succeeded, and the state in which they are put together.
proof fn scan_list<R: Runtime>(
    rt: R,
    f: FunctionOf<R>,
    xs: ValueViewOf<R>,
    s: StateView<R>,
    end: StateView<R>,
) -> (r: (StateView<R>, Seq<ValueViewOf<R>>))
    requires
        f.signature == (Signature { args: 2, outputs: 1 }),
        keeps_rows(rt),
        keeps_kind(rt, f),
        xs.row_count() > 0,
        scans_generic(rt, f, xs, s, end, Ok(())),
    ensures
        scans_rows(rt, f, xs.rows(), 1, seq![xs.row(0)], s, r.0, Ok(r.1)),
        end.values.len() > 0,
        end.top().rows() == r.1,
        end.pop().stacks() == r.0.stacks(),
        r.1.len() == xs.row_count(),
        r.1[0] == xs.row(0),
{
    let rows = xs.rows();
    let first = seq![xs.row(0)];
    let (t, listed) = choose|
        t: StateView<R>,
        listed: Result<Seq<ValueViewOf<R>>, ErrorViewOf<R>>,
    |
        #![trigger scans_rows(rt, f, rows, 1, first, s, t, listed)]
        scans_rows(rt, f, rows, 1, first, s, t, listed) && match listed {
            Ok(list) => collects(rt, list, t, end, Ok(())),
            Err(e) => false,
        };
    let list = listed->Ok_0;
    law_scan_keeps_row_count(rt, f, rows, 1, first, s, t, list);
    assert(list.take(1)[0] == list[0]);
    lemma_scan_alike(rt, f, xs, 1, first, s, t, list);
    let made = choose|made: Result<ValueViewOf<R>, R::Error>| #[trigger]
        may_make(rt, list, made) && placed::<R>(
            made,
            t.called(Call::Making { rows: list, made }),
        ) == (end, Ok::<(), ErrorViewOf<R>>(()));
    assert(end.top() == made->Ok_0);
    assert(end.pop().stacks() == t.stacks());
    (t, list)
}

/// The last row of the value that scanning by calling a function puts on the stack is what reducing
/// by calling it puts there, where rows that are alike stay what they are when they are put
/// together, and the function leaves what is like its arguments, never breaks, and does the same
/// whenever it is called on the same stacks.
pub proof fn law_scan_value_ends_in_reduction<R: Runtime>(
    rt: R,
    f: FunctionOf<R>,
    xs: ValueViewOf<R>,
    s: StateView<R>,
    end: StateView<R>,
    reduce_end: StateView<R>,
)
    requires
        f.signature == (Signature { args: 2, outputs: 1 }),
        keeps_rows(rt),
        keeps_kind(rt, f),
        steady(rt, f),
        xs.row_count() > 0,
        scans_generic(rt, f, xs, s, end, Ok(())),
        folds_right(rt, f, xs, None, s, reduce_end, Ok(())),
    ensures
        end.values.len() > 0,
        reduce_end.values.len() > 0,
        end.top().row_count() == xs.row_count(),
        end.top().row(0) == xs.row(0),
        end.top().row(xs.row_count() - 1) == reduce_end.top(),
        end.pop().stacks() == reduce_end.pop().stacks(),
{
    let (t, list) = scan_list(rt, f, xs, s, end);
    law_scan_value_has_the_rows(rt, f, xs, s, end);
    let rows = xs.rows();
    let all = optional(None::<ValueViewOf<R>>) + rows;
    assert(all == rows);
    let (u, last) = choose|u: StateView<R>, last: Result<ValueViewOf<R>, ErrorViewOf<R>>|
        #![trigger accumulates(rt, f, all, 1, all[0], s, u, last)]
        accumulates(rt, f, all, 1, all[0], s, u, last) && match last {
            Ok(acc) => reduce_end == u.push(acc),
            Err(e) => false,
        };
    lemma_scan_ends_in_accumulated(
        rt,
        f,
        rows,
        1,
        seq![xs.row(0)],
        s,
        t,
        list,
        u,
        last->Ok_0,
    );
    let value = end.top();
    assert(value.rows()[xs.row_count() - 1] == value.row(xs.row_count() - 1));
    assert(reduce_end.pop() == u);
}

} // verus!
