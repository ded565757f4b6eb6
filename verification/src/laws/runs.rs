//! What running the modifiers comes to: from what was on the stacks to what is on them then, and
//! the calls in between.
use crate::array::{product, ArrayView};
use crate::env::{
    list_view, may_list_ranks, outcome, values_outcome, Call, ErrorOf, ErrorViewOf, FunctionOf,
    Runtime, StacksOf, StacksView, StateView, Uiua, ValueOf, ValueViewOf,
};
use crate::error::{ErrorView, Wanted};
use crate::fast::{reduced, reduces, scanned};
use crate::fold::{descends, fold, fold_by_ranks, fold_recursive, folds, folds_by_ranks, folds_onto};
use crate::function::{Dyadic, Identity, Primitive, Signature};
use crate::laws::calls::law_scan_of_no_rows;
use crate::laws::traces::{
    feeds_along, hold, lemma_feeds_along, lemma_reduces_along, lemma_scans_along, reduces_along,
    scans_along,
};
use crate::laws::values::pair;
use crate::pervade::{byte_steps, com_steps, converted, num_steps};
use crate::reduce::{
    accumulates, collects, folds_right, generic_fold_right_1, optional, reduce, reduces_coms,
    reduces_nums, reduces_value,
};
use crate::scan::{generic_scan, scan, scans_generic, scans_rows, scans_value};
use crate::value::{option_view, views, ValueView};
use std::sync::Arc;
use vstd::prelude::*;

verus! {

/// The function that a pointer shares.
spec fn shared<R: Runtime>(f: Arc<FunctionOf<R>>) -> FunctionOf<R> {
    *f
}

/// Whether an environment has a function and a value to take.
pub open spec fn stocked<R: Runtime>(env: Uiua<R>) -> bool {
    env@.functions.len() > 0 && env@.values.len() > 0
}

/// The function on top.
pub open spec fn function_of<R: Runtime>(env: Uiua<R>) -> FunctionOf<R> {
    *env@.functions[env@.functions.len() - 1]
}

/// The value on top.
pub open spec fn value_of<R: Runtime>(env: Uiua<R>) -> ValueViewOf<R> {
    env@.values[env@.values.len() - 1]
}

/// The state after the function and the value on top are taken.
pub open spec fn taken<R: Runtime>(env: Uiua<R>) -> StateView<R> {
    StateView {
        values: env@.values.take(env@.values.len() - 1),
        functions: env@.functions.take(env@.functions.len() - 1),
        calls: env@.calls,
    }
}

/// Whether all that happened is that the function and the value on top were taken, `value` was put
/// in their place, and success was returned.
pub open spec fn replaced_by<R: Runtime>(
    before: Uiua<R>,
    after: Uiua<R>,
    r: Result<(), ErrorOf<R>>,
    value: ValueViewOf<R>,
) -> bool {
    &&& r is Ok
    &&& after@.values == taken(before).values.push(value)
    &&& after@.functions == taken(before).functions
    &&& after@.calls == before@.calls
}

/// Whether all that happened is that the function and the value on top were taken and a failure was
/// returned.
pub open spec fn refused<R: Runtime>(
    before: Uiua<R>,
    after: Uiua<R>,
    r: Result<(), ErrorOf<R>>,
) -> bool {
    &&& r is Err
    &&& after@.values == taken(before).values
    &&& after@.functions == taken(before).functions
    &&& after@.calls == before@.calls
}

/// The rows of a value in order.
pub open spec fn rows_of<R: Runtime>(xs: ValueViewOf<R>) -> Seq<ValueViewOf<R>> {
    Seq::new(xs.row_count(), |i: int| xs.row(i))
}

/// Whether a primitive is one of the eight operations of arithmetic that numbers reduce with.
pub open spec fn arithmetic(prim: Primitive) -> bool {
    ||| prim == Primitive::Add
    ||| prim == Primitive::Sub
    ||| prim == Primitive::Mul
    ||| prim == Primitive::Div
    ||| prim == Primitive::Mod
    ||| prim == Primitive::Atan
    ||| prim == Primitive::Max
    ||| prim == Primitive::Min
}

/// The operation that a primitive applies to two numbers.
pub open spec fn applies(prim: Primitive, op: Dyadic) -> bool {
    ||| prim == Primitive::Add && op == Dyadic::Add
    ||| prim == Primitive::Sub && op == Dyadic::Sub
    ||| prim == Primitive::Mul && op == Dyadic::Mul
    ||| prim == Primitive::Div && op == Dyadic::Div
    ||| prim == Primitive::Mod && op == Dyadic::Mod
    ||| prim == Primitive::Atan && op == Dyadic::Atan
    ||| prim == Primitive::Max && op == Dyadic::Max
    ||| prim == Primitive::Min && op == Dyadic::Min
    ||| prim == Primitive::Eq && op == Dyadic::Eq
    ||| prim == Primitive::Ne && op == Dyadic::Ne
}

/// What no numbers reduce to: zero for sums, differences and angles, one for products, quotients
/// and moduli, and the infinity that is the maximum or the minimum of nothing.
pub open spec fn neutral(prim: Primitive, identity: Identity) -> bool {
    ||| (prim == Primitive::Add || prim == Primitive::Sub || prim == Primitive::Atan) && identity
        == Identity::Zero
    ||| (prim == Primitive::Mul || prim == Primitive::Div || prim == Primitive::Mod) && identity
        == Identity::One
    ||| prim == Primitive::Max && identity == Identity::NegInfinity
    ||| prim == Primitive::Min && identity == Identity::Infinity
}

/// Whether an operation takes its operands the other way round: it is flipped, and it is a
/// difference, a quotient, a modulus or an angle.
pub open spec fn swaps(op: Dyadic, flipped: bool) -> bool {
    flipped && (op == Dyadic::Sub || op == Dyadic::Div || op == Dyadic::Mod || op == Dyadic::Atan)
}

/// What combining two numbers may give.
pub open spec fn num_gives<R: Runtime>(rt: R, op: Dyadic, flipped: bool) -> spec_fn(
    R::Num,
    R::Num,
    R::Num,
) -> bool {
    |a: R::Num, b: R::Num, c: R::Num|
        if swaps(op, flipped) {
            call_ensures(R::num_num, (&rt, op, b, a), c)
        } else {
            call_ensures(R::num_num, (&rt, op, a, b), c)
        }
}

/// What combining two complex numbers may give.
pub open spec fn com_gives<R: Runtime>(rt: R, op: Dyadic, flipped: bool) -> spec_fn(
    R::Complex,
    R::Complex,
    R::Complex,
) -> bool {
    |a: R::Complex, b: R::Complex, c: R::Complex|
        if swaps(op, flipped) {
            call_ensures(R::com_x, (&rt, op, b, a), c)
        } else {
            call_ensures(R::com_x, (&rt, op, a, b), c)
        }
}

/// What combining two bytes gives.
pub open spec fn byte_gives(op: Dyadic) -> spec_fn(u8, u8, u8) -> bool {
    |a: u8, b: u8, c: u8|
        {
            ||| op == Dyadic::Eq && a == b && c == 1
            ||| op == Dyadic::Eq && a != b && c == 0
            ||| op == Dyadic::Ne && a != b && c == 1
            ||| op == Dyadic::Ne && a == b && c == 0
            ||| op == Dyadic::Max && a <= c && b <= c && (c == a || c == b)
            ||| op == Dyadic::Min && c <= a && c <= b && (c == a || c == b)
        }
}

/// Whether `accs` are the results, row by row, of combining the items at position `j` of the rows
/// of `a`, which have `m` items each.
pub open spec fn runs_down<T>(
    gives: spec_fn(T, T, T) -> bool,
    a: ArrayView<T>,
    m: nat,
    j: int,
    accs: Seq<T>,
) -> bool {
    &&& accs.len() == a.shape[0]
    &&& accs[0] == a.items[j]
    &&& forall|i: int|
        0 < i < accs.len() ==> gives(accs[i - 1], a.items[i * m + j], #[trigger] accs[i])
}

/// Whether `result` is the last result of combining the items at position `j` of the rows of `a`.
pub open spec fn comes_out<T>(
    gives: spec_fn(T, T, T) -> bool,
    a: ArrayView<T>,
    m: nat,
    j: int,
    result: T,
) -> bool {
    exists|accs: Seq<T>| #[trigger]
        runs_down(gives, a, m, j, accs) && result == accs[accs.len() - 1]
}

/// Whether `out` is what an array reduces to: itself if it has no dimension, otherwise a row in
/// which each item is the last result of combining the items in its place from the first row to the
/// last, or what stands for no numbers if there are no rows.
pub open spec fn combines_rows<T>(
    gives: spec_fn(T, T, T) -> bool,
    identity: spec_fn(T) -> bool,
    a: ArrayView<T>,
    out: ArrayView<T>,
) -> bool {
    if a.shape.len() == 0 {
        out == a
    } else {
        let m = product(a.shape.skip(1));
        &&& out.shape == a.shape.skip(1)
        &&& out.items.len() == m
        &&& if a.shape[0] == 0 {
            exists|id: T| #[trigger]
                identity(id) && forall|j: int| 0 <= j < m ==> #[trigger] out.items[j] == id
        } else {
            forall|j: int| 0 <= j < m ==> comes_out(gives, a, m, j, #[trigger] out.items[j])
        }
    }
}

/// Whether `out` is the scan of an array: the first row as it is, and each further item what
/// combining the item one row above it in `out` with the item in its place gives.
pub open spec fn accumulates_rows<T>(
    gives: spec_fn(T, T, T) -> bool,
    a: ArrayView<T>,
    out: ArrayView<T>,
) -> bool {
    let m = product(a.shape.skip(1));
    &&& out.shape == a.shape
    &&& out.items.len() == a.items.len()
    &&& forall|k: int| 0 <= k < a.items.len() && k < m ==> #[trigger] out.items[k] == a.items[k]
    &&& forall|k: int|
        m <= k < a.items.len() ==> gives(out.items[k - m], a.items[k], #[trigger] out.items[k])
}

/// Whether `nums` holds a number for each byte of `bytes`, in the same place.
pub open spec fn stands_for<R: Runtime>(
    rt: R,
    bytes: ArrayView<u8>,
    nums: ArrayView<R::Num>,
) -> bool {
    &&& nums.shape == bytes.shape
    &&& nums.items.len() == bytes.items.len()
    &&& forall|i: int|
        0 <= i < nums.items.len() ==> call_ensures(
            R::byte_to_num,
            (&rt, bytes.items[i]),
            #[trigger] nums.items[i],
        )
}

/// Items that reduce to something do so through results, one for each item.
proof fn lemma_run<T>(step: spec_fn(T, T, T) -> bool, items: Seq<T>, result: T) -> (accs: Seq<T>)
    requires
        reduces(step, items, result),
    ensures
        accs.len() == items.len(),
        accs.len() > 0,
        accs[0] == items[0],
        accs[accs.len() - 1] == result,
        forall|i: int| 0 < i < accs.len() ==> step(accs[i - 1], items[i], #[trigger] accs[i]),
    decreases items.len(),
{
    if items.len() == 1 {
        seq![result]
    } else {
        let before = choose|before: T|
            reduces(step, items.drop_last(), before) && #[trigger] step(
                before,
                items.last(),
                result,
            );
        let rest = lemma_run(step, items.drop_last(), before);
        rest.push(result)
    }
}

/// Reducing an array item by item combines its rows.
pub proof fn lemma_combines_rows<T>(
    step: spec_fn(T, T, T) -> bool,
    gives: spec_fn(T, T, T) -> bool,
    identity: spec_fn(T) -> bool,
    id: T,
    a: ArrayView<T>,
    out: ArrayView<T>,
)
    requires
        forall|x: T, y: T, z: T| #[trigger] step(x, y, z) ==> gives(x, y, z),
        identity(id),
        reduced(step, id, a, out),
    ensures
        combines_rows(gives, identity, a, out),
{
    if a.shape.len() > 0 {
        let m = product(a.shape.skip(1));
        assert(a.shape.skip(1) == a.shape.drop_first());
        if a.shape[0] == 0 {
            assert forall|j: int| 0 <= j < m implies #[trigger] out.items[j] == id by {}
            assert(identity(id));
        } else {
            assert forall|j: int| 0 <= j < m implies comes_out(
                gives,
                a,
                m,
                j,
                #[trigger] out.items[j],
            ) by {
                assert(reduces(step, a.column(j), out.items[j]));
                let accs = lemma_run(step, a.column(j), out.items[j]);
                assert(a.column(j)[0] == a.items[0 * a.row_len() + j]);
                assert forall|i: int| 0 < i < accs.len() implies gives(
                    accs[i - 1],
                    a.items[i * m + j],
                    #[trigger] accs[i],
                ) by {
                    assert(step(accs[i - 1], a.column(j)[i], accs[i]));
                }
                assert(runs_down(gives, a, m, j, accs));
            }
        }
    }
}

/// Scanning an array item by item accumulates its rows.
pub proof fn lemma_accumulates_rows<T>(
    step: spec_fn(T, T, T) -> bool,
    gives: spec_fn(T, T, T) -> bool,
    a: ArrayView<T>,
    out: ArrayView<T>,
)
    requires
        a.shape.len() > 0,
        forall|x: T, y: T, z: T| #[trigger] step(x, y, z) ==> gives(x, y, z),
        scanned(step, a, out),
    ensures
        accumulates_rows(gives, a, out),
{
    assert(a.shape.skip(1) == a.shape.drop_first());
    let m = product(a.shape.skip(1)) as int;
    assert forall|k: int| m <= k < a.items.len() implies gives(
        out.items[k - m],
        a.items[k],
        #[trigger] out.items[k],
    ) by {
        assert(step(out.items[k - m], a.items[k], out.items[k]));
    }
}

/// What `reduce` says of itself.
proof fn lemma_reduce_runs<R: Runtime>(before: Uiua<R>, after: Uiua<R>, r: Result<(), ErrorOf<R>>)
    requires
        exists|env: &mut Uiua<R>|
            *env == before && *final(env) == after && #[trigger] call_ensures(
                reduce::<R>,
                (env,),
                r,
            ),
        stocked(before),
    ensures
        after.runtime() == before.runtime(),
        after.pack_boxes() == before.pack_boxes(),
        reduces_value(
            before.runtime(),
            before.pack_boxes(),
            function_of(before),
            value_of(before),
            taken(before),
            after@,
            outcome(r),
        ),
{
    let s = before@.pop_function().pop();
    assert(s == taken(before));
}

/// What `scan` says of itself.
proof fn lemma_scan_runs<R: Runtime>(before: Uiua<R>, after: Uiua<R>, r: Result<(), ErrorOf<R>>)
    requires
        exists|env: &mut Uiua<R>|
            *env == before && *final(env) == after && #[trigger] call_ensures(
                scan::<R>,
                (env,),
                r,
            ),
        stocked(before),
    ensures
        after.runtime() == before.runtime(),
        after.pack_boxes() == before.pack_boxes(),
        scans_value(
            before.runtime(),
            function_of(before),
            value_of(before),
            taken(before),
            after@,
            outcome(r),
        ),
{
    let s = before@.pop_function().pop();
    assert(s == taken(before));
}

/// Reducing and scanning leave the runtime and the dealing with boxes as they are, and want a
/// function and then a value.
pub proof fn law_reduce_and_scan_want_function_and_value<R: Runtime>(
    before: Uiua<R>,
    after: Uiua<R>,
    r: Result<(), ErrorOf<R>>,
)
    requires
        (exists|env: &mut Uiua<R>|
            *env == before && *final(env) == after && #[trigger] call_ensures(
                reduce::<R>,
                (env,),
                r,
            )) || (exists|env: &mut Uiua<R>|
            *env == before && *final(env) == after && #[trigger] call_ensures(
                scan::<R>,
                (env,),
                r,
            )),
    ensures
        after.runtime() == before.runtime(),
        after.pack_boxes() == before.pack_boxes(),
        before@.functions.len() == 0 ==> r is Err && r->Err_0 is NoFunction && after@ == before@,
        before@.functions.len() > 0 && before@.values.len() == 0 ==> {
            &&& r is Err
            &&& r->Err_0 is EmptyStack
            &&& r->Err_0->EmptyStack_0 == Wanted::Argument(1)
            &&& after@.values.len() == 0
            &&& after@.functions == before@.functions.take(before@.functions.len() - 1)
            &&& after@.calls == before@.calls
        },
{
    assert(outcome(r) is Err == r is Err);
    assert(before@.functions.drop_last() == before@.functions.take(before@.functions.len() - 1));
}

/// Whether reducing `xs` with `f` comes to calling `f`: neither are rows joined in one step nor is
/// an operation of arithmetic applied to numbers, bytes or complex numbers.
pub open spec fn reduces_by_calls<R: Runtime>(
    f: FunctionOf<R>,
    xs: ValueViewOf<R>,
    pack_boxes: bool,
) -> bool {
    f.primitive matches Some((prim, flipped)) ==> {
        &&& prim == Primitive::Join ==> flipped || pack_boxes
        &&& arithmetic(prim) ==> xs is Char || xs is Boxed
    }
}

/// Reducing with a function that is called refuses one that leaves more than one value, then one
/// that takes more than two. One that takes two is called along the rows, of which there must be
/// one at least, from the first row on. One that takes less is fed the rows. It is so whatever kind
/// the items are of.
pub proof fn law_reduce_calls_along_rows<R: Runtime>(
    before: Uiua<R>,
    after: Uiua<R>,
    r: Result<(), ErrorOf<R>>,
) -> (made: Seq<Call<R>>)
    requires
        exists|env: &mut Uiua<R>|
            *env == before && *final(env) == after && #[trigger] call_ensures(
                reduce::<R>,
                (env,),
                r,
            ),
        stocked(before),
        reduces_by_calls::<R>(function_of(before), value_of(before), before.pack_boxes()),
    ensures
        after.runtime() == before.runtime(),
        after.pack_boxes() == before.pack_boxes(),
        ({
            let f = function_of(before);
            let rows = rows_of::<R>(value_of(before));
            if f.signature.outputs > 1 {
                &&& refused(before, after, r)
                &&& r->Err_0 is ReduceOutputs
                &&& r->Err_0->function@ == f.name@
                &&& r->Err_0->outputs == f.signature.outputs
            } else if f.signature.args > 2 {
                &&& refused(before, after, r)
                &&& r->Err_0 is ReduceArguments
                &&& r->Err_0->ReduceArguments_0 == f.signature.args
            } else if f.signature.args < 2 {
                feeds_along(before.runtime(), f, rows, taken(before), after@, outcome(r), made)
            } else if rows.len() == 0 {
                refused(before, after, r) && r->Err_0 is ReduceEmpty
            } else {
                reduces_along(before.runtime(), f, rows, taken(before), after@, outcome(r), made)
            }
        }),
{
    let f = function_of(before);
    let xs = value_of(before);
    let s = taken(before);
    lemma_reduce_runs(before, after, r);
    assert(folds_right(before.runtime(), f, xs, None, s, after@, outcome(r)));
    lemma_calls_along_rows(
        before.runtime(),
        f,
        xs,
        None,
        rows_of::<R>(xs),
        s,
        after@,
        outcome(r),
    )
}

/// What reducing by calls comes to.
proof fn lemma_calls_along_rows<R: Runtime>(
    rt: R,
    f: FunctionOf<R>,
    xs: ValueViewOf<R>,
    init: Option<ValueViewOf<R>>,
    rows: Seq<ValueViewOf<R>>,
    s: StateView<R>,
    end: StateView<R>,
    result: Result<(), ErrorViewOf<R>>,
) -> (made: Seq<Call<R>>)
    requires
        folds_right(rt, f, xs, init, s, end, result),
        init is None ==> rows == rows_of::<R>(xs),
        init matches Some(v) ==> rows == seq![v] + rows_of::<R>(xs),
    ensures
        f.signature.outputs <= 1 && f.signature.args < 2 ==> feeds_along(
            rt,
            f,
            rows,
            s,
            end,
            result,
            made,
        ),
        f.signature.outputs <= 1 && f.signature.args == 2 && rows.len() > 0 ==> reduces_along(
            rt,
            f,
            rows,
            s,
            end,
            result,
            made,
        ),
{
    let all = optional(init) + xs.rows();
    assert(rows_of::<R>(xs) == xs.rows());
    assert(all == rows);
    if f.signature.outputs > 1 || f.signature.args > 2 {
        Seq::empty()
    } else if f.signature.args < 2 {
        assert(rows.skip(0) == rows);
        lemma_feeds_along(rt, f, rows, 0, s, end, result)
    } else if rows.len() == 0 {
        Seq::empty()
    } else {
        let (t, last) = choose|t: StateView<R>, last: Result<ValueViewOf<R>, ErrorViewOf<R>>|
            #![trigger accumulates(rt, f, rows, 1, rows[0], s, t, last)]
            accumulates(rt, f, rows, 1, rows[0], s, t, last) && match last {
                Ok(acc) => end == t.push(acc) && result == Ok::<(), ErrorViewOf<R>>(()),
                Err(e) => end == t && result == Err::<(), _>(e),
            };
        lemma_reduces_along(rt, f, rows, s, t, last, end, result)
    }
}

/// Reducing by calls with an initial value treats it as a row before the others.
pub proof fn law_initial_value_is_a_first_row<R: Runtime>(
    f: Arc<FunctionOf<R>>,
    xs: ValueOf<R>,
    init: Option<ValueOf<R>>,
    rows: Seq<ValueViewOf<R>>,
    before: Uiua<R>,
    after: Uiua<R>,
    r: Result<(), ErrorOf<R>>,
) -> (made: Seq<Call<R>>)
    requires
        exists|env: &mut Uiua<R>|
            *env == before && *final(env) == after && #[trigger] call_ensures(
                generic_fold_right_1::<R>,
                (f, xs, init, env),
                r,
            ),
        init is None ==> rows == rows_of::<R>(xs@),
        init matches Some(v) ==> rows == seq![v@] + rows_of::<R>(xs@),
    ensures
        after.runtime() == before.runtime(),
        after.pack_boxes() == before.pack_boxes(),
        if f.signature.outputs > 1 {
            &&& r is Err
            &&& r->Err_0 is ReduceOutputs
            &&& r->Err_0->function@ == f.name@
            &&& r->Err_0->outputs == f.signature.outputs
            &&& after@ == before@
        } else if f.signature.args > 2 {
            &&& r is Err
            &&& r->Err_0 is ReduceArguments
            &&& r->Err_0->ReduceArguments_0 == f.signature.args
            &&& after@ == before@
        } else if f.signature.args < 2 {
            feeds_along(before.runtime(), *f, rows, before@, after@, outcome(r), made)
        } else if rows.len() == 0 {
            r is Err && r->Err_0 is ReduceEmpty && after@ == before@
        } else {
            reduces_along(before.runtime(), *f, rows, before@, after@, outcome(r), made)
        },
{
    let start = option_view(init);
    assert(folds_right(before.runtime(), *f, xs@, start, before@, after@, outcome(r)));
    assert(optional(start) + xs@.rows() == rows) by {
        assert(rows_of::<R>(xs@) == xs@.rows());
    }
    lemma_calls_along_rows(
        before.runtime(),
        shared::<R>(f),
        xs@,
        start,
        rows,
        before@,
        after@,
        outcome(r),
    )
}

/// Reducing numbers with an operation of arithmetic combines their rows without a call.
pub proof fn law_reduce_combines_numbers<R: Runtime>(
    before: Uiua<R>,
    after: Uiua<R>,
    r: Result<(), ErrorOf<R>>,
    a: ArrayView<R::Num>,
    prim: Primitive,
    flipped: bool,
    op: Dyadic,
    neutral_one: Identity,
) -> (out: ArrayView<R::Num>)
    requires
        exists|env: &mut Uiua<R>|
            *env == before && *final(env) == after && #[trigger] call_ensures(
                reduce::<R>,
                (env,),
                r,
            ),
        stocked(before),
        value_of(before) == ValueView::<R::Num, R::Complex, R::Boxed>::Num(a),
        function_of(before).primitive matches Some((p, fl)) && p == prim && fl == flipped,
        arithmetic(prim),
        applies(prim, op),
        neutral(prim, neutral_one),
    ensures
        replaced_by(before, after, r, ValueView::Num(out)),
        combines_rows(
            num_gives(before.runtime(), op, flipped),
            |id: R::Num| call_ensures(R::num_identity, (&before.runtime(), neutral_one), id),
            a,
            out,
        ),
{
    let rt = before.runtime();
    lemma_reduce_runs(before, after, r);
    assert(prim.reduction() == Some((op, neutral_one)));
    let s = taken(before);
    let out = choose|out: ArrayView<R::Num>| #[trigger]
        reduces_nums(rt, op, flipped, neutral_one, a, out) && after@ == s.push(
            ValueView::Num(out),
        );
    lemma_combines_numbers(rt, op, flipped, neutral_one, a, out);
    out
}

proof fn lemma_combines_numbers<R: Runtime>(
    rt: R,
    op: Dyadic,
    flipped: bool,
    identity: Identity,
    a: ArrayView<R::Num>,
    out: ArrayView<R::Num>,
)
    requires
        reduces_nums(rt, op, flipped, identity, a, out),
    ensures
        combines_rows(
            num_gives(rt, op, flipped),
            |id: R::Num| call_ensures(R::num_identity, (&rt, identity), id),
            a,
            out,
        ),
{
    let step = num_steps(rt, op, flipped);
    let gives = num_gives(rt, op, flipped);
    let known = |id: R::Num| call_ensures(R::num_identity, (&rt, identity), id);
    let id = choose|id: R::Num|
        call_ensures(R::num_identity, (&rt, identity), id) && #[trigger] reduced(step, id, a, out);
    assert(known(id));
    lemma_combines_rows(step, gives, known, id, a, out);
}

/// Reducing bytes with an operation of arithmetic combines the rows of the numbers that they stand
/// for without a call.
pub proof fn law_reduce_combines_bytes<R: Runtime>(
    before: Uiua<R>,
    after: Uiua<R>,
    r: Result<(), ErrorOf<R>>,
    bytes: ArrayView<u8>,
    prim: Primitive,
    flipped: bool,
    op: Dyadic,
    neutral_one: Identity,
) -> (found: (ArrayView<R::Num>, ArrayView<R::Num>))
    requires
        exists|env: &mut Uiua<R>|
            *env == before && *final(env) == after && #[trigger] call_ensures(
                reduce::<R>,
                (env,),
                r,
            ),
        stocked(before),
        value_of(before) == ValueView::<R::Num, R::Complex, R::Boxed>::Byte(bytes),
        function_of(before).primitive matches Some((p, fl)) && p == prim && fl == flipped,
        arithmetic(prim),
        applies(prim, op),
        neutral(prim, neutral_one),
    ensures
        stands_for(before.runtime(), bytes, found.0),
        replaced_by(before, after, r, ValueView::Num(found.1)),
        combines_rows(
            num_gives(before.runtime(), op, flipped),
            |id: R::Num| call_ensures(R::num_identity, (&before.runtime(), neutral_one), id),
            found.0,
            found.1,
        ),
{
    let rt = before.runtime();
    lemma_reduce_runs(before, after, r);
    assert(prim.reduction() == Some((op, neutral_one)));
    let s = taken(before);
    let (nums, out) = choose|nums: ArrayView<R::Num>, out: ArrayView<R::Num>|
        #![trigger reduces_nums(rt, op, flipped, neutral_one, nums, out)]
        converted(rt, bytes, nums) && reduces_nums(rt, op, flipped, neutral_one, nums, out)
            && after@ == s.push(ValueView::Num(out));
    lemma_combines_numbers(rt, op, flipped, neutral_one, nums, out);
    (nums, out)
}

/// Reducing complex numbers with an operation of arithmetic combines their rows without a call.
pub proof fn law_reduce_combines_complex_numbers<R: Runtime>(
    before: Uiua<R>,
    after: Uiua<R>,
    r: Result<(), ErrorOf<R>>,
    a: ArrayView<R::Complex>,
    prim: Primitive,
    flipped: bool,
    op: Dyadic,
    neutral_one: Identity,
) -> (out: ArrayView<R::Complex>)
    requires
        exists|env: &mut Uiua<R>|
            *env == before && *final(env) == after && #[trigger] call_ensures(
                reduce::<R>,
                (env,),
                r,
            ),
        stocked(before),
        value_of(before) == ValueView::<R::Num, R::Complex, R::Boxed>::Complex(a),
        function_of(before).primitive matches Some((p, fl)) && p == prim && fl == flipped,
        arithmetic(prim),
        applies(prim, op),
        neutral(prim, neutral_one),
    ensures
        replaced_by(before, after, r, ValueView::Complex(out)),
        combines_rows(
            com_gives(before.runtime(), op, flipped),
            |id: R::Complex| call_ensures(R::com_identity, (&before.runtime(), neutral_one), id),
            a,
            out,
        ),
{
    let rt = before.runtime();
    lemma_reduce_runs(before, after, r);
    assert(prim.reduction() == Some((op, neutral_one)));
    let s = taken(before);
    let out = choose|out: ArrayView<R::Complex>| #[trigger]
        reduces_coms(rt, op, flipped, neutral_one, a, out) && after@ == s.push(
            ValueView::Complex(out),
        );
    let step = com_steps(rt, op, flipped);
    let gives = com_gives(rt, op, flipped);
    let known = |id: R::Complex| call_ensures(R::com_identity, (&rt, neutral_one), id);
    let id = choose|id: R::Complex|
        call_ensures(R::com_identity, (&rt, neutral_one), id) && #[trigger] reduced(
            step,
            id,
            a,
            out,
        );
    assert(known(id));
    lemma_combines_rows(step, gives, known, id, a, out);
    out
}

/// Combining two numbers, or two complex numbers, without a flip is applying the operation to the
/// first and the second. With a flip it is applying it to the second and the first if the operation
/// is a difference, a quotient, a modulus or an angle, and makes no difference otherwise.
pub proof fn law_combining_applies_the_operation<R: Runtime>(
    rt: R,
    op: Dyadic,
    a: R::Num,
    b: R::Num,
    c: R::Num,
    x: R::Complex,
    y: R::Complex,
    z: R::Complex,
)
    ensures
        num_steps(rt, op, false)(a, b, c) == call_ensures(R::num_num, (&rt, op, a, b), c),
        com_steps(rt, op, false)(x, y, z) == call_ensures(R::com_x, (&rt, op, x, y), z),
        op == Dyadic::Sub || op == Dyadic::Div || op == Dyadic::Mod || op == Dyadic::Atan ==> {
            &&& num_steps(rt, op, true)(a, b, c) == call_ensures(R::num_num, (&rt, op, b, a), c)
            &&& com_steps(rt, op, true)(x, y, z) == call_ensures(R::com_x, (&rt, op, y, x), z)
        },
        op == Dyadic::Add || op == Dyadic::Mul || op == Dyadic::Max || op == Dyadic::Min || op
            == Dyadic::Eq || op == Dyadic::Ne ==> {
            &&& num_steps(rt, op, true)(a, b, c) == call_ensures(R::num_num, (&rt, op, a, b), c)
            &&& com_steps(rt, op, true)(x, y, z) == call_ensures(R::com_x, (&rt, op, x, y), z)
        },
{
}

/// Reducing the list of two complex numbers with an operation of arithmetic puts what the operation
/// gives for them on the stack, or for them the other way round if it is flipped and minds it.
pub proof fn law_reduce_of_complex_pair<R: Runtime>(
    before: Uiua<R>,
    after: Uiua<R>,
    r: Result<(), ErrorOf<R>>,
    a: R::Complex,
    b: R::Complex,
    prim: Primitive,
    flipped: bool,
    op: Dyadic,
    neutral_one: Identity,
) -> (c: R::Complex)
    requires
        exists|env: &mut Uiua<R>|
            *env == before && *final(env) == after && #[trigger] call_ensures(
                reduce::<R>,
                (env,),
                r,
            ),
        stocked(before),
        value_of(before) == ValueView::<R::Num, R::Complex, R::Boxed>::Complex(
            (ArrayView { shape: seq![2usize], items: seq![a, b] }),
        ),
        function_of(before).primitive matches Some((p, fl)) && p == prim && fl == flipped,
        arithmetic(prim),
        applies(prim, op),
        neutral(prim, neutral_one),
    ensures
        replaced_by(
            before,
            after,
            r,
            ValueView::Complex((ArrayView { shape: Seq::empty(), items: seq![c] })),
        ),
        !flipped ==> call_ensures(R::com_x, (&before.runtime(), op, a, b), c),
        flipped && (prim == Primitive::Sub || prim == Primitive::Div || prim == Primitive::Mod
            || prim == Primitive::Atan) ==> call_ensures(
            R::com_x,
            (&before.runtime(), op, b, a),
            c,
        ),
{
    let p = pair(a, b);
    let out = law_reduce_combines_complex_numbers(
        before,
        after,
        r,
        p,
        prim,
        flipped,
        op,
        neutral_one,
    );
    let gives = com_gives(before.runtime(), op, flipped);
    assert(p.shape.skip(1) == Seq::<usize>::empty());
    assert(product(p.shape.skip(1)) == 1);
    assert(out.items[0] == out.items[0]);
    let accs = choose|accs: Seq<R::Complex>| #[trigger]
        runs_down(gives, p, 1, 0, accs) && out.items[0] == accs[accs.len() - 1];
    assert(accs[1] == accs[1]);
    assert(gives(accs[0], p.items[1], accs[1]));
    assert(out.items == seq![out.items[0]]);
    assert(out == (ArrayView { shape: Seq::<usize>::empty(), items: seq![out.items[0]] }));
    out.items[0]
}

/// Whether two values hold the same items, of one kind.
pub open spec fn same_items<N, C, B>(x: ValueView<N, C, B>, y: ValueView<N, C, B>) -> bool {
    match (x, y) {
        (ValueView::Num(a), ValueView::Num(b)) => a.items == b.items,
        (ValueView::Byte(a), ValueView::Byte(b)) => a.items == b.items,
        (ValueView::Complex(a), ValueView::Complex(b)) => a.items == b.items,
        (ValueView::Char(a), ValueView::Char(b)) => a.items == b.items,
        (ValueView::Boxed(a), ValueView::Boxed(b)) => a.items == b.items,
        _ => false,
    }
}

/// Reducing with the primitive that joins, not flipped and with boxes not packed, makes the first
/// two dimensions one, leaves the others and the items as they are, and leaves a value with fewer
/// dimensions alone.
pub proof fn law_reduce_joins_rows<R: Runtime>(
    before: Uiua<R>,
    after: Uiua<R>,
    r: Result<(), ErrorOf<R>>,
) -> (joined: ValueViewOf<R>)
    requires
        exists|env: &mut Uiua<R>|
            *env == before && *final(env) == after && #[trigger] call_ensures(
                reduce::<R>,
                (env,),
                r,
            ),
        stocked(before),
        function_of(before).primitive matches Some((p, fl)) && p == Primitive::Join && !fl,
        !before.pack_boxes(),
        value_of(before).shape().len() >= 2 ==> value_of(before).shape()[0] * value_of(
            before,
        ).shape()[1] <= usize::MAX,
    ensures
        replaced_by(before, after, r, joined),
        same_items(joined, value_of(before)),
        value_of(before).shape().len() < 2 ==> joined.shape() == value_of(before).shape(),
        value_of(before).shape().len() >= 2 ==> {
            &&& joined.shape().len() == value_of(before).shape().len() - 1
            &&& joined.shape()[0] == value_of(before).shape()[0] * value_of(before).shape()[1]
            &&& forall|d: int|
                1 <= d < joined.shape().len() ==> #[trigger] joined.shape()[d] == value_of(
                    before,
                ).shape()[d + 1]
        },
{
    let xs = value_of(before);
    lemma_reduce_runs(before, after, r);
    let f = function_of(before);
    assert(f.primitive == Some((Primitive::Join, false)));
    let joined = xs.joined();
    if xs.shape().len() >= 2 {
        let x = xs.shape()[0] as int;
        let y = xs.shape()[1] as int;
        assert(0 <= x * y) by (nonlinear_arith)
            requires
                0 <= x,
                0 <= y,
        ;
        assert(joined.shape() == seq![(x * y) as usize] + xs.shape().skip(2));
    }
    joined
}

/// Whether scanning `xs` with `f` comes to calling `f`: no operation is applied to numbers or
/// bytes.
pub open spec fn scans_by_calls<R: Runtime>(f: FunctionOf<R>, xs: ValueViewOf<R>) -> bool {
    f.primitive matches Some((prim, _)) ==> {
        ||| prim == Primitive::Join
        ||| prim == Primitive::Other
        ||| xs is Complex
        ||| xs is Char
        ||| xs is Boxed
    }
}

/// Scanning refuses a value without dimensions.
pub proof fn law_scan_refuses_scalars<R: Runtime>(
    before: Uiua<R>,
    after: Uiua<R>,
    r: Result<(), ErrorOf<R>>,
)
    requires
        exists|env: &mut Uiua<R>|
            *env == before && *final(env) == after && #[trigger] call_ensures(
                scan::<R>,
                (env,),
                r,
            ),
        stocked(before),
        value_of(before).shape().len() == 0,
    ensures
        refused(before, after, r),
        r->Err_0 is ScanScalar,
{
    lemma_scan_runs(before, after, r);
}

/// Scanning with a function that is called refuses one that does not take two values and leave one,
/// and gives a value without rows back. Otherwise the function is called along the rows, from the
/// first row on, and the first row and what the calls gave are put together. It is so whatever kind
/// the items are of.
pub proof fn law_scan_calls_along_rows<R: Runtime>(
    before: Uiua<R>,
    after: Uiua<R>,
    r: Result<(), ErrorOf<R>>,
) -> (made: Seq<Call<R>>)
    requires
        exists|env: &mut Uiua<R>|
            *env == before && *final(env) == after && #[trigger] call_ensures(
                scan::<R>,
                (env,),
                r,
            ),
        stocked(before),
        value_of(before).wf(),
        value_of(before).shape().len() > 0,
        scans_by_calls::<R>(function_of(before), value_of(before)),
    ensures
        after.runtime() == before.runtime(),
        after.pack_boxes() == before.pack_boxes(),
        ({
            let f = function_of(before);
            let rows = rows_of::<R>(value_of(before));
            if f.signature.args != 2 || f.signature.outputs != 1 {
                &&& refused(before, after, r)
                &&& r->Err_0 is ScanSignature
                &&& r->Err_0->ScanSignature_0 == f.signature
            } else if rows.len() == 0 {
                replaced_by(before, after, r, value_of(before))
            } else {
                scans_along(before.runtime(), f, rows, taken(before), after@, outcome(r), made)
            }
        }),
{
    let f = function_of(before);
    let xs = value_of(before);
    let s = taken(before);
    lemma_scan_runs(before, after, r);
    assert(scans_generic(before.runtime(), f, xs, s, after@, outcome(r)));
    lemma_scan_along_rows(before.runtime(), f, xs, s, after@, outcome(r))
}

/// What scanning by calls comes to.
proof fn lemma_scan_along_rows<R: Runtime>(
    rt: R,
    f: FunctionOf<R>,
    xs: ValueViewOf<R>,
    s: StateView<R>,
    end: StateView<R>,
    result: Result<(), ErrorViewOf<R>>,
) -> (made: Seq<Call<R>>)
    requires
        xs.wf(),
        scans_generic(rt, f, xs, s, end, result),
    ensures
        f.signature.args == 2 && f.signature.outputs == 1 && rows_of::<R>(xs).len() == 0 ==> end
            == s.push(xs) && result is Ok,
        f.signature.args == 2 && f.signature.outputs == 1 && rows_of::<R>(xs).len() > 0
            ==> scans_along(rt, f, rows_of::<R>(xs), s, end, result, made),
{
    let rows = rows_of::<R>(xs);
    assert(rows == xs.rows());
    if f.signature != (Signature { args: 2, outputs: 1 }) {
        Seq::empty()
    } else if rows.len() == 0 {
        law_scan_of_no_rows(rt, f, xs, s, end, result);
        Seq::empty()
    } else {
        let (t, list) = choose|
            t: StateView<R>,
            list: Result<Seq<ValueViewOf<R>>, ErrorViewOf<R>>,
        |
            #![trigger scans_rows(rt, f, xs.rows(), 1, seq![xs.row(0)], s, t, list)]
            scans_rows(rt, f, xs.rows(), 1, seq![xs.row(0)], s, t, list) && match list {
                Ok(l) => collects(rt, l, t, end, result),
                Err(e) => end == t && result == Err::<(), _>(e),
            };
        assert(rows[0] == xs.row(0));
        lemma_scans_along(rt, f, rows, s, t, list, end, result)
    }
}

/// Scanning by calls alone does what scanning with a function that is called does.
pub proof fn law_generic_scan_calls_along_rows<R: Runtime>(
    f: Arc<FunctionOf<R>>,
    xs: ValueOf<R>,
    before: Uiua<R>,
    after: Uiua<R>,
    r: Result<(), ErrorOf<R>>,
) -> (made: Seq<Call<R>>)
    requires
        exists|env: &mut Uiua<R>|
            *env == before && *final(env) == after && #[trigger] call_ensures(
                generic_scan::<R>,
                (f, xs, env),
                r,
            ),
        xs@.wf(),
    ensures
        after.runtime() == before.runtime(),
        after.pack_boxes() == before.pack_boxes(),
        if f.signature.args != 2 || f.signature.outputs != 1 {
            &&& r is Err
            &&& r->Err_0 is ScanSignature
            &&& r->Err_0->ScanSignature_0 == f.signature
            &&& after@ == before@
        } else if rows_of::<R>(xs@).len() == 0 {
            &&& r is Ok
            &&& after@.values == before@.values.push(xs@)
            &&& after@.functions == before@.functions
            &&& after@.calls == before@.calls
        } else {
            scans_along(
                before.runtime(),
                *f,
                rows_of::<R>(xs@),
                before@,
                after@,
                outcome(r),
                made,
            )
        },
{
    assert(scans_generic(before.runtime(), *f, xs@, before@, after@, outcome(r)));
    lemma_scan_along_rows(before.runtime(), shared::<R>(f), xs@, before@, after@, outcome(r))
}

/// Scanning numbers with an operation accumulates their rows without a call.
pub proof fn law_scan_accumulates_numbers<R: Runtime>(
    before: Uiua<R>,
    after: Uiua<R>,
    r: Result<(), ErrorOf<R>>,
    a: ArrayView<R::Num>,
    prim: Primitive,
    flipped: bool,
    op: Dyadic,
) -> (out: ArrayView<R::Num>)
    requires
        exists|env: &mut Uiua<R>|
            *env == before && *final(env) == after && #[trigger] call_ensures(
                scan::<R>,
                (env,),
                r,
            ),
        stocked(before),
        value_of(before) == ValueView::<R::Num, R::Complex, R::Boxed>::Num(a),
        a.shape.len() > 0,
        function_of(before).primitive matches Some((p, fl)) && p == prim && fl == flipped,
        applies(prim, op),
    ensures
        replaced_by(before, after, r, ValueView::Num(out)),
        accumulates_rows(num_gives(before.runtime(), op, flipped), a, out),
{
    let rt = before.runtime();
    lemma_scan_runs(before, after, r);
    assert(prim.scanning() == Some(op));
    let s = taken(before);
    let step = num_steps(rt, op, flipped);
    let out = choose|out: ArrayView<R::Num>| #[trigger]
        scanned(step, a, out) && after@ == s.push(ValueView::Num(out));
    lemma_accumulates_rows(step, num_gives(rt, op, flipped), a, out);
    out
}

/// Scanning bytes with a comparison for equality or inequality, a maximum or a minimum accumulates
/// their rows, as bytes, without a call.
pub proof fn law_scan_accumulates_bytes<R: Runtime>(
    before: Uiua<R>,
    after: Uiua<R>,
    r: Result<(), ErrorOf<R>>,
    bytes: ArrayView<u8>,
    prim: Primitive,
    op: Dyadic,
) -> (out: ArrayView<u8>)
    requires
        exists|env: &mut Uiua<R>|
            *env == before && *final(env) == after && #[trigger] call_ensures(
                scan::<R>,
                (env,),
                r,
            ),
        stocked(before),
        value_of(before) == ValueView::<R::Num, R::Complex, R::Boxed>::Byte(bytes),
        bytes.shape.len() > 0,
        function_of(before).primitive matches Some((p, _)) && p == prim,
        applies(prim, op),
        op == Dyadic::Eq || op == Dyadic::Ne || op == Dyadic::Max || op == Dyadic::Min,
    ensures
        replaced_by(before, after, r, ValueView::Byte(out)),
        accumulates_rows(byte_gives(op), bytes, out),
{
    lemma_scan_runs(before, after, r);
    assert(prim.scanning() == Some(op));
    let s = taken(before);
    let out = choose|out: ArrayView<u8>| #[trigger]
        scanned(byte_steps(op), bytes, out) && after@ == s.push(ValueView::Byte(out));
    lemma_accumulates_rows(byte_steps(op), byte_gives(op), bytes, out);
    out
}

/// Scanning bytes with any other operation accumulates the rows of the numbers that they stand for
/// without a call.
pub proof fn law_scan_accumulates_numbers_of_bytes<R: Runtime>(
    before: Uiua<R>,
    after: Uiua<R>,
    r: Result<(), ErrorOf<R>>,
    bytes: ArrayView<u8>,
    prim: Primitive,
    flipped: bool,
    op: Dyadic,
) -> (found: (ArrayView<R::Num>, ArrayView<R::Num>))
    requires
        exists|env: &mut Uiua<R>|
            *env == before && *final(env) == after && #[trigger] call_ensures(
                scan::<R>,
                (env,),
                r,
            ),
        stocked(before),
        value_of(before) == ValueView::<R::Num, R::Complex, R::Boxed>::Byte(bytes),
        bytes.shape.len() > 0,
        function_of(before).primitive matches Some((p, fl)) && p == prim && fl == flipped,
        applies(prim, op),
        op != Dyadic::Eq && op != Dyadic::Ne && op != Dyadic::Max && op != Dyadic::Min,
    ensures
        stands_for(before.runtime(), bytes, found.0),
        replaced_by(before, after, r, ValueView::Num(found.1)),
        accumulates_rows(num_gives(before.runtime(), op, flipped), found.0, found.1),
{
    let rt = before.runtime();
    lemma_scan_runs(before, after, r);
    assert(prim.scanning() == Some(op));
    let s = taken(before);
    let step = num_steps(rt, op, flipped);
    let (nums, out) = choose|nums: ArrayView<R::Num>, out: ArrayView<R::Num>|
        #![trigger scanned(step, nums, out)]
        converted(rt, bytes, nums) && scanned(step, nums, out) && after@ == s.push(
            ValueView::Num(out),
        );
    lemma_accumulates_rows(step, num_gives(rt, op, flipped), nums, out);
    (nums, out)
}

/// What a fold finds on the stacks, what it makes of it, and the fold that comes of it.
#[verifier::reject_recursive_types(R)]
pub struct Taken<R: Runtime> {
    pub depths: Seq<usize>,
    pub args: Seq<ValueViewOf<R>>,
    pub start: StateView<R>,
    pub mid: StateView<R>,
    pub out: Result<Seq<ValueViewOf<R>>, ErrorViewOf<R>>,
}

/// Whether a fold by `ranks` in the state `s` went as it should: it takes the function on top, then
/// a value for each rank, the one on top for the first, and folds them to the depths that the
/// runtime has for the ranks and the numbers of dimensions. What comes out is put on the stack, the
/// first on top.
pub open spec fn folds_arguments<R: Runtime>(
    rt: R,
    ranks: Seq<R::Rank>,
    s: StateView<R>,
    end: StateView<R>,
    result: Result<(), ErrorViewOf<R>>,
    found: Taken<R>,
) -> bool {
    let n = ranks.len();
    let m = s.values.len();
    if s.functions.len() == 0 {
        end == s && result == Err::<(), _>(ErrorView::<R::Error>::NoFunction)
    } else if m < n {
        &&& end.values.len() == 0
        &&& end.functions == s.functions.take(s.functions.len() - 1)
        &&& end.calls == s.calls
        &&& result == Err::<(), _>(
            ErrorView::<R::Error>::EmptyStack(Wanted::Argument((m + 1) as usize)),
        )
    } else {
        &&& found.args.len() == n
        &&& forall|i: int| 0 <= i < n ==> #[trigger] found.args[i] == s.values[m - 1 - i]
        &&& found.depths.len() == n
        &&& forall|i: int|
            0 <= i < n ==> call_ensures(
                R::rank_to_depth,
                (&rt, &ranks[i], found.args[i].shape().len() as usize),
                #[trigger] found.depths[i],
            )
        &&& found.start.values == s.values.take(m - n)
        &&& found.start.functions == s.functions.take(s.functions.len() - 1)
        &&& found.start.calls == s.calls
        &&& folds(
            rt,
            *s.functions[s.functions.len() - 1],
            found.depths,
            found.args,
            found.start,
            found.mid,
            found.out,
        )
        &&& end.functions == found.mid.functions
        &&& end.calls == found.mid.calls
        &&& match found.out {
            Err(e) => end.values == found.mid.values && result == Err::<(), _>(e),
            Ok(out) => {
                &&& result == Ok::<(), ErrorViewOf<R>>(())
                &&& end.values.len() == found.mid.values.len() + out.len()
                &&& end.values.take(found.mid.values.len() as int) == found.mid.values
                &&& forall|i: int|
                    0 <= i < out.len() ==> #[trigger] out[i] == end.values[end.values.len() - 1 - i]
            },
        }
    }
}

/// What folding by ranks comes to.
proof fn lemma_folds_arguments<R: Runtime>(
    rt: R,
    ranks: Seq<R::Rank>,
    s: StateView<R>,
    end: StateView<R>,
    result: Result<(), ErrorViewOf<R>>,
) -> (found: Taken<R>)
    requires
        folds_by_ranks(rt, ranks, s, end, result),
    ensures
        folds_arguments(rt, ranks, s, end, result, found),
{
    let under = s.pop_function();
    let args = under.topmost(ranks.len());
    let rest = under.truncate((under.values.len() - ranks.len()) as nat);
    assert(s.functions.len() > 0 ==> s.functions.drop_last() == s.functions.take(
        s.functions.len() - 1,
    ));
    if s.functions.len() == 0 || s.values.len() < ranks.len() {
        Taken {
            depths: Seq::empty(),
            args: Seq::empty(),
            start: s,
            mid: s,
            out: Ok(Seq::empty()),
        }
    } else {
        let f = shared::<R>(s.functions.last());
        let depths = choose|depths: Seq<usize>| #[trigger]
            descends(rt, ranks, args, depths) && folds_onto(
                rt,
                f,
                depths,
                args,
                rest,
                end,
                result,
            );
        let (mid, out) = choose|
            mid: StateView<R>,
            out: Result<Seq<ValueViewOf<R>>, ErrorViewOf<R>>,
        | #[trigger]
            folds(rt, f, depths, args, rest, mid, out) && match out {
                Ok(values) => end == mid.push_all(values.reverse()) && result == Ok::<
                    (),
                    ErrorViewOf<R>,
                >(()),
                Err(e) => end == mid && result == Err::<(), _>(e),
            };
        if let Ok(values) = out {
            assert(end.values.take(mid.values.len() as int) == mid.values);
            assert forall|i: int| 0 <= i < values.len() implies #[trigger] values[i]
                == end.values[end.values.len() - 1 - i] by {
                assert(values.reverse()[values.len() - 1 - i] == values[i]);
            }
        }
        Taken { depths, args, start: rest, mid, out }
    }
}

/// Folding by a rank list takes a function and an argument for each rank, the first on top.
pub proof fn law_fold_by_ranks_takes_arguments<R: Runtime>(
    ranks: Vec<R::Rank>,
    before: Uiua<R>,
    after: Uiua<R>,
    r: Result<(), ErrorOf<R>>,
) -> (found: Taken<R>)
    requires
        exists|env: &mut Uiua<R>|
            *env == before && *final(env) == after && #[trigger] call_ensures(
                fold_by_ranks::<R>,
                (&ranks, env),
                r,
            ),
    ensures
        after.runtime() == before.runtime(),
        after.pack_boxes() == before.pack_boxes(),
        folds_arguments(before.runtime(), ranks@, before@, after@, outcome(r), found),
{
    lemma_folds_arguments(before.runtime(), ranks@, before@, after@, outcome(r))
}

/// Whether a call took the rank list called "Fold" off stacks that held `before`, and the runtime
/// may have given it as the call says.
pub open spec fn listed_ranks<R: Runtime>(rt: R, call: Call<R>) -> bool {
    &&& call is RankList
    &&& call->name == "Fold"@
    &&& exists|
        name: &str,
        s: StacksOf<R>,
        t: StacksOf<R>,
        ranks: Result<Vec<R::Rank>, R::Error>,
    |
        {
            &&& #[trigger] call_ensures(R::rank_list, (&rt, name, s), (t, ranks))
            &&& name@ == "Fold"@
            &&& hold::<R>(s, call->RankList_before)
            &&& hold::<R>(t, call->RankList_after)
            &&& match (ranks, call->ranks) {
                (Ok(l), Ok(m)) => l@ == m,
                (Err(e), Err(g)) => e == g,
                _ => false,
            }
        }
}

/// Folding takes the rank list called "Fold" first, as one call, and folds by it.
pub proof fn law_fold_takes_ranks_first<R: Runtime>(
    before: Uiua<R>,
    after: Uiua<R>,
    r: Result<(), ErrorOf<R>>,
) -> (found: (StateView<R>, Taken<R>))
    requires
        exists|env: &mut Uiua<R>|
            *env == before && *final(env) == after && #[trigger] call_ensures(
                fold::<R>,
                (env,),
                r,
            ),
    ensures
        after.runtime() == before.runtime(),
        after.pack_boxes() == before.pack_boxes(),
        found.0.calls.len() == before@.calls.len() + 1,
        found.0.calls.take(before@.calls.len() as int) == before@.calls,
        listed_ranks(before.runtime(), found.0.calls[before@.calls.len() as int]),
        found.0.calls[before@.calls.len() as int]->RankList_before == (StacksView {
            values: before@.values,
            functions: before@.functions,
        }),
        found.0.calls[before@.calls.len() as int]->RankList_after == (StacksView {
            values: found.0.values,
            functions: found.0.functions,
        }),
        match found.0.calls[before@.calls.len() as int]->ranks {
            Err(e) => after@ == found.0 && outcome(r) == Err::<(), _>(
                ErrorView::<R::Error>::Runtime(e),
            ),
            Ok(ranks) => folds_arguments(
                before.runtime(),
                ranks,
                found.0,
                after@,
                outcome(r),
                found.1,
            ),
        },
{
    let rt = before.runtime();
    let s = before@;
    let end = after@;
    let (t, reply) = choose|t: StateView<R>, reply: Result<Seq<R::Rank>, R::Error>| #[trigger]
        may_list_ranks(rt, "Fold"@, s, t, reply) && match reply {
            Ok(ranks) => folds_by_ranks(rt, ranks, t, end, outcome(r)),
            Err(e) => end == t && outcome(r) == Err::<(), _>(ErrorView::<R::Error>::Runtime(e)),
        };
    let (name, x, y, ranks) = choose|
        name: &str,
        x: StacksOf<R>,
        y: StacksOf<R>,
        ranks: Result<Vec<R::Rank>, R::Error>,
    |
        name@ == "Fold"@ && x@ == s.stacks() && y@ == t.stacks() && list_view(ranks)
            == reply && #[trigger] call_ensures(R::rank_list, (&rt, name, x), (y, ranks));
    let call = t.calls[s.calls.len() as int];
    assert(t.calls.take(s.calls.len() as int) == s.calls);
    assert(hold::<R>(x, call->RankList_before)) by {
        assert forall|i: int| 0 <= i < s.values.len() implies (#[trigger] x.values@[i])@
            == s.values[i] by {
            assert(x@.values[i] == s.values[i]);
        }
    }
    assert(hold::<R>(y, call->RankList_after)) by {
        assert forall|i: int| 0 <= i < t.values.len() implies (#[trigger] y.values@[i])@
            == t.values[i] by {
            assert(y@.values[i] == t.values[i]);
        }
    }
    assert(listed_ranks(rt, call));
    match reply {
        Ok(list) => (t, lemma_folds_arguments(rt, list, t, end, outcome(r))),
        Err(e) => (
            t,
            Taken {
                depths: Seq::empty(),
                args: Seq::empty(),
                start: t,
                mid: t,
                out: Ok(Seq::empty()),
            },
        ),
    }
}

/// Folding values folds the values it is handed, to the depths it is handed.
pub proof fn law_fold_recursive_folds<R: Runtime>(
    f: Arc<FunctionOf<R>>,
    args: Vec<ValueOf<R>>,
    ns: Vec<usize>,
    handed: Seq<ValueViewOf<R>>,
    before: Uiua<R>,
    after: Uiua<R>,
    r: Result<Vec<ValueOf<R>>, ErrorOf<R>>,
) -> (out: Result<Seq<ValueViewOf<R>>, ErrorViewOf<R>>)
    requires
        exists|env: &mut Uiua<R>|
            *env == before && *final(env) == after && #[trigger] call_ensures(
                fold_recursive::<R>,
                (&f, args, &ns, env),
                r,
            ),
        handed.len() == args@.len(),
        forall|i: int| 0 <= i < handed.len() ==> #[trigger] handed[i] == args@[i]@,
    ensures
        after.runtime() == before.runtime(),
        after.pack_boxes() == before.pack_boxes(),
        folds(before.runtime(), *f, ns@, handed, before@, after@, out),
        match (r, out) {
            (Ok(list), Ok(values)) => {
                &&& list@.len() == values.len()
                &&& forall|i: int| 0 <= i < values.len() ==> #[trigger] values[i] == list@[i]@
            },
            (Err(e), Err(g)) => e@ == g,
            _ => false,
        },
{
    assert(views(args@) == handed);
    let out = values_outcome::<R>(r);
    assert(folds(before.runtime(), *f, ns@, handed, before@, after@, out));
    out
}

} // verus!
