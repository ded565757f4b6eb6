//! What holds of arrays, values, stacks and failures themselves.
use crate::array::{lemma_row_bounds, product, Array, ArrayView};
use crate::eco::{allocatable, can_allocate};
use crate::env::{outcome, ErrorOf, FunctionOf, Runtime, StacksOf, Uiua, ValueOf};
use crate::error::{dimensions_text, numeral, ErrorView, UiuaError, Wanted};
use crate::fast::{fast_reduce, fast_scan, steps};
use crate::function::{Dyadic, Primitive};
use crate::laws::runs::{
    accumulates_rows, arithmetic, combines_rows, function_of, lemma_accumulates_rows,
    lemma_combines_rows, same_items, stands_for, stocked, value_of,
};
use crate::pervade::{byte_byte, convert};
use crate::reduce::can_reduce;
use crate::scan::can_scan;
use crate::value::{Value, ValueView};
use std::sync::Arc;
use vstd::prelude::*;

verus! {

/// The byte for equality is one for two bytes that are the same and zero for any others, the byte
/// for inequality is one minus that, the maximum is one of the two and not below either, and the
/// minimum is one of the two and not above either.
pub proof fn law_bytes_compare(op: Dyadic, a: u8, b: u8, c: u8)
    requires
        call_ensures(byte_byte, (op, a, b), c),
    ensures
        op == Dyadic::Eq ==> (c == 1 <==> a == b) && (c == 0 <==> a != b),
        op == Dyadic::Ne ==> (c == 0 <==> a == b) && (c == 1 <==> a != b),
        op == Dyadic::Max ==> (c == a || c == b) && a <= c && b <= c,
        op == Dyadic::Min ==> (c == a || c == b) && c <= a && c <= b,
{
}

/// A shape of no dimensions has room for one item, one of one dimension for as many as it is long,
/// and one of two shapes behind each other for as many as the product of their rooms.
pub proof fn law_room_multiplies(n: usize, a: Seq<usize>, b: Seq<usize>)
    ensures
        product(Seq::empty()) == 1,
        product(seq![n]) == n,
        product(a + b) == product(a) * product(b),
    decreases a.len(),
{
    assert(seq![n].drop_first() == Seq::<usize>::empty());
    assert(product(seq![n].drop_first()) == 1);
    assert(n * 1 == n);
    assert(seq![n][0] == n);
    assert(product(seq![n]) == n * product(seq![n].drop_first()));
    if a.len() == 0 {
        assert(a + b == b);
        assert(1 * product(b) == product(b));
    } else {
        law_room_multiplies(n, a.drop_first(), b);
        assert((a + b).drop_first() == a.drop_first() + b);
        let x = a[0] as int;
        let y = product(a.drop_first()) as int;
        let z = product(b) as int;
        assert(x * (y * z) == (x * y) * z) by (nonlinear_arith);
    }
}

/// An array fills its shape. Its rows are as many as its first dimension says, have the other
/// dimensions, and hold the items one row after the other. An array without dimensions is its own
/// only row.
pub proof fn law_rows_hold_the_items<T>(a: ArrayView<T>, i: int, j: int)
    requires
        a.wf(),
    ensures
        a.items.len() == product(a.shape),
        a.rank() == a.shape.len(),
        a.shape.len() == 0 ==> a.row_count() == 1 && a.row_len() == 1 && a.row(0) == a,
        a.shape.len() > 0 ==> {
            &&& a.row_count() == a.shape[0]
            &&& a.row_len() == product(a.shape.skip(1))
            &&& a.row(i).shape == a.shape.skip(1)
        },
        a.shape.len() > 0 && 0 <= i < a.shape[0] ==> a.row(i).items.len() == product(
            a.shape.skip(1),
        ),
        a.shape.len() > 0 && 0 <= i < a.shape[0] && 0 <= j < product(a.shape.skip(1)) ==> a.row(
            i,
        ).items[j] == a.items[i * product(a.shape.skip(1)) + j],
{
    if a.shape.len() > 0 {
        assert(a.shape.skip(1) == a.shape.drop_first());
        if 0 <= i < a.shape[0] {
            lemma_row_bounds(a, i);
        }
    } else {
        assert(a.items.len() == 1);
        assert(0 * a.row_len() == 0);
        assert(a.row(0).items == a.items);
    }
}

/// The row of a value is of its kind and holds the items of the row, and a value has as many rows
/// and dimensions as its array.
pub proof fn law_values_have_the_rows_of_their_arrays<N, C, B>(
    xs: ValueView<N, C, B>,
    num: ArrayView<N>,
    byte: ArrayView<u8>,
    complex: ArrayView<C>,
    text: ArrayView<char>,
    boxed: ArrayView<B>,
    i: int,
)
    ensures
        xs == ValueView::<N, C, B>::Num(num) ==> {
            &&& xs.row(i) == ValueView::<N, C, B>::Num(num.row(i))
            &&& xs.shape() == num.shape
            &&& xs.wf() == num.wf()
        },
        xs == ValueView::<N, C, B>::Byte(byte) ==> {
            &&& xs.row(i) == ValueView::<N, C, B>::Byte(byte.row(i))
            &&& xs.shape() == byte.shape
            &&& xs.wf() == byte.wf()
        },
        xs == ValueView::<N, C, B>::Complex(complex) ==> {
            &&& xs.row(i) == ValueView::<N, C, B>::Complex(complex.row(i))
            &&& xs.shape() == complex.shape
            &&& xs.wf() == complex.wf()
        },
        xs == ValueView::<N, C, B>::Char(text) ==> {
            &&& xs.row(i) == ValueView::<N, C, B>::Char(text.row(i))
            &&& xs.shape() == text.shape
            &&& xs.wf() == text.wf()
        },
        xs == ValueView::<N, C, B>::Boxed(boxed) ==> {
            &&& xs.row(i) == ValueView::<N, C, B>::Boxed(boxed.row(i))
            &&& xs.shape() == boxed.shape
            &&& xs.wf() == boxed.wf()
        },
        xs.rank() == xs.shape().len(),
        xs.row_count() == if xs.shape().len() == 0 {
            1
        } else {
            xs.shape()[0] as nat
        },
{
}

/// A value is seen as the items of its array, in its kind, and an array as its shape and its items.
pub proof fn law_values_are_seen_as_they_are<N, C, B>(
    value: Value<N, C, B>,
    num: Array<N>,
    byte: Array<u8>,
    complex: Array<C>,
    text: Array<char>,
    boxed: Array<B>,
)
    ensures
        value == Value::<N, C, B>::Num(num) ==> value@ == ValueView::<N, C, B>::Num(num@),
        value == Value::<N, C, B>::Byte(byte) ==> value@ == ValueView::<N, C, B>::Byte(byte@),
        value == Value::<N, C, B>::Complex(complex) ==> value@ == ValueView::<N, C, B>::Complex(
            complex@,
        ),
        value == Value::<N, C, B>::Char(text) ==> value@ == ValueView::<N, C, B>::Char(text@),
        value == Value::<N, C, B>::Boxed(boxed) ==> value@ == ValueView::<N, C, B>::Boxed(boxed@),
{
}

/// Reading an array gives its shape and its items, its number of dimensions and rows, the items of
/// a row, and the row at a position.
pub proof fn law_arrays_are_read_as_they_are<T: Clone>(
    a: Array<T>,
    shape: &Vec<usize>,
    rank: usize,
    row_count: usize,
    row_len: usize,
    i: usize,
    row: Array<T>,
    emptied: Array<T>,
    copy: Array<T>,
)
    requires
        call_ensures(Array::<T>::shape, (&a,), shape),
        call_ensures(Array::<T>::rank, (&a,), rank),
        call_ensures(Array::<T>::row_count, (&a,), row_count),
        call_ensures(Array::<T>::row_len, (&a,), row_len),
        call_ensures(Array::<T>::row, (&a, i), row),
        call_ensures(Array::<T>::first_dim_zero, (&a,), emptied),
        call_ensures(<Array<T> as Clone>::clone, (&a,), copy),
    ensures
        shape@ == a@.shape,
        rank == a@.shape.len(),
        a@.shape.len() == 0 ==> row_count == 1 && row_len == 1 && emptied@ == a@,
        a@.shape.len() == 0 && i == 0 ==> row@ == a@,
        a@.shape.len() > 0 ==> {
            &&& row_count == a@.shape[0]
            &&& row_len == product(a@.shape.skip(1))
            &&& row@.shape == a@.shape.skip(1)
            &&& i < row_count ==> row@.items == a@.items.subrange(
                i * row_len,
                i * row_len + row_len,
            )
            &&& emptied@.items.len() == 0
            &&& emptied@.shape.len() == a@.shape.len()
            &&& emptied@.shape[0] == 0
            &&& emptied@.shape.skip(1) == a@.shape.skip(1)
        },
        copy@ == a@,
{
    assert(a@.wf());
    if a@.shape.len() > 0 {
        assert(a@.shape.skip(1) == a@.shape.drop_first());
        assert(emptied@.shape.skip(1) == a@.shape.skip(1));
    } else {
        assert(a@.items.len() == 1);
        assert(0 * a@.row_len() == 0);
        assert(a@.row(0).items == a@.items);
    }
}

/// Whether a value has no items, of the kind of another.
pub open spec fn emptied_kind<N, C, B>(x: ValueView<N, C, B>, y: ValueView<N, C, B>) -> bool {
    match (x, y) {
        (ValueView::Num(a), ValueView::Num(_)) => a.items.len() == 0,
        (ValueView::Byte(a), ValueView::Byte(_)) => a.items.len() == 0,
        (ValueView::Complex(a), ValueView::Complex(_)) => a.items.len() == 0,
        (ValueView::Char(a), ValueView::Char(_)) => a.items.len() == 0,
        (ValueView::Boxed(a), ValueView::Boxed(_)) => a.items.len() == 0,
        _ => false,
    }
}

/// Reading a value gives what its array has. Taking its rows away keeps its kind and its other
/// dimensions. Joining its rows keeps its items and makes the first two dimensions one.
pub proof fn law_values_are_read_as_they_are<N: Clone, C: Clone, B: Clone>(
    xs: Value<N, C, B>,
    shape: &Vec<usize>,
    rank: usize,
    row_count: usize,
    i: usize,
    row: Value<N, C, B>,
    emptied: Value<N, C, B>,
    joined: Value<N, C, B>,
    copy: Value<N, C, B>,
)
    requires
        call_ensures(Value::<N, C, B>::shape, (&xs,), shape),
        call_ensures(Value::<N, C, B>::rank, (&xs,), rank),
        call_ensures(Value::<N, C, B>::row_count, (&xs,), row_count),
        call_ensures(Value::<N, C, B>::row, (&xs, i), row),
        call_ensures(Value::<N, C, B>::first_dim_zero, (&xs,), emptied),
        call_ensures(Value::<N, C, B>::join_rows, (xs,), joined),
        call_ensures(<Value<N, C, B> as Clone>::clone, (&xs,), copy),
    ensures
        shape@ == xs@.shape(),
        rank == xs@.shape().len(),
        row_count == if xs@.shape().len() == 0 {
            1
        } else {
            xs@.shape()[0] as nat
        },
        row@ == xs@.row(i as int),
        xs@.shape().len() == 0 ==> emptied@ == xs@,
        xs@.shape().len() > 0 ==> {
            &&& emptied_kind(emptied@, xs@)
            &&& emptied@.shape().len() == xs@.shape().len()
            &&& emptied@.shape()[0] == 0
            &&& emptied@.shape().skip(1) == xs@.shape().skip(1)
        },
        same_items(joined@, xs@),
        xs@.shape().len() < 2 ==> joined@.shape() == xs@.shape(),
        xs@.shape().len() >= 2 && xs@.shape()[0] * xs@.shape()[1] <= usize::MAX ==> {
            &&& joined@.shape().len() == xs@.shape().len() - 1
            &&& joined@.shape()[0] == xs@.shape()[0] * xs@.shape()[1]
            &&& joined@.shape().skip(1) == xs@.shape().skip(2)
        },
        copy@ == xs@,
{
    if xs@.shape().len() > 0 {
        assert(emptied@.shape().skip(1) == xs@.shape().skip(1));
    }
    if xs@.shape().len() >= 2 && xs@.shape()[0] * xs@.shape()[1] <= usize::MAX {
        let x = xs@.shape()[0] as int;
        let y = xs@.shape()[1] as int;
        assert(0 <= x * y) by (nonlinear_arith)
            requires
                0 <= x,
                0 <= y,
        ;
        assert(joined@.shape() == seq![(x * y) as usize] + xs@.shape().skip(2));
        assert(joined@.shape().skip(1) == xs@.shape().skip(2));
    }
}

/// Reducing an array item by item with a function combines its rows with it.
pub proof fn law_fast_reduce_combines_rows<T: Copy, F: Fn(T, T) -> T>(
    a: Array<T>,
    identity: T,
    f: F,
    r: Array<T>,
)
    requires
        call_ensures(fast_reduce::<T, F>, (a, identity, f), r),
    ensures
        combines_rows(
            |x: T, y: T, z: T| call_ensures(f, (x, y), z),
            |id: T| id == identity,
            a@,
            r@,
        ),
{
    let gives = |x: T, y: T, z: T| call_ensures(f, (x, y), z);
    let known = |id: T| id == identity;
    assert(known(identity));
    lemma_combines_rows(steps(f), gives, known, identity, a@, r@);
}

/// Scanning an array item by item with a function accumulates its rows with it.
pub proof fn law_fast_scan_accumulates_rows<T: Copy, F: Fn(T, T) -> T>(
    a: Array<T>,
    f: F,
    r: Array<T>,
)
    requires
        call_ensures(fast_scan::<T, F>, (a, f), r),
        a@.shape.len() > 0,
    ensures
        accumulates_rows(|x: T, y: T, z: T| call_ensures(f, (x, y), z), a@, r@),
{
    let gives = |x: T, y: T, z: T| call_ensures(f, (x, y), z);
    lemma_accumulates_rows(steps(f), gives, a@, r@);
}

/// Converting bytes gives the numbers that they stand for.
pub proof fn law_convert_gives_the_numbers<R: Runtime>(
    env: &Uiua<R>,
    bytes: Array<u8>,
    nums: Array<R::Num>,
)
    requires
        call_ensures(convert::<R>, (env, bytes), nums),
    ensures
        stands_for(env.runtime(), bytes@, nums@),
{
}

/// The stacks that an environment shows hold what its state says.
pub proof fn law_stacks_are_seen_as_they_are<R: Runtime>(
    env: &Uiua<R>,
    stacks: &StacksOf<R>,
    size: usize,
)
    requires
        call_ensures(Uiua::<R>::stacks, (env,), stacks),
        call_ensures(Uiua::<R>::stack_size, (env,), size),
    ensures
        stacks.values@.len() == env@.values.len(),
        forall|i: int|
            0 <= i < env@.values.len() ==> (#[trigger] stacks.values@[i])@ == env@.values[i],
        stacks.functions@ == env@.functions,
        size == env@.values.len(),
{
    assert(stacks@.values == env@.values && stacks@.functions == env@.functions);
    assert forall|i: int| 0 <= i < env@.values.len() implies (#[trigger] stacks.values@[i])@
        == env@.values[i] by {
        assert(stacks@.values[i] == env@.values[i]);
    }
}

/// Putting a value or a function on the stacks puts it on top of what is there, and calls nothing.
pub proof fn law_pushing_puts_on_top<R: Runtime>(
    before: Uiua<R>,
    after: Uiua<R>,
    value: ValueOf<R>,
    between: Uiua<R>,
    f: Arc<FunctionOf<R>>,
)
    requires
        exists|env: &mut Uiua<R>|
            *env == before && *final(env) == between && #[trigger] call_ensures(
                Uiua::<R>::push,
                (env, value),
                (),
            ),
        exists|env: &mut Uiua<R>|
            *env == between && *final(env) == after && #[trigger] call_ensures(
                Uiua::<R>::push_function,
                (env, f),
                (),
            ),
    ensures
        after@.values == before@.values.push(value@),
        after@.functions == before@.functions.push(f),
        after@.calls == before@.calls,
        after.runtime() == before.runtime(),
        after.pack_boxes() == before.pack_boxes(),
{
}

/// Taking a value takes the one on top, or fails where there is none.
pub proof fn law_popping_takes_from_the_top<R: Runtime>(
    before: Uiua<R>,
    after: Uiua<R>,
    wanted: Wanted,
    r: Result<ValueOf<R>, ErrorOf<R>>,
)
    requires
        exists|env: &mut Uiua<R>|
            *env == before && *final(env) == after && #[trigger] call_ensures(
                Uiua::<R>::pop,
                (env, wanted),
                r,
            ),
    ensures
        after@.functions == before@.functions,
        after@.calls == before@.calls,
        before@.values.len() == 0 ==> {
            &&& r is Err
            &&& r->Err_0 is EmptyStack
            &&& r->Err_0->EmptyStack_0 == wanted
            &&& after@.values == before@.values
        },
        before@.values.len() > 0 ==> {
            &&& r is Ok
            &&& before@.values == after@.values.push(r->Ok_0@)
        },
{
    if before@.values.len() > 0 {
        assert(before@.values == before@.values.drop_last().push(before@.values.last()));
    }
}

/// Taking a function takes the one on top, or fails where there is none.
pub proof fn law_popping_a_function_takes_from_the_top<R: Runtime>(
    before: Uiua<R>,
    after: Uiua<R>,
    r: Result<Arc<FunctionOf<R>>, ErrorOf<R>>,
)
    requires
        exists|env: &mut Uiua<R>|
            *env == before && *final(env) == after && #[trigger] call_ensures(
                Uiua::<R>::pop_function,
                (env,),
                r,
            ),
    ensures
        after@.values == before@.values,
        after@.calls == before@.calls,
        before@.functions.len() == 0 ==> {
            &&& r is Err
            &&& r->Err_0 is NoFunction
            &&& after@.functions == before@.functions
        },
        before@.functions.len() > 0 ==> {
            &&& r is Ok
            &&& before@.functions == after@.functions.push(r->Ok_0)
        },
{
    if before@.functions.len() > 0 {
        assert(before@.functions == before@.functions.drop_last().push(
            before@.functions.last(),
        ));
    }
}

/// Truncating the stack leaves the lowest values, as many as are asked for or as there are.
pub proof fn law_truncating_leaves_the_lowest<R: Runtime>(
    before: Uiua<R>,
    after: Uiua<R>,
    n: usize,
    i: int,
)
    requires
        exists|env: &mut Uiua<R>|
            *env == before && *final(env) == after && #[trigger] call_ensures(
                Uiua::<R>::truncate_stack,
                (env, n),
                (),
            ),
    ensures
        after@.functions == before@.functions,
        after@.calls == before@.calls,
        after@.values.len() == if n < before@.values.len() {
            n as nat
        } else {
            before@.values.len()
        },
        0 <= i < after@.values.len() ==> after@.values[i] == before@.values[i],
{
}

/// A failure is seen as it is.
pub proof fn law_failures_are_seen_as_they_are<E>(e: UiuaError<E>)
    ensures
        e is NoFunction == e@ is NoFunction,
        e is EmptyStack ==> e@ is EmptyStack && e@->EmptyStack_0 == e->EmptyStack_0,
        e is ReduceOutputs ==> e@ is ReduceOutputs && e@->function == e->function@ && e@->outputs
            == e->outputs,
        e is ReduceArguments ==> e@ is ReduceArguments && e@->ReduceArguments_0
            == e->ReduceArguments_0,
        e is ReduceEmpty == e@ is ReduceEmpty,
        e is ScanScalar == e@ is ScanScalar,
        e is ScanSignature ==> e@ is ScanSignature && e@->ScanSignature_0 == e->ScanSignature_0,
        e is FoldShapes ==> e@ is FoldShapes && e@->left == e->left@ && e@->right == e->right@,
        e is FoldSignature ==> e@ is FoldSignature && e@->found == e->found && e@->expected
            == e->expected,
        e is Runtime ==> e@ is Runtime && e@->Runtime_0 == e->Runtime_0,
{
}

/// An outcome is a success where the result is, and otherwise the failure as it is seen.
pub proof fn law_outcomes_are_seen_as_they_are<T, E>(
    r: Result<T, UiuaError<E>>,
    t: T,
    e: UiuaError<E>,
)
    ensures
        r == Ok::<T, UiuaError<E>>(t) ==> outcome(r) == Ok::<T, ErrorView<E>>(t),
        r == Err::<T, UiuaError<E>>(e) ==> outcome(r) == Err::<T, ErrorView<E>>(e@),
{
}

/// The number that a text of decimal digits stands for.
pub open spec fn read_number(text: Seq<char>) -> int
    decreases text.len(),
{
    if text.len() == 0 {
        0
    } else {
        10 * read_number(text.drop_last()) + (text.last() as int - '0' as int)
    }
}

/// A number is written in decimal digits that read back as it, without a zero in front unless it is
/// zero.
pub proof fn law_numerals_read_back(n: nat)
    ensures
        numeral(n).len() > 0,
        forall|i: int| 0 <= i < numeral(n).len() ==> '0' <= #[trigger] numeral(n)[i] <= '9',
        read_number(numeral(n)) == n,
        n > 0 ==> numeral(n)[0] != '0',
    decreases n,
{
    let text = numeral(n);
    if n < 10 {
        assert(text.drop_last() == Seq::<char>::empty());
        assert(text.last() == text[0]);
        assert(read_number(text.drop_last()) == 0);
        assert(text[0] as int - '0' as int == n);
    } else {
        let most = numeral(n / 10);
        law_numerals_read_back(n / 10);
        assert(text.drop_last() == most);
        assert forall|i: int| 0 <= i < text.len() implies '0' <= #[trigger] text[i] <= '9' by {
            if i < most.len() {
                assert(text[i] == most[i]);
            }
        }
        assert(text[0] == most[0]);
        assert(text.last() as int - '0' as int == n % 10);
        assert(n == 10 * (n / 10) + n % 10);
    }
}

/// Whether `r` is the text `text`.
pub open spec fn says(r: Option<String>, text: Seq<char>) -> bool {
    r is Some && r->0@ == text
}

/// The wording of the failures of reducing and scanning.
pub proof fn law_wording<E>(e: UiuaError<E>, r: Option<String>)
    requires
        call_ensures(UiuaError::<E>::message, (&e,), r),
    ensures
        e is NoFunction || e is EmptyStack || e is Runtime ==> r is None,
        e is ReduceEmpty ==> says(r, "Cannot reduce empty array"@),
        e is ScanScalar ==> says(r, "Cannot scan rank 0 array"@),
        e is ReduceOutputs ==> says(
            r,
            "Reduce's function must return 0 or 1 values, but "@ + e->function@ + " returns "@
                + numeral(e->outputs as nat),
        ),
        e is ReduceArguments ==> says(
            r,
            "Cannot reduce a function that takes "@ + numeral(e->ReduceArguments_0 as nat)
                + " arguments"@,
        ),
        e is ScanSignature ==> says(
            r,
            "Scan's function's signature must be |2.1, but it is "@ + "|"@ + numeral(
                e->ScanSignature_0.args as nat,
            ) + "."@ + numeral(e->ScanSignature_0.outputs as nat),
        ),
        e is FoldSignature ==> says(
            r,
            "Fold's function's signature is "@ + "|"@ + numeral(e->found.args as nat) + "."@
                + numeral(e->found.outputs as nat)
                + ", but its rank lists suggests a signature of "@ + "|"@ + numeral(
                e->expected.args as nat,
            ) + "."@ + numeral(e->expected.outputs as nat),
        ),
{
    if r is Some {
        assert(r->0@ == e@.message()->0);
        if e is ScanSignature {
            assert(r->0@ =~= "Scan's function's signature must be |2.1, but it is "@ + "|"@
                + numeral(e->ScanSignature_0.args as nat) + "."@ + numeral(
                e->ScanSignature_0.outputs as nat,
            ));
        }
        if e is FoldSignature {
            assert(r->0@ =~= "Fold's function's signature is "@ + "|"@ + numeral(
                e->found.args as nat,
            ) + "."@ + numeral(e->found.outputs as nat)
                + ", but its rank lists suggests a signature of "@ + "|"@ + numeral(
                e->expected.args as nat,
            ) + "."@ + numeral(e->expected.outputs as nat));
        }
    }
}

/// The dimensions of a shape, written with crosses between them.
pub open spec fn crossed(shape: Seq<usize>) -> Seq<char>
    decreases shape.len(),
{
    if shape.len() == 0 {
        Seq::empty()
    } else if shape.len() == 1 {
        numeral(shape[0] as nat)
    } else {
        numeral(shape[0] as nat) + " × "@ + crossed(shape.drop_first())
    }
}

proof fn lemma_crossed(shape: Seq<usize>)
    ensures
        dimensions_text(shape) == crossed(shape),
    decreases shape.len(),
{
    if shape.len() > 1 {
        lemma_crossed(shape.drop_last());
        lemma_crossed(shape.drop_first());
        let tail = shape.drop_first();
        if shape.len() == 2 {
            assert(shape.drop_last()[0] == shape[0]);
            assert(tail[0] == shape[1]);
            assert(dimensions_text(shape) == numeral(shape[0] as nat) + " × "@
                + numeral(shape[1] as nat));
        } else {
            let middle = shape.drop_last().drop_first();
            assert(middle == tail.drop_last());
            assert(tail.last() == shape.last());
            assert(shape.drop_last()[0] == shape[0]);
            lemma_crossed(tail.drop_last());
            assert(crossed(shape.drop_last()) == numeral(shape[0] as nat) + " × "@ + crossed(
                middle,
            ));
            assert(crossed(tail) == crossed(middle) + " × "@ + numeral(shape.last() as nat));
            assert(dimensions_text(shape) =~= numeral(shape[0] as nat) + " × "@
                + crossed(tail));
        }
    }
}

/// The wording of the failure to fold arrays with different numbers of rows: both shapes are given
/// in brackets, with crosses between the dimensions.
pub proof fn law_wording_of_shapes<E>(e: UiuaError<E>, r: Option<String>)
    requires
        call_ensures(UiuaError::<E>::message, (&e,), r),
        e is FoldShapes,
    ensures
        says(
            r,
            "Cannot fold arrays with shapes "@ + "["@ + crossed(e->left@) + "]"@ + " and "@ + "["@
                + crossed(e->right@) + "]"@,
        ),
{
    lemma_crossed(e->left@);
    lemma_crossed(e->right@);
    assert(r->0@ =~= "Cannot fold arrays with shapes "@ + "["@ + crossed(e->left@) + "]"@
        + " and "@ + "["@ + crossed(e->right@) + "]"@);
}

/// The larger of two numbers.
pub open spec fn larger(a: nat, b: nat) -> nat {
    if a < b {
        b
    } else {
        a
    }
}

/// One allocation can hold items if they, a header of two words before them and the padding for the
/// alignment stay below the largest `isize`, and there are no more than that.
pub proof fn law_allocations_have_a_limit<T>(n: usize, r: bool)
    requires
        call_ensures(can_allocate::<T>, (n,), r),
    ensures
        r == allocatable::<T>(n as nat),
        ({
            let word = (usize::BITS / 8) as nat;
            let align = larger(vstd::layout::align_of::<T>(), word);
            r <==> n == 0 || n <= isize::MAX && n * vstd::layout::size_of::<T>() + larger(
                2 * word,
                align,
            ) + align < isize::MAX
        }),
{
}

/// Reducing can be done unless rows are joined into more than a `usize` can count, or numbers that
/// stand for bytes or for no rows do not fit in one allocation.
pub proof fn law_when_reducing_can_be_done<R: Runtime>(env: &Uiua<R>, r: bool)
    requires
        call_ensures(can_reduce::<R>, (env,), r),
        stocked(*env),
    ensures
        ({
            let f = function_of(*env);
            let xs = value_of(*env);
            let no_rows = xs.shape().len() > 0 && xs.shape()[0] == 0;
            let row = product(xs.shape().skip(1));
            match f.primitive {
                None => r,
                Some((prim, flipped)) => if prim == Primitive::Join && !flipped
                    && !env.pack_boxes() {
                    r == (xs.shape().len() >= 2 ==> xs.shape()[0] * xs.shape()[1] <= usize::MAX)
                } else if !arithmetic(prim) {
                    r
                } else {
                    match xs {
                        ValueView::Num(_) => r == (no_rows ==> allocatable::<R::Num>(row)),
                        ValueView::Complex(_) => r == (no_rows ==> allocatable::<R::Complex>(row)),
                        ValueView::Byte(a) => r == (allocatable::<R::Num>(a.items.len()) && (no_rows
                            ==> allocatable::<R::Num>(row))),
                        _ => r,
                    }
                },
            }
        }),
{
    let xs = value_of(*env);
    if xs.shape().len() > 0 {
        assert(xs.shape().skip(1) == xs.shape().drop_first());
    }
}

/// Scanning can be done unless the numbers that stand for bytes do not fit in one allocation.
pub proof fn law_when_scanning_can_be_done<R: Runtime>(env: &Uiua<R>, r: bool)
    requires
        call_ensures(can_scan::<R>, (env,), r),
        stocked(*env),
    ensures
        ({
            let f = function_of(*env);
            match (f.primitive, value_of(*env)) {
                (Some((prim, _)), ValueView::Byte(a)) => if arithmetic(prim) && prim
                    != Primitive::Max && prim != Primitive::Min {
                    r == allocatable::<R::Num>(a.items.len())
                } else {
                    r
                },
                _ => r,
            }
        }),
{
}

} // verus!
