//! Reducing: combining the rows of an array into one value.
use crate::array::{Array, ArrayView};
use crate::eco::{allocatable, can_allocate};
use crate::env::{
    may_make, may_reply, outcome, value_outcome, Call, ErrorOf, ErrorViewOf, FunctionOf, Runtime,
    StateView, Step, Uiua, ValueOf, ValueViewOf,
};
use crate::error::{ErrorView, UiuaError, Wanted};
use crate::fast::{fast_reduce, lemma_reduced_weaken, reduced, steps};
use crate::function::{Dyadic, Identity, Primitive};
use crate::pervade::{com_steps, convert, converted, num_steps};
use crate::value::{option_view, result_view, views, Value, ValueView};
use std::sync::Arc;
use vstd::prelude::*;

verus! {

/// An outcome without what it gives on success.
spec fn settled<T, E>(r: Result<T, UiuaError<E>>) -> Result<(), ErrorView<E>> {
    match r {
        Ok(_) => Ok(()),
        Err(e) => Err(e@),
    }
}

/// A value that may be there, as a sequence.
pub open spec fn optional<V>(value: Option<V>) -> Seq<V> {
    match value {
        Some(v) => seq![v],
        None => Seq::empty(),
    }
}

/// The state `s` with a value put on top, if there is one, and the outcome of that.
pub open spec fn placed<R: Runtime>(
    made: Result<ValueViewOf<R>, R::Error>,
    s: StateView<R>,
) -> (StateView<R>, Result<(), ErrorViewOf<R>>) {
    match made {
        Ok(value) => (s.push(value), Ok(())),
        Err(e) => (s, Err(ErrorView::Runtime(e))),
    }
}

/// Whether putting `rows` together in the state `s`, and the result on the stack, may lead to the
/// state `end` and to `result`.
pub open spec fn collects<R: Runtime>(
    rt: R,
    rows: Seq<ValueViewOf<R>>,
    s: StateView<R>,
    end: StateView<R>,
    result: Result<(), ErrorViewOf<R>>,
) -> bool {
    exists|made: Result<ValueViewOf<R>, R::Error>| #[trigger]
        may_make(rt, rows, made) && placed::<R>(made, s.called(Call::Making { rows, made })) == (
            end,
            result,
        )
}

/// Whether a function with at most one argument that broke and left the state `s` may end in the
/// state `end` and in `result`. What it leaves becomes the only row of a value; a function without
/// arguments is taken to leave nothing.
pub open spec fn breaks_off<R: Runtime>(
    rt: R,
    args: usize,
    s: StateView<R>,
    end: StateView<R>,
    result: Result<(), ErrorViewOf<R>>,
) -> bool {
    if args == 0 {
        collects(rt, Seq::empty(), s, end, result)
    } else if s.values.len() == 0 {
        end == s && result == Err::<(), _>(
            ErrorView::<R::Error>::EmptyStack(Wanted::ReducedResult),
        )
    } else {
        collects(rt, seq![s.top()], s.pop(), end, result)
    }
}

/// Whether calling `f` on each of `rows`, from the one at position `k` on, may lead from the state
/// `s` to the state `end` and to `result`.
pub open spec fn feeds<R: Runtime>(
    rt: R,
    f: FunctionOf<R>,
    rows: Seq<ValueViewOf<R>>,
    k: int,
    s: StateView<R>,
    end: StateView<R>,
    result: Result<(), ErrorViewOf<R>>,
) -> bool
    decreases rows.len() - k,
{
    if k >= rows.len() {
        end == s && result == Ok::<(), ErrorViewOf<R>>(())
    } else {
        exists|t: StateView<R>, reply: Result<bool, R::Error>|
            #![trigger may_reply(rt, f, s.push(rows[k]), t, reply)]
            may_reply(rt, f, s.push(rows[k]), t, reply) && match reply {
                Err(e) => end == t && result == Err::<(), _>(ErrorView::Runtime(e)),
                Ok(true) => breaks_off(rt, f.signature.args, t, end, result),
                Ok(false) => feeds(rt, f, rows, k + 1, t, end, result),
            }
    }
}

/// Where reducing stands after a call that left the state `t` and gave `reply`. The value on top
/// is what the call gave.
pub open spec fn accumulated<R: Runtime>(
    t: StateView<R>,
    reply: Result<bool, R::Error>,
) -> Step<StateView<R>, ValueViewOf<R>, Result<ValueViewOf<R>, ErrorViewOf<R>>> {
    match reply {
        Err(e) => Step::Stop(t, Err(ErrorView::Runtime(e))),
        Ok(broke) => if t.values.len() == 0 {
            Step::Stop(t, Err(ErrorView::EmptyStack(Wanted::ReducedResult)))
        } else if broke {
            Step::Stop(t.pop(), Ok(t.top()))
        } else {
            Step::Go(t.pop(), t.top())
        },
    }
}

/// Whether calling `f` on each of `rows`, from the one at position `k` on, with what it gave
/// before on top, `acc` at first, may lead from the state `s` to the state `end` and to `result`.
pub open spec fn accumulates<R: Runtime>(
    rt: R,
    f: FunctionOf<R>,
    rows: Seq<ValueViewOf<R>>,
    k: int,
    acc: ValueViewOf<R>,
    s: StateView<R>,
    end: StateView<R>,
    result: Result<ValueViewOf<R>, ErrorViewOf<R>>,
) -> bool
    decreases rows.len() - k,
{
    if k >= rows.len() {
        end == s && result == Ok::<_, ErrorViewOf<R>>(acc)
    } else {
        exists|t: StateView<R>, reply: Result<bool, R::Error>|
            #![trigger may_reply(rt, f, s.push(rows[k]).push(acc), t, reply)]
            may_reply(rt, f, s.push(rows[k]).push(acc), t, reply) && match accumulated::<R>(
                t,
                reply,
            ) {
                Step::Stop(u, r) => end == u && result == r,
                Step::Go(u, next) => accumulates(rt, f, rows, k + 1, next, u, end, result),
            }
    }
}

/// Whether reducing the rows of `xs`, after `init` if it is there, with `f` may lead from the
/// state `s` to the state `end` and to `result`.
pub open spec fn folds_right<R: Runtime>(
    rt: R,
    f: FunctionOf<R>,
    xs: ValueViewOf<R>,
    init: Option<ValueViewOf<R>>,
    s: StateView<R>,
    end: StateView<R>,
    result: Result<(), ErrorViewOf<R>>,
) -> bool {
    let rows = optional(init) + xs.rows();
    if f.signature.outputs > 1 {
        end == s && result == Err::<(), _>(
            ErrorView::<R::Error>::ReduceOutputs {
                function: f.name@,
                outputs: f.signature.outputs,
            },
        )
    } else if f.signature.args > 2 {
        end == s && result == Err::<(), _>(
            ErrorView::<R::Error>::ReduceArguments(f.signature.args),
        )
    } else if f.signature.args < 2 {
        feeds(rt, f, rows, 0, s, end, result)
    } else if rows.len() == 0 {
        end == s && result == Err::<(), _>(ErrorView::<R::Error>::ReduceEmpty)
    } else {
        exists|t: StateView<R>, last: Result<ValueViewOf<R>, ErrorViewOf<R>>|
            #![trigger accumulates(rt, f, rows, 1, rows[0], s, t, last)]
            accumulates(rt, f, rows, 1, rows[0], s, t, last) && match last {
                Ok(acc) => end == t.push(acc) && result == Ok::<(), ErrorViewOf<R>>(()),
                Err(e) => end == t && result == Err::<(), _>(e),
            }
    }
}

/// Puts a value on the stack, if there is one.
pub fn place<R: Runtime>(made: Result<ValueOf<R>, R::Error>, env: &mut Uiua<R>) -> (r: Result<
    (),
    ErrorOf<R>,
>)
    ensures
        final(env).same_setting(*old(env)),
        (final(env)@, outcome(r)) == placed::<R>(result_view(made), old(env)@),
{
    match made {
        Ok(value) => {
            env.push(value);
            Ok(())
        },
        Err(e) => Err(UiuaError::Runtime(e)),
    }
}

/// Puts rows together and the result on the stack.
pub fn collect<R: Runtime>(rows: Vec<ValueOf<R>>, env: &mut Uiua<R>) -> (r: Result<(), ErrorOf<R>>)
    ensures
        final(env).same_setting(*old(env)),
        collects(
            old(env).runtime(),
            views(rows@),
            old(env)@,
            final(env)@,
            outcome(r),
        ),
{
    let made = env.from_row_values(rows);
    place(made, env)
}

/// Ends reducing with a function with at most one argument that broke and left the stacks as they
/// are.
pub fn break_off<R: Runtime>(args: usize, env: &mut Uiua<R>) -> (r: Result<(), ErrorOf<R>>)
    ensures
        final(env).same_setting(*old(env)),
        breaks_off(
            old(env).runtime(),
            args,
            old(env)@,
            final(env)@,
            outcome(r),
        ),
{
    let ghost t = env@;
    let mut rows: Vec<ValueOf<R>> = Vec::new();
    if args == 0 {
        assert(views(rows@) == Seq::<ValueViewOf<R>>::empty());
    } else {
        match env.pop(Wanted::ReducedResult) {
            Ok(value) => {
                rows.push(value);
                assert(views(rows@) == seq![t.top()]);
            },
            Err(e) => return Err(e),
        }
    }
    collect(rows, env)
}

/// Calls a function that takes at most one value on a row. Tells whether it broke, in which case
/// the value that reducing gives is on the stack.
fn feed_row<R: Runtime>(f: &Arc<FunctionOf<R>>, row: ValueOf<R>, env: &mut Uiua<R>) -> (r: Result<
    bool,
    ErrorOf<R>,
>)
    ensures
        final(env).same_setting(*old(env)),
        match r {
            Ok(false) => may_reply(
                old(env).runtime(),
                **f,
                old(env)@.push(row@),
                final(env)@,
                Ok(false),
            ),
            _ => forall|rows: Seq<ValueViewOf<R>>, k: int|
                0 <= k < rows.len() && rows[k] == row@ ==> #[trigger] feeds(
                    old(env).runtime(),
                    **f,
                    rows,
                    k,
                    old(env)@,
                    final(env)@,
                    settled(r),
                ),
        },
{
    let ghost rt = env.runtime();
    let ghost before = env@.push(row@);
    env.push(row);
    let reply = env.call_catch_break(f);
    let ghost t = env@;
    assert(may_reply(rt, **f, before, t, reply));
    match reply {
        Err(e) => Err(UiuaError::Runtime(e)),
        Ok(false) => Ok(false),
        Ok(true) => {
            match break_off(f.signature().args, env) {
                Ok(()) => Ok(true),
                Err(e) => Err(e),
            }
        },
    }
}

/// Sees to what a call in the course of reducing gave, which left the stacks as they are.
pub fn accumulate<R: Runtime>(reply: Result<bool, R::Error>, env: &mut Uiua<R>) -> (step: Step<
    (),
    ValueOf<R>,
    Result<ValueOf<R>, ErrorOf<R>>,
>)
    ensures
        final(env).same_setting(*old(env)),
        match (step, accumulated::<R>(old(env)@, reply)) {
            (Step::Stop((), last), Step::Stop(u, r)) => {
                final(env)@ == u && value_outcome::<R>(last) == r
            },
            (Step::Go((), acc), Step::Go(u, next)) => final(env)@ == u && acc@ == next,
            _ => false,
        },
{
    match reply {
        Err(e) => Step::Stop((), Err(UiuaError::Runtime(e))),
        Ok(broke) => match env.pop(Wanted::ReducedResult) {
            Err(e) => Step::Stop((), Err(e)),
            Ok(acc) => if broke {
                Step::Stop((), Ok(acc))
            } else {
                Step::Go((), acc)
            },
        },
    }
}

/// Reduces the rows of a value, after `init` if it is there, with a function.
pub fn generic_fold_right_1<R: Runtime>(
    f: Arc<FunctionOf<R>>,
    xs: ValueOf<R>,
    init: Option<ValueOf<R>>,
    env: &mut Uiua<R>,
) -> (r: Result<(), ErrorOf<R>>)
    ensures
        folds_right(
            old(env).runtime(),
            *f,
            xs@,
            option_view(init),
            old(env)@,
            final(env)@,
            outcome(r),
        ),
        final(env).same_setting(*old(env)),
{
    let ghost rt = env.runtime();
    let ghost s = env@;
    let ghost start = option_view(init);
    let ghost rows = optional(start) + xs@.rows();
    let ghost offset = optional(start).len() as int;
    let sig = f.signature();
    if sig.outputs > 1 {
        return Err(
            UiuaError::ReduceOutputs { function: f.name.clone(), outputs: sig.outputs },
        );
    }
    let row_count: usize = xs.row_count();
    match sig.args {
        0 | 1 => {
            let mut i: usize = 0;
            if let Some(row) = init {
                assert(rows[0] == row@);
                match feed_row(&f, row, env) {
                    Ok(false) => {},
                    Ok(true) => return Ok(()),
                    Err(e) => return Err(e),
                }
                assert forall|end: StateView<R>, result: Result<(), ErrorViewOf<R>>|
                    #[trigger] feeds(rt, *f, rows, 1, env@, end, result) implies feeds(
                    rt,
                    *f,
                    rows,
                    0,
                    s,
                    end,
                    result,
                ) by {
                    assert(may_reply(rt, *f, s.push(rows[0]), env@, Ok(false)));
                }
            }
            while i < row_count
                invariant
                    row_count == xs@.row_count(),
                    rows == optional(start) + xs@.rows(),
                    offset == optional(start).len(),
                    rows.len() == offset + row_count,
                    0 <= i <= row_count,
                    rt == env.runtime(),
                    env.same_setting(*old(env)),
                    rt == old(env).runtime(),
                    s == old(env)@,
                    forall|end: StateView<R>, result: Result<(), ErrorViewOf<R>>|
                        #[trigger]
                        feeds(rt, *f, rows, offset + i, env@, end, result) ==> feeds(
                            rt,
                            *f,
                            rows,
                            0,
                            s,
                            end,
                            result,
                        ),
                    f.signature.outputs <= 1,
                    f.signature.args < 2,
                    start == option_view(init),
                decreases row_count - i,
            {
                let ghost here = env@;
                let ghost p = offset + i;
                let row = xs.row(i);
                assert(rows[p] == row@);
                let fed = feed_row(&f, row, env);
                assert(fed != Ok::<bool, ErrorOf<R>>(false) ==> feeds(
                    rt,
                    *f,
                    rows,
                    p,
                    here,
                    env@,
                    settled(fed),
                ));
                match fed {
                    Ok(false) => {},
                    Ok(true) => return Ok(()),
                    Err(e) => return Err(e),
                }
                assert forall|end: StateView<R>, result: Result<(), ErrorViewOf<R>>|
                    #[trigger] feeds(
                    rt,
                    *f,
                    rows,
                    p + 1,
                    env@,
                    end,
                    result,
                ) implies feeds(rt, *f, rows, 0, s, end, result) by {
                    assert(may_reply(rt, *f, here.push(rows[p]), env@, Ok(false)));
                    assert(feeds(rt, *f, rows, p, here, end, result));
                }
                i = i + 1;
                assert(offset + i == p + 1);
            }
            assert(feeds(rt, *f, rows, offset + i, env@, env@, Ok(())));
            Ok(())
        },
        2 => {
            let mut i: usize = 0;
            let mut acc: ValueOf<R>;
            match init {
                Some(value) => acc = value,
                None => {
                    if row_count == 0 {
                        return Err(UiuaError::ReduceEmpty);
                    }
                    acc = xs.row(0);
                    i = 1;
                },
            }
            assert(rows[0] == acc@);
            while i < row_count
                invariant
                    row_count == xs@.row_count(),
                    rows == optional(start) + xs@.rows(),
                    offset == optional(start).len(),
                    rows.len() == offset + row_count,
                    offset + i >= 1,
                    0 <= i <= row_count,
                    rt == env.runtime(),
                    rt == old(env).runtime(),
                    s == old(env)@,
                    start == option_view(init),
                    env.same_setting(*old(env)),
                    f.signature.outputs <= 1,
                    f.signature.args == 2,
                    forall|end: StateView<R>, last: Result<ValueViewOf<R>, ErrorViewOf<R>>|
                        #[trigger]
                        accumulates(rt, *f, rows, offset + i, acc@, env@, end, last)
                            ==> accumulates(rt, *f, rows, 1, rows[0], s, end, last),
                decreases row_count - i,
            {
                let ghost here = env@;
                let ghost before = acc@;
                let ghost p = offset + i;
                let row = xs.row(i);
                assert(rows[p] == row@);
                env.push(row);
                env.push(acc);
                let reply = env.call_catch_break(&f);
                let ghost t = env@;
                assert(may_reply(rt, *f, here.push(rows[p]).push(before), t, reply));
                match accumulate(reply, env) {
                    Step::Stop((), last) => {
                        assert(accumulates(
                            rt,
                            *f,
                            rows,
                            p,
                            before,
                            here,
                            env@,
                            value_outcome::<R>(last),
                        ));
                        match last {
                            Ok(acc) => {
                                env.push(acc);
                                return Ok(());
                            },
                            Err(e) => return Err(e),
                        }
                    },
                    Step::Go((), next) => acc = next,
                }
                assert forall|end: StateView<R>, last: Result<ValueViewOf<R>, ErrorViewOf<R>>|
                    #[trigger] accumulates(
                    rt,
                    *f,
                    rows,
                    p + 1,
                    acc@,
                    env@,
                    end,
                    last,
                ) implies accumulates(rt, *f, rows, 1, rows[0], s, end, last) by {
                    assert(accumulates(rt, *f, rows, p, before, here, end, last));
                }
                i = i + 1;
                assert(offset + i == p + 1);
            }
            assert(accumulates(
                rt,
                *f,
                rows,
                offset + i,
                acc@,
                env@,
                env@,
                Ok(acc@),
            ));
            env.push(acc);
            Ok(())
        },
        args => Err(UiuaError::ReduceArguments(args)),
    }
}

/// Whether reducing an array of numbers with an operation may give `out`.
pub open spec fn reduces_nums<R: Runtime>(
    rt: R,
    op: Dyadic,
    flipped: bool,
    identity: Identity,
    a: ArrayView<R::Num>,
    out: ArrayView<R::Num>,
) -> bool {
    exists|id: R::Num|
        call_ensures(R::num_identity, (&rt, identity), id) && #[trigger] reduced(
            num_steps(rt, op, flipped),
            id,
            a,
            out,
        )
}

/// Whether reducing an array of complex numbers with an operation may give `out`.
pub open spec fn reduces_coms<R: Runtime>(
    rt: R,
    op: Dyadic,
    flipped: bool,
    identity: Identity,
    a: ArrayView<R::Complex>,
    out: ArrayView<R::Complex>,
) -> bool {
    exists|id: R::Complex|
        call_ensures(R::com_identity, (&rt, identity), id) && #[trigger] reduced(
            com_steps(rt, op, flipped),
            id,
            a,
            out,
        )
}

/// Whether a row of what reducing no rows gives can be had.
pub open spec fn identity_row_fits<T, S>(a: ArrayView<S>) -> bool {
    a.rank() > 0 && a.row_count() == 0 ==> allocatable::<T>(a.row_len())
}

/// Tells whether a row of what reducing no rows gives can be had.
fn can_have_identity_row<T, S>(a: &Array<S>) -> (r: bool)
    ensures
        r == identity_row_fits::<T, S>(a@),
{
    a.rank() == 0 || a.row_count() > 0 || can_allocate::<T>(a.row_len())
}

/// Reduces an array of numbers with the operation that a primitive stands for. Gives the array
/// back where the primitive stands for none.
pub fn reduce_nums<R: Runtime>(
    prim: Primitive,
    flipped: bool,
    xs: Array<R::Num>,
    env: &mut Uiua<R>,
) -> (r: Result<(), Array<R::Num>>)
    requires
        prim.reduction() is Some ==> identity_row_fits::<R::Num, R::Num>(xs@),
    ensures
        final(env).same_setting(*old(env)),
        r is Ok == prim.reduction() is Some,
        prim.reduction() matches Some((op, identity)) ==> exists|out: ArrayView<R::Num>| #[trigger]
            reduces_nums(old(env).runtime(), op, flipped, identity, xs@, out)
                && final(env)@ == old(env)@.push(ValueView::Num(out)),
        r matches Err(back) ==> back == xs && final(env)@ == old(env)@,
{
    match prim.reduction() {
        Some((op, identity)) => {
            let ghost a = xs@;
            let here: &Uiua<R> = env;
            let swap: bool = flipped && op.ordered();
            let ghost step = num_steps(here.runtime(), op, flipped);
            let f = |a: R::Num, b: R::Num| -> (c: R::Num)
                ensures
                    step(a, b, c),
                {
                    if swap {
                        here.num_num(op, b, a)
                    } else {
                        here.num_num(op, a, b)
                    }
                };
            let id: R::Num = here.num_identity(identity);
            let out = fast_reduce(xs, id, f);
            proof {
                lemma_reduced_weaken(steps(f), step, id, a, out@);
                assert(reduces_nums(here.runtime(), op, flipped, identity, a, out@));
            }
            env.push(Value::Num(out));
            Ok(())
        },
        None => Err(xs),
    }
}

/// Reduces an array of complex numbers with the operation that a primitive stands for. Gives the
/// array back where the primitive stands for none.
pub fn reduce_coms<R: Runtime>(
    prim: Primitive,
    flipped: bool,
    xs: Array<R::Complex>,
    env: &mut Uiua<R>,
) -> (r: Result<(), Array<R::Complex>>)
    requires
        prim.reduction() is Some ==> identity_row_fits::<R::Complex, R::Complex>(xs@),
    ensures
        final(env).same_setting(*old(env)),
        r is Ok == prim.reduction() is Some,
        prim.reduction() matches Some((op, identity)) ==> exists|out: ArrayView<R::Complex>|
            #[trigger]
            reduces_coms(old(env).runtime(), op, flipped, identity, xs@, out)
                && final(env)@ == old(env)@.push(ValueView::Complex(out)),
        r matches Err(back) ==> back == xs && final(env)@ == old(env)@,
{
    match prim.reduction() {
        Some((op, identity)) => {
            let ghost a = xs@;
            let here: &Uiua<R> = env;
            let swap: bool = flipped && op.ordered();
            let ghost step = com_steps(here.runtime(), op, flipped);
            let f = |a: R::Complex, b: R::Complex| -> (c: R::Complex)
                ensures
                    step(a, b, c),
                {
                    if swap {
                        here.com_x(op, b, a)
                    } else {
                        here.com_x(op, a, b)
                    }
                };
            let id: R::Complex = here.com_identity(identity);
            let out = fast_reduce(xs, id, f);
            proof {
                lemma_reduced_weaken(steps(f), step, id, a, out@);
                assert(reduces_coms(here.runtime(), op, flipped, identity, a, out@));
            }
            env.push(Value::Complex(out));
            Ok(())
        },
        None => Err(xs),
    }
}

/// Whether reducing `xs` with `f` may lead from the state `s` to the state `end` and to
/// `result`. Joining rows makes two dimensions one, an operation on numbers is applied item by
/// item, and any other function is called on the rows.
pub open spec fn reduces_value<R: Runtime>(
    rt: R,
    pack_boxes: bool,
    f: FunctionOf<R>,
    xs: ValueViewOf<R>,
    s: StateView<R>,
    end: StateView<R>,
    result: Result<(), ErrorViewOf<R>>,
) -> bool {
    if f.primitive == Some((Primitive::Join, false)) && !pack_boxes {
        end == s.push(xs.joined()) && result == Ok::<(), ErrorViewOf<R>>(())
    } else {
        match (f.primitive, xs) {
            (Some((prim, flipped)), ValueView::Num(a)) if prim.reduction() is Some => {
                let (op, identity) = prim.reduction()->0;
                &&& result == Ok::<(), ErrorViewOf<R>>(())
                &&& exists|out: ArrayView<R::Num>| #[trigger]
                    reduces_nums(rt, op, flipped, identity, a, out) && end == s.push(
                        ValueView::Num(out),
                    )
            },
            (Some((prim, flipped)), ValueView::Complex(a)) if prim.reduction() is Some => {
                let (op, identity) = prim.reduction()->0;
                &&& result == Ok::<(), ErrorViewOf<R>>(())
                &&& exists|out: ArrayView<R::Complex>| #[trigger]
                    reduces_coms(rt, op, flipped, identity, a, out) && end == s.push(
                        ValueView::Complex(out),
                    )
            },
            (Some((prim, flipped)), ValueView::Byte(a)) if prim.reduction() is Some => {
                let (op, identity) = prim.reduction()->0;
                &&& result == Ok::<(), ErrorViewOf<R>>(())
                &&& exists|nums: ArrayView<R::Num>, out: ArrayView<R::Num>|
                    #![trigger reduces_nums(rt, op, flipped, identity, nums, out)]
                    converted(rt, a, nums) && reduces_nums(rt, op, flipped, identity, nums, out)
                        && end == s.push(ValueView::Num(out))
            },
            _ => folds_right(rt, f, xs, None, s, end, result),
        }
    }
}

/// Whether what reducing `xs` with `f` gives, other than by calling `f`, can be had: that a
/// dimension is a `usize`, and that new numbers fit in one allocation.
pub open spec fn reduction_fits<R: Runtime>(
    pack_boxes: bool,
    f: FunctionOf<R>,
    xs: ValueViewOf<R>,
) -> bool {
    if f.primitive == Some((Primitive::Join, false)) && !pack_boxes {
        xs.rank() >= 2 ==> xs.shape()[0] * xs.shape()[1] <= usize::MAX
    } else {
        match (f.primitive, xs) {
            (Some((prim, _)), ValueView::Num(a)) => prim.reduction() is Some
                ==> identity_row_fits::<R::Num, R::Num>(a),
            (Some((prim, _)), ValueView::Complex(a)) => prim.reduction() is Some
                ==> identity_row_fits::<R::Complex, R::Complex>(a),
            (Some((prim, _)), ValueView::Byte(a)) => prim.reduction() is Some ==> {
                &&& allocatable::<R::Num>(a.items.len())
                &&& identity_row_fits::<R::Num, u8>(a)
            },
            _ => true,
        }
    }
}

/// Tells whether what reducing `xs` with `f` gives, other than by calling `f`, can be had.
fn can_have_reduction<R: Runtime>(pack_boxes: bool, f: &FunctionOf<R>, xs: &ValueOf<R>) -> (r: bool)
    ensures
        r == reduction_fits::<R>(pack_boxes, *f, xs@),
{
    if let (Some((Primitive::Join, false)), false) = (f.as_flipped_primitive(), pack_boxes) {
        if xs.rank() < 2 {
            return true;
        }
        let shape = xs.shape();
        return shape[0].checked_mul(shape[1]).is_some();
    }
    let prim = match f.as_flipped_primitive() {
        Some((prim, _)) => prim,
        None => return true,
    };
    if prim.reduction().is_none() {
        return true;
    }
    match xs {
        Value::Num(a) => can_have_identity_row::<R::Num, R::Num>(a),
        Value::Complex(a) => can_have_identity_row::<R::Complex, R::Complex>(a),
        Value::Byte(a) => {
            can_allocate::<R::Num>(a.data().len()) && can_have_identity_row::<R::Num, u8>(a)
        },
        _ => true,
    }
}

/// Tells whether what reducing with the function and the value on top of the stacks gives, other
/// than by calling the function, can be had.
pub fn can_reduce<R: Runtime>(env: &Uiua<R>) -> (r: bool)
    ensures
        r == (env@.functions.len() > 0 && env@.values.len() > 0 ==> reduction_fits::<
            R,
        >(env.pack_boxes(), *env@.functions.last(), env@.top())),
{
    let values = &env.stacks().values;
    let functions = &env.stacks().functions;
    if values.len() == 0 || functions.len() == 0 {
        return true;
    }
    can_have_reduction::<R>(
        env.pack_boxes(),
        &functions[functions.len() - 1],
        &values[values.len() - 1],
    )
}

/// Takes a function and a value off the stacks and reduces the value with the function.
pub fn reduce<R: Runtime>(env: &mut Uiua<R>) -> (r: Result<(), ErrorOf<R>>)
    requires
        old(env)@.functions.len() > 0 && old(env)@.values.len() > 0
            ==> reduction_fits::<R>(
            old(env).pack_boxes(),
            *old(env)@.functions.last(),
            old(env)@.top(),
        ),
    ensures
        final(env).same_setting(*old(env)),
        old(env)@.functions.len() == 0 ==> {
            &&& outcome(r) == Err::<(), _>(ErrorView::<R::Error>::NoFunction)
            &&& final(env)@ == old(env)@
        },
        old(env)@.functions.len() > 0 && old(env)@.values.len() == 0 ==> {
            &&& outcome(r) == Err::<(), _>(
                ErrorView::<R::Error>::EmptyStack(Wanted::Argument(1)),
            )
            &&& final(env)@ == old(env)@.pop_function()
        },
        old(env)@.functions.len() > 0 && old(env)@.values.len() > 0
            ==> reduces_value(
            old(env).runtime(),
            old(env).pack_boxes(),
            *old(env)@.functions.last(),
            old(env)@.top(),
            old(env)@.pop_function().pop(),
            final(env)@,
            outcome(r),
        ),
{
    let f = match env.pop_function() {
        Ok(f) => f,
        Err(e) => return Err(e),
    };
    let xs = match env.pop(Wanted::Argument(1)) {
        Ok(xs) => xs,
        Err(e) => return Err(e),
    };
    match (f.as_flipped_primitive(), xs) {
        (Some((Primitive::Join, false)), xs) if !env.pack_boxes() => {
            env.push(xs.join_rows());
            Ok(())
        },
        (Some((prim, flipped)), Value::Num(nums)) => {
            match reduce_nums(prim, flipped, nums, env) {
                Ok(()) => Ok(()),
                Err(nums) => generic_fold_right_1(f, Value::Num(nums), None, env),
            }
        },
        (Some((prim, flipped)), Value::Complex(nums)) => {
            match reduce_coms(prim, flipped, nums, env) {
                Ok(()) => Ok(()),
                Err(nums) => generic_fold_right_1(f, Value::Complex(nums), None, env),
            }
        },
        (Some((prim, flipped)), Value::Byte(bytes)) => {
            if prim.reduction().is_none() {
                return generic_fold_right_1(f, Value::Byte(bytes), None, env);
            }
            let nums = convert(env, bytes);
            let _ = reduce_nums(prim, flipped, nums, env);
            Ok(())
        },
        (_, xs) => generic_fold_right_1(f, xs, None, env),
    }
}

} // verus!
