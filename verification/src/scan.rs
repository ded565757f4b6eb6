//! Scanning: what reducing gives after each row of an array.
use crate::array::{Array, ArrayView};
use crate::eco::{allocatable, can_allocate};
use crate::env::{
    may_reply, outcome, values_outcome, ErrorOf, ErrorViewOf, FunctionOf, Runtime, StateView,
    Step, Uiua, ValueOf, ValueViewOf,
};
use crate::error::{ErrorView, UiuaError, Wanted};
use crate::fast::{fast_scan, lemma_scanned_weaken, scanned, steps};
use crate::function::{Dyadic, Signature};
use crate::pervade::{byte_byte, byte_of, byte_steps, convert, converted, num_steps};
use crate::reduce::{collect, collects};
use crate::value::{views, Value, ValueView};
use std::sync::Arc;
use vstd::prelude::*;

verus! {

/// Where scanning stands after the call on the row at position `k`, which left the state `t` and
/// gave `reply`. The value on top is what the call gave. If it broke, the rows that are left
/// follow as they are, and what is on the stack above `height` values is dropped.
pub open spec fn scanned_on<R: Runtime>(
    rows: Seq<ValueViewOf<R>>,
    k: int,
    done: Seq<ValueViewOf<R>>,
    height: nat,
    t: StateView<R>,
    reply: Result<bool, R::Error>,
) -> Step<
    StateView<R>,
    Seq<ValueViewOf<R>>,
    Result<Seq<ValueViewOf<R>>, ErrorViewOf<R>>,
> {
    match reply {
        Err(e) => Step::Stop(t, Err(ErrorView::Runtime(e))),
        Ok(broke) => if t.values.len() == 0 {
            Step::Stop(t, Err(ErrorView::EmptyStack(Wanted::ScannedResult)))
        } else if broke {
            Step::Stop(
                t.pop().truncate(height),
                Ok(done.push(t.top()) + rows.skip(k + 1)),
            )
        } else {
            Step::Go(t.pop(), done.push(t.top()))
        },
    }
}

/// Whether calling `f` on each of `rows`, from the one at position `k` on, with the last of `done`
/// on top, may lead from the state `s` to the state `end` and to `result`.
pub open spec fn scans_rows<R: Runtime>(
    rt: R,
    f: FunctionOf<R>,
    rows: Seq<ValueViewOf<R>>,
    k: int,
    done: Seq<ValueViewOf<R>>,
    s: StateView<R>,
    end: StateView<R>,
    result: Result<Seq<ValueViewOf<R>>, ErrorViewOf<R>>,
) -> bool
    decreases rows.len() - k,
{
    if k >= rows.len() {
        end == s && result == Ok::<_, ErrorViewOf<R>>(done)
    } else {
        exists|t: StateView<R>, reply: Result<bool, R::Error>|
            #![trigger may_reply(rt, f, s.push(rows[k]).push(done.last()), t, reply)]
            may_reply(rt, f, s.push(rows[k]).push(done.last()), t, reply) && match scanned_on::<R>(
                rows,
                k,
                done,
                s.values.len(),
                t,
                reply,
            ) {
                Step::Stop(u, r) => end == u && result == r,
                Step::Go(u, next) => scans_rows(rt, f, rows, k + 1, next, u, end, result),
            }
    }
}

/// Whether scanning the rows of `xs` by calling `f` may lead from the state `s` to the state
/// `end` and to `result`.
pub open spec fn scans_generic<R: Runtime>(
    rt: R,
    f: FunctionOf<R>,
    xs: ValueViewOf<R>,
    s: StateView<R>,
    end: StateView<R>,
    result: Result<(), ErrorViewOf<R>>,
) -> bool {
    if f.signature != (Signature { args: 2, outputs: 1 }) {
        end == s && result == Err::<(), _>(ErrorView::<R::Error>::ScanSignature(f.signature))
    } else if xs.row_count() == 0 {
        end == s.push(xs.without_rows()) && result == Ok::<(), ErrorViewOf<R>>(())
    } else {
        exists|t: StateView<R>, list: Result<Seq<ValueViewOf<R>>, ErrorViewOf<R>>|
            #![trigger scans_rows(rt, f, xs.rows(), 1, seq![xs.row(0)], s, t, list)]
            scans_rows(rt, f, xs.rows(), 1, seq![xs.row(0)], s, t, list) && match list {
                Ok(rows) => collects(rt, rows, t, end, result),
                Err(e) => end == t && result == Err::<(), _>(e),
            }
    }
}

/// Sees to what the call on the row at position `i` of `xs` gave, which left the stacks as they
/// are. The stack had `height` values before the call.
pub fn scan_on<R: Runtime>(
    reply: Result<bool, R::Error>,
    xs: &ValueOf<R>,
    i: usize,
    done: Vec<ValueOf<R>>,
    height: usize,
    env: &mut Uiua<R>,
) -> (step: Step<(), Vec<ValueOf<R>>, Result<Vec<ValueOf<R>>, ErrorOf<R>>>)
    requires
        i < xs@.row_count(),
    ensures
        final(env).same_setting(*old(env)),
        match (
            step,
            scanned_on::<R>(
                xs@.rows(),
                i as int,
                views(done@),
                height as nat,
                old(env)@,
                reply,
            ),
        ) {
            (Step::Stop((), list), Step::Stop(u, r)) => {
                final(env)@ == u && values_outcome::<R>(list) == r
            },
            (Step::Go((), list), Step::Go(u, next)) => {
                final(env)@ == u && views(list@) == next
            },
            _ => false,
        },
{
    let ghost t = env@;
    let ghost rows = xs@.rows();
    let ghost after = views(done@).push(t.top());
    let broke = match reply {
        Err(e) => return Step::Stop((), Err(UiuaError::Runtime(e))),
        Ok(broke) => broke,
    };
    let acc = match env.pop(Wanted::ScannedResult) {
        Err(e) => return Step::Stop((), Err(e)),
        Ok(acc) => acc,
    };
    let mut list = done;
    list.push(acc);
    assert(views(list@) == after);
    if !broke {
        return Step::Go((), list);
    }
    env.truncate_stack(height);
    let row_count: usize = xs.row_count();
    let mut j: usize = i + 1;
    assert(rows.subrange(i + 1, j as int) == Seq::<ValueViewOf<R>>::empty());
    while j < row_count
        invariant
            row_count == xs@.row_count(),
            rows == xs@.rows(),
            i < j <= row_count,
            views(list@) == after + rows.subrange(i + 1, j as int),
        decreases row_count - j,
    {
        let ghost listed = views(list@);
        list.push(xs.row(j));
        assert(views(list@) == listed.push(rows[j as int]));
        assert(rows.subrange(i + 1, j + 1) == rows.subrange(i + 1, j as int).push(rows[j as int]));
        j = j + 1;
        assert(views(list@) == after + rows.subrange(i + 1, j as int));
    }
    assert(rows.subrange(i + 1, j as int) == rows.skip(i + 1));
    Step::Stop((), Ok(list))
}

/// Scans the rows of a value by calling a function on them.
pub fn generic_scan<R: Runtime>(
    f: Arc<FunctionOf<R>>,
    xs: ValueOf<R>,
    env: &mut Uiua<R>,
) -> (r: Result<(), ErrorOf<R>>)
    ensures
        scans_generic(
            old(env).runtime(),
            *f,
            xs@,
            old(env)@,
            final(env)@,
            outcome(r),
        ),
        final(env).same_setting(*old(env)),
{
    let ghost rt = env.runtime();
    let ghost s = env@;
    let ghost rows = xs@.rows();
    let ghost first = seq![xs@.row(0)];
    let sig = f.signature();
    if sig != (Signature { args: 2, outputs: 1 }) {
        return Err(UiuaError::ScanSignature(sig));
    }
    let row_count: usize = xs.row_count();
    if row_count == 0 {
        env.push(xs.first_dim_zero());
        return Ok(());
    }
    let mut done: Vec<ValueOf<R>> = Vec::new();
    done.push(xs.row(0));
    assert(views(done@) == first);
    let mut i: usize = 1;
    while i < row_count
        invariant
            row_count == xs@.row_count(),
            rows == xs@.rows(),
            first == seq![xs@.row(0)],
            1 <= i <= row_count,
            done@.len() == i,
            rt == env.runtime(),
            rt == old(env).runtime(),
            s == old(env)@,
            env.same_setting(*old(env)),
            f.signature == (Signature { args: 2, outputs: 1 }),
            forall|end: StateView<R>, list: Result<Seq<ValueViewOf<R>>, ErrorViewOf<R>>|
                #[trigger]
                scans_rows(rt, *f, rows, i as int, views(done@), env@, end, list)
                    ==> scans_rows(rt, *f, rows, 1, first, s, end, list),
        decreases row_count - i,
    {
        let ghost here = env@;
        let ghost before = views(done@);
        let ghost k = i as int;
        let start_height: usize = env.stack_size();
        let row = xs.row(i);
        assert(rows[k] == row@);
        let acc = done[done.len() - 1].clone();
        assert(before.last() == acc@);
        env.push(row);
        env.push(acc);
        let reply = env.call_catch_break(&f);
        let ghost t = env@;
        assert(may_reply(rt, *f, here.push(rows[k]).push(before.last()), t, reply));
        match scan_on(reply, &xs, i, done, start_height, env) {
            Step::Stop((), list) => {
                assert(scans_rows(
                    rt,
                    *f,
                    rows,
                    k,
                    before,
                    here,
                    env@,
                    values_outcome::<R>(list),
                ));
                return match list {
                    Ok(list) => collect(list, env),
                    Err(e) => Err(e),
                };
            },
            Step::Go((), next) => done = next,
        }
        assert(views(done@).len() == done@.len());
        i = i + 1;
        assert forall|end: StateView<R>, list: Result<Seq<ValueViewOf<R>>, ErrorViewOf<R>>|
            #[trigger] scans_rows(
            rt,
            *f,
            rows,
            i as int,
            views(done@),
            env@,
            end,
            list,
        ) implies scans_rows(rt, *f, rows, 1, first, s, end, list) by {
            assert(scans_rows(rt, *f, rows, k, before, here, end, list));
        }
    }
    assert(scans_rows(
        rt,
        *f,
        rows,
        i as int,
        views(done@),
        env@,
        env@,
        Ok(views(done@)),
    ));
    collect(done, env)
}

/// Whether scanning `xs` with `f` may lead from the state `s` to the state `end` and to `result`.
/// An operation on numbers is applied item by item, and any other function is called on the rows.
pub open spec fn scans_value<R: Runtime>(
    rt: R,
    f: FunctionOf<R>,
    xs: ValueViewOf<R>,
    s: StateView<R>,
    end: StateView<R>,
    result: Result<(), ErrorViewOf<R>>,
) -> bool {
    if xs.rank() == 0 {
        end == s && result == Err::<(), _>(ErrorView::<R::Error>::ScanScalar)
    } else {
        match (f.primitive, xs) {
            (Some((prim, flipped)), ValueView::Num(a)) if prim.scanning() is Some => {
                let op = prim.scanning()->0;
                &&& result == Ok::<(), ErrorViewOf<R>>(())
                &&& exists|out: ArrayView<R::Num>| #[trigger]
                    scanned(num_steps(rt, op, flipped), a, out) && end == s.push(
                        ValueView::Num(out),
                    )
            },
            (Some((prim, flipped)), ValueView::Byte(a)) if prim.scanning() is Some => {
                let op = prim.scanning()->0;
                &&& result == Ok::<(), ErrorViewOf<R>>(())
                &&& if op.bytewise() {
                    exists|out: ArrayView<u8>| #[trigger]
                        scanned(byte_steps(op), a, out) && end == s.push(ValueView::Byte(out))
                } else {
                    exists|nums: ArrayView<R::Num>, out: ArrayView<R::Num>|
                        #![trigger scanned(num_steps(rt, op, flipped), nums, out)]
                        converted(rt, a, nums) && scanned(num_steps(rt, op, flipped), nums, out)
                            && end == s.push(ValueView::Num(out))
                }
            },
            _ => scans_generic(rt, f, xs, s, end, result),
        }
    }
}

/// Whether the numbers that scanning `xs` with `f` makes of bytes fit in one allocation.
pub open spec fn scan_fits<R: Runtime>(f: FunctionOf<R>, xs: ValueViewOf<R>) -> bool {
    match (f.primitive, xs) {
        (Some((prim, _)), ValueView::Byte(a)) => prim.scanning() matches Some(op) ==> !op.bytewise()
            ==> allocatable::<R::Num>(a.items.len()),
        _ => true,
    }
}

/// Scans an array of numbers with an operation of the runtime and puts the result on the stack.
fn scan_nums<R: Runtime>(
    op: Dyadic,
    flipped: bool,
    xs: Array<R::Num>,
    env: &mut Uiua<R>,
)
    requires
        xs@.rank() > 0,
    ensures
        final(env).same_setting(*old(env)),
        exists|out: ArrayView<R::Num>| #[trigger]
            scanned(num_steps(old(env).runtime(), op, flipped), xs@, out) && final(env)@
                == old(env)@.push(ValueView::Num(out)),
{
    let ghost a = xs@;
    let here: &Uiua<R> = env;
    let swap: bool = flipped && op.ordered();
    let ghost step = num_steps(here.runtime(), op, flipped);
    let f = |a: R::Num, b: R::Num| -> (c: R::Num)
        ensures
            step(a, b, c),
        {
            if swap {
                here.num_num(op, b, a)
            } else {
                here.num_num(op, a, b)
            }
        };
    let out = fast_scan(xs, f);
    proof {
        lemma_scanned_weaken(steps(f), step, a, out@);
    }
    env.push(Value::Num(out));
}

/// Scans an array of bytes with an operation that gives a byte.
fn scan_bytes(op: Dyadic, bytes: Array<u8>) -> (out: Array<u8>)
    requires
        op.bytewise(),
        bytes@.rank() > 0,
    ensures
        scanned(byte_steps(op), bytes@, out@),
{
    let ghost a = bytes@;
    let f = |a: u8, b: u8| -> (c: u8)
        ensures
            c == byte_of(op, a, b),
        { byte_byte(op, a, b) };
    let out = fast_scan(bytes, f);
    proof {
        lemma_scanned_weaken(steps(f), byte_steps(op), a, out@);
    }
    out
}

/// Tells whether the numbers that scanning with the function and the value on top of the stacks
/// makes of bytes fit in one allocation.
pub fn can_scan<R: Runtime>(env: &Uiua<R>) -> (r: bool)
    ensures
        r == (env@.functions.len() > 0 && env@.values.len() > 0 ==> scan_fits::<R>(
            *env@.functions.last(),
            env@.top(),
        )),
{
    let values = &env.stacks().values;
    let functions = &env.stacks().functions;
    if values.len() == 0 || functions.len() == 0 {
        return true;
    }
    let f = &functions[functions.len() - 1];
    match (f.as_flipped_primitive(), &values[values.len() - 1]) {
        (Some((prim, _)), Value::Byte(bytes)) => match prim.scanning() {
            Some(op) => op.bytewise() || can_allocate::<R::Num>(bytes.data().len()),
            None => true,
        },
        _ => true,
    }
}

/// Takes a function and a value off the stacks and scans the value with the function.
pub fn scan<R: Runtime>(env: &mut Uiua<R>) -> (r: Result<(), ErrorOf<R>>)
    requires
        old(env)@.functions.len() > 0 && old(env)@.values.len() > 0 ==> scan_fits::<
            R,
        >(*old(env)@.functions.last(), old(env)@.top()),
    ensures
        final(env).same_setting(*old(env)),
        old(env)@.functions.len() == 0 ==> {
            &&& outcome(r) == Err::<(), _>(ErrorView::<R::Error>::NoFunction)
            &&& final(env)@ == old(env)@
        },
        old(env)@.functions.len() > 0 && old(env)@.values.len() == 0 ==> {
            &&& outcome(r) == Err::<(), _>(
                ErrorView::<R::Error>::EmptyStack(Wanted::Argument(1)),
            )
            &&& final(env)@ == old(env)@.pop_function()
        },
        old(env)@.functions.len() > 0 && old(env)@.values.len() > 0 ==> scans_value(
            old(env).runtime(),
            *old(env)@.functions.last(),
            old(env)@.top(),
            old(env)@.pop_function().pop(),
            final(env)@,
            outcome(r),
        ),
{
    let f = match env.pop_function() {
        Ok(f) => f,
        Err(e) => return Err(e),
    };
    let xs = match env.pop(Wanted::Argument(1)) {
        Ok(xs) => xs,
        Err(e) => return Err(e),
    };
    if xs.rank() == 0 {
        return Err(UiuaError::ScanScalar);
    }
    match (f.as_flipped_primitive(), xs) {
        (Some((prim, flipped)), Value::Num(nums)) => match prim.scanning() {
            Some(op) => {
                scan_nums(op, flipped, nums, env);
                Ok(())
            },
            None => generic_scan(f, Value::Num(nums), env),
        },
        (Some((prim, flipped)), Value::Byte(bytes)) => {
            match prim.scanning() {
                Some(op) => {
                    if op.bytewise() {
                        env.push(Value::Byte(scan_bytes(op, bytes)));
                    } else {
                        let nums = convert(env, bytes);
                        scan_nums(op, flipped, nums, env);
                    }
                    Ok(())
                },
                None => generic_scan(f, Value::Byte(bytes), env),
            }
        },
        (_, xs) => generic_scan(f, xs, env),
    }
}

} // verus!
