//! What holds of reducing, scanning and folding by calling functions.
use crate::array::lemma_without_rows;
use crate::env::{
    may_reply, ErrorViewOf, FunctionOf, Runtime, StateView, Step, ValueViewOf,
};
use crate::error::ErrorView;
use crate::fold::{
    accs_of, arrays_of, between, count, deepest, descends, even, folded, folds, folds_by_ranks,
    folds_each, folds_onto, folds_rows, lemma_count, lemma_picked_len, lemma_shallower, nth_rows,
    picked, shallower, woven,
};
use crate::function::Signature;
use crate::reduce::{accumulated, accumulates, collects, folds_right, optional, reduces_value};
use crate::scan::{scanned_on, scans_generic, scans_rows, scans_value};
use crate::value::ValueView;
use vstd::prelude::*;

verus! {

/// The first call of a reduction: the stacks it left and what it gave.
pub proof fn first_accumulated<R: Runtime>(
    rt: R,
    f: FunctionOf<R>,
    rows: Seq<ValueViewOf<R>>,
    k: int,
    acc: ValueViewOf<R>,
    s: StateView<R>,
    end: StateView<R>,
    result: Result<ValueViewOf<R>, ErrorViewOf<R>>,
) -> (call: (StateView<R>, Result<bool, R::Error>))
    requires
        k < rows.len(),
        accumulates(rt, f, rows, k, acc, s, end, result),
    ensures
        may_reply(rt, f, s.push(rows[k]).push(acc), call.0, call.1),
        match accumulated::<R>(call.0, call.1) {
            Step::Stop(u, r) => end == u && result == r,
            Step::Go(u, next) => accumulates(rt, f, rows, k + 1, next, u, end, result),
        },
{
    choose|t: StateView<R>, reply: Result<bool, R::Error>|
        #![trigger may_reply(rt, f, s.push(rows[k]).push(acc), t, reply)]
        may_reply(rt, f, s.push(rows[k]).push(acc), t, reply) && match accumulated::<R>(t, reply) {
            Step::Stop(u, r) => end == u && result == r,
            Step::Go(u, next) => accumulates(rt, f, rows, k + 1, next, u, end, result),
        }
}

/// The first call of a scan: the stacks it left and what it gave.
pub proof fn first_scanned<R: Runtime>(
    rt: R,
    f: FunctionOf<R>,
    rows: Seq<ValueViewOf<R>>,
    k: int,
    done: Seq<ValueViewOf<R>>,
    s: StateView<R>,
    end: StateView<R>,
    result: Result<Seq<ValueViewOf<R>>, ErrorViewOf<R>>,
) -> (call: (StateView<R>, Result<bool, R::Error>))
    requires
        k < rows.len(),
        scans_rows(rt, f, rows, k, done, s, end, result),
    ensures
        may_reply(rt, f, s.push(rows[k]).push(done.last()), call.0, call.1),
        match scanned_on::<R>(rows, k, done, s.values.len(), call.0, call.1) {
            Step::Stop(u, r) => end == u && result == r,
            Step::Go(u, next) => scans_rows(rt, f, rows, k + 1, next, u, end, result),
        },
{
    choose|t: StateView<R>, reply: Result<bool, R::Error>|
        #![trigger may_reply(rt, f, s.push(rows[k]).push(done.last()), t, reply)]
        may_reply(rt, f, s.push(rows[k]).push(done.last()), t, reply) && match scanned_on::<R>(
            rows,
            k,
            done,
            s.values.len(),
            t,
            reply,
        ) {
            Step::Stop(u, r) => end == u && result == r,
            Step::Go(u, next) => scans_rows(rt, f, rows, k + 1, next, u, end, result),
        }
}

/// The stacks on which a fold calls its function.
pub open spec fn fold_called<R: Runtime>(
    ns: Seq<usize>,
    arrays: Seq<ValueViewOf<R>>,
    k: int,
    accs: Seq<ValueViewOf<R>>,
    s: StateView<R>,
) -> StateView<R> {
    s.push_all(woven(ns, accs, nth_rows::<R>(arrays, k)).reverse())
}

/// The first call of a fold: the stacks it left and what it gave.
pub proof fn first_folded<R: Runtime>(
    rt: R,
    f: FunctionOf<R>,
    ns: Seq<usize>,
    arrays: Seq<ValueViewOf<R>>,
    n: nat,
    k: int,
    accs: Seq<ValueViewOf<R>>,
    s: StateView<R>,
    end: StateView<R>,
    result: Result<Seq<ValueViewOf<R>>, ErrorViewOf<R>>,
) -> (call: (StateView<R>, Result<bool, R::Error>))
    requires
        k < n,
        folds_rows(rt, f, ns, arrays, n, k, accs, s, end, result),
    ensures
        may_reply(rt, f, fold_called::<R>(ns, arrays, k, accs, s), call.0, call.1),
        match folded::<R>(accs.len(), call.0, call.1) {
            Step::Stop(u, r) => end == u && result == r,
            Step::Go(u, next) => folds_rows(
                rt,
                f,
                ns,
                arrays,
                n,
                k + 1,
                next,
                u,
                end,
                result,
            ),
        },
{
    let called = fold_called::<R>(ns, arrays, k, accs, s);
    choose|t: StateView<R>, reply: Result<bool, R::Error>| #[trigger]
        may_reply(rt, f, called, t, reply) && match folded::<R>(accs.len(), t, reply) {
            Step::Stop(u, r) => end == u && result == r,
            Step::Go(u, next) => folds_rows(
                rt,
                f,
                ns,
                arrays,
                n,
                k + 1,
                next,
                u,
                end,
                result,
            ),
        }
}

/// A scan has as many rows as there are to scan, whether or not the function breaks, and starts
/// with the rows that were done before.
pub proof fn law_scan_keeps_row_count<R: Runtime>(
    rt: R,
    f: FunctionOf<R>,
    rows: Seq<ValueViewOf<R>>,
    k: int,
    done: Seq<ValueViewOf<R>>,
    s: StateView<R>,
    end: StateView<R>,
    list: Seq<ValueViewOf<R>>,
)
    requires
        0 <= k <= rows.len(),
        scans_rows(rt, f, rows, k, done, s, end, Ok(list)),
    ensures
        list.len() == done.len() + rows.len() - k,
        list.take(done.len() as int) == done,
    decreases rows.len() - k,
{
    if k < rows.len() {
        let (t, reply) = first_scanned(rt, f, rows, k, done, s, end, Ok(list));
        if reply == Ok::<bool, R::Error>(false) {
            let more = done.push(t.top());
            law_scan_keeps_row_count(rt, f, rows, k + 1, more, t.pop(), end, list);
            assert(list.take(done.len() as int) == list.take(more.len() as int).take(
                done.len() as int,
            ));
            assert(more.take(done.len() as int) == done);
        } else {
            assert(list.take(done.len() as int) == done);
        }
    }
}

/// Whatever a reduction gives, a scan that makes the same calls has as one of its rows, and after
/// that row come the rows that were not called on, as they are.
pub proof fn law_reduction_is_row_of_scan<R: Runtime>(
    rt: R,
    f: FunctionOf<R>,
    rows: Seq<ValueViewOf<R>>,
    k: int,
    done: Seq<ValueViewOf<R>>,
    s: StateView<R>,
    end: StateView<R>,
    acc: ValueViewOf<R>,
) -> (r: (StateView<R>, Seq<ValueViewOf<R>>, int))
    requires
        0 < k <= rows.len(),
        done.len() == k,
        accumulates(rt, f, rows, k, done.last(), s, end, Ok(acc)),
    ensures
        scans_rows(rt, f, rows, k, done, s, r.0, Ok(r.1)),
        k - 1 <= r.2 < r.1.len(),
        r.1[r.2] == acc,
        r.1.skip(r.2 + 1) == rows.skip(r.2 + 1),
    decreases rows.len() - k,
{
    if k == rows.len() {
        assert(done.skip(k) == rows.skip(k));
        (s, done, k - 1)
    } else {
        let (t, reply) = first_accumulated(rt, f, rows, k, done.last(), s, end, Ok(acc));
        let more = done.push(t.top());
        if reply == Ok::<bool, R::Error>(false) {
            let r = law_reduction_is_row_of_scan(rt, f, rows, k + 1, more, t.pop(), end, acc);
            assert(may_reply(rt, f, s.push(rows[k]).push(done.last()), t, reply));
            assert(scans_rows(rt, f, rows, k, done, s, r.0, Ok(r.1)));
            r
        } else {
            let list = more + rows.skip(k + 1);
            let u = t.pop().truncate(s.values.len());
            assert(may_reply(rt, f, s.push(rows[k]).push(done.last()), t, reply));
            assert(scans_rows(rt, f, rows, k, done, s, u, Ok(list)));
            assert(list.skip(k + 1) == rows.skip(k + 1));
            (u, list, k)
        }
    }
}

/// Reducing a value with one row by a function of two values gives that row, without a call.
pub proof fn law_one_row_reduces_without_call<R: Runtime>(
    rt: R,
    f: FunctionOf<R>,
    xs: ValueViewOf<R>,
    s: StateView<R>,
    end: StateView<R>,
    result: Result<(), ErrorViewOf<R>>,
)
    requires
        f.signature.args == 2,
        f.signature.outputs <= 1,
        xs.row_count() == 1,
    ensures
        folds_right(rt, f, xs, None, s, end, result) <==> end == s.push(xs.row(0)) && result
            == Ok::<(), ErrorViewOf<R>>(()),
{
    let rows = optional(None::<ValueViewOf<R>>) + xs.rows();
    assert(rows.len() == 1 && rows[0] == xs.row(0));
    assert(accumulates(rt, f, rows, 1, rows[0], s, s, Ok(rows[0])));
}

/// Whether a function, however it ends, leaves what lies below its arguments as it was and puts as
/// many values there as its signature says.
pub open spec fn minds_signature<R: Runtime>(rt: R, f: FunctionOf<R>) -> bool {
    forall|base: StateView<R>, args: Seq<ValueViewOf<R>>, t: StateView<R>, broke: bool|
        args.len() == f.signature.args && #[trigger] may_reply(
            rt,
            f,
            base.push_all(args),
            t,
            Ok(broke),
        ) ==> exists|outputs: Seq<ValueViewOf<R>>|
            outputs.len() == f.signature.outputs && t.stacks() == #[trigger] base.push_all(
                outputs,
            ).stacks()
}

/// Whether a failure is one of the runtime.
pub open spec fn of_runtime<T, E>(result: Result<T, ErrorView<E>>) -> bool {
    result is Err && result->Err_0 is Runtime
}

/// Reducing by a function of two values that minds its signature leaves the stacks as they were,
/// and fails only if the function does.
pub proof fn law_reduction_minds_stack<R: Runtime>(
    rt: R,
    f: FunctionOf<R>,
    rows: Seq<ValueViewOf<R>>,
    k: int,
    acc: ValueViewOf<R>,
    s: StateView<R>,
    end: StateView<R>,
    result: Result<ValueViewOf<R>, ErrorViewOf<R>>,
)
    requires
        f.signature == (Signature { args: 2, outputs: 1 }),
        minds_signature(rt, f),
        accumulates(rt, f, rows, k, acc, s, end, result),
    ensures
        result is Ok ==> end.stacks() == s.stacks(),
        result is Err ==> of_runtime(result),
    decreases rows.len() - k,
{
    if k < rows.len() {
        let (t, reply) = first_accumulated(rt, f, rows, k, acc, s, end, result);
        if let Ok(broke) = reply {
            let args = seq![rows[k], acc];
            assert(s.push(rows[k]).push(acc) == s.push_all(args));
            assert(may_reply(rt, f, s.push_all(args), t, Ok(broke)));
            let outputs = choose|outputs: Seq<ValueViewOf<R>>|
                outputs.len() == f.signature.outputs && t.stacks() == #[trigger] s.push_all(
                    outputs,
                ).stacks();
            assert(t.pop().stacks() == s.stacks());
            if !broke {
                law_reduction_minds_stack(rt, f, rows, k + 1, t.top(), t.pop(), end, result);
            }
        }
    }
}

/// Scanning by a function that minds its signature leaves the stacks as they were, and fails only
/// if the function does.
pub proof fn law_scan_minds_stack<R: Runtime>(
    rt: R,
    f: FunctionOf<R>,
    rows: Seq<ValueViewOf<R>>,
    k: int,
    done: Seq<ValueViewOf<R>>,
    s: StateView<R>,
    end: StateView<R>,
    result: Result<Seq<ValueViewOf<R>>, ErrorViewOf<R>>,
)
    requires
        f.signature == (Signature { args: 2, outputs: 1 }),
        minds_signature(rt, f),
        scans_rows(rt, f, rows, k, done, s, end, result),
    ensures
        result is Ok ==> end.stacks() == s.stacks(),
        result is Err ==> of_runtime(result),
    decreases rows.len() - k,
{
    if k < rows.len() {
        let (t, reply) = first_scanned(rt, f, rows, k, done, s, end, result);
        if let Ok(broke) = reply {
            let args = seq![rows[k], done.last()];
            assert(s.push(rows[k]).push(done.last()) == s.push_all(args));
            assert(may_reply(rt, f, s.push_all(args), t, Ok(broke)));
            let outputs = choose|outputs: Seq<ValueViewOf<R>>|
                outputs.len() == f.signature.outputs && t.stacks() == #[trigger] s.push_all(
                    outputs,
                ).stacks();
            assert(t.pop().stacks() == s.stacks());
            assert(t.pop().truncate(s.values.len()).stacks() == s.stacks());
            if !broke {
                law_scan_minds_stack(
                    rt,
                    f,
                    rows,
                    k + 1,
                    done.push(t.top()),
                    t.pop(),
                    end,
                    result,
                );
            }
        }
    }
}

/// Reducing by a function of two values that minds its signature and leaves one puts one value on
/// the stack in the place of what was reduced. It fails only if the function does or there are no
/// rows.
pub proof fn law_reduce_leaves_one_value<R: Runtime>(
    rt: R,
    pack_boxes: bool,
    f: FunctionOf<R>,
    xs: ValueViewOf<R>,
    s: StateView<R>,
    end: StateView<R>,
    result: Result<(), ErrorViewOf<R>>,
)
    requires
        f.signature == (Signature { args: 2, outputs: 1 }),
        minds_signature(rt, f),
        reduces_value(rt, pack_boxes, f, xs, s, end, result),
    ensures
        result is Ok ==> exists|value: ValueViewOf<R>|
            end.stacks() == #[trigger] s.push(value).stacks(),
        result is Err ==> of_runtime(result) || result->Err_0 is ReduceEmpty && xs.row_count() == 0,
{
    if folds_right(rt, f, xs, None, s, end, result) {
        let rows = optional(None::<ValueViewOf<R>>) + xs.rows();
        if rows.len() > 0 {
            let (t, last) = choose|
                t: StateView<R>,
                last: Result<ValueViewOf<R>, ErrorViewOf<R>>,
            |
                #![trigger accumulates(rt, f, rows, 1, rows[0], s, t, last)]
                accumulates(rt, f, rows, 1, rows[0], s, t, last) && match last {
                    Ok(acc) => end == t.push(acc) && result == Ok::<(), ErrorViewOf<R>>(()),
                    Err(e) => end == t && result == Err::<(), _>(e),
                };
            law_reduction_minds_stack(rt, f, rows, 1, rows[0], s, t, last);
        }
    }
    if result is Ok {
        assert(end.stacks() == s.push(end.top()).stacks());
    }
}

/// Scanning by a function of two values that minds its signature and leaves one puts one value on
/// the stack in the place of what was scanned. It fails only if the function does, if its results
/// cannot be put together, or on a value without dimensions.
pub proof fn law_scan_leaves_one_value<R: Runtime>(
    rt: R,
    f: FunctionOf<R>,
    xs: ValueViewOf<R>,
    s: StateView<R>,
    end: StateView<R>,
    result: Result<(), ErrorViewOf<R>>,
)
    requires
        f.signature == (Signature { args: 2, outputs: 1 }),
        minds_signature(rt, f),
        scans_value(rt, f, xs, s, end, result),
    ensures
        result is Ok ==> exists|value: ValueViewOf<R>|
            end.stacks() == #[trigger] s.push(value).stacks(),
        result is Err ==> of_runtime(result) || result->Err_0 is ScanScalar && xs.rank() == 0,
{
    if xs.rank() > 0 && xs.row_count() > 0 && scans_generic(rt, f, xs, s, end, result) {
        let (t, list) = choose|
            t: StateView<R>,
            list: Result<Seq<ValueViewOf<R>>, ErrorViewOf<R>>,
        |
            #![trigger scans_rows(rt, f, xs.rows(), 1, seq![xs.row(0)], s, t, list)]
            scans_rows(rt, f, xs.rows(), 1, seq![xs.row(0)], s, t, list) && match list {
                Ok(rows) => collects(rt, rows, t, end, result),
                Err(e) => end == t && result == Err::<(), _>(e),
            };
        law_scan_minds_stack(rt, f, xs.rows(), 1, seq![xs.row(0)], s, t, list);
    }
    if result is Ok {
        assert(end.stacks() == s.push(end.top()).stacks());
    }
}

/// Folding over rows with a function that minds its signature leaves the stacks as they were,
/// gives as many values as there are accumulators, and fails only if the function does.
pub proof fn law_fold_rows_minds_stack<R: Runtime>(
    rt: R,
    f: FunctionOf<R>,
    ns: Seq<usize>,
    arrays: Seq<ValueViewOf<R>>,
    n: nat,
    k: int,
    accs: Seq<ValueViewOf<R>>,
    s: StateView<R>,
    end: StateView<R>,
    result: Result<Seq<ValueViewOf<R>>, ErrorViewOf<R>>,
)
    requires
        f.signature.args == ns.len(),
        f.signature.outputs == accs.len(),
        minds_signature(rt, f),
        folds_rows(rt, f, ns, arrays, n, k, accs, s, end, result),
    ensures
        result matches Ok(out) ==> end.stacks() == s.stacks() && out.len() == accs.len(),
        result is Err ==> of_runtime(result),
    decreases n - k,
{
    if k < n {
        let (t, reply) = first_folded(rt, f, ns, arrays, n, k, accs, s, end, result);
        if let Ok(broke) = reply {
            let args = woven(ns, accs, nth_rows::<R>(arrays, k)).reverse();
            assert(may_reply(rt, f, s.push_all(args), t, Ok(broke)));
            let outputs = choose|outputs: Seq<ValueViewOf<R>>|
                outputs.len() == f.signature.outputs && t.stacks() == #[trigger] s.push_all(
                    outputs,
                ).stacks();
            let u = t.truncate((t.values.len() - accs.len()) as nat);
            assert(u.stacks() == s.stacks());
            if !broke {
                law_fold_rows_minds_stack(
                    rt,
                    f,
                    ns,
                    arrays,
                    n,
                    k + 1,
                    t.topmost(accs.len()),
                    u,
                    end,
                    result,
                );
            }
        }
    }
}

/// The first inner fold of a fold: the stacks it left and what it gave.
pub proof fn first_inner<R: Runtime>(
    rt: R,
    f: FunctionOf<R>,
    ns: Seq<usize>,
    arrays: Seq<ValueViewOf<R>>,
    n: nat,
    k: int,
    carried: Seq<ValueViewOf<R>>,
    s: StateView<R>,
    end: StateView<R>,
    result: Result<Seq<ValueViewOf<R>>, ErrorViewOf<R>>,
) -> (inner: (StateView<R>, Result<Seq<ValueViewOf<R>>, ErrorViewOf<R>>))
    requires
        k < n,
        folds_each(rt, f, ns, arrays, n, k, carried, s, end, result),
    ensures
        deepest(ns) > 0,
        folds(
            rt,
            f,
            shallower(ns),
            woven(ns, carried, nth_rows::<R>(arrays, k)) + carried.skip(
                count(ns, true, ns.len() as int) as int,
            ),
            s,
            inner.0,
            inner.1,
        ),
        match inner.1 {
            Err(e) => end == inner.0 && result == Err::<Seq<ValueViewOf<R>>, _>(e),
            Ok(next) => folds_each(rt, f, ns, arrays, n, k + 1, next, inner.0, end, result),
        },
{
    let args = woven(ns, carried, nth_rows::<R>(arrays, k)) + carried.skip(
        count(ns, true, ns.len() as int) as int,
    );
    choose|t: StateView<R>, r: Result<Seq<ValueViewOf<R>>, ErrorViewOf<R>>| #[trigger]
        between(t, r) && folds(rt, f, shallower(ns), args, s, t, r) && match r {
            Err(e) => end == t && result == Err::<Seq<ValueViewOf<R>>, _>(e),
            Ok(next) => folds_each(rt, f, ns, arrays, n, k + 1, next, t, end, result),
        }
}

/// Folding with a function that minds its signature leaves the stacks as they were. It never finds
/// the stack empty.
pub proof fn law_fold_minds_stack<R: Runtime>(
    rt: R,
    f: FunctionOf<R>,
    ns: Seq<usize>,
    args: Seq<ValueViewOf<R>>,
    s: StateView<R>,
    end: StateView<R>,
    result: Result<Seq<ValueViewOf<R>>, ErrorViewOf<R>>,
)
    requires
        minds_signature(rt, f),
        ns.len() <= usize::MAX,
        folds(rt, f, ns, args, s, end, result),
    ensures
        result is Ok ==> end.stacks() == s.stacks(),
        result matches Err(e) ==> !(e is EmptyStack),
    decreases deepest(ns), 1int, 0int,
{
    let accs = accs_of(ns, args);
    let arrays = arrays_of(ns, args);
    if deepest(ns) > 0 && even::<R>(arrays) {
        if deepest(ns) > 1 {
            lemma_each_minds_stack(
                rt,
                f,
                ns,
                arrays,
                arrays[0].row_count(),
                0,
                accs + args.skip(ns.len() as int),
                s,
                end,
                result,
            );
        } else {
            lemma_picked_len(ns, args, true, ns.len() as int);
            lemma_count(ns, ns.len() as int);
            if f.signature == (Signature {
                args: ns.len() as usize,
                outputs: accs.len() as usize,
            }) {
                law_fold_rows_minds_stack(
                    rt,
                    f,
                    ns,
                    arrays,
                    arrays[0].row_count(),
                    0,
                    accs,
                    s,
                    end,
                    result,
                );
            }
        }
    }
}

proof fn lemma_each_minds_stack<R: Runtime>(
    rt: R,
    f: FunctionOf<R>,
    ns: Seq<usize>,
    arrays: Seq<ValueViewOf<R>>,
    n: nat,
    k: int,
    carried: Seq<ValueViewOf<R>>,
    s: StateView<R>,
    end: StateView<R>,
    result: Result<Seq<ValueViewOf<R>>, ErrorViewOf<R>>,
)
    requires
        minds_signature(rt, f),
        ns.len() <= usize::MAX,
        folds_each(rt, f, ns, arrays, n, k, carried, s, end, result),
    ensures
        result is Ok ==> end.stacks() == s.stacks(),
        result matches Err(e) ==> !(e is EmptyStack),
    decreases deepest(ns), 0int, n - k,
{
    if k < n {
        let (t, r) = first_inner(rt, f, ns, arrays, n, k, carried, s, end, result);
        let args = woven(ns, carried, nth_rows::<R>(arrays, k)) + carried.skip(
            count(ns, true, ns.len() as int) as int,
        );
        lemma_shallower(ns);
        law_fold_minds_stack(rt, f, shallower(ns), args, s, t, r);
        if let Ok(next) = r {
            lemma_each_minds_stack(rt, f, ns, arrays, n, k + 1, next, t, end, result);
        }
    }
}

/// Reducing depends only on the rows that are left.
proof fn lemma_accumulates_suffix<R: Runtime>(
    rt: R,
    f: FunctionOf<R>,
    more: Seq<ValueViewOf<R>>,
    rows: Seq<ValueViewOf<R>>,
    k: int,
    acc: ValueViewOf<R>,
    s: StateView<R>,
    end: StateView<R>,
    result: Result<ValueViewOf<R>, ErrorViewOf<R>>,
)
    requires
        0 <= k,
        more.len() == rows.len() + 1,
        more.skip(1) == rows,
    ensures
        accumulates(rt, f, more, k + 1, acc, s, end, result) <==> accumulates(
            rt,
            f,
            rows,
            k,
            acc,
            s,
            end,
            result,
        ),
    decreases rows.len() - k,
{
    if k < rows.len() {
        assert(more[k + 1] == rows[k]);
        if accumulates(rt, f, more, k + 1, acc, s, end, result) {
            let (t, reply) = first_accumulated(rt, f, more, k + 1, acc, s, end, result);
            assert(may_reply(rt, f, s.push(rows[k]).push(acc), t, reply));
            if let Step::Go(u, next) = accumulated::<R>(t, reply) {
                lemma_accumulates_suffix(rt, f, more, rows, k + 1, next, u, end, result);
            }
            assert(accumulates(rt, f, rows, k, acc, s, end, result));
        }
        if accumulates(rt, f, rows, k, acc, s, end, result) {
            let (t, reply) = first_accumulated(rt, f, rows, k, acc, s, end, result);
            assert(may_reply(rt, f, s.push(more[k + 1]).push(acc), t, reply));
            if let Step::Go(u, next) = accumulated::<R>(t, reply) {
                lemma_accumulates_suffix(rt, f, more, rows, k + 1, next, u, end, result);
            }
            assert(accumulates(rt, f, more, k + 1, acc, s, end, result));
        }
    }
}

/// Folding one accumulator along the rows of one array goes like reducing them.
proof fn lemma_fold_like_reduction<R: Runtime>(
    rt: R,
    f: FunctionOf<R>,
    xs: ValueViewOf<R>,
    k: int,
    acc: ValueViewOf<R>,
    s: StateView<R>,
    end: StateView<R>,
    value: ValueViewOf<R>,
)
    requires
        0 <= k,
    ensures
        folds_rows(
            rt,
            f,
            seq![0usize, 1usize],
            seq![xs],
            xs.row_count(),
            k,
            seq![acc],
            s,
            end,
            Ok(seq![value]),
        ) <==> accumulates(rt, f, xs.rows(), k, acc, s, end, Ok(value)),
    decreases xs.row_count() - k,
{
    let ns = seq![0usize, 1usize];
    let rows = xs.rows();
    let n = xs.row_count();
    let ok = Ok::<Seq<ValueViewOf<R>>, ErrorViewOf<R>>(seq![value]);
    assert(seq![acc][0] == acc && seq![value][0] == value);
    if k < n {
        let called = fold_called::<R>(ns, seq![xs], k, seq![acc], s);
        let args = woven(ns, seq![acc], nth_rows::<R>(seq![xs], k));
        reveal_with_fuel(count, 3);
        assert(args == seq![acc, rows[k]]);
        assert(args.reverse() == seq![rows[k], acc]);
        assert(called == s.push(rows[k]).push(acc));
        assert forall|t: StateView<R>| t.values.len() > 0 implies #[trigger] t.topmost(1)
            == seq![t.top()] by {}
        assert forall|t: StateView<R>| t.values.len() > 0 implies #[trigger] t.truncate(
            (t.values.len() - 1) as nat,
        ) == t.pop() by {}
        if folds_rows(rt, f, ns, seq![xs], n, k, seq![acc], s, end, ok) {
            let (t, reply) = first_folded(rt, f, ns, seq![xs], n, k, seq![acc], s, end, ok);
            assert(may_reply(rt, f, s.push(rows[k]).push(acc), t, reply));
            if reply == Ok::<bool, R::Error>(false) {
                lemma_fold_like_reduction(rt, f, xs, k + 1, t.top(), t.pop(), end, value);
            }
            assert(accumulates(rt, f, rows, k, acc, s, end, Ok(value)));
        }
        if accumulates(rt, f, rows, k, acc, s, end, Ok(value)) {
            let (t, reply) = first_accumulated(rt, f, rows, k, acc, s, end, Ok(value));
            assert(may_reply(rt, f, called, t, reply));
            if reply == Ok::<bool, R::Error>(false) {
                lemma_fold_like_reduction(rt, f, xs, k + 1, t.top(), t.pop(), end, value);
            }
            assert(folds_rows(rt, f, ns, seq![xs], n, k, seq![acc], s, end, ok));
        }
    }
}

/// Folding one accumulator along the rows of one array, by a function of two values that leaves
/// one, gives what reducing the rows gives with the accumulator as the initial value.
pub proof fn law_fold_is_reduction_from<R: Runtime>(
    rt: R,
    f: FunctionOf<R>,
    acc: ValueViewOf<R>,
    xs: ValueViewOf<R>,
    s: StateView<R>,
    end: StateView<R>,
)
    requires
        f.signature == (Signature { args: 2, outputs: 1 }),
    ensures
        folds_right(rt, f, xs, Some(acc), s, end, Ok(())) <==> folds_onto(
            rt,
            f,
            seq![0usize, 1usize],
            seq![acc, xs],
            s,
            end,
            Ok(()),
        ),
{
    let ns = seq![0usize, 1usize];
    let args = seq![acc, xs];
    let rows = xs.rows();
    let more = optional(Some(acc)) + rows;
    reveal_with_fuel(picked, 3);
    reveal_with_fuel(deepest, 3);
    assert(more.skip(1) == rows);
    assert(accs_of(ns, args) == seq![acc]);
    assert(arrays_of(ns, args) == seq![xs]);
    assert(even::<R>(seq![xs]));
    assert(ns.drop_last().drop_last().len() == 0);
    assert(deepest(ns) == 1);
    if folds_right(rt, f, xs, Some(acc), s, end, Ok(())) {
        let (t, last) = choose|t: StateView<R>, last: Result<ValueViewOf<R>, ErrorViewOf<R>>|
            #![trigger accumulates(rt, f, more, 1, more[0], s, t, last)]
            accumulates(rt, f, more, 1, more[0], s, t, last) && match last {
                Ok(v) => end == t.push(v),
                Err(e) => false,
            };
        let v = last->Ok_0;
        lemma_accumulates_suffix(rt, f, more, rows, 0, acc, s, t, last);
        lemma_fold_like_reduction(rt, f, xs, 0, acc, s, t, v);
        assert(folds(rt, f, ns, args, s, t, Ok(seq![v])));
        assert(seq![v].reverse() == seq![v]);
        assert(t.push_all(seq![v]) == t.push(v));
    }
    if folds_onto(rt, f, ns, args, s, end, Ok(())) {
        let (t, r) = choose|t: StateView<R>, r: Result<Seq<ValueViewOf<R>>, ErrorViewOf<R>>|
            #[trigger]
            folds(rt, f, ns, args, s, t, r) && match r {
                Ok(values) => end == t.push_all(values.reverse()),
                Err(e) => false,
            };
        let values = r->Ok_0;
        lemma_fold_rows_len(rt, f, ns, seq![xs], xs.row_count(), 0, seq![acc], s, t, values);
        let v = values[0];
        assert(values == seq![v]);
        lemma_fold_like_reduction(rt, f, xs, 0, acc, s, t, v);
        lemma_accumulates_suffix(rt, f, more, rows, 0, acc, s, t, Ok(v));
        assert(accumulates(rt, f, more, 1, more[0], s, t, Ok(v)));
        assert(values.reverse() == seq![v]);
        assert(t.push_all(seq![v]) == t.push(v));
    }
}

/// Folding over rows gives as many values as there are accumulators.
proof fn lemma_fold_rows_len<R: Runtime>(
    rt: R,
    f: FunctionOf<R>,
    ns: Seq<usize>,
    arrays: Seq<ValueViewOf<R>>,
    n: nat,
    k: int,
    accs: Seq<ValueViewOf<R>>,
    s: StateView<R>,
    end: StateView<R>,
    values: Seq<ValueViewOf<R>>,
)
    requires
        folds_rows(rt, f, ns, arrays, n, k, accs, s, end, Ok(values)),
    ensures
        values.len() == accs.len(),
    decreases n - k,
{
    if k < n {
        let (t, reply) = first_folded(rt, f, ns, arrays, n, k, accs, s, end, Ok(values));
        if let Step::Go(u, next) = folded::<R>(accs.len(), t, reply) {
            lemma_fold_rows_len(rt, f, ns, arrays, n, k + 1, next, u, end, values);
        }
    }
}

/// Folding values that are all accumulators gives them back: the stacks change by nothing but the
/// function that is taken off.
pub proof fn law_fold_of_accumulators<R: Runtime>(
    rt: R,
    ranks: Seq<R::Rank>,
    s: StateView<R>,
    end: StateView<R>,
    result: Result<(), ErrorViewOf<R>>,
)
    requires
        s.functions.len() > 0,
        s.values.len() >= ranks.len(),
        forall|depths: Seq<usize>|
            descends(rt, ranks, s.topmost(ranks.len()), depths) ==> deepest(depths) == 0,
        folds_by_ranks(rt, ranks, s, end, result),
    ensures
        end == s.pop_function(),
        result == Ok::<(), ErrorViewOf<R>>(()),
{
    let below = s.pop_function();
    let args = below.topmost(ranks.len());
    let rest = below.truncate((below.values.len() - ranks.len()) as nat);
    assert(args == s.topmost(ranks.len()));
    assert(rest.push_all(args.reverse()) == below);
}

/// Folding over arrays without rows gives the accumulators as they are, without a call.
pub proof fn law_fold_over_no_rows<R: Runtime>(
    rt: R,
    f: FunctionOf<R>,
    ns: Seq<usize>,
    args: Seq<ValueViewOf<R>>,
    s: StateView<R>,
    end: StateView<R>,
    result: Result<Seq<ValueViewOf<R>>, ErrorViewOf<R>>,
)
    requires
        args.len() == ns.len(),
        deepest(ns) > 0,
        even::<R>(arrays_of(ns, args)),
        arrays_of(ns, args)[0].row_count() == 0,
        f.signature == (Signature {
            args: ns.len() as usize,
            outputs: accs_of(ns, args).len() as usize,
        }),
    ensures
        folds(rt, f, ns, args, s, end, result) <==> end == s && result == Ok::<_, ErrorViewOf<R>>(
            accs_of(ns, args),
        ),
{
    assert(accs_of(ns, args) + args.skip(ns.len() as int) == accs_of(ns, args));
}

/// Scanning a value without rows by calling a function gives the value back.
pub proof fn law_scan_of_no_rows<R: Runtime>(
    rt: R,
    f: FunctionOf<R>,
    xs: ValueViewOf<R>,
    s: StateView<R>,
    end: StateView<R>,
    result: Result<(), ErrorViewOf<R>>,
)
    requires
        f.signature == (Signature { args: 2, outputs: 1 }),
        xs.wf(),
        xs.row_count() == 0,
    ensures
        scans_generic(rt, f, xs, s, end, result) <==> end == s.push(xs) && result == Ok::<
            (),
            ErrorViewOf<R>,
        >(()),
{
    match xs {
        ValueView::Num(a) => lemma_without_rows(a),
        ValueView::Byte(a) => lemma_without_rows(a),
        ValueView::Complex(a) => lemma_without_rows(a),
        ValueView::Char(a) => lemma_without_rows(a),
        ValueView::Boxed(a) => lemma_without_rows(a),
    }
}

} // verus!
