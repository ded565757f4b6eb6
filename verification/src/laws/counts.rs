//! Which calls reducing, scanning and folding make, and how many.
use crate::env::{may_reply, Call, ErrorViewOf, FunctionOf, Runtime, StateView, Step, ValueViewOf};
use crate::error::ErrorView;
use crate::fold::{
    accs_of, arrays_of, count, deepest, even, folded, folds, folds_each, folds_rows,
    lemma_shallower, nth_rows, shallower, woven,
};
use crate::laws::calls::{first_accumulated, first_folded, first_inner, first_scanned};
use crate::reduce::{accumulated, accumulates, breaks_off, feeds};
use crate::scan::{scanned_on, scans_rows};
use vstd::prelude::*;

verus! {

/// Whether a call executes `f`.
pub open spec fn executes<R: Runtime>(call: Call<R>, f: FunctionOf<R>) -> bool {
    call is Execution && call->function == f
}

/// Whether a call executes a function that neither fails nor breaks.
pub open spec fn goes_on<R: Runtime>(call: Call<R>) -> bool {
    call is Execution && call->reply == Ok::<bool, R::Error>(false)
}

/// Whether all that was called between the states `s` and `end` is `f`.
pub open spec fn only_executed<R: Runtime>(
    f: FunctionOf<R>,
    s: StateView<R>,
    end: StateView<R>,
) -> bool {
    &&& s.calls.is_prefix_of(end.calls)
    &&& forall|i: int|
        s.calls.len() <= i < end.calls.len() ==> executes(#[trigger] end.calls[i], f)
}

/// How many calls there were between the states `s` and `end`.
pub open spec fn calls_made<R: Runtime>(s: StateView<R>, end: StateView<R>) -> int {
    end.calls.len() - s.calls.len()
}

/// Whether no call between the states `s` and `end` failed or broke.
pub open spec fn all_went_on<R: Runtime>(s: StateView<R>, end: StateView<R>) -> bool {
    forall|i: int| s.calls.len() <= i < end.calls.len() ==> goes_on(#[trigger] end.calls[i])
}

/// Executing `f` once and then only `f` is executing only `f`.
proof fn lemma_one_more<R: Runtime>(
    f: FunctionOf<R>,
    s: StateView<R>,
    t: StateView<R>,
    end: StateView<R>,
)
    requires
        t.calls.len() == s.calls.len() + 1,
        t.calls.drop_last() == s.calls,
        executes(t.calls.last(), f),
        only_executed(f, t, end),
    ensures
        only_executed(f, s, end),
        calls_made(s, end) == calls_made(t, end) + 1,
        all_went_on(s, end) ==> goes_on(t.calls.last()) && all_went_on(t, end),
{
    let n = s.calls.len() as int;
    assert(end.calls[n] == t.calls[n]);
    assert(s.calls.is_prefix_of(end.calls)) by {
        assert forall|i: int| 0 <= i < n implies s.calls[i] == end.calls[i] by {
            assert(t.calls.drop_last()[i] == t.calls[i]);
        }
        assert(end.calls.subrange(0, n) == s.calls);
    }
}

/// Reducing calls nothing but the function, at most once for each row that is left, and exactly
/// once for each if no call fails or breaks.
pub proof fn law_reduction_calls_once_per_row<R: Runtime>(
    rt: R,
    f: FunctionOf<R>,
    rows: Seq<ValueViewOf<R>>,
    k: int,
    acc: ValueViewOf<R>,
    s: StateView<R>,
    end: StateView<R>,
    result: Result<ValueViewOf<R>, ErrorViewOf<R>>,
)
    requires
        0 <= k <= rows.len(),
        accumulates(rt, f, rows, k, acc, s, end, result),
    ensures
        only_executed(f, s, end),
        calls_made(s, end) <= rows.len() - k,
        result is Ok && all_went_on(s, end) ==> calls_made(s, end) == rows.len() - k,
    decreases rows.len() - k,
{
    if k < rows.len() {
        let (t, reply) = first_accumulated(rt, f, rows, k, acc, s, end, result);
        assert(t.calls.drop_last() == s.calls);
        if let Step::Go(u, next) = accumulated::<R>(t, reply) {
            law_reduction_calls_once_per_row(rt, f, rows, k + 1, next, u, end, result);
            lemma_one_more(f, s, u, end);
        } else {
            lemma_one_more(f, s, end, end);
        }
    }
}

/// Scanning calls nothing but the function, at most once for each row that is left, and exactly
/// once for each if no call fails or breaks.
pub proof fn law_scan_calls_once_per_row<R: Runtime>(
    rt: R,
    f: FunctionOf<R>,
    rows: Seq<ValueViewOf<R>>,
    k: int,
    done: Seq<ValueViewOf<R>>,
    s: StateView<R>,
    end: StateView<R>,
    result: Result<Seq<ValueViewOf<R>>, ErrorViewOf<R>>,
)
    requires
        0 <= k <= rows.len(),
        scans_rows(rt, f, rows, k, done, s, end, result),
    ensures
        only_executed(f, s, end),
        calls_made(s, end) <= rows.len() - k,
        result is Ok && all_went_on(s, end) ==> calls_made(s, end) == rows.len() - k,
    decreases rows.len() - k,
{
    if k < rows.len() {
        let (t, reply) = first_scanned(rt, f, rows, k, done, s, end, result);
        assert(t.calls.drop_last() == s.calls);
        if let Step::Go(u, next) = scanned_on::<R>(rows, k, done, s.values.len(), t, reply) {
            law_scan_calls_once_per_row(rt, f, rows, k + 1, next, u, end, result);
            lemma_one_more(f, s, u, end);
        } else {
            lemma_one_more(f, s, end, end);
        }
    }
}

/// Folding over rows calls nothing but the function, at most once for each position that is left,
/// and exactly once for each if no call fails or breaks.
pub proof fn law_fold_rows_calls_once_per_row<R: Runtime>(
    rt: R,
    f: FunctionOf<R>,
    ns: Seq<usize>,
    arrays: Seq<ValueViewOf<R>>,
    n: nat,
    k: int,
    accs: Seq<ValueViewOf<R>>,
    s: StateView<R>,
    end: StateView<R>,
    result: Result<Seq<ValueViewOf<R>>, ErrorViewOf<R>>,
)
    requires
        0 <= k <= n,
        folds_rows(rt, f, ns, arrays, n, k, accs, s, end, result),
    ensures
        only_executed(f, s, end),
        calls_made(s, end) <= n - k,
        result is Ok && all_went_on(s, end) ==> calls_made(s, end) == n - k,
    decreases n - k,
{
    if k < n {
        let (t, reply) = first_folded(rt, f, ns, arrays, n, k, accs, s, end, result);
        assert(t.calls.drop_last() == s.calls);
        if let Step::Go(u, next) = folded::<R>(accs.len(), t, reply) {
            law_fold_rows_calls_once_per_row(
                rt,
                f,
                ns,
                arrays,
                n,
                k + 1,
                next,
                u,
                end,
                result,
            );
            lemma_one_more(f, s, u, end);
        } else {
            lemma_one_more(f, s, end, end);
        }
    }
}

/// Folding calls nothing but the function.
pub proof fn law_fold_calls_only_the_function<R: Runtime>(
    rt: R,
    f: FunctionOf<R>,
    ns: Seq<usize>,
    args: Seq<ValueViewOf<R>>,
    s: StateView<R>,
    end: StateView<R>,
    result: Result<Seq<ValueViewOf<R>>, ErrorViewOf<R>>,
)
    requires
        folds(rt, f, ns, args, s, end, result),
    ensures
        only_executed(f, s, end),
    decreases deepest(ns), 1int, 0int,
{
    let accs = accs_of(ns, args);
    let arrays = arrays_of(ns, args);
    if deepest(ns) > 0 && even::<R>(arrays) {
        let n = arrays[0].row_count();
        if deepest(ns) > 1 {
            let carried = accs + args.skip(ns.len() as int);
            lemma_each_calls_only(rt, f, ns, arrays, n, 0, carried, s, end, result);
        } else if folds_rows(rt, f, ns, arrays, n, 0, accs, s, end, result) {
            law_fold_rows_calls_once_per_row(rt, f, ns, arrays, n, 0, accs, s, end, result);
        }
    }
}

proof fn lemma_each_calls_only<R: Runtime>(
    rt: R,
    f: FunctionOf<R>,
    ns: Seq<usize>,
    arrays: Seq<ValueViewOf<R>>,
    n: nat,
    k: int,
    carried: Seq<ValueViewOf<R>>,
    s: StateView<R>,
    end: StateView<R>,
    result: Result<Seq<ValueViewOf<R>>, ErrorViewOf<R>>,
)
    requires
        folds_each(rt, f, ns, arrays, n, k, carried, s, end, result),
    ensures
        only_executed(f, s, end),
    decreases deepest(ns), 0int, n - k,
{
    if k < n {
        let (t, r) = first_inner(rt, f, ns, arrays, n, k, carried, s, end, result);
        let args = woven(ns, carried, nth_rows::<R>(arrays, k)) + carried.skip(
            count(ns, true, ns.len() as int) as int,
        );
        lemma_shallower(ns);
        law_fold_calls_only_the_function(rt, f, shallower(ns), args, s, t, r);
        if let Ok(next) = r {
            lemma_each_calls_only(rt, f, ns, arrays, n, k + 1, next, t, end, result);
            assert forall|i: int| s.calls.len() <= i < end.calls.len() implies executes(
                #[trigger] end.calls[i],
                f,
            ) by {
                if i < t.calls.len() {
                    assert(end.calls[i] == t.calls[i]);
                }
            }
        }
    }
}

/// Reducing with a function of at most one value calls nothing but the function, at most once for
/// each row that is left, and exactly once for each if no call fails or breaks. Only after a break
/// rows may be put together once.
pub proof fn law_feeding_calls_once_per_row<R: Runtime>(
    rt: R,
    f: FunctionOf<R>,
    rows: Seq<ValueViewOf<R>>,
    k: int,
    s: StateView<R>,
    end: StateView<R>,
    result: Result<(), ErrorViewOf<R>>,
)
    requires
        0 <= k <= rows.len(),
        feeds(rt, f, rows, k, s, end, result),
    ensures
        exists|t: StateView<R>| #[trigger]
            only_executed(f, s, t) && calls_made(s, t) <= rows.len() - k && (end.calls == t.calls
                || end.calls.drop_last() == t.calls && end.calls.last() is Making
                && end.calls.len() == t.calls.len() + 1),
        result is Ok && all_went_on(s, end) ==> only_executed(f, s, end) && calls_made(s, end)
            == rows.len() - k,
    decreases rows.len() - k,
{
    if k < rows.len() {
        let (t, reply) = choose|t: StateView<R>, reply: Result<bool, R::Error>|
            #![trigger may_reply(rt, f, s.push(rows[k]), t, reply)]
            may_reply(rt, f, s.push(rows[k]), t, reply) && match reply {
                Err(e) => end == t && result == Err::<(), _>(ErrorView::Runtime(e)),
                Ok(true) => breaks_off(rt, f.signature.args, t, end, result),
                Ok(false) => feeds(rt, f, rows, k + 1, t, end, result),
            };
        assert(t.calls.drop_last() == s.calls);
        lemma_one_more(f, s, t, t);
        if reply == Ok::<bool, R::Error>(false) {
            law_feeding_calls_once_per_row(rt, f, rows, k + 1, t, end, result);
            let u = choose|u: StateView<R>| #[trigger]
                only_executed(f, t, u) && calls_made(t, u) <= rows.len() - k - 1 && (end.calls
                    == u.calls || end.calls.drop_last() == u.calls && end.calls.last() is Making
                    && end.calls.len() == u.calls.len() + 1);
            lemma_one_more(f, s, t, u);
            if result is Ok && all_went_on(s, end) {
                assert(only_executed(f, t, end));
                lemma_one_more(f, s, t, end);
            }
        } else {
            assert(end.calls == t.calls || end.calls.drop_last() == t.calls);
            let n = s.calls.len() as int;
            if result is Ok && all_went_on(s, end) {
                assert(end.calls[n] == t.calls[n]);
                assert(goes_on(end.calls[n]));
            }
        }
    } else {
        assert(only_executed(f, s, s));
    }
}

} // verus!
