//! Folding: carrying accumulators along the rows of arrays.
use crate::env::{
    may_list_ranks, may_reply, outcome, values_outcome, ErrorOf, ErrorViewOf,
    FunctionOf, Runtime, StateView, Step, Uiua, ValueOf, ValueViewOf,
};
use crate::error::{ErrorView, UiuaError, Wanted};
use crate::function::Signature;
use crate::value::views;
use std::sync::Arc;
use vstd::prelude::*;

verus! {

/// How many of the first `i` depths are zero, or how many are not.
pub open spec fn count(ns: Seq<usize>, zero: bool, i: int) -> nat
    decreases i,
{
    if i <= 0 {
        0
    } else {
        count(ns, zero, i - 1) + if (ns[i - 1] == 0) == zero {
            1nat
        } else {
            0nat
        }
    }
}

/// Those of the first `i` values whose depth is zero, or those whose depth is not.
pub open spec fn picked<V>(ns: Seq<usize>, values: Seq<V>, zero: bool, i: int) -> Seq<V>
    decreases i,
{
    if i <= 0 {
        Seq::empty()
    } else if (ns[i - 1] == 0) == zero {
        picked(ns, values, zero, i - 1).push(values[i - 1])
    } else {
        picked(ns, values, zero, i - 1)
    }
}

/// The accumulators: the values whose depth is zero.
pub open spec fn accs_of<V>(ns: Seq<usize>, values: Seq<V>) -> Seq<V> {
    picked(ns, values, true, ns.len() as int)
}

/// The arrays: the values whose depth is not zero.
pub open spec fn arrays_of<V>(ns: Seq<usize>, values: Seq<V>) -> Seq<V> {
    picked(ns, values, false, ns.len() as int)
}

/// A value for each depth: the accumulators in turn where it is zero, the rows in turn elsewhere.
pub open spec fn woven<V>(ns: Seq<usize>, accs: Seq<V>, rows: Seq<V>) -> Seq<V> {
    Seq::new(
        ns.len(),
        |p: int|
            if ns[p] == 0 {
                accs[count(ns, true, p) as int]
            } else {
                rows[count(ns, false, p) as int]
            },
    )
}

/// The largest depth.
pub open spec fn deepest(ns: Seq<usize>) -> nat
    decreases ns.len(),
{
    if ns.len() == 0 {
        0
    } else if deepest(ns.drop_last()) > ns.last() {
        deepest(ns.drop_last())
    } else {
        ns.last() as nat
    }
}

/// Each depth one less, but not below zero.
pub open spec fn shallower(ns: Seq<usize>) -> Seq<usize> {
    Seq::new(
        ns.len(),
        |p: int|
            if ns[p] == 0 {
                0usize
            } else {
                (ns[p] - 1) as usize
            },
    )
}

/// No depth is larger than the largest, and one is as large.
pub proof fn lemma_deepest(ns: Seq<usize>)
    ensures
        forall|p: int| 0 <= p < ns.len() ==> #[trigger] ns[p] <= deepest(ns),
        deepest(ns) > 0 ==> exists|p: int| 0 <= p < ns.len() && #[trigger] ns[p] == deepest(ns),
    decreases ns.len(),
{
    if ns.len() > 0 {
        let less = ns.drop_last();
        lemma_deepest(less);
        assert forall|p: int| 0 <= p < ns.len() implies #[trigger] ns[p] <= deepest(ns) by {
            if p < less.len() {
                assert(less[p] <= deepest(less));
            }
        }
        if deepest(ns) > 0 {
            if deepest(less) > ns.last() {
                let p = choose|p: int| 0 <= p < less.len() && #[trigger] less[p] == deepest(less);
                assert(ns[p] == deepest(ns));
            } else {
                assert(ns[ns.len() - 1] == deepest(ns));
            }
        }
    }
}

/// The largest depth is one less when each depth is.
pub proof fn lemma_shallower(ns: Seq<usize>)
    ensures
        deepest(ns) > 0 ==> deepest(shallower(ns)) == deepest(ns) - 1,
        deepest(ns) == 0 ==> deepest(shallower(ns)) == 0,
    decreases ns.len(),
{
    if ns.len() > 0 {
        lemma_shallower(ns.drop_last());
        assert(shallower(ns).drop_last() == shallower(ns.drop_last()));
    }
}

/// Whether `j` is the first position at which an array has another number of rows than the first
/// array has.
pub open spec fn first_odd<R: Runtime>(arrays: Seq<ValueViewOf<R>>, j: int) -> bool {
    &&& 0 < j < arrays.len()
    &&& arrays[j].row_count() != arrays[0].row_count()
    &&& forall|i: int| 0 <= i < j ==> (#[trigger] arrays[i]).row_count() == arrays[0].row_count()
}

/// Whether all arrays have the same number of rows.
pub open spec fn even<R: Runtime>(arrays: Seq<ValueViewOf<R>>) -> bool {
    forall|i: int|
        0 <= i < arrays.len() ==> (#[trigger] arrays[i]).row_count() == arrays[0].row_count()
}

/// The row at position `k` of each array.
pub open spec fn nth_rows<R: Runtime>(arrays: Seq<ValueViewOf<R>>, k: int) -> Seq<
    ValueViewOf<R>,
> {
    Seq::new(arrays.len(), |j: int| arrays[j].row(k))
}

/// Where folding with `n` accumulators stands after a call that left the state `t` and gave
/// `reply`. The values on top become the accumulators, the first on top.
pub open spec fn folded<R: Runtime>(
    n: nat,
    t: StateView<R>,
    reply: Result<bool, R::Error>,
) -> Step<
    StateView<R>,
    Seq<ValueViewOf<R>>,
    Result<Seq<ValueViewOf<R>>, ErrorViewOf<R>>,
> {
    match reply {
        Err(e) => Step::Stop(t, Err(ErrorView::Runtime(e))),
        Ok(broke) => if t.values.len() < n {
            Step::Stop(t.truncate(0), Err(ErrorView::EmptyStack(Wanted::FoldedResult)))
        } else if broke {
            Step::Stop(t.truncate((t.values.len() - n) as nat), Ok(t.topmost(n)))
        } else {
            Step::Go(t.truncate((t.values.len() - n) as nat), t.topmost(n))
        },
    }
}

/// Whether calling `f` on the accumulators and on the rows of the arrays, from those at position
/// `k` on, may lead from the state `s` to the state `end` and to `result`. The first argument is
/// on top.
pub open spec fn folds_rows<R: Runtime>(
    rt: R,
    f: FunctionOf<R>,
    ns: Seq<usize>,
    arrays: Seq<ValueViewOf<R>>,
    n: nat,
    k: int,
    accs: Seq<ValueViewOf<R>>,
    s: StateView<R>,
    end: StateView<R>,
    result: Result<Seq<ValueViewOf<R>>, ErrorViewOf<R>>,
) -> bool
    decreases n - k,
{
    if k >= n {
        end == s && result == Ok::<_, ErrorViewOf<R>>(accs)
    } else {
        let called = s.push_all(woven(ns, accs, nth_rows::<R>(arrays, k)).reverse());
        exists|t: StateView<R>, reply: Result<bool, R::Error>| #[trigger]
            may_reply(rt, f, called, t, reply) && match folded::<R>(accs.len(), t, reply) {
                Step::Stop(u, r) => end == u && result == r,
                Step::Go(u, next) => folds_rows(
                    rt,
                    f,
                    ns,
                    arrays,
                    n,
                    k + 1,
                    next,
                    u,
                    end,
                    result,
                ),
            }
    }
}

/// Names a state and an outcome between two steps of a fold.
pub open spec fn between<S, T>(s: S, r: T) -> bool {
    true
}

/// Whether folding `args` with `f`, each to its depth, may lead from the state `s` to the state
/// `end` and to `result`.
///
/// Values of depth zero are accumulators. Where no other depth is over one, `f` is called on each
/// row of the arrays. Otherwise the fold goes on, with each depth one less, with each row of the
/// arrays in the place of the arrays.
pub open spec fn folds<R: Runtime>(
    rt: R,
    f: FunctionOf<R>,
    ns: Seq<usize>,
    args: Seq<ValueViewOf<R>>,
    s: StateView<R>,
    end: StateView<R>,
    result: Result<Seq<ValueViewOf<R>>, ErrorViewOf<R>>,
) -> bool
    decreases deepest(ns), 1int, 0int,
{
    let accs = accs_of(ns, args);
    let arrays = arrays_of(ns, args);
    let expected = Signature { args: ns.len() as usize, outputs: accs.len() as usize };
    if deepest(ns) == 0 {
        end == s && result == Ok::<_, ErrorViewOf<R>>(args)
    } else if !even::<R>(arrays) {
        end == s && exists|j: int| #[trigger]
            first_odd::<R>(arrays, j) && result == Err::<Seq<ValueViewOf<R>>, _>(
                ErrorView::<R::Error>::FoldShapes {
                    left: arrays[if deepest(ns) == 1 {
                        j - 1
                    } else {
                        0
                    }].shape(),
                    right: arrays[j].shape(),
                },
            )
    } else if deepest(ns) > 1 {
        folds_each(
            rt,
            f,
            ns,
            arrays,
            arrays[0].row_count(),
            0,
            accs + args.skip(ns.len() as int),
            s,
            end,
            result,
        )
    } else if f.signature != expected {
        end == s && result == Err::<Seq<ValueViewOf<R>>, _>(
            ErrorView::<R::Error>::FoldSignature { found: f.signature, expected },
        )
    } else {
        folds_rows(rt, f, ns, arrays, arrays[0].row_count(), 0, accs, s, end, result)
    }
}

/// Whether folding, to depths one less than `ns`, with the rows of the arrays from those at
/// position `k` on, may lead from the state `s` to the state `end` and to `result`. `carried` are
/// the other values: the accumulators first.
pub open spec fn folds_each<R: Runtime>(
    rt: R,
    f: FunctionOf<R>,
    ns: Seq<usize>,
    arrays: Seq<ValueViewOf<R>>,
    n: nat,
    k: int,
    carried: Seq<ValueViewOf<R>>,
    s: StateView<R>,
    end: StateView<R>,
    result: Result<Seq<ValueViewOf<R>>, ErrorViewOf<R>>,
) -> bool
    decreases deepest(ns), 0int, n - k,
{
    if k >= n {
        end == s && result == Ok::<_, ErrorViewOf<R>>(carried)
    } else if deepest(ns) == 0 {
        false
    } else {
        proof {
            lemma_shallower(ns);
        }
        let args = woven(ns, carried, nth_rows::<R>(arrays, k)) + carried.skip(
            count(ns, true, ns.len() as int) as int,
        );
        exists|t: StateView<R>, r: Result<Seq<ValueViewOf<R>>, ErrorViewOf<R>>| #[trigger]
            between(t, r) && folds(rt, f, shallower(ns), args, s, t, r) && match r {
                Err(e) => end == t && result == Err::<Seq<ValueViewOf<R>>, _>(e),
                Ok(next) => folds_each(rt, f, ns, arrays, n, k + 1, next, t, end, result),
            }
    }
}

/// Depths are counted either as zero or as not zero.
pub proof fn lemma_count(ns: Seq<usize>, i: int)
    requires
        0 <= i <= ns.len(),
    ensures
        count(ns, true, i) + count(ns, false, i) == i,
        count(ns, true, i) <= count(shallower(ns), true, i),
    decreases i,
{
    if i > 0 {
        lemma_count(ns, i - 1);
    }
}

/// Counting further counts no less, and more if there is something to count.
proof fn lemma_count_grows(ns: Seq<usize>, zero: bool, p: int, i: int)
    requires
        0 <= p <= i <= ns.len(),
    ensures
        count(ns, zero, p) <= count(ns, zero, i),
        p < i && (ns[p] == 0) == zero ==> count(ns, zero, p) < count(ns, zero, i),
    decreases i,
{
    if p < i {
        lemma_count_grows(ns, zero, p, i - 1);
    }
}

/// As many values are picked as there are depths to pick by.
pub proof fn lemma_picked_len<V>(ns: Seq<usize>, values: Seq<V>, zero: bool, i: int)
    ensures
        picked(ns, values, zero, i).len() == count(ns, zero, i),
    decreases i,
{
    if i > 0 {
        lemma_picked_len(ns, values, zero, i - 1);
    }
}

/// Sorts values into accumulators and arrays.
fn split<R: Runtime>(ns: &Vec<usize>, args: &Vec<ValueOf<R>>) -> (r: (
    Vec<ValueOf<R>>,
    Vec<ValueOf<R>>,
))
    requires
        ns@.len() <= args@.len(),
    ensures
        views(r.0@) == accs_of(ns@, views(args@)),
        views(r.1@) == arrays_of(ns@, views(args@)),
{
    let ghost values = views(args@);
    let mut accs: Vec<ValueOf<R>> = Vec::new();
    let mut arrays: Vec<ValueOf<R>> = Vec::new();
    let mut i: usize = 0;
    assert(views(accs@) == picked(ns@, values, true, 0));
    assert(views(arrays@) == picked(ns@, values, false, 0));
    while i < ns.len()
        invariant
            0 <= i <= ns@.len() <= args@.len(),
            values == views(args@),
            views(accs@) == picked(ns@, values, true, i as int),
            views(arrays@) == picked(ns@, values, false, i as int),
        decreases ns@.len() - i,
    {
        let ghost accs_before = views(accs@);
        let ghost arrays_before = views(arrays@);
        let value = args[i].clone();
        if ns[i] == 0 {
            accs.push(value);
            assert(views(accs@) == accs_before.push(values[i as int]));
        } else {
            arrays.push(value);
            assert(views(arrays@) == arrays_before.push(values[i as int]));
        }
        i = i + 1;
    }
    (accs, arrays)
}

/// The position of the first array that has another number of rows than the first array has.
fn find_odd<R: Runtime>(arrays: &Vec<ValueOf<R>>) -> (r: Option<usize>)
    ensures
        match r {
            Some(j) => first_odd::<R>(views(arrays@), j as int),
            None => even::<R>(views(arrays@)),
        },
{
    let ghost all = views(arrays@);
    if arrays.len() == 0 {
        return None;
    }
    let row_count: usize = arrays[0].row_count();
    let mut j: usize = 1;
    while j < arrays.len()
        invariant
            1 <= j <= arrays@.len(),
            all == views(arrays@),
            row_count == all[0].row_count(),
            forall|i: int| 0 <= i < j ==> (#[trigger] all[i]).row_count() == all[0].row_count(),
        decreases arrays@.len() - j,
    {
        if arrays[j].row_count() != row_count {
            return Some(j);
        }
        j = j + 1;
    }
    None
}

/// Puts the arguments of one call on the stack, the first argument last.
fn push_arguments<R: Runtime>(
    ns: &Vec<usize>,
    accs: Vec<ValueOf<R>>,
    arrays: &Vec<ValueOf<R>>,
    k: usize,
    env: &mut Uiua<R>,
)
    requires
        accs@.len() == count(ns@, true, ns@.len() as int),
        arrays@.len() == count(ns@, false, ns@.len() as int),
        forall|j: int| 0 <= j < arrays@.len() ==> k < (#[trigger] views(arrays@)[j]).row_count(),
    ensures
        final(env).same_setting(*old(env)),
        final(env)@ == old(env)@.push_all(
            woven(ns@, views(accs@), nth_rows::<R>(views(arrays@), k as int)).reverse(),
        ),
{
    let ghost s = env@;
    let ghost all = views(accs@);
    let ghost rows = nth_rows::<R>(views(arrays@), k as int);
    let ghost args = woven(ns@, all, rows);
    let mut accs = accs;
    let mut arr_i: usize = arrays.len();
    let mut p: usize = ns.len();
    assert(args.reverse().take(0) == Seq::<ValueViewOf<R>>::empty());
    assert(env@ == s.push_all(args.reverse().take(0)));
    while p > 0
        invariant
            0 <= p <= ns@.len(),
            rows == nth_rows::<R>(views(arrays@), k as int),
            args == woven(ns@, all, rows),
            forall|j: int|
                0 <= j < arrays@.len() ==> k < (#[trigger] views(arrays@)[j]).row_count(),
            views(accs@) == all.take(count(ns@, true, p as int) as int),
            count(ns@, true, p as int) <= all.len(),
            arr_i == count(ns@, false, p as int),
            arr_i <= arrays@.len(),
            env@ == s.push_all(args.reverse().take(ns@.len() - p)),
            env.same_setting(*old(env)),
        decreases p,
    {
        let ghost before = env@;
        let ghost left = views(accs@);
        p = p - 1;
        if ns[p] == 0 {
            match accs.pop() {
                Some(acc) => {
                    assert(acc@ == left.last());
                    assert(acc@ == args[p as int]);
                    assert(views(accs@) == left.drop_last());
                    assert(left.drop_last() == all.take(count(ns@, true, p as int) as int));
                    env.push(acc);
                },
                None => {
                    assert(false);
                },
            }
        } else {
            arr_i = arr_i - 1;
            assert(views(arrays@)[arr_i as int] == arrays@[arr_i as int]@);
            let row = arrays[arr_i].row(k);
            assert(row@ == args[p as int]);
            env.push(row);
        }
        assert(args.reverse().take(ns@.len() - p) == args.reverse().take(
            ns@.len() - p - 1,
        ).push(args[p as int]));
        assert(env@ == s.push_all(args.reverse().take(ns@.len() - p)));
    }
    assert(args.reverse().take(ns@.len() as int) == args.reverse());
}

/// Takes values off the stack, the one on top first.
fn pop_accs<R: Runtime>(n: usize, env: &mut Uiua<R>) -> (r: Result<Vec<ValueOf<R>>, ErrorOf<R>>)
    ensures
        final(env).same_setting(*old(env)),
        match r {
            Ok(accs) => {
                &&& n <= old(env)@.values.len()
                &&& views(accs@) == old(env)@.topmost(n as nat)
                &&& final(env)@ == old(env)@.truncate(
                    (old(env)@.values.len() - n) as nat,
                )
            },
            Err(e) => {
                &&& n > old(env)@.values.len()
                &&& e@ == ErrorView::<R::Error>::EmptyStack(Wanted::FoldedResult)
                &&& final(env)@ == old(env)@.truncate(0)
            },
        },
{
    let ghost s = env@;
    let mut accs: Vec<ValueOf<R>> = Vec::new();
    let mut i: usize = 0;
    assert(env@ == s.truncate(s.values.len()));
    while i < n
        invariant
            0 <= i <= n,
            i <= s.values.len(),
            s == old(env)@,
            env.same_setting(*old(env)),
            views(accs@) == s.topmost(i as nat),
            env@ == s.truncate((s.values.len() - i) as nat),
        decreases n - i,
    {
        let ghost before = views(accs@);
        match env.pop(Wanted::FoldedResult) {
            Ok(value) => {
                assert(value@ == s.values[s.values.len() - 1 - i]);
                accs.push(value);
                assert(views(accs@) == before.push(value@));
                assert(s.topmost((i + 1) as nat) == before.push(value@));
            },
            Err(e) => {
                return Err(e);
            },
        }
        i = i + 1;
        assert(env@ == s.truncate((s.values.len() - i) as nat));
    }
    Ok(accs)
}

/// Sees to what a call in the course of folding gave, which left the stacks as they are.
pub fn fold_on<R: Runtime>(
    reply: Result<bool, R::Error>,
    acc_count: usize,
    env: &mut Uiua<R>,
) -> (step: Step<(), Vec<ValueOf<R>>, Result<Vec<ValueOf<R>>, ErrorOf<R>>>)
    ensures
        final(env).same_setting(*old(env)),
        match (step, folded::<R>(acc_count as nat, old(env)@, reply)) {
            (Step::Stop((), accs), Step::Stop(u, r)) => {
                final(env)@ == u && values_outcome::<R>(accs) == r
            },
            (Step::Go((), accs), Step::Go(u, next)) => {
                final(env)@ == u && views(accs@) == next
            },
            _ => false,
        },
{
    match reply {
        Err(e) => Step::Stop((), Err(UiuaError::Runtime(e))),
        Ok(broke) => match pop_accs(acc_count, env) {
            Err(e) => Step::Stop((), Err(e)),
            Ok(accs) => if broke {
                Step::Stop((), Ok(accs))
            } else {
                Step::Go((), accs)
            },
        },
    }
}

/// Calls a function on the accumulators and on each row of the arrays.
fn fold_rows<R: Runtime>(
    f: &Arc<FunctionOf<R>>,
    ns: &Vec<usize>,
    accs: Vec<ValueOf<R>>,
    arrays: &Vec<ValueOf<R>>,
    env: &mut Uiua<R>,
) -> (r: Result<Vec<ValueOf<R>>, ErrorOf<R>>)
    requires
        accs@.len() == count(ns@, true, ns@.len() as int),
        arrays@.len() == count(ns@, false, ns@.len() as int),
        arrays@.len() > 0,
        even::<R>(views(arrays@)),
    ensures
        final(env).same_setting(*old(env)),
        folds_rows(
            old(env).runtime(),
            **f,
            ns@,
            views(arrays@),
            views(arrays@)[0].row_count(),
            0,
            views(accs@),
            old(env)@,
            final(env)@,
            values_outcome::<R>(r),
        ),
        r matches Ok(out) ==> out@.len() == accs@.len(),
{
    let ghost rt = env.runtime();
    let ghost s = env@;
    let ghost start = views(accs@);
    let ghost all = views(arrays@);
    let acc_count: usize = accs.len();
    let row_count: usize = arrays[0].row_count();
    let mut current = accs;
    let mut k: usize = 0;
    while k < row_count
        invariant
            0 <= k <= row_count,
            all == views(arrays@),
            row_count == all[0].row_count(),
            even::<R>(all),
            arrays@.len() > 0,
            current@.len() == acc_count,
            acc_count == count(ns@, true, ns@.len() as int),
            acc_count == start.len(),
            start == views(accs@),
            acc_count == accs@.len(),
            arrays@.len() == count(ns@, false, ns@.len() as int),
            rt == env.runtime(),
            rt == old(env).runtime(),
            s == old(env)@,
            env.same_setting(*old(env)),
            forall|end: StateView<R>, result: Result<Seq<ValueViewOf<R>>, ErrorViewOf<R>>|
                #[trigger]
                folds_rows(
                    rt,
                    **f,
                    ns@,
                    all,
                    row_count as nat,
                    k as int,
                    views(current@),
                    env@,
                    end,
                    result,
                ) ==> folds_rows(rt, **f, ns@, all, row_count as nat, 0, start, s, end, result),
        decreases row_count - k,
    {
        let ghost here = env@;
        let ghost before = views(current@);
        push_arguments(ns, current, arrays, k, env);
        let ghost called = here.push_all(
            woven(ns@, before, nth_rows::<R>(all, k as int)).reverse(),
        );
        let reply = env.call_catch_break(f);
        let ghost t = env@;
        assert(may_reply(rt, **f, called, t, reply));
        match fold_on(reply, acc_count, env) {
            Step::Stop((), out) => {
                assert(folds_rows(
                    rt,
                    **f,
                    ns@,
                    all,
                    row_count as nat,
                    k as int,
                    before,
                    here,
                    env@,
                    values_outcome::<R>(out),
                ));
                assert(out is Ok ==> views(out->Ok_0@).len() == out->Ok_0@.len());
                return out;
            },
            Step::Go((), next) => current = next,
        }
        assert(views(current@).len() == current@.len());
        assert forall|
            end: StateView<R>,
            result: Result<Seq<ValueViewOf<R>>, ErrorViewOf<R>>,
        | #[trigger]
            folds_rows(
                rt,
                **f,
                ns@,
                all,
                row_count as nat,
                k + 1,
                views(current@),
                env@,
                end,
                result,
            ) implies folds_rows(
            rt,
            **f,
            ns@,
            all,
            row_count as nat,
            0,
            start,
            s,
            end,
            result,
        ) by {
            assert(folds_rows(
                rt,
                **f,
                ns@,
                all,
                row_count as nat,
                k as int,
                before,
                here,
                end,
                result,
            ));
        }
        k = k + 1;
    }
    assert(folds_rows(
        rt,
        **f,
        ns@,
        all,
        row_count as nat,
        k as int,
        views(current@),
        env@,
        env@,
        Ok(views(current@)),
    ));
    Ok(current)
}

/// Puts the rows at position `k` in their places among the other values.
fn insert_rows<R: Runtime>(
    ns: &Vec<usize>,
    carried: Vec<ValueOf<R>>,
    arrays: &Vec<ValueOf<R>>,
    k: usize,
) -> (args: Vec<ValueOf<R>>)
    requires
        carried@.len() >= count(ns@, true, ns@.len() as int),
        arrays@.len() == count(ns@, false, ns@.len() as int),
        forall|j: int| 0 <= j < arrays@.len() ==> k < (#[trigger] views(arrays@)[j]).row_count(),
    ensures
        views(args@) == woven(ns@, views(carried@), nth_rows::<R>(views(arrays@), k as int))
            + views(carried@).skip(count(ns@, true, ns@.len() as int) as int),
{
    let ghost values = views(carried@);
    let ghost rows = nth_rows::<R>(views(arrays@), k as int);
    let ghost whole = woven(ns@, values, rows);
    let mut args = carried;
    let mut arr_i: usize = 0;
    let mut p: usize = 0;
    assert(views(args@) == whole.take(0) + values.skip(0));
    while p < ns.len()
        invariant
            0 <= p <= ns@.len(),
            rows == nth_rows::<R>(views(arrays@), k as int),
            whole == woven(ns@, values, rows),
            values.len() >= count(ns@, true, ns@.len() as int),
            arrays@.len() == count(ns@, false, ns@.len() as int),
            forall|j: int|
                0 <= j < arrays@.len() ==> k < (#[trigger] views(arrays@)[j]).row_count(),
            arr_i == count(ns@, false, p as int),
            views(args@) == whole.take(p as int) + values.skip(count(ns@, true, p as int) as int),
        decreases ns@.len() - p,
    {
        let ghost before = views(args@);
        let ghost done = count(ns@, true, p as int) as int;
        proof {
            lemma_count(ns@, p as int);
            lemma_count_grows(ns@, true, p as int, ns@.len() as int);
            lemma_count_grows(ns@, false, p as int, ns@.len() as int);
        }
        if ns[p] != 0 {
            assert(views(arrays@)[arr_i as int] == arrays@[arr_i as int]@);
            let row = arrays[arr_i].row(k);
            assert(row@ == whole[p as int]);
            assert(before.len() == args@.len());
            assert(whole.take(p as int).len() == p);
            args.insert(p, row);
            assert(views(args@) == before.insert(p as int, row@));
            assert(views(args@) == whole.take(p + 1) + values.skip(done));
            arr_i = arr_i + 1;
        } else {
            assert(whole[p as int] == values[done]);
            assert(views(args@) == whole.take(p + 1) + values.skip(done + 1));
        }
        p = p + 1;
    }
    assert(whole.take(ns@.len() as int) == whole);
    args
}

/// Folds values with a function, each to its depth.
pub fn fold_recursive<R: Runtime>(
    f: &Arc<FunctionOf<R>>,
    args: Vec<ValueOf<R>>,
    ns: &Vec<usize>,
    env: &mut Uiua<R>,
) -> (r: Result<Vec<ValueOf<R>>, ErrorOf<R>>)
    requires
        ns@.len() <= args@.len(),
    ensures
        final(env).same_setting(*old(env)),
        folds(
            old(env).runtime(),
            **f,
            ns@,
            views(args@),
            old(env)@,
            final(env)@,
            values_outcome::<R>(r),
        ),
        r matches Ok(out) ==> out@.len() >= count(ns@, true, ns@.len() as int),
    decreases deepest(ns@),
{
    let ghost rt = env.runtime();
    let ghost s = env@;
    let ghost values = views(args@);
    let ghost total = ns@.len() as int;
    let mut acc_count: usize = 0;
    let mut array_count: usize = 0;
    let mut i: usize = 0;
    while i < ns.len()
        invariant
            0 <= i <= ns@.len(),
            acc_count == count(ns@, true, i as int),
            acc_count + array_count <= i,
            (acc_count + array_count == i) == (forall|p: int|
                0 <= p < i ==> #[trigger] ns@[p] <= 1),
            (array_count == 0) == (forall|p: int| 0 <= p < i ==> #[trigger] ns@[p] != 1),
        decreases ns@.len() - i,
    {
        match ns[i] {
            0 => acc_count = acc_count + 1,
            1 => array_count = array_count + 1,
            _ => {},
        }
        i = i + 1;
    }
    proof {
        lemma_deepest(ns@);
        lemma_count(ns@, total);
        lemma_picked_len(ns@, values, true, total);
        lemma_picked_len(ns@, values, false, total);
    }
    if acc_count + array_count == ns.len() && array_count == 0 {
        return Ok(args);
    }
    assert(deepest(ns@) > 0) by {
        if deepest(ns@) == 0 {
            assert forall|p: int| 0 <= p < total implies #[trigger] ns@[p] != 1 by {}
        }
    }
    let (accs, arrays) = split::<R>(ns, &args);
    let ghost all = views(arrays@);
    assert(arrays@.len() == all.len() && accs@.len() == views(accs@).len());
    assert(arrays@.len() > 0) by {
        let p = choose|p: int| 0 <= p < total && #[trigger] ns@[p] == deepest(ns@);
        lemma_count_grows(ns@, false, p, total);
    }
    if acc_count + array_count == ns.len() {
        assert(deepest(ns@) == 1);
        if let Some(j) = find_odd::<R>(&arrays) {
            let left = arrays[j - 1].shape().clone();
            let right = arrays[j].shape().clone();
            assert(left@ == all[j - 1].shape() && right@ == all[j as int].shape());
            return Err(UiuaError::FoldShapes { left, right });
        }
        let expected = Signature::new(ns.len(), acc_count);
        let found = f.signature();
        if expected != found {
            return Err(UiuaError::FoldSignature { found, expected });
        }
        return fold_rows(f, ns, accs, &arrays, env);
    }
    assert(deepest(ns@) > 1);
    if let Some(j) = find_odd::<R>(&arrays) {
        let left = arrays[0].shape().clone();
        let right = arrays[j].shape().clone();
        assert(left@ == all[0].shape() && right@ == all[j as int].shape());
        return Err(UiuaError::FoldShapes { left, right });
    }
    let row_count: usize = arrays[0].row_count();
    let ghost n = all[0].row_count();
    let mut dec_ns: Vec<usize> = Vec::new();
    let mut i: usize = 0;
    while i < ns.len()
        invariant
            0 <= i <= ns@.len(),
            dec_ns@ == shallower(ns@).take(i as int),
        decreases ns@.len() - i,
    {
        dec_ns.push(ns[i].saturating_sub(1));
        i = i + 1;
        assert(shallower(ns@).take(i as int) == shallower(ns@).take(i - 1).push(
            shallower(ns@)[i - 1],
        ));
    }
    assert(dec_ns@ == shallower(ns@));
    let mut carried = accs;
    let mut i: usize = ns.len();
    while i < args.len()
        invariant
            total == ns@.len(),
            total <= i <= args@.len(),
            values == views(args@),
            views(carried@) == accs_of(ns@, values) + values.subrange(ns@.len() as int, i as int),
        decreases args@.len() - i,
    {
        let ghost before = views(carried@);
        carried.push(args[i].clone());
        assert(views(carried@) == before.push(values[i as int]));
        i = i + 1;
        assert(values.subrange(total, i as int) == values.subrange(total, i - 1).push(
            values[i - 1],
        ));
    }
    assert(values.subrange(total, i as int) == values.skip(total));
    let ghost start = views(carried@);
    assert(carried@.len() == start.len());
    let mut k: usize = 0;
    while k < row_count
        invariant
            0 <= k <= row_count,
            row_count == n,
            all == views(arrays@),
            n == all[0].row_count(),
            even::<R>(all),
            arrays@.len() == count(ns@, false, total),
            total == ns@.len(),
            carried@.len() >= count(ns@, true, total),
            dec_ns@ == shallower(ns@),
            deepest(ns@) > 1,
            rt == env.runtime(),
            env.same_setting(*old(env)),
            rt == old(env).runtime(),
            s == old(env)@,
            values == views(args@),
            all == arrays_of(ns@, values),
            start == accs_of(ns@, values) + values.skip(total),
            forall|end: StateView<R>, result: Result<Seq<ValueViewOf<R>>, ErrorViewOf<R>>|
                #[trigger]
                folds_each(
                    rt,
                    **f,
                    ns@,
                    all,
                    n,
                    k as int,
                    views(carried@),
                    env@,
                    end,
                    result,
                ) ==> folds_each(rt, **f, ns@, all, n, 0, start, s, end, result),
        decreases row_count - k,
    {
        let ghost here = env@;
        let ghost before = views(carried@);
        let inner = insert_rows::<R>(ns, carried, &arrays, k);
        let ghost inner_args = views(inner@);
        proof {
            lemma_shallower(ns@);
            lemma_count(ns@, total);
            assert(inner_args.len() == inner@.len());
        }
        let folded = fold_recursive(f, inner, &dec_ns, env);
        assert(between(env@, values_outcome::<R>(folded)));
        match folded {
            Ok(next) => carried = next,
            Err(e) => {
                assert(folds_each(
                    rt,
                    **f,
                    ns@,
                    all,
                    n,
                    k as int,
                    before,
                    here,
                    env@,
                    Err(e@),
                ));
                return Err(e);
            },
        }
        assert forall|
            end: StateView<R>,
            result: Result<Seq<ValueViewOf<R>>, ErrorViewOf<R>>,
        | #[trigger]
            folds_each(
                rt,
                **f,
                ns@,
                all,
                n,
                k + 1,
                views(carried@),
                env@,
                end,
                result,
            ) implies folds_each(rt, **f, ns@, all, n, 0, start, s, end, result) by {
            assert(folds_each(rt, **f, ns@, all, n, k as int, before, here, end, result));
        }
        k = k + 1;
    }
    assert(folds_each(
        rt,
        **f,
        ns@,
        all,
        n,
        k as int,
        views(carried@),
        env@,
        env@,
        Ok(views(carried@)),
    ));
    Ok(carried)
}

/// Whether `depths` may be how far the ranks ask to descend into `args`.
pub open spec fn descends<R: Runtime>(
    rt: R,
    ranks: Seq<R::Rank>,
    args: Seq<ValueViewOf<R>>,
    depths: Seq<usize>,
) -> bool {
    &&& depths.len() == ranks.len()
    &&& forall|i: int|
        0 <= i < ranks.len() ==> call_ensures(
            R::rank_to_depth,
            (&rt, &ranks[i], args[i].rank() as usize),
            #[trigger] depths[i],
        )
}

/// Whether folding `args` with `f`, each to its depth, and putting what it gives on the stack,
/// the first on top, may lead from the state `s` to the state `end` and to `result`.
pub open spec fn folds_onto<R: Runtime>(
    rt: R,
    f: FunctionOf<R>,
    depths: Seq<usize>,
    args: Seq<ValueViewOf<R>>,
    s: StateView<R>,
    end: StateView<R>,
    result: Result<(), ErrorViewOf<R>>,
) -> bool {
    exists|t: StateView<R>, r: Result<Seq<ValueViewOf<R>>, ErrorViewOf<R>>| #[trigger]
        folds(rt, f, depths, args, s, t, r) && match r {
            Ok(values) => end == t.push_all(values.reverse()) && result == Ok::<
                (),
                ErrorViewOf<R>,
            >(()),
            Err(e) => end == t && result == Err::<(), _>(e),
        }
}

/// Whether folding by the rank list `ranks` may lead from the state `s` to the state `end` and
/// to `result`. A function and an argument for each rank are taken off the stacks.
pub open spec fn folds_by_ranks<R: Runtime>(
    rt: R,
    ranks: Seq<R::Rank>,
    s: StateView<R>,
    end: StateView<R>,
    result: Result<(), ErrorViewOf<R>>,
) -> bool {
    let below = s.pop_function();
    if s.functions.len() == 0 {
        end == s && result == Err::<(), _>(ErrorView::<R::Error>::NoFunction)
    } else if below.values.len() < ranks.len() {
        end == below.truncate(0) && result == Err::<(), _>(
            ErrorView::<R::Error>::EmptyStack(
                Wanted::Argument((below.values.len() + 1) as usize),
            ),
        )
    } else {
        let args = below.topmost(ranks.len());
        let rest = below.truncate((below.values.len() - ranks.len()) as nat);
        exists|depths: Seq<usize>| #[trigger]
            descends(rt, ranks, args, depths) && folds_onto(
                rt,
                *s.functions.last(),
                depths,
                args,
                rest,
                end,
                result,
            )
    }
}

/// Whether a fold may lead from the state `s` to the state `end` and to `result`.
pub open spec fn folds_stacks<R: Runtime>(
    rt: R,
    s: StateView<R>,
    end: StateView<R>,
    result: Result<(), ErrorViewOf<R>>,
) -> bool {
    exists|t: StateView<R>, reply: Result<Seq<R::Rank>, R::Error>| #[trigger]
        may_list_ranks(rt, "Fold"@, s, t, reply) && match reply {
            Ok(ranks) => folds_by_ranks(rt, ranks, t, end, result),
            Err(e) => end == t && result == Err::<(), _>(ErrorView::Runtime(e)),
        }
}

/// Takes a function and an argument for each rank off the stacks, and folds the arguments with the
/// function.
pub fn fold_by_ranks<R: Runtime>(ranks: &Vec<R::Rank>, env: &mut Uiua<R>) -> (r: Result<
    (),
    ErrorOf<R>,
>)
    ensures
        final(env).same_setting(*old(env)),
        folds_by_ranks(
            old(env).runtime(),
            ranks@,
            old(env)@,
            final(env)@,
            outcome(r),
        ),
{
    let ghost rt = env.runtime();
    let ghost start = env@;
    let f = match env.pop_function() {
        Ok(f) => f,
        Err(e) => {
            assert(folds_by_ranks(rt, ranks@, start, env@, Err(e@)));
            return Err(e);
        },
    };
    let ghost below = env@;
    let mut args: Vec<ValueOf<R>> = Vec::new();
    let mut depths: Vec<usize> = Vec::new();
    let mut i: usize = 0;
    assert(below == below.truncate(below.values.len()));
    while i < ranks.len()
        invariant
            0 <= i <= ranks@.len(),
            i <= below.values.len(),
            views(args@) == below.topmost(i as nat),
            env@ == below.truncate((below.values.len() - i) as nat),
            rt == env.runtime(),
            rt == old(env).runtime(),
            env.same_setting(*old(env)),
            start.functions.len() > 0,
            below == start.pop_function(),
            start == old(env)@,
        decreases ranks@.len() - i,
    {
        let ghost before = views(args@);
        match env.pop(Wanted::Argument(i + 1)) {
            Ok(value) => {
                assert(value@ == below.values[below.values.len() - 1 - i]);
                args.push(value);
                assert(views(args@) == before.push(value@));
                assert(below.topmost((i + 1) as nat) == before.push(value@));
            },
            Err(e) => {
                assert(folds_by_ranks(rt, ranks@, start, env@, Err(e@)));
                return Err(e);
            },
        }
        i = i + 1;
        assert(env@ == below.truncate((below.values.len() - i) as nat));
    }
    let ghost values = views(args@);
    let ghost rest = env@;
    let mut i: usize = 0;
    while i < ranks.len()
        invariant
            0 <= i <= ranks@.len(),
            ranks@.len() == args@.len(),
            values == views(args@),
            depths@.len() == i,
            rt == env.runtime(),
            forall|j: int|
                0 <= j < i ==> call_ensures(
                    R::rank_to_depth,
                    (&rt, &ranks@[j], values[j].rank() as usize),
                    #[trigger] depths@[j],
                ),
        decreases ranks@.len() - i,
    {
        let rank: usize = args[i].rank();
        assert(values[i as int] == args@[i as int]@);
        depths.push(env.rank_to_depth(&ranks[i], rank));
        i = i + 1;
    }
    assert(descends(rt, ranks@, values, depths@));
    let folded = fold_recursive(&f, args, &depths, env);
    let ghost t = env@;
    assert(folds(rt, *f, depths@, values, rest, t, values_outcome::<R>(folded)));
    let res = match folded {
        Ok(res) => res,
        Err(e) => {
            assert(folds_onto(rt, *f, depths@, values, rest, env@, Err(e@)));
            assert(folds_by_ranks(rt, ranks@, start, env@, Err(e@)));
            return Err(e);
        },
    };
    let ghost out = views(res@);
    let mut res = res;
    assert(out.reverse().take(0) == Seq::<ValueViewOf<R>>::empty());
    assert(env@ == t.push_all(out.reverse().take(0)));
    while res.len() > 0
        invariant
            res@.len() <= out.len(),
            views(res@) == out.take(res@.len() as int),
            env@ == t.push_all(out.reverse().take(out.len() - res@.len())),
            env.same_setting(*old(env)),
        decreases res@.len(),
    {
        let ghost before = views(res@);
        let ghost m = out.len() - res@.len();
        if let Some(value) = res.pop() {
            assert(value@ == before.last());
            assert(views(res@) == before.drop_last());
            env.push(value);
            assert(out.reverse().take(m + 1) == out.reverse().take(m).push(value@));
        }
        assert(env@ == t.push_all(out.reverse().take(out.len() - res@.len())));
    }
    assert(out.reverse().take(out.len() as int) == out.reverse());
    assert(folds_onto(rt, *f, depths@, values, rest, env@, Ok(())));
    assert(folds_by_ranks(rt, ranks@, start, env@, Ok(())));
    Ok(())
}

/// Takes a rank list, a function and an argument for each rank off the stacks, and folds the
/// arguments with the function.
pub fn fold<R: Runtime>(env: &mut Uiua<R>) -> (r: Result<(), ErrorOf<R>>)
    ensures
        final(env).same_setting(*old(env)),
        folds_stacks(old(env).runtime(), old(env)@, final(env)@, outcome(r)),
{
    let listed = env.rank_list("Fold");
    match listed {
        Ok(ranks) => fold_by_ranks(&ranks, env),
        Err(e) => Err(UiuaError::Runtime(e)),
    }
}

} // verus!
