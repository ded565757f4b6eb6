//! What a fold hands to its function, position by position of the rank list.
use crate::env::{
    Call, ErrorViewOf, FunctionOf, Runtime, StacksView, StateView, Step, ValueViewOf,
};
use crate::error::{ErrorView, Wanted};
use crate::fold::{
    accs_of, arrays_of, count, deepest, even, first_odd, folded, folds, folds_each, folds_rows,
    lemma_count, lemma_deepest, lemma_picked_len, nth_rows, picked, shallower, woven,
};
use crate::function::Signature;
use crate::laws::calls::{first_folded, first_inner, fold_called};
use crate::laws::traces::{executed, functions_at, lemma_executed, made_between};
use vstd::prelude::*;

verus! {

/// Whether `zeros` lists the positions at which `ns` is zero, each once and in order.
pub open spec fn lists_zeros(ns: Seq<usize>, zeros: Seq<int>) -> bool {
    &&& forall|i: int| 0 <= i < zeros.len() ==> 0 <= #[trigger] zeros[i] < ns.len()
    &&& forall|i: int| 0 <= i < zeros.len() ==> ns[#[trigger] zeros[i]] == 0
    &&& forall|i: int, j: int|
        0 <= i < j < zeros.len() ==> #[trigger] zeros[i] < #[trigger] zeros[j]
    &&& forall|p: int| 0 <= p < ns.len() && #[trigger] ns[p] == 0 ==> zeros.contains(p)
}

/// As many zeros are counted before a position as are listed before it.
proof fn lemma_zeros_before(ns: Seq<usize>, zeros: Seq<int>, p: int)
    requires
        lists_zeros(ns, zeros),
        0 <= p <= ns.len(),
    ensures
        count(ns, true, p) <= zeros.len(),
        forall|i: int| 0 <= i < count(ns, true, p) ==> #[trigger] zeros[i] < p,
        forall|i: int| count(ns, true, p) <= i < zeros.len() ==> #[trigger] zeros[i] >= p,
    decreases p,
{
    if p > 0 {
        lemma_zeros_before(ns, zeros, p - 1);
        let c = count(ns, true, p - 1) as int;
        if ns[p - 1] == 0 {
            assert(zeros.contains(p - 1));
            let i = choose|i: int| 0 <= i < zeros.len() && zeros[i] == p - 1;
            if c < i {
                assert(zeros[c] < zeros[i]);
            }
            assert(i == c);
            assert forall|j: int| c + 1 <= j < zeros.len() implies #[trigger] zeros[j] >= p by {
                assert(zeros[c] < zeros[j]);
            }
        } else {
            assert forall|j: int| c <= j < zeros.len() implies #[trigger] zeros[j] >= p by {
                assert(ns[zeros[j]] == 0);
            }
        }
    }
}

/// The zero at position `i` of the list is counted as number `i`.
pub proof fn lemma_zero_counted(ns: Seq<usize>, zeros: Seq<int>)
    requires
        lists_zeros(ns, zeros),
    ensures
        zeros.len() == count(ns, true, ns.len() as int),
        forall|i: int| 0 <= i < zeros.len() ==> count(ns, true, #[trigger] zeros[i]) == i,
{
    lemma_zeros_before(ns, zeros, ns.len() as int);
    if count(ns, true, ns.len() as int) < zeros.len() {
        let i = zeros.len() - 1;
        assert(zeros[i] < ns.len());
    }
    assert forall|i: int| 0 <= i < zeros.len() implies count(ns, true, #[trigger] zeros[i])
        == i by {
        let c = count(ns, true, zeros[i]) as int;
        lemma_zeros_before(ns, zeros, zeros[i]);
        if c < i {
            assert(zeros[c] < zeros[i]);
        }
    }
}

/// A value is picked as the number that its depth is counted as.
pub proof fn lemma_picked_at<V>(ns: Seq<usize>, values: Seq<V>, zero: bool, i: int, p: int)
    requires
        0 <= p < i,
        (ns[p] == 0) == zero,
    ensures
        count(ns, zero, p) < picked(ns, values, zero, i).len(),
        picked(ns, values, zero, i)[count(ns, zero, p) as int] == values[p],
    decreases i,
{
    lemma_picked_len(ns, values, zero, i);
    lemma_picked_len(ns, values, zero, i - 1);
    if p < i - 1 {
        lemma_picked_at(ns, values, zero, i - 1, p);
    }
}

/// Every number is that of a depth that is counted.
proof fn lemma_counted_position(ns: Seq<usize>, zero: bool, i: int, j: int) -> (p: int)
    requires
        0 <= j < count(ns, zero, i),
        0 <= i,
    ensures
        0 <= p < i,
        (ns[p] == 0) == zero,
        count(ns, zero, p) == j,
    decreases i,
{
    if count(ns, zero, i - 1) == j {
        i - 1
    } else {
        lemma_counted_position(ns, zero, i - 1, j)
    }
}

/// What is on the stack of values before the call at position `k` gets its arguments: what was
/// there at the start, or what the call before left below the accumulators.
pub open spec fn base_at<R: Runtime>(
    s: StateView<R>,
    made: Seq<Call<R>>,
    k: int,
    acc_count: nat,
) -> Seq<ValueViewOf<R>> {
    if k == 0 {
        s.values
    } else {
        made[k - 1]->Execution_after.values.take(
            made[k - 1]->Execution_after.values.len() - acc_count,
        )
    }
}

/// The accumulator number `i` that the call at position `k` is given: the one at the start, or the
/// value that lies `i` values below the top of what the call before left.
pub open spec fn acc_at<R: Runtime>(
    accs: Seq<ValueViewOf<R>>,
    made: Seq<Call<R>>,
    k: int,
    i: int,
) -> ValueViewOf<R> {
    if k == 0 {
        accs[i]
    } else {
        let left = made[k - 1]->Execution_after.values;
        left[left.len() - 1 - i]
    }
}

/// Whether the call at position `k` is given, `p` values below the top, the row at position
/// `offset + k` of the value at position `p` of `args` where the depth there is not zero, and the
/// accumulator that belongs to position `p` where it is.
pub open spec fn given<R: Runtime>(
    ns: Seq<usize>,
    args: Seq<ValueViewOf<R>>,
    zeros: Seq<int>,
    offset: int,
    accs: Seq<ValueViewOf<R>>,
    s: StateView<R>,
    made: Seq<Call<R>>,
    k: int,
) -> bool {
    let values = made[k]->Execution_before.values;
    let base = base_at(s, made, k, zeros.len());
    &&& values.len() == base.len() + ns.len()
    &&& values.take(base.len() as int) == base
    &&& made[k]->Execution_before.functions == functions_at(s, made, k)
    &&& forall|p: int|
        0 <= p < ns.len() && #[trigger] ns[p] != 0 ==> values[values.len() - 1 - p] == args[p].row(
            offset + k,
        )
    &&& forall|i: int|
        0 <= i < zeros.len() ==> values[values.len() - 1 - #[trigger] zeros[i]] == acc_at::<R>(
            accs,
            made,
            k,
            i,
        )
}

/// Whether the calls that `made` lists execute `f` on the rows from `offset` on, and none of them
/// but the last fails, breaks or leaves too few values.
pub open spec fn marches<R: Runtime>(
    rt: R,
    f: FunctionOf<R>,
    ns: Seq<usize>,
    args: Seq<ValueViewOf<R>>,
    zeros: Seq<int>,
    offset: int,
    accs: Seq<ValueViewOf<R>>,
    s: StateView<R>,
    made: Seq<Call<R>>,
) -> bool {
    &&& forall|k: int|
        0 <= k < made.len() ==> executed(rt, f, #[trigger] made[k]) && given::<R>(
            ns,
            args,
            zeros,
            offset,
            accs,
            s,
            made,
            k,
        )
    &&& forall|k: int|
        0 <= k < made.len() - 1 ==> (#[trigger] made[k])->reply == Ok::<bool, R::Error>(false)
            && made[k]->Execution_after.values.len() >= zeros.len()
}

/// What comes of a fold over `n` positions that made the calls that `made` lists. The accumulators
/// are what the last call left on top, the first of them on top.
pub open spec fn marched<R: Runtime>(
    acc_count: nat,
    n: int,
    accs: Seq<ValueViewOf<R>>,
    s: StateView<R>,
    made: Seq<Call<R>>,
    end: StateView<R>,
    result: Result<Seq<ValueViewOf<R>>, ErrorViewOf<R>>,
) -> bool {
    &&& made.len() <= n
    &&& if made.len() == 0 {
        &&& n == 0
        &&& end.values == s.values
        &&& end.functions == s.functions
        &&& result == Ok::<_, ErrorViewOf<R>>(accs)
    } else {
        let left = made.last()->Execution_after.values;
        &&& end.functions == made.last()->Execution_after.functions
        &&& match made.last()->reply {
            Err(e) => {
                &&& end.values == left
                &&& result == Err::<Seq<ValueViewOf<R>>, _>(ErrorView::<R::Error>::Runtime(e))
            },
            Ok(broke) => if left.len() < acc_count {
                &&& end.values.len() == 0
                &&& result == Err::<Seq<ValueViewOf<R>>, _>(
                    ErrorView::<R::Error>::EmptyStack(Wanted::FoldedResult),
                )
            } else {
                &&& end.values == left.take(left.len() - acc_count)
                &&& broke || made.len() == n
                &&& result is Ok
                &&& result->Ok_0.len() == acc_count
                &&& forall|i: int|
                    0 <= i < acc_count ==> #[trigger] result->Ok_0[i] == left[left.len() - 1 - i]
            },
        }
    }
}

/// What one call of a fold is given.
proof fn lemma_given<R: Runtime>(
    ns: Seq<usize>,
    args: Seq<ValueViewOf<R>>,
    zeros: Seq<int>,
    k: int,
    accs: Seq<ValueViewOf<R>>,
    s: StateView<R>,
    call: Call<R>,
    rest: Seq<Call<R>>,
)
    requires
        lists_zeros(ns, zeros),
        call->Execution_before == (StacksView {
            values: fold_called::<R>(ns, arrays_of(ns, args), k, accs, s).values,
            functions: s.functions,
        }),
        accs.len() == zeros.len(),
    ensures
        given::<R>(ns, args, zeros, k, accs, s, seq![call] + rest, 0),
{
    let made = seq![call] + rest;
    let arrays = arrays_of(ns, args);
    let rows = nth_rows::<R>(arrays, k);
    let whole = woven(ns, accs, rows);
    let values = call->Execution_before.values;
    assert(made[0] == call);
    assert(values.take(s.values.len() as int) == s.values);
    assert forall|p: int| 0 <= p < ns.len() implies values[values.len() - 1 - p]
        == #[trigger] whole[p] by {
        assert(whole.reverse()[ns.len() - 1 - p] == whole[p]);
    }
    assert forall|p: int| 0 <= p < ns.len() && #[trigger] ns[p] != 0 implies values[values.len() - 1
        - p] == args[p].row(0 + k) by {
        lemma_picked_at(ns, args, false, ns.len() as int, p);
        assert(values[values.len() - 1 - p] == whole[p]);
    }
    lemma_zero_counted(ns, zeros);
    assert forall|i: int| 0 <= i < zeros.len() implies values[values.len() - 1
        - #[trigger] zeros[i]] == acc_at::<R>(accs, made, 0, i) by {
        assert(ns[zeros[i]] == 0);
        assert(values[values.len() - 1 - zeros[i]] == whole[zeros[i]]);
    }
}

/// One call more in front.
proof fn lemma_marches<R: Runtime>(
    rt: R,
    f: FunctionOf<R>,
    ns: Seq<usize>,
    args: Seq<ValueViewOf<R>>,
    zeros: Seq<int>,
    k: int,
    accs: Seq<ValueViewOf<R>>,
    s: StateView<R>,
    call: Call<R>,
    u: StateView<R>,
    next: Seq<ValueViewOf<R>>,
    rest: Seq<Call<R>>,
)
    requires
        executed(rt, f, call),
        given::<R>(ns, args, zeros, k, accs, s, seq![call] + rest, 0),
        rest.len() == 0 || {
            let left = call->Execution_after.values;
            &&& call->reply == Ok::<bool, R::Error>(false)
            &&& left.len() >= zeros.len()
            &&& u.values == left.take(left.len() - zeros.len())
            &&& u.functions == call->Execution_after.functions
            &&& next.len() == zeros.len()
            &&& forall|i: int| 0 <= i < zeros.len() ==> #[trigger] next[i] == left[left.len() - 1
                - i]
            &&& marches(rt, f, ns, args, zeros, k + 1, next, u, rest)
        },
    ensures
        marches(rt, f, ns, args, zeros, k, accs, s, seq![call] + rest),
{
    let made = seq![call] + rest;
    assert forall|j: int| 0 <= j < made.len() implies executed(rt, f, #[trigger] made[j])
        && given::<R>(ns, args, zeros, k, accs, s, made, j) by {
        if j > 0 {
            assert(made[j] == rest[j - 1]);
            assert(given::<R>(ns, args, zeros, k + 1, next, u, rest, j - 1));
            if j > 1 {
                assert(made[j - 1] == rest[j - 2]);
            }
            assert(k + 1 + (j - 1) == k + j);
            assert forall|i: int| 0 <= i < zeros.len() implies #[trigger] acc_at::<R>(
                next,
                rest,
                j - 1,
                i,
            ) == acc_at::<R>(accs, made, j, i) by {
                if j == 1 {
                    assert(next[i] == acc_at::<R>(accs, made, j, i));
                }
            }
        }
    }
    assert forall|j: int| 0 <= j < made.len() - 1 implies (#[trigger] made[j])->reply == Ok::<
        bool,
        R::Error,
    >(false) && made[j]->Execution_after.values.len() >= zeros.len() by {
        if j > 0 {
            assert(made[j] == rest[j - 1]);
        }
    }
}

/// What comes of a fold that goes on after its first call.
proof fn lemma_marched_on<R: Runtime>(
    acc_count: nat,
    n: int,
    accs: Seq<ValueViewOf<R>>,
    s: StateView<R>,
    call: Call<R>,
    u: StateView<R>,
    next: Seq<ValueViewOf<R>>,
    rest: Seq<Call<R>>,
    end: StateView<R>,
    result: Result<Seq<ValueViewOf<R>>, ErrorViewOf<R>>,
)
    requires
        call->reply == Ok::<bool, R::Error>(false),
        call->Execution_after.values.len() >= acc_count,
        u.values == call->Execution_after.values.take(
            call->Execution_after.values.len() - acc_count,
        ),
        u.functions == call->Execution_after.functions,
        next.len() == acc_count,
        forall|i: int|
            0 <= i < acc_count ==> #[trigger] next[i]
                == call->Execution_after.values[call->Execution_after.values.len() - 1 - i],
        marched::<R>(acc_count, n - 1, next, u, rest, end, result),
    ensures
        marched::<R>(acc_count, n, accs, s, seq![call] + rest, end, result),
{
    let made = seq![call] + rest;
    if rest.len() > 0 {
        assert(made.last() == rest.last());
    } else {
        assert(made.last() == call);
    }
}

/// What comes of a fold that ends with its first call.
proof fn lemma_marched_once<R: Runtime>(
    acc_count: nat,
    n: int,
    accs: Seq<ValueViewOf<R>>,
    s: StateView<R>,
    call: Call<R>,
    t: StateView<R>,
    reply: Result<bool, R::Error>,
    end: StateView<R>,
    result: Result<Seq<ValueViewOf<R>>, ErrorViewOf<R>>,
)
    requires
        n > 0,
        call->reply == reply,
        call->Execution_after.values == t.values,
        call->Execution_after.functions == t.functions,
        folded::<R>(acc_count, t, reply) == Step::<
            StateView<R>,
            Seq<ValueViewOf<R>>,
            Result<Seq<ValueViewOf<R>>, ErrorViewOf<R>>,
        >::Stop(end, result),
    ensures
        marched::<R>(acc_count, n, accs, s, seq![call] + Seq::<Call<R>>::empty(), end, result),
{
    let made = seq![call] + Seq::<Call<R>>::empty();
    assert(made.last() == call);
}

/// The calls of a fold over rows, and what comes of them.
#[verifier::spinoff_prover]
#[verifier::rlimit(60)]
proof fn lemma_folds_rows_trace<R: Runtime>(
    rt: R,
    f: FunctionOf<R>,
    ns: Seq<usize>,
    args: Seq<ValueViewOf<R>>,
    zeros: Seq<int>,
    n: nat,
    k: int,
    accs: Seq<ValueViewOf<R>>,
    s: StateView<R>,
    end: StateView<R>,
    result: Result<Seq<ValueViewOf<R>>, ErrorViewOf<R>>,
) -> (made: Seq<Call<R>>)
    requires
        lists_zeros(ns, zeros),
        accs.len() == zeros.len(),
        0 <= k <= n,
        folds_rows(rt, f, ns, arrays_of(ns, args), n, k, accs, s, end, result),
    ensures
        end.calls == s.calls + made,
        marches(rt, f, ns, args, zeros, k, accs, s, made),
        marched::<R>(zeros.len(), n - k, accs, s, made, end, result),
    decreases n - k,
{
    if k == n {
        assert(end.calls == s.calls + Seq::<Call<R>>::empty());
        Seq::empty()
    } else {
        let arrays = arrays_of(ns, args);
        let (t, reply) = first_folded(rt, f, ns, arrays, n, k, accs, s, end, result);
        lemma_executed(rt, f, fold_called::<R>(ns, arrays, k, accs, s), t, reply);
        let call = t.calls.last();
        assert(t.calls == s.calls.push(call));
        let made = match folded::<R>(accs.len(), t, reply) {
            Step::Go(u, next) => {
                let rest = lemma_folds_rows_trace(
                    rt,
                    f,
                    ns,
                    args,
                    zeros,
                    n,
                    k + 1,
                    next,
                    u,
                    end,
                    result,
                );
                lemma_given::<R>(ns, args, zeros, k, accs, s, call, rest);
                lemma_marches(rt, f, ns, args, zeros, k, accs, s, call, u, next, rest);
                lemma_marched_on::<R>(
                    zeros.len(),
                    n - k,
                    accs,
                    s,
                    call,
                    u,
                    next,
                    rest,
                    end,
                    result,
                );
                seq![call] + rest
            },
            Step::Stop(u, r) => {
                let none = Seq::<Call<R>>::empty();
                lemma_given::<R>(ns, args, zeros, k, accs, s, call, none);
                lemma_marches(rt, f, ns, args, zeros, k, accs, s, call, t, accs, none);
                lemma_marched_once::<R>(zeros.len(), n - k, accs, s, call, t, reply, end, result);
                seq![call] + none
            },
        };
        assert(end.calls == s.calls + made);
        made
    }
}

/// The values at the positions that `zeros` lists.
pub open spec fn values_at<V>(args: Seq<V>, zeros: Seq<int>) -> Seq<V> {
    Seq::new(zeros.len(), |i: int| args[zeros[i]])
}

/// The accumulators are the values at the positions where the depth is zero.
proof fn lemma_accs_at<V>(ns: Seq<usize>, args: Seq<V>, zeros: Seq<int>)
    requires
        lists_zeros(ns, zeros),
    ensures
        accs_of(ns, args) == values_at(args, zeros),
{
    lemma_zero_counted(ns, zeros);
    lemma_picked_len(ns, args, true, ns.len() as int);
    assert forall|i: int| 0 <= i < zeros.len() implies accs_of(ns, args)[i] == args[zeros[i]] by {
        assert(ns[zeros[i]] == 0);
        lemma_picked_at(ns, args, true, ns.len() as int, zeros[i]);
    }
    assert(accs_of(ns, args) == values_at(args, zeros));
}

/// Whether all values at positions where the depth is not zero have `n` rows.
pub open spec fn have_rows<R: Runtime>(
    ns: Seq<usize>,
    args: Seq<ValueViewOf<R>>,
    n: nat,
) -> bool {
    forall|p: int| 0 <= p < ns.len() && #[trigger] ns[p] != 0 ==> args[p].row_count() == n
}

/// Arrays that have as many rows as each other are even, and the first has as many.
proof fn lemma_even_at<R: Runtime>(
    ns: Seq<usize>,
    args: Seq<ValueViewOf<R>>,
    n: nat,
    q: int,
)
    requires
        0 <= q < ns.len(),
        ns[q] != 0,
        have_rows::<R>(ns, args, n),
    ensures
        even::<R>(arrays_of(ns, args)),
        arrays_of(ns, args)[0].row_count() == n,
{
    let total = ns.len() as int;
    let arrays = arrays_of(ns, args);
    lemma_picked_len(ns, args, false, total);
    lemma_picked_at(ns, args, false, total, q);
    assert forall|j: int| 0 <= j < arrays.len() implies (#[trigger] arrays[j]).row_count() == n by {
        let p = lemma_counted_position(ns, false, total, j);
        lemma_picked_at(ns, args, false, total, p);
        assert(ns[p] != 0);
    }
}

/// At the call number `k` of a fold to depths of zero and one, the value that lies `p` values below
/// the top of the stack is the row `k` of the value at position `p` where the depth there is one,
/// and the accumulator that belongs to position `p` where it is zero: at first the value at that
/// position itself, then what the call before left in the place of that accumulator. There is a
/// call for each row until one breaks, and the accumulators that the last one left come out.
pub proof fn law_fold_hands_over_by_position<R: Runtime>(
    rt: R,
    f: FunctionOf<R>,
    ns: Seq<usize>,
    args: Seq<ValueViewOf<R>>,
    zeros: Seq<int>,
    n: nat,
    q: int,
    s: StateView<R>,
    end: StateView<R>,
    result: Result<Seq<ValueViewOf<R>>, ErrorViewOf<R>>,
) -> (made: Seq<Call<R>>)
    requires
        lists_zeros(ns, zeros),
        forall|p: int| 0 <= p < ns.len() ==> #[trigger] ns[p] <= 1,
        0 <= q < ns.len() <= usize::MAX,
        ns[q] == 1,
        have_rows::<R>(ns, args, n),
        f.signature.args == ns.len(),
        f.signature.outputs == zeros.len(),
        folds(rt, f, ns, args, s, end, result),
    ensures
        made_between(s, end, made),
        marches(rt, f, ns, args, zeros, 0, values_at(args, zeros), s, made),
        marched::<R>(zeros.len(), n as int, values_at(args, zeros), s, made, end, result),
{
    lemma_deepest(ns);
    lemma_even_at::<R>(ns, args, n, q);
    lemma_accs_at(ns, args, zeros);
    lemma_zero_counted(ns, zeros);
    lemma_count(ns, ns.len() as int);
    assert(deepest(ns) == 1);
    lemma_folds_rows_trace(
        rt,
        f,
        ns,
        args,
        zeros,
        n,
        0,
        values_at(args, zeros),
        s,
        end,
        result,
    )
}

/// A fold to depths of zero and one refuses a function that does not take a value for each depth
/// and leave one for each depth that is zero.
pub proof fn law_fold_refuses_signature<R: Runtime>(
    rt: R,
    f: FunctionOf<R>,
    ns: Seq<usize>,
    args: Seq<ValueViewOf<R>>,
    zeros: Seq<int>,
    n: nat,
    q: int,
    s: StateView<R>,
    end: StateView<R>,
    result: Result<Seq<ValueViewOf<R>>, ErrorViewOf<R>>,
)
    requires
        lists_zeros(ns, zeros),
        forall|p: int| 0 <= p < ns.len() ==> #[trigger] ns[p] <= 1,
        0 <= q < ns.len() <= usize::MAX,
        ns[q] == 1,
        have_rows::<R>(ns, args, n),
        f.signature.args != ns.len() || f.signature.outputs != zeros.len(),
        folds(rt, f, ns, args, s, end, result),
    ensures
        end == s,
        result is Err,
        result->Err_0 is FoldSignature,
        result->Err_0->found == f.signature,
        result->Err_0->expected.args == ns.len(),
        result->Err_0->expected.outputs == zeros.len(),
{
    lemma_deepest(ns);
    lemma_even_at::<R>(ns, args, n, q);
    lemma_accs_at(ns, args, zeros);
    lemma_zero_counted(ns, zeros);
    lemma_count(ns, ns.len() as int);
    assert(deepest(ns) == 1);
    let expected = Signature { args: ns.len() as usize, outputs: zeros.len() as usize };
    assert(f.signature != expected);
}

/// A fold to depths that are all zero gives the values back.
pub proof fn law_fold_to_no_depth<R: Runtime>(
    rt: R,
    f: FunctionOf<R>,
    ns: Seq<usize>,
    args: Seq<ValueViewOf<R>>,
    s: StateView<R>,
    end: StateView<R>,
    result: Result<Seq<ValueViewOf<R>>, ErrorViewOf<R>>,
)
    requires
        forall|p: int| 0 <= p < ns.len() ==> #[trigger] ns[p] == 0,
        folds(rt, f, ns, args, s, end, result),
    ensures
        end == s,
        result == Ok::<_, ErrorViewOf<R>>(args),
{
    lemma_deepest(ns);
}

/// A fold refuses arrays with different numbers of rows. It names the first one that has another
/// number than the first array has and, if no depth is over one, the array before it, otherwise the
/// first array.
pub proof fn law_fold_refuses_uneven<R: Runtime>(
    rt: R,
    f: FunctionOf<R>,
    ns: Seq<usize>,
    args: Seq<ValueViewOf<R>>,
    first: int,
    before: int,
    odd: int,
    s: StateView<R>,
    end: StateView<R>,
    result: Result<Seq<ValueViewOf<R>>, ErrorViewOf<R>>,
)
    requires
        0 <= first <= before < odd < ns.len(),
        ns[first] != 0,
        ns[before] != 0,
        ns[odd] != 0,
        forall|p: int| 0 <= p < first ==> #[trigger] ns[p] == 0,
        forall|p: int| before < p < odd ==> #[trigger] ns[p] == 0,
        forall|p: int|
            first <= p < odd && #[trigger] ns[p] != 0 ==> args[p].row_count()
                == args[first].row_count(),
        args[odd].row_count() != args[first].row_count(),
        folds(rt, f, ns, args, s, end, result),
    ensures
        end == s,
        result is Err,
        result->Err_0 is FoldShapes,
        result->Err_0->right == args[odd].shape(),
        result->Err_0->left == if forall|p: int| 0 <= p < ns.len() ==> #[trigger] ns[p] <= 1 {
            args[before].shape()
        } else {
            args[first].shape()
        },
{
    let total = ns.len() as int;
    let arrays = arrays_of(ns, args);
    lemma_deepest(ns);
    lemma_picked_at(ns, args, false, total, first);
    lemma_picked_at(ns, args, false, total, before);
    lemma_picked_at(ns, args, false, total, odd);
    lemma_none_counted(ns, 0, first);
    lemma_none_counted(ns, before + 1, odd);
    let j = count(ns, false, odd) as int;
    assert(count(ns, false, 0) == 0);
    assert(count(ns, false, first) == 0);
    assert(count(ns, false, before + 1) == count(ns, false, before) + 1);
    assert(arrays[0] == args[first] && arrays[j] == args[odd] && arrays[j - 1] == args[before]);
    lemma_picked_len(ns, args, false, total);
    assert forall|i: int| 0 <= i < j implies (#[trigger] arrays[i]).row_count()
        == arrays[0].row_count() by {
        let p = lemma_counted_position(ns, false, odd, i);
        lemma_picked_at(ns, args, false, total, p);
        assert(ns[p] != 0);
    }
    assert(first_odd::<R>(arrays, j));
    assert(!even::<R>(arrays));
    let m = choose|m: int| #[trigger]
        first_odd::<R>(arrays, m) && result == Err::<Seq<ValueViewOf<R>>, _>(
            ErrorView::<R::Error>::FoldShapes {
                left: arrays[if deepest(ns) == 1 {
                    m - 1
                } else {
                    0
                }].shape(),
                right: arrays[m].shape(),
            },
        );
    assert(m == j) by {
        if m < j {
            assert(arrays[m].row_count() == arrays[0].row_count());
        }
        if j < m {
            assert(arrays[j].row_count() == arrays[0].row_count());
        }
    }
    assert(ns[first] >= 1);
    if forall|p: int| 0 <= p < ns.len() ==> #[trigger] ns[p] <= 1 {
        assert(deepest(ns) == 1);
    } else {
        assert(deepest(ns) > 1);
    }
}

/// Nothing is counted where every depth is zero.
proof fn lemma_none_counted(ns: Seq<usize>, a: int, b: int)
    requires
        0 <= a <= b <= ns.len(),
        forall|p: int| a <= p < b ==> #[trigger] ns[p] == 0,
    ensures
        count(ns, false, a) == count(ns, false, b),
    decreases b,
{
    if a < b {
        lemma_none_counted(ns, a, b - 1);
    }
}

/// One fold within a fold: its arguments, the states around it and what it gave.
#[verifier::reject_recursive_types(R)]
pub struct Inner<R: Runtime> {
    pub args: Seq<ValueViewOf<R>>,
    pub before: StateView<R>,
    pub after: StateView<R>,
    pub out: Result<Seq<ValueViewOf<R>>, ErrorViewOf<R>>,
}

/// The values that are carried to the fold number `k` within a fold: the accumulators, and what
/// comes after the values that have a depth.
pub open spec fn carried_in<R: Runtime>(
    carried: Seq<ValueViewOf<R>>,
    inner: Seq<Inner<R>>,
    k: int,
) -> Seq<ValueViewOf<R>> {
    if k == 0 {
        carried
    } else {
        inner[k - 1].out->Ok_0
    }
}

/// Whether the fold number `k` within a fold has, at each position where the depth is not zero, the
/// row at position `offset + k` of the value there, at each position where it is zero the
/// accumulator that belongs there, and behind these what else is carried along.
pub open spec fn inner_given<R: Runtime>(
    ns: Seq<usize>,
    args: Seq<ValueViewOf<R>>,
    zeros: Seq<int>,
    offset: int,
    carried: Seq<ValueViewOf<R>>,
    inner: Seq<Inner<R>>,
    k: int,
) -> bool {
    let here = inner[k].args;
    let from = carried_in::<R>(carried, inner, k);
    &&& here.len() >= ns.len()
    &&& here.skip(ns.len() as int) == from.skip(zeros.len() as int)
    &&& forall|p: int|
        0 <= p < ns.len() && #[trigger] ns[p] != 0 ==> here[p] == args[p].row(offset + k)
    &&& forall|i: int| 0 <= i < zeros.len() ==> here[#[trigger] zeros[i]] == from[i]
}

/// Whether the folds that `inner` lists follow each other from the state `s` on, each to the depths
/// `less`, and none of them but the last fails.
pub open spec fn nests<R: Runtime>(
    rt: R,
    f: FunctionOf<R>,
    ns: Seq<usize>,
    less: Seq<usize>,
    args: Seq<ValueViewOf<R>>,
    zeros: Seq<int>,
    offset: int,
    carried: Seq<ValueViewOf<R>>,
    s: StateView<R>,
    inner: Seq<Inner<R>>,
) -> bool {
    &&& forall|k: int|
        0 <= k < inner.len() ==> folds(
            rt,
            f,
            less,
            (#[trigger] inner[k]).args,
            inner[k].before,
            inner[k].after,
            inner[k].out,
        ) && inner_given::<R>(ns, args, zeros, offset, carried, inner, k) && inner[k].before == (
        if k == 0 {
            s
        } else {
            inner[k - 1].after
        })
    &&& forall|k: int| 0 <= k < inner.len() - 1 ==> (#[trigger] inner[k]).out is Ok
}

/// What comes of a fold of `n` folds.
pub open spec fn nested<R: Runtime>(
    n: int,
    carried: Seq<ValueViewOf<R>>,
    s: StateView<R>,
    inner: Seq<Inner<R>>,
    end: StateView<R>,
    result: Result<Seq<ValueViewOf<R>>, ErrorViewOf<R>>,
) -> bool {
    &&& inner.len() <= n
    &&& if inner.len() == 0 {
        n == 0 && end == s && result == Ok::<_, ErrorViewOf<R>>(carried)
    } else {
        &&& end == inner.last().after
        &&& result == inner.last().out
        &&& result is Ok ==> inner.len() == n
    }
}

/// The folds within a fold.
proof fn lemma_nests<R: Runtime>(
    rt: R,
    f: FunctionOf<R>,
    ns: Seq<usize>,
    args: Seq<ValueViewOf<R>>,
    zeros: Seq<int>,
    n: nat,
    k: int,
    carried: Seq<ValueViewOf<R>>,
    s: StateView<R>,
    end: StateView<R>,
    result: Result<Seq<ValueViewOf<R>>, ErrorViewOf<R>>,
) -> (inner: Seq<Inner<R>>)
    requires
        lists_zeros(ns, zeros),
        0 <= k <= n,
        folds_each(rt, f, ns, arrays_of(ns, args), n, k, carried, s, end, result),
    ensures
        nests(rt, f, ns, shallower(ns), args, zeros, k, carried, s, inner),
        nested::<R>(n - k, carried, s, inner, end, result),
    decreases n - k,
{
    if k == n {
        Seq::empty()
    } else {
        let arrays = arrays_of(ns, args);
        let (t, r) = first_inner(rt, f, ns, arrays, n, k, carried, s, end, result);
        let rows = nth_rows::<R>(arrays, k);
        let whole = woven(ns, carried, rows);
        let here = whole + carried.skip(count(ns, true, ns.len() as int) as int);
        let step = Inner { args: here, before: s, after: t, out: r };
        lemma_zero_counted(ns, zeros);
        assert(here.skip(ns.len() as int) == carried.skip(zeros.len() as int));
        assert forall|p: int| 0 <= p < ns.len() && #[trigger] ns[p] != 0 implies here[p]
            == args[p].row(k + 0) by {
            lemma_picked_at(ns, args, false, ns.len() as int, p);
            assert(here[p] == whole[p]);
        }
        assert forall|i: int| 0 <= i < zeros.len() implies here[#[trigger] zeros[i]]
            == carried[i] by {
            assert(ns[zeros[i]] == 0);
            assert(here[zeros[i]] == whole[zeros[i]]);
        }
        match r {
            Err(e) => {
                let inner = seq![step];
                assert(inner[0] == step && inner.last() == step);
                inner
            },
            Ok(next) => {
                let rest = lemma_nests(rt, f, ns, args, zeros, n, k + 1, next, t, end, result);
                let inner = seq![step] + rest;
                assert(inner[0] == step);
                assert forall|j: int| 0 <= j < inner.len() implies folds(
                    rt,
                    f,
                    shallower(ns),
                    (#[trigger] inner[j]).args,
                    inner[j].before,
                    inner[j].after,
                    inner[j].out,
                ) && inner_given::<R>(ns, args, zeros, k, carried, inner, j) && inner[j].before == (
                if j == 0 {
                    s
                } else {
                    inner[j - 1].after
                }) by {
                    if j > 0 {
                        assert(inner[j] == rest[j - 1]);
                        assert(inner_given::<R>(ns, args, zeros, k + 1, next, rest, j - 1));
                        assert(k + 1 + (j - 1) == k + j);
                        if j > 1 {
                            assert(inner[j - 1] == rest[j - 2]);
                        }
                        assert(carried_in::<R>(carried, inner, j) == carried_in::<R>(
                            next,
                            rest,
                            j - 1,
                        ));
                    }
                }
                assert forall|j: int| 0 <= j < inner.len() - 1 implies (
                #[trigger] inner[j]).out is Ok by {
                    if j > 0 {
                        assert(inner[j] == rest[j - 1]);
                    }
                }
                if rest.len() > 0 {
                    assert(inner.last() == rest.last());
                } else {
                    assert(inner.last() == step);
                }
                inner
            },
        }
    }
}

/// A fold in which a depth is over one is a fold for each row, one after the other, to depths that
/// are one less where they are not zero: each has the row at its number in the place of every value
/// whose depth is not zero, and what the fold before gave in the places of the accumulators.
pub proof fn law_deep_fold_folds_each_row<R: Runtime>(
    rt: R,
    f: FunctionOf<R>,
    ns: Seq<usize>,
    less: Seq<usize>,
    args: Seq<ValueViewOf<R>>,
    zeros: Seq<int>,
    n: nat,
    q: int,
    s: StateView<R>,
    end: StateView<R>,
    result: Result<Seq<ValueViewOf<R>>, ErrorViewOf<R>>,
) -> (inner: Seq<Inner<R>>)
    requires
        lists_zeros(ns, zeros),
        0 <= q < ns.len(),
        ns[q] > 1,
        less.len() == ns.len(),
        forall|p: int| 0 <= p < ns.len() && #[trigger] ns[p] == 0 ==> less[p] == 0,
        forall|p: int| 0 <= p < ns.len() && #[trigger] ns[p] != 0 ==> less[p] + 1 == ns[p],
        have_rows::<R>(ns, args, n),
        folds(rt, f, ns, args, s, end, result),
    ensures
        nests(
            rt,
            f,
            ns,
            less,
            args,
            zeros,
            0,
            values_at(args, zeros) + args.skip(ns.len() as int),
            s,
            inner,
        ),
        nested::<R>(
            n as int,
            values_at(args, zeros) + args.skip(ns.len() as int),
            s,
            inner,
            end,
            result,
        ),
{
    lemma_deepest(ns);
    lemma_even_at::<R>(ns, args, n, q);
    lemma_accs_at(ns, args, zeros);
    assert forall|p: int| 0 <= p < ns.len() implies less[p] == shallower(ns)[p] by {
        assert(ns[p] == 0 || ns[p] != 0);
    }
    assert(less == shallower(ns));
    let carried = values_at(args, zeros) + args.skip(ns.len() as int);
    lemma_nests(rt, f, ns, args, zeros, n, 0, carried, s, end, result)
}

} // verus!
