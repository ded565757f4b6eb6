//! Reducing and scanning numbers item by item gives what calling a function on the rows gives, if
//! the function does to two rows what is done to their items.
use crate::array::{lemma_row_bounds, ArrayView};
use crate::env::{may_reply, ErrorViewOf, FunctionOf, Runtime, StateView, ValueViewOf};
use crate::fast::{reduced, reduces, scanned};
use crate::function::Signature;
use crate::laws::calls::{first_accumulated, first_scanned};
use crate::reduce::{accumulates, collects, folds_right, optional};
use crate::scan::{scans_generic, scans_rows};
use crate::value::ValueView;
use vstd::arithmetic::div_mod::lemma_fundamental_div_mod_converse;
use vstd::prelude::*;

verus! {

/// Whether `c` has the shape of `a` and `b`, and each of its items combines those in its place.
pub open spec fn combined<T>(
    step: spec_fn(T, T, T) -> bool,
    a: ArrayView<T>,
    b: ArrayView<T>,
    c: ArrayView<T>,
) -> bool {
    &&& a.shape == b.shape && a.shape == c.shape
    &&& a.items.len() == b.items.len() && a.items.len() == c.items.len()
    &&& forall|j: int|
        0 <= j < a.items.len() ==> step(a.items[j], b.items[j], #[trigger] c.items[j])
}

/// Whether calling `f` on two arrays of numbers of one shape, the first on top, never fails or
/// breaks and leaves an array that combines them item by item.
pub open spec fn itemwise<R: Runtime>(
    rt: R,
    f: FunctionOf<R>,
    step: spec_fn(R::Num, R::Num, R::Num) -> bool,
) -> bool {
    forall|
        s: StateView<R>,
        a: ArrayView<R::Num>,
        b: ArrayView<R::Num>,
        t: StateView<R>,
        reply: Result<bool, R::Error>,
    |
        a.shape == b.shape && a.items.len() == b.items.len() && #[trigger] may_reply(
            rt,
            f,
            s.push(ValueView::Num(b)).push(ValueView::Num(a)),
            t,
            reply,
        ) ==> {
            &&& reply == Ok::<bool, R::Error>(false)
            &&& exists|c: ArrayView<R::Num>| #[trigger]
                combined(step, a, b, c) && t.stacks() == s.push(ValueView::Num(c)).stacks()
        }
}

/// What one call leaves where calls work item by item.
proof fn lemma_call<R: Runtime>(
    rt: R,
    f: FunctionOf<R>,
    step: spec_fn(R::Num, R::Num, R::Num) -> bool,
    s: StateView<R>,
    a: ArrayView<R::Num>,
    b: ArrayView<R::Num>,
    t: StateView<R>,
    reply: Result<bool, R::Error>,
) -> (c: ArrayView<R::Num>)
    requires
        itemwise(rt, f, step),
        a.shape == b.shape,
        a.items.len() == b.items.len(),
        may_reply(rt, f, s.push(ValueView::Num(b)).push(ValueView::Num(a)), t, reply),
    ensures
        reply == Ok::<bool, R::Error>(false),
        combined(step, a, b, c),
        t.values.len() > 0,
        t.top() == ValueView::<R::Num, R::Complex, R::Boxed>::Num(c),
        t.pop().stacks() == s.stacks(),
{
    let c = choose|c: ArrayView<R::Num>| #[trigger]
        combined(step, a, b, c) && t.stacks() == s.push(ValueView::Num(c)).stacks();
    assert(t.pop().stacks() == s.stacks());
    c
}

/// Whether `acc` is what the first `k` rows of `a` reduce to item by item.
spec fn reduced_to<T>(
    step: spec_fn(T, T, T) -> bool,
    a: ArrayView<T>,
    k: int,
    acc: ArrayView<T>,
) -> bool {
    &&& acc.shape == a.row_shape()
    &&& acc.items.len() == a.row_len()
    &&& forall|j: int|
        0 <= j < a.row_len() ==> reduces(step, a.column(j).take(k), #[trigger] acc.items[j])
}

/// Combining what the first `k` rows reduce to with the next row is reducing one row more.
proof fn lemma_reduced_further<T>(
    step: spec_fn(T, T, T) -> bool,
    a: ArrayView<T>,
    k: int,
    acc: ArrayView<T>,
    next: ArrayView<T>,
)
    requires
        a.wf(),
        0 < k < a.row_count(),
        reduced_to(step, a, k, acc),
        combined(step, acc, a.row(k), next),
    ensures
        reduced_to(step, a, k + 1, next),
{
    lemma_row_bounds(a, k);
    assert forall|j: int| 0 <= j < a.row_len() implies reduces(
        step,
        a.column(j).take(k + 1),
        #[trigger] next.items[j],
    ) by {
        let longer = a.column(j).take(k + 1);
        assert(longer.drop_last() == a.column(j).take(k));
        assert(longer.last() == a.row(k).items[j]);
        assert(reduces(step, longer.drop_last(), acc.items[j]));
        assert(step(acc.items[j], longer.last(), next.items[j]));
    }
}

/// Reducing by calls that work item by item reduces the columns.
proof fn lemma_accumulates_itemwise<R: Runtime>(
    rt: R,
    f: FunctionOf<R>,
    step: spec_fn(R::Num, R::Num, R::Num) -> bool,
    a: ArrayView<R::Num>,
    k: int,
    acc: ArrayView<R::Num>,
    s: StateView<R>,
    end: StateView<R>,
    result: Result<ValueViewOf<R>, ErrorViewOf<R>>,
) -> (out: ArrayView<R::Num>)
    requires
        itemwise(rt, f, step),
        a.wf(),
        0 < k <= a.row_count(),
        reduced_to(step, a, k, acc),
        accumulates(
            rt,
            f,
            ValueView::Num(a).rows(),
            k,
            ValueView::Num(acc),
            s,
            end,
            result,
        ),
    ensures
        end.stacks() == s.stacks(),
        result == Ok::<ValueViewOf<R>, ErrorViewOf<R>>(ValueView::Num(out)),
        reduced_to(step, a, a.row_count() as int, out),
    decreases a.row_count() - k,
{
    let rows = ValueView::<R::Num, R::Complex, R::Boxed>::Num(a).rows();
    if k >= rows.len() {
        acc
    } else {
        lemma_row_bounds(a, k);
        let (t, reply) = first_accumulated(
            rt,
            f,
            rows,
            k,
            ValueView::Num(acc),
            s,
            end,
            result,
        );
        let next = lemma_call(rt, f, step, s, acc, a.row(k), t, reply);
        lemma_reduced_further(step, a, k, acc, next);
        lemma_accumulates_itemwise(rt, f, step, a, k + 1, next, t.pop(), end, result)
    }
}

/// Reducing an array of numbers by calling a function of two values that works item by item, and
/// neither fails nor breaks, leaves on the stack what reducing item by item gives.
pub proof fn law_reducing_by_calls_is_itemwise<R: Runtime>(
    rt: R,
    f: FunctionOf<R>,
    step: spec_fn(R::Num, R::Num, R::Num) -> bool,
    identity: R::Num,
    a: ArrayView<R::Num>,
    s: StateView<R>,
    end: StateView<R>,
    result: Result<(), ErrorViewOf<R>>,
)
    requires
        f.signature == (Signature { args: 2, outputs: 1 }),
        itemwise(rt, f, step),
        a.wf(),
        a.row_count() > 0,
        folds_right(rt, f, ValueView::Num(a), None, s, end, result),
    ensures
        result == Ok::<(), ErrorViewOf<R>>(()),
        exists|out: ArrayView<R::Num>| #[trigger]
            reduced(step, identity, a, out) && end.stacks() == s.push(
                ValueView::Num(out),
            ).stacks(),
{
    let xs = ValueView::<R::Num, R::Complex, R::Boxed>::Num(a);
    let rows = optional(None::<ValueViewOf<R>>) + xs.rows();
    assert(rows == xs.rows());
    let (t, last) = choose|t: StateView<R>, last: Result<ValueViewOf<R>, ErrorViewOf<R>>|
        #![trigger accumulates(rt, f, rows, 1, rows[0], s, t, last)]
        accumulates(rt, f, rows, 1, rows[0], s, t, last) && match last {
            Ok(acc) => end == t.push(acc) && result == Ok::<(), ErrorViewOf<R>>(()),
            Err(e) => end == t && result == Err::<(), _>(e),
        };
    lemma_row_bounds(a, 0);
    if a.rank() == 0 {
        assert(a.row(0) == a);
        assert(reduced(step, identity, a, a));
    } else {
        let first = a.row(0);
        assert forall|j: int| 0 <= j < a.row_len() implies reduces(
            step,
            a.column(j).take(1),
            #[trigger] first.items[j],
        ) by {
            assert(a.column(j).take(1)[0] == a.items[0 * a.row_len() + j]);
        }
        let out = lemma_accumulates_itemwise(rt, f, step, a, 1, first, s, t, last);
        assert forall|j: int| 0 <= j < a.row_len() implies reduces(
            step,
            a.column(j),
            #[trigger] out.items[j],
        ) by {
            assert(a.column(j).take(a.row_count() as int) == a.column(j));
        }
        assert(reduced(step, identity, a, out));
    }
}

/// Whether `rows` starts with the first row of `a`, and each further one combines the one before it
/// with the row of `a` in its place.
spec fn running<T>(
    step: spec_fn(T, T, T) -> bool,
    a: ArrayView<T>,
    rows: Seq<ArrayView<T>>,
) -> bool {
    &&& 0 < rows.len() <= a.row_count()
    &&& rows[0] == a.row(0)
    &&& forall|i: int|
        0 < i < rows.len() ==> combined(step, rows[i - 1], a.row(i), #[trigger] rows[i])
}

/// Rows of numbers as values.
spec fn as_values<N, C, B>(rows: Seq<ArrayView<N>>) -> Seq<ValueView<N, C, B>> {
    Seq::new(rows.len(), |i: int| ValueView::Num(rows[i]))
}

/// Scanning by calls that work item by item combines each row with what the rows before it gave.
proof fn lemma_scans_itemwise<R: Runtime>(
    rt: R,
    f: FunctionOf<R>,
    step: spec_fn(R::Num, R::Num, R::Num) -> bool,
    a: ArrayView<R::Num>,
    k: int,
    done: Seq<ArrayView<R::Num>>,
    s: StateView<R>,
    end: StateView<R>,
    result: Result<Seq<ValueViewOf<R>>, ErrorViewOf<R>>,
) -> (rows: Seq<ArrayView<R::Num>>)
    requires
        itemwise(rt, f, step),
        a.wf(),
        0 < k <= a.row_count(),
        done.len() == k,
        running(step, a, done),
        scans_rows(
            rt,
            f,
            ValueView::Num(a).rows(),
            k,
            as_values(done),
            s,
            end,
            result,
        ),
    ensures
        end.stacks() == s.stacks(),
        result == Ok::<Seq<ValueViewOf<R>>, ErrorViewOf<R>>(as_values(rows)),
        running(step, a, rows),
        rows.len() == a.row_count(),
    decreases a.row_count() - k,
{
    let rows = ValueView::<R::Num, R::Complex, R::Boxed>::Num(a).rows();
    if k >= rows.len() {
        done
    } else {
        lemma_row_bounds(a, k);
        lemma_row_bounds(a, k - 1);
        let values = as_values::<R::Num, R::Complex, R::Boxed>(done);
        let (t, reply) = first_scanned(rt, f, rows, k, values, s, end, result);
        let acc = done.last();
        assert(values.last() == ValueView::<R::Num, R::Complex, R::Boxed>::Num(acc));
        assert(acc.shape == a.row(k).shape && acc.items.len() == a.row(k).items.len()) by {
            if k > 1 {
                assert(combined(step, done[k - 2], a.row(k - 1), done[k - 1]));
            }
        }
        let next = lemma_call(rt, f, step, s, acc, a.row(k), t, reply);
        assert(values.push(t.top()) == as_values::<R::Num, R::Complex, R::Boxed>(done.push(next)));
        lemma_scans_itemwise(rt, f, step, a, k + 1, done.push(next), t.pop(), end, result)
    }
}

/// Rows that run along an array, laid out one after the other, are its scan.
proof fn lemma_running_is_scan<T>(
    step: spec_fn(T, T, T) -> bool,
    a: ArrayView<T>,
    rows: Seq<ArrayView<T>>,
) -> (out: ArrayView<T>)
    requires
        a.wf(),
        a.rank() > 0,
        running(step, a, rows),
        rows.len() == a.row_count(),
    ensures
        scanned(step, a, out),
        out.row_count() == rows.len(),
        forall|i: int| 0 <= i < rows.len() ==> out.row(i) == #[trigger] rows[i],
{
    let n = a.row_len() as int;
    let c = a.row_count() as int;
    let out = ArrayView {
        shape: a.shape,
        items: Seq::new(a.items.len(), |p: int| rows[p / n].items[p % n]),
    };
    lemma_row_bounds(a, 0);
    assert forall|i: int| 0 <= i < c implies (#[trigger] rows[i]).shape == a.row_shape()
        && rows[i].items.len() == n by {
        lemma_row_bounds(a, i);
        if i > 0 {
            assert(combined(step, rows[i - 1], a.row(i), rows[i]));
        }
    }
    assert forall|i: int| 0 <= i < rows.len() implies out.row(i) == #[trigger] rows[i] by {
        lemma_row_bounds(a, i);
        assert forall|j: int| 0 <= j < n implies out.row(i).items[j] == rows[i].items[j] by {
            lemma_fundamental_div_mod_converse(i * n + j, n, i, j);
        }
        assert(out.row(i).items == rows[i].items);
    }
    assert forall|p: int| 0 <= p < a.items.len() implies if p < a.row_len() {
        #[trigger] out.items[p] == a.items[p]
    } else {
        step(out.items[p - a.row_len()], a.items[p], out.items[p])
    } by {
        if n == 0 {
            assert(c * n == 0) by (nonlinear_arith)
                requires
                    n == 0,
            ;
        }
        let i = p / n;
        let j = p % n;
        assert(p == i * n + j && 0 <= j < n && 0 <= i < c) by (nonlinear_arith)
            requires
                n > 0,
                0 <= p < c * n,
                i == p / n,
                j == p % n,
        ;
        lemma_row_bounds(a, i);
        assert(a.row(i).items[j] == a.items[p]);
        if i > 0 {
            assert(p - n == (i - 1) * n + j && n <= p) by (nonlinear_arith)
                requires
                    p == i * n + j,
                    0 < i,
                    0 <= j,
                    0 < n,
            ;
            lemma_fundamental_div_mod_converse((i - 1) * n + j, n, i - 1, j);
            assert(combined(step, rows[i - 1], a.row(i), rows[i]));
            assert(step(rows[i - 1].items[j], a.row(i).items[j], rows[i].items[j]));
        } else {
            assert(i * n == 0);
        }
    }
    out
}

/// Scanning an array of numbers by calling a function of two values that works item by item, and
/// neither fails nor breaks, puts together the rows of what scanning item by item gives.
pub proof fn law_scanning_by_calls_is_itemwise<R: Runtime>(
    rt: R,
    f: FunctionOf<R>,
    step: spec_fn(R::Num, R::Num, R::Num) -> bool,
    a: ArrayView<R::Num>,
    s: StateView<R>,
    end: StateView<R>,
    result: Result<(), ErrorViewOf<R>>,
)
    requires
        f.signature == (Signature { args: 2, outputs: 1 }),
        itemwise(rt, f, step),
        a.wf(),
        a.rank() > 0,
        a.row_count() > 0,
        scans_generic(rt, f, ValueView::Num(a), s, end, result),
    ensures
        exists|out: ArrayView<R::Num>, t: StateView<R>|
            #![trigger scanned(step, a, out), t.stacks()]
            scanned(step, a, out) && t.stacks() == s.stacks() && collects(
                rt,
                ValueView::Num(out).rows(),
                t,
                end,
                result,
            ),
{
    let xs = ValueView::<R::Num, R::Complex, R::Boxed>::Num(a);
    let (t, list) = choose|
        t: StateView<R>,
        list: Result<Seq<ValueViewOf<R>>, ErrorViewOf<R>>,
    |
        #![trigger scans_rows(rt, f, xs.rows(), 1, seq![xs.row(0)], s, t, list)]
        scans_rows(rt, f, xs.rows(), 1, seq![xs.row(0)], s, t, list) && match list {
            Ok(rows) => collects(rt, rows, t, end, result),
            Err(e) => end == t && result == Err::<(), _>(e),
        };
    let first = seq![a.row(0)];
    assert(as_values::<R::Num, R::Complex, R::Boxed>(first) == seq![xs.row(0)]);
    let rows = lemma_scans_itemwise(rt, f, step, a, 1, first, s, t, list);
    let out = lemma_running_is_scan(step, a, rows);
    let listed = ValueView::<R::Num, R::Complex, R::Boxed>::Num(out).rows();
    assert(listed == as_values::<R::Num, R::Complex, R::Boxed>(rows)) by {
        assert forall|i: int| 0 <= i < rows.len() implies listed[i] == ValueView::<
            R::Num,
            R::Complex,
            R::Boxed,
        >::Num(rows[i]) by {
            assert(out.row(i) == rows[i]);
        }
    }
    assert(scanned(step, a, out));
}

} // verus!
