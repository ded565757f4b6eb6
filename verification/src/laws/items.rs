//! What holds of reducing and scanning item by item.
use crate::array::{
    lemma_joined_shape, lemma_product_zero, lemma_row_bounds, product, ArrayView,
};
use crate::env::Runtime;
use crate::fast::{reduced, reduces, scanned};
use crate::function::Dyadic;
use crate::pervade::{com_steps, num_steps};
use crate::value::ValueView;
use vstd::prelude::*;

verus! {

/// Each item of a scan is what the column above it, down to its own row, reduces to.
pub proof fn law_scan_is_running_reduction<T>(
    step: spec_fn(T, T, T) -> bool,
    a: ArrayView<T>,
    out: ArrayView<T>,
    i: int,
    j: int,
)
    requires
        a.wf(),
        a.rank() > 0,
        scanned(step, a, out),
        0 <= i < a.row_count(),
        0 <= j < a.row_len(),
    ensures
        reduces(step, a.column(j).take(i + 1), out.items[i * a.row_len() + j]),
    decreases i,
{
    let n = a.row_len() as int;
    let k = i * n + j;
    lemma_row_bounds(a, i);
    let items = a.column(j).take(i + 1);
    assert(items.last() == a.items[k]);
    if i > 0 {
        law_scan_is_running_reduction(step, a, out, i - 1, j);
        assert((i - 1) * n + n == i * n && n <= i * n) by (nonlinear_arith)
            requires
                0 < i,
                0 <= n,
        ;
        assert(items.drop_last() == a.column(j).take(i));
        assert(out.items[k] == out.items[k]);
        assert(step(out.items[k - n], items.last(), out.items[k]));
    }
}

/// The last row of a scan is what reducing the array gives.
pub proof fn law_scan_ends_in_reduction<T>(
    step: spec_fn(T, T, T) -> bool,
    identity: T,
    a: ArrayView<T>,
    out: ArrayView<T>,
)
    requires
        a.wf(),
        a.rank() > 0,
        a.row_count() > 0,
        scanned(step, a, out),
    ensures
        reduced(step, identity, a, out.row(a.row_count() - 1)),
{
    let last = a.row_count() - 1;
    lemma_row_bounds(a, last);
    let row = out.row(last);
    assert forall|j: int| 0 <= j < a.row_len() implies reduces(
        step,
        a.column(j),
        #[trigger] row.items[j],
    ) by {
        law_scan_is_running_reduction(step, a, out, last, j);
        assert(a.column(j).take(last + 1) == a.column(j));
    }
}

/// Scanning the first rows of an array gives the first rows of its scan.
pub proof fn law_scan_of_first_rows<T>(
    step: spec_fn(T, T, T) -> bool,
    a: ArrayView<T>,
    out: ArrayView<T>,
    k: nat,
)
    requires
        a.wf(),
        a.rank() > 0,
        scanned(step, a, out),
        1 <= k <= a.row_count(),
    ensures
        a.first_rows(k).wf(),
        a.first_rows(k).row_count() == k,
        scanned(step, a.first_rows(k), out.first_rows(k)),
{
    let b = a.first_rows(k);
    lemma_row_bounds(a, k - 1);
    assert(b.shape.drop_first() == a.shape.drop_first());
    assert(product(b.shape) == k * a.row_len());
    assert forall|d: int| 1 <= d <= b.shape.len() implies #[trigger] product(b.shape.skip(d))
        <= usize::MAX by {
        assert(b.shape.skip(d) == a.shape.skip(d));
    }
    assert forall|p: int| 0 <= p < b.items.len() implies if p < b.row_len() {
        #[trigger] out.first_rows(k).items[p] == b.items[p]
    } else {
        step(
            out.first_rows(k).items[p - b.row_len()],
            b.items[p],
            out.first_rows(k).items[p],
        )
    } by {
        assert(out.items[p] == out.items[p]);
    }
}

/// Whether combining two items may give one item only.
pub open spec fn single_valued<T>(step: spec_fn(T, T, T) -> bool) -> bool {
    forall|a: T, b: T, c: T, d: T| #[trigger] step(a, b, c) && #[trigger] step(a, b, d) ==> c == d
}

/// Items reduce to one item only where combining two items may give one item only.
pub proof fn law_reduces_single_valued<T>(
    step: spec_fn(T, T, T) -> bool,
    items: Seq<T>,
    x: T,
    y: T,
)
    requires
        single_valued(step),
        reduces(step, items, x),
        reduces(step, items, y),
    ensures
        x == y,
    decreases items.len(),
{
    if items.len() > 1 {
        let rest = items.drop_last();
        let p = choose|p: T| reduces(step, rest, p) && #[trigger] step(p, items.last(), x);
        let q = choose|q: T| reduces(step, rest, q) && #[trigger] step(q, items.last(), y);
        law_reduces_single_valued(step, rest, p, q);
    }
}

/// An array reduces to one array only where combining two items may give one item only.
pub proof fn law_reduced_single_valued<T>(
    step: spec_fn(T, T, T) -> bool,
    identity: T,
    a: ArrayView<T>,
    x: ArrayView<T>,
    y: ArrayView<T>,
)
    requires
        single_valued(step),
        reduced(step, identity, a, x),
        reduced(step, identity, a, y),
    ensures
        x == y,
{
    if a.rank() > 0 {
        assert forall|j: int| 0 <= j < a.row_len() implies x.items[j] == y.items[j] by {
            assert(x.items[j] == x.items[j] && y.items[j] == y.items[j]);
            if a.row_count() > 0 {
                law_reduces_single_valued(step, a.column(j), x.items[j], y.items[j]);
            }
        }
        assert(x.items == y.items);
    }
}

/// An array has one scan only where combining two items may give one item only.
pub proof fn law_scanned_single_valued<T>(
    step: spec_fn(T, T, T) -> bool,
    a: ArrayView<T>,
    x: ArrayView<T>,
    y: ArrayView<T>,
)
    requires
        a.wf(),
        a.rank() > 0,
        single_valued(step),
        scanned(step, a, x),
        scanned(step, a, y),
    ensures
        x == y,
{
    assert forall|k: int| 0 <= k < a.items.len() implies x.items[k] == y.items[k] by {
        let n = a.row_len() as int;
        let c = a.row_count() as int;
        if c == 0 {
            lemma_product_zero(a.shape);
        } else {
            lemma_row_bounds(a, 0);
            if n == 0 {
                assert(c * n == 0) by (nonlinear_arith)
                    requires
                        n == 0,
                ;
            }
            let i = k / n;
            let j = k % n;
            assert(k == i * n + j && 0 <= j < n && 0 <= i < c) by (nonlinear_arith)
                requires
                    n > 0,
                    0 <= k < c * n,
                    i == k / n,
                    j == k % n,
            ;
            law_scan_is_running_reduction(step, a, x, i, j);
            law_scan_is_running_reduction(step, a, y, i, j);
            law_reduces_single_valued(step, a.column(j).take(i + 1), x.items[k], y.items[k]);
        }
    }
    assert(x.items == y.items);
}

/// Reducing an array with one row gives that row.
pub proof fn law_one_row_reduces_to_itself<T>(
    step: spec_fn(T, T, T) -> bool,
    identity: T,
    a: ArrayView<T>,
    out: ArrayView<T>,
)
    requires
        a.wf(),
        a.rank() > 0,
        a.row_count() == 1,
    ensures
        reduced(step, identity, a, out) <==> out == a.row(0),
{
    lemma_row_bounds(a, 0);
    assert forall|j: int| 0 <= j < a.row_len() implies a.column(j) == seq![
        #[trigger] a.row(0).items[j],
    ] by {
        assert(a.column(j)[0] == a.items[0 * a.row_len() + j]);
    }
    if reduced(step, identity, a, out) {
        assert forall|j: int| 0 <= j < a.row_len() implies out.items[j] == a.row(0).items[j] by {
            assert(reduces(step, a.column(j), out.items[j]));
        }
        assert(out.items == a.row(0).items);
    }
}

/// Reducing an array without rows gives a row of identities, whatever the function.
pub proof fn law_no_rows_reduce_to_identity<T>(
    step: spec_fn(T, T, T) -> bool,
    identity: T,
    a: ArrayView<T>,
    out: ArrayView<T>,
)
    requires
        a.rank() > 0,
        a.row_count() == 0,
    ensures
        reduced(step, identity, a, out) <==> out == (ArrayView {
            shape: a.row_shape(),
            items: Seq::new(a.row_len(), |j: int| identity),
        }),
{
    if reduced(step, identity, a, out) {
        assert(out.items == Seq::new(a.row_len(), |j: int| identity));
    }
}

/// Scanning an array without rows gives the array back.
pub proof fn law_no_rows_scan_to_themselves<T>(
    step: spec_fn(T, T, T) -> bool,
    a: ArrayView<T>,
    out: ArrayView<T>,
)
    requires
        a.wf(),
        a.row_count() == 0,
    ensures
        scanned(step, a, out) <==> out == a,
{
    lemma_product_zero(a.shape);
    if scanned(step, a, out) {
        assert(out.items == a.items);
    }
}

/// Making the first two dimensions of an array one leaves its items as they are.
proof fn lemma_joined_rows<T>(a: ArrayView<T>, b: ArrayView<T>, i: int, j: int)
    requires
        b.shape == a.joined_shape(),
        b.items == a.items,
        a.wf(),
        a.rank() >= 2,
        a.shape[0] * a.shape[1] <= usize::MAX,
        0 <= i < a.shape[0],
        0 <= j < a.shape[1],
    ensures
        b.wf(),
        b.row(i * a.shape[1] + j) == a.row(i).row(j),
{
    let m = product(a.shape.skip(2)) as int;
    let y = a.shape[1] as int;
    lemma_joined_shape(a);
    lemma_row_bounds(a, i);
    assert(a.shape.drop_first().drop_first() == a.shape.skip(2));
    assert(b.shape.drop_first() == a.shape.skip(2));
    assert(a.shape.drop_first()[0] == y);
    assert(a.row_len() == y * m);
    assert(a.row(i).row_len() == m && b.row_len() == m);
    assert((i * y + j) * m == i * (y * m) + j * m && 0 <= j * m && j * m + m <= y * m)
        by (nonlinear_arith)
        requires
            0 <= j < y,
            0 <= m,
    ;
    assert(b.row(i * y + j).items == a.row(i).row(j).items);
}

/// Joining the rows of a value leaves the rows of its rows as they are, one row after the other.
pub proof fn law_joining_keeps_rows<N, C, B>(xs: ValueView<N, C, B>, i: int, j: int)
    requires
        xs.wf(),
        xs.rank() >= 2,
        xs.shape()[0] * xs.shape()[1] <= usize::MAX,
        0 <= i < xs.shape()[0],
        0 <= j < xs.shape()[1],
    ensures
        xs.joined().wf(),
        xs.joined().row_count() == xs.shape()[0] * xs.shape()[1],
        xs.joined().row(i * xs.shape()[1] + j) == xs.row(i).row(j),
{
    assert(0 <= xs.shape()[0] * xs.shape()[1]) by (nonlinear_arith);
    match (xs, xs.joined()) {
        (ValueView::Num(a), ValueView::Num(b)) => lemma_joined_rows(a, b, i, j),
        (ValueView::Byte(a), ValueView::Byte(b)) => lemma_joined_rows(a, b, i, j),
        (ValueView::Complex(a), ValueView::Complex(b)) => lemma_joined_rows(a, b, i, j),
        (ValueView::Char(a), ValueView::Char(b)) => lemma_joined_rows(a, b, i, j),
        (ValueView::Boxed(a), ValueView::Boxed(b)) => lemma_joined_rows(a, b, i, j),
        _ => {},
    }
}

/// An operation that does not mind the order of its operands is the same when it is flipped.
pub proof fn law_flip_of_unordered<R: Runtime>(rt: R, op: Dyadic)
    requires
        !op.ordered(),
    ensures
        num_steps(rt, op, true) == num_steps(rt, op, false),
        com_steps(rt, op, true) == com_steps(rt, op, false),
{
    assert(num_steps(rt, op, true) =~= num_steps(rt, op, false));
    assert(com_steps(rt, op, true) =~= com_steps(rt, op, false));
}

/// An operation that minds the order of its operands takes them the other way round when it is
/// flipped.
pub proof fn law_flip_of_ordered<R: Runtime>(rt: R, op: Dyadic, a: R::Num, b: R::Num, c: R::Num)
    requires
        op.ordered(),
    ensures
        num_steps(rt, op, true)(a, b, c) == num_steps(rt, op, false)(b, a, c),
{
}

} // verus!
