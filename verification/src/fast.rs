//! Reducing and scanning arrays item by item with a function of two items.
use crate::array::{lemma_addressable_row, lemma_product_zero, lemma_row_bounds, Array, ArrayView};
use crate::eco::{allocatable, eco_repeat, CowSlice};
use ecow::EcoVec;
use vstd::prelude::*;

verus! {

/// Whether combining the items one after the other, each with what the items before it gave, may
/// end in `result`. The first item is where it starts. `step(a, b, c)` says that combining `a`
/// and `b` may give `c`.
pub open spec fn reduces<T>(step: spec_fn(T, T, T) -> bool, items: Seq<T>, result: T) -> bool
    decreases items.len(),
{
    if items.len() == 0 {
        false
    } else if items.len() == 1 {
        result == items[0]
    } else {
        exists|before: T|
            reduces(step, items.drop_last(), before) && #[trigger] step(
                before,
                items.last(),
                result,
            )
    }
}

/// Whether `out` has one row, without the dimension of the rows, in which each item is what the
/// column of `a` above it reduces to, or `identity` where `a` has no rows.
pub open spec fn reduced<T>(
    step: spec_fn(T, T, T) -> bool,
    identity: T,
    a: ArrayView<T>,
    out: ArrayView<T>,
) -> bool {
    if a.rank() == 0 {
        out == a
    } else {
        &&& out.shape == a.row_shape()
        &&& out.items.len() == a.row_len()
        &&& forall|j: int|
            0 <= j < a.row_len() ==> if a.row_count() == 0 {
                #[trigger] out.items[j] == identity
            } else {
                reduces(step, a.column(j), out.items[j])
            }
    }
}

/// Whether `out` has the shape and the first row of `a`, and each further item combines the item
/// one row above it in `out` with the item of `a` that stands in its place.
pub open spec fn scanned<T>(
    step: spec_fn(T, T, T) -> bool,
    a: ArrayView<T>,
    out: ArrayView<T>,
) -> bool {
    &&& out.shape == a.shape
    &&& out.items.len() == a.items.len()
    &&& forall|k: int|
        0 <= k < a.items.len() ==> if k < a.row_len() {
            #[trigger] out.items[k] == a.items[k]
        } else {
            step(out.items[k - a.row_len()], a.items[k], out.items[k])
        }
}

/// What an executable function of two items may give.
pub open spec fn steps<T, F: Fn(T, T) -> T>(f: F) -> spec_fn(T, T, T) -> bool {
    |a: T, b: T, c: T| call_ensures(f, (a, b), c)
}

/// What may come of combining items may also come of it where combining two items may give more.
pub proof fn lemma_reduces_weaken<T>(
    step: spec_fn(T, T, T) -> bool,
    weaker: spec_fn(T, T, T) -> bool,
    items: Seq<T>,
    result: T,
)
    requires
        forall|a: T, b: T, c: T| #[trigger] step(a, b, c) ==> weaker(a, b, c),
        reduces(step, items, result),
    ensures
        reduces(weaker, items, result),
    decreases items.len(),
{
    if items.len() > 1 {
        let before = choose|before: T|
            reduces(step, items.drop_last(), before) && #[trigger] step(
                before,
                items.last(),
                result,
            );
        lemma_reduces_weaken(step, weaker, items.drop_last(), before);
        assert(weaker(before, items.last(), result));
    }
}

/// What may come of reducing an array may also come of it where combining two items may give more.
pub proof fn lemma_reduced_weaken<T>(
    step: spec_fn(T, T, T) -> bool,
    weaker: spec_fn(T, T, T) -> bool,
    identity: T,
    a: ArrayView<T>,
    out: ArrayView<T>,
)
    requires
        forall|x: T, y: T, z: T| #[trigger] step(x, y, z) ==> weaker(x, y, z),
        reduced(step, identity, a, out),
    ensures
        reduced(weaker, identity, a, out),
{
    if a.rank() > 0 && a.row_count() > 0 {
        assert forall|j: int| 0 <= j < a.row_len() implies reduces(
            weaker,
            a.column(j),
            #[trigger] out.items[j],
        ) by {
            lemma_reduces_weaken(step, weaker, a.column(j), out.items[j]);
        }
    }
}

/// What may come of scanning an array may also come of it where combining two items may give more.
pub proof fn lemma_scanned_weaken<T>(
    step: spec_fn(T, T, T) -> bool,
    weaker: spec_fn(T, T, T) -> bool,
    a: ArrayView<T>,
    out: ArrayView<T>,
)
    requires
        forall|x: T, y: T, z: T| #[trigger] step(x, y, z) ==> weaker(x, y, z),
        scanned(step, a, out),
    ensures
        scanned(weaker, a, out),
{
}

/// Combines the rows of an array, item by item, into one row.
pub fn fast_reduce<T: Copy, F: Fn(T, T) -> T>(arr: Array<T>, identity: T, f: F) -> (r: Array<T>)
    requires
        forall|a: T, b: T| call_requires(f, (a, b)),
        arr@.rank() > 0 && arr@.row_count() == 0 ==> allocatable::<T>(arr@.row_len()),
    ensures
        reduced(steps(f), identity, arr@, r@),
        r@.wf(),
{
    let ghost a = arr@;
    let ghost step = steps(f);
    if arr.rank() == 0 {
        return arr;
    }
    let row_len: usize = arr.row_len();
    let row_count: usize = arr.row_count();
    let (mut shape, mut data) = arr.into_parts();
    proof {
        lemma_addressable_row(a);
    }
    shape.remove(0);
    assert(shape@ == a.row_shape());
    if row_len == 0 {
        return Array::new(shape, CowSlice::new(EcoVec::new()));
    }
    if row_count == 0 {
        return Array::new(shape, CowSlice::new(eco_repeat(identity, row_len)));
    }
    proof {
        lemma_row_bounds(a, 0);
        assert forall|j: int| 0 <= j < row_len implies reduces(
            step,
            a.column(j).take(1),
            #[trigger] data@[j],
        ) by {
            assert(a.column(j).take(1)[0] == a.items[0 * a.row_len() + j]);
        }
    }
    let total: usize = data.len();
    let mut i: usize = 1;
    while i < row_count
        invariant
            forall|x: T, y: T| call_requires(f, (x, y)),
            step == steps(f),
            a.wf(),
            a.rank() > 0,
            row_len == a.row_len(),
            row_count == a.row_count(),
            1 <= i <= row_count,
            0 < row_len <= total,
            total == data@.len(),
            data@.len() == a.items.len(),
            forall|k: int| row_len <= k < data@.len() ==> data@[k] == a.items[k],
            forall|j: int|
                0 <= j < row_len ==> reduces(
                    step,
                    a.column(j).take(i as int),
                    #[trigger] data@[j],
                ),
        decreases row_count - i,
    {
        proof {
            lemma_row_bounds(a, i as int);
            assert(row_len <= i * row_len) by (nonlinear_arith)
                requires
                    1 <= i,
                    0 < row_len,
            ;
        }
        let start: usize = i * row_len;
        let mut j: usize = 0;
        while j < row_len
            invariant
                forall|x: T, y: T| call_requires(f, (x, y)),
                step == steps(f),
                row_len == a.row_len(),
                row_count == a.row_count(),
                1 <= i < row_count,
                0 <= j <= row_len <= start,
                start == i * row_len,
                start + row_len <= total,
                total == data@.len(),
                data@.len() == a.items.len(),
                forall|k: int| row_len <= k < data@.len() ==> data@[k] == a.items[k],
                forall|k: int|
                    j <= k < row_len ==> reduces(
                        step,
                        a.column(k).take(i as int),
                        #[trigger] data@[k],
                    ),
                forall|k: int|
                    0 <= k < j ==> reduces(step, a.column(k).take(i + 1), #[trigger] data@[k]),
            decreases row_len - j,
        {
            let before: T = *data.get(j);
            let item: T = *data.get(start + j);
            let value: T = f(before, item);
            proof {
                let longer = a.column(j as int).take(i + 1);
                assert(longer.drop_last() == a.column(j as int).take(i as int));
                assert(longer.last() == a.items[i * a.row_len() + j]);
                assert(reduces(step, longer.drop_last(), before) && step(
                    before,
                    longer.last(),
                    value,
                ));
                assert(reduces(step, longer, value));
            }
            data = data.set(j, value);
            j = j + 1;
        }
        i = i + 1;
    }
    proof {
        assert forall|j: int| 0 <= j < row_len implies reduces(
            step,
            a.column(j),
            #[trigger] data@.take(row_len as int)[j],
        ) by {
            assert(reduces(step, a.column(j).take(i as int), data@[j]));
            assert(a.column(j).take(i as int) == a.column(j));
        }
    }
    Array::new(shape, data.truncate(row_len))
}

/// Combines each row of an array, item by item, with what the rows before it gave.
pub fn fast_scan<T: Copy, F: Fn(T, T) -> T>(arr: Array<T>, f: F) -> (r: Array<T>)
    requires
        forall|a: T, b: T| call_requires(f, (a, b)),
        arr@.rank() > 0,
    ensures
        scanned(steps(f), arr@, r@),
        r@.wf(),
{
    let ghost a = arr@;
    let ghost step = steps(f);
    if arr.row_count() == 0 {
        proof {
            lemma_product_zero(a.shape);
        }
        return arr;
    }
    let row_len: usize = arr.row_len();
    let (shape, mut data) = arr.into_parts();
    proof {
        lemma_row_bounds(a, 0);
        assert(row_len == 0 ==> a.items.len() == 0) by (nonlinear_arith)
            requires
                a.items.len() == a.row_count() * a.row_len(),
                row_len == a.row_len(),
        ;
    }
    let total: usize = data.len();
    let mut k: usize = row_len;
    while k < total
        invariant
            forall|x: T, y: T| call_requires(f, (x, y)),
            step == steps(f),
            row_len == a.row_len(),
            row_len <= k <= total,
            total == data@.len(),
            data@.len() == a.items.len(),
            forall|i: int| k <= i < total ==> data@[i] == a.items[i],
            forall|i: int|
                0 <= i < k ==> if i < row_len {
                    #[trigger] data@[i] == a.items[i]
                } else {
                    step(data@[i - row_len], a.items[i], data@[i])
                },
            row_len == 0 ==> total == 0,
        decreases total - k,
    {
        let value: T = f(*data.get(k - row_len), *data.get(k));
        data = data.set(k, value);
        k = k + 1;
    }
    Array::new(shape, data)
}

} // verus!
