//! Arrays: items laid out row by row under a shape.
use crate::eco::CowSlice;
use ecow::EcoVec;
use vstd::prelude::*;

verus! {

/// How many items a shape has room for.
pub open spec fn product(shape: Seq<usize>) -> nat
    decreases shape.len(),
{
    if shape.len() == 0 {
        1
    } else {
        shape[0] as nat * product(shape.drop_first())
    }
}

/// Whether the size of every row, row of a row, and so on is a `usize`.
pub open spec fn addressable(shape: Seq<usize>) -> bool {
    forall|k: int| 1 <= k <= shape.len() ==> #[trigger] product(shape.skip(k)) <= usize::MAX
}

/// An array as a mathematical value.
#[verifier::ext_equal]
pub struct ArrayView<T> {
    pub shape: Seq<usize>,
    pub items: Seq<T>,
}

impl<T> ArrayView<T> {
    /// The items fill the shape.
    pub open spec fn wf(self) -> bool {
        &&& self.items.len() == product(self.shape)
        &&& addressable(self.shape)
    }

    /// The number of dimensions.
    pub open spec fn rank(self) -> nat {
        self.shape.len()
    }

    /// The number of rows. An array without dimensions is its own only row.
    pub open spec fn row_count(self) -> nat {
        if self.shape.len() == 0 {
            1
        } else {
            self.shape[0] as nat
        }
    }

    /// The shape of every row.
    pub open spec fn row_shape(self) -> Seq<usize> {
        if self.shape.len() == 0 {
            self.shape
        } else {
            self.shape.drop_first()
        }
    }

    /// The number of items in every row.
    pub open spec fn row_len(self) -> nat {
        product(self.row_shape())
    }

    /// The row at a position.
    pub open spec fn row(self, i: int) -> ArrayView<T> {
        ArrayView {
            shape: self.row_shape(),
            items: self.items.subrange(i * self.row_len(), i * self.row_len() + self.row_len()),
        }
    }

    /// The array without rows whose rows would have the same shape. An array without dimensions
    /// stays as it is.
    pub open spec fn without_rows(self) -> ArrayView<T> {
        if self.shape.len() == 0 {
            self
        } else {
            ArrayView { shape: self.shape.update(0, 0), items: Seq::empty() }
        }
    }

    /// The array of the first `k` rows.
    pub open spec fn first_rows(self, k: nat) -> ArrayView<T> {
        ArrayView {
            shape: self.shape.update(0, k as usize),
            items: self.items.take((k * self.row_len()) as int),
        }
    }

    /// The shape with the first two dimensions made one.
    pub open spec fn joined_shape(self) -> Seq<usize> {
        seq![(self.shape[0] * self.shape[1]) as usize] + self.shape.skip(2)
    }

    /// The items that stand at position `j` of the rows, from the first row to the last.
    pub open spec fn column(self, j: int) -> Seq<T> {
        Seq::new(self.row_count(), |i: int| self.items[i * self.row_len() + j])
    }
}

/// Dropping `k` dimensions leaves the product of the others, the first of them split off.
pub proof fn lemma_product_skip(shape: Seq<usize>, k: int)
    requires
        0 <= k < shape.len(),
    ensures
        product(shape.skip(k)) == shape[k] as nat * product(shape.skip(k + 1)),
{
    assert(shape.skip(k).drop_first() == shape.skip(k + 1));
}

/// A shape whose first dimension is zero has no room for items.
pub proof fn lemma_product_zero(shape: Seq<usize>)
    ensures
        shape.len() > 0 && shape[0] == 0 ==> product(shape) == 0,
{
    if shape.len() > 0 && shape[0] == 0 {
        assert(0 * product(shape.drop_first()) == 0) by (nonlinear_arith);
    }
}

/// Row `i` ends where row `i + 1` starts, within the items.
pub proof fn lemma_row_bounds<T>(a: ArrayView<T>, i: int)
    requires
        a.wf(),
        0 <= i < a.row_count(),
    ensures
        0 <= i * a.row_len(),
        i * a.row_len() + a.row_len() == (i + 1) * a.row_len(),
        (i + 1) * a.row_len() <= a.items.len(),
        a.items.len() == a.row_count() * a.row_len(),
{
    let n = a.row_len() as int;
    let c = a.row_count() as int;
    assert(0 <= i * n && i * n + n == (i + 1) * n && (i + 1) * n <= c * n) by (nonlinear_arith)
        requires
            0 <= i < c,
            0 <= n,
    ;
}

/// The rows of an array are arrays.
pub proof fn lemma_row_wf<T>(a: ArrayView<T>, i: int)
    requires
        a.wf(),
        0 <= i < a.row_count(),
    ensures
        a.row(i).wf(),
        a.row_len() <= usize::MAX,
{
    lemma_row_bounds(a, i);
    lemma_addressable_row(a);
}

/// The size of a row is a `usize`, and so are those of its own rows.
pub proof fn lemma_addressable_row<T>(a: ArrayView<T>)
    requires
        addressable(a.shape),
    ensures
        addressable(a.row_shape()),
        a.row_len() <= usize::MAX,
{
    if a.shape.len() > 0 {
        assert(a.shape.skip(1) == a.shape.drop_first());
        assert forall|k: int| 1 <= k <= a.row_shape().len() implies #[trigger] product(
            a.row_shape().skip(k),
        ) <= usize::MAX by {
            assert(a.row_shape().skip(k) == a.shape.skip(k + 1));
        }
    }
}

/// Making the first two dimensions one leaves room for as many items.
pub proof fn lemma_joined_shape<T>(a: ArrayView<T>)
    requires
        a.rank() >= 2,
        a.shape[0] * a.shape[1] <= usize::MAX,
        addressable(a.shape),
    ensures
        product(a.joined_shape()) == product(a.shape),
        addressable(a.joined_shape()),
{
    let joined = a.joined_shape();
    let rest = product(a.shape.skip(2)) as int;
    let x = a.shape[0] as int;
    let y = a.shape[1] as int;
    assert(a.shape.drop_first().drop_first() == a.shape.skip(2));
    assert(joined.drop_first() == a.shape.skip(2));
    assert(0 <= x * y) by (nonlinear_arith)
        requires
            0 <= x,
            0 <= y,
    ;
    assert(x * (y * rest) == (x * y) * rest) by (nonlinear_arith);
    assert(a.shape.drop_first()[0] == y);
    assert(product(a.shape.drop_first()) == y * rest);
    assert(product(a.shape) == x * (y * rest));
    assert(product(joined) == (x * y) * rest);
    assert forall|k: int| 1 <= k <= joined.len() implies #[trigger] product(joined.skip(k))
        <= usize::MAX by {
        assert(joined.skip(k) == a.shape.skip(k + 1));
    }
}

/// An array that has no rows is the same when its rows are taken away.
pub proof fn lemma_without_rows<T>(a: ArrayView<T>)
    requires
        a.wf(),
        a.row_count() == 0,
    ensures
        a.without_rows() == a,
{
    lemma_product_zero(a.shape);
    assert(a.shape.update(0, 0) == a.shape);
    assert(a.items == Seq::<T>::empty());
}

/// Items laid out row by row under a shape.
#[verifier::reject_recursive_types(T)]
pub struct Array<T> {
    shape: Vec<usize>,
    data: CowSlice<T>,
}

impl<T> View for Array<T> {
    type V = ArrayView<T>;

    closed spec fn view(&self) -> ArrayView<T> {
        ArrayView { shape: self.shape@, items: self.data@ }
    }
}

impl<T> Array<T> {
    #[verifier::type_invariant]
    spec fn filled(self) -> bool {
        self@.wf()
    }

    /// The array with a given shape and given items.
    pub fn new(shape: Vec<usize>, data: CowSlice<T>) -> (r: Self)
        requires
            data@.len() == product(shape@),
            addressable(shape@),
        ensures
            r@.shape == shape@,
            r@.items == data@,
            r@.wf(),
    {
        Array { shape, data }
    }

    /// The shape and the items.
    pub fn into_parts(self) -> (r: (Vec<usize>, CowSlice<T>))
        ensures
            r.0@ == self@.shape,
            r.1@ == self@.items,
            self@.wf(),
    {
        proof {
            use_type_invariant(&self);
        }
        (self.shape, self.data)
    }

    /// The size of each dimension.
    pub fn shape(&self) -> (r: &Vec<usize>)
        ensures
            r@ == self@.shape,
            self@.wf(),
    {
        proof {
            use_type_invariant(self);
        }
        &self.shape
    }

    /// The items, row by row.
    pub fn data(&self) -> (r: &CowSlice<T>)
        ensures
            r@ == self@.items,
            self@.wf(),
    {
        proof {
            use_type_invariant(self);
        }
        &self.data
    }

    /// The number of dimensions.
    pub fn rank(&self) -> (n: usize)
        ensures
            n == self@.rank(),
            self@.wf(),
    {
        proof {
            use_type_invariant(self);
        }
        self.shape.len()
    }

    /// The number of rows. An array without dimensions is its own only row.
    pub fn row_count(&self) -> (n: usize)
        ensures
            n == self@.row_count(),
            self@.wf(),
    {
        proof {
            use_type_invariant(self);
        }
        if self.shape.len() == 0 {
            1
        } else {
            self.shape[0]
        }
    }

    /// The number of items in every row.
    pub fn row_len(&self) -> (n: usize)
        ensures
            n == self@.row_len(),
            self@.wf(),
    {
        proof {
            use_type_invariant(self);
        }
        if self.shape.len() == 0 {
            return 1;
        }
        let mut k: usize = self.shape.len();
        let mut n: usize = 1;
        while k > 1
            invariant
                1 <= k <= self.shape@.len(),
                addressable(self.shape@),
                n == product(self.shape@.skip(k as int)),
            decreases k,
        {
            k = k - 1;
            proof {
                lemma_product_skip(self.shape@, k as int);
                assert(product(self.shape@.skip(k as int)) <= usize::MAX);
            }
            n = self.shape[k] * n;
        }
        proof {
            assert(self.shape@.skip(1) == self.shape@.drop_first());
        }
        n
    }

    /// The array with the first two dimensions made one.
    pub fn join_rows(self) -> (r: Self)
        requires
            self@.rank() >= 2,
            self@.shape[0] * self@.shape[1] <= usize::MAX,
        ensures
            r@.shape == self@.joined_shape(),
            r@.items == self@.items,
    {
        let ghost a = self@;
        let (shape, data) = self.into_parts();
        proof {
            lemma_joined_shape(a);
        }
        let mut joined: Vec<usize> = Vec::with_capacity(shape.len() - 1);
        joined.push(shape[0] * shape[1]);
        let mut i: usize = 2;
        while i < shape.len()
            invariant
                2 <= i <= shape@.len(),
                a.shape == shape@,
                joined@ == a.joined_shape().take(i - 1),
            decreases shape@.len() - i,
        {
            joined.push(shape[i]);
            i = i + 1;
        }
        assert(joined@ == a.joined_shape());
        Array { shape: joined, data }
    }
}

impl<T: Clone> Array<T> {
    /// The row at a position.
    pub fn row(&self, i: usize) -> (r: Self)
        requires
            i < self@.row_count(),
        ensures
            r@ == self@.row(i as int),
            r@.wf(),
    {
        proof {
            use_type_invariant(self);
            lemma_row_bounds(self@, i as int);
            lemma_row_wf(self@, i as int);
        }
        let n: usize = self.row_len();
        let total: usize = self.data.len();
        let mut shape = self.shape.clone();
        assert(shape@ == self.shape@);
        if shape.len() > 0 {
            shape.remove(0);
            assert(shape@ == self@.row_shape());
        }
        let start: usize = i * n;
        Array { shape, data: self.data.slice(start, start + n) }
    }

    /// The array without rows whose rows would have the shape of this array's rows. An array
    /// without dimensions stays as it is.
    pub fn first_dim_zero(&self) -> (r: Self)
        ensures
            r@ == self@.without_rows(),
    {
        proof {
            use_type_invariant(self);
        }
        let mut shape = self.shape.clone();
        assert(shape@ == self.shape@);
        if shape.len() == 0 {
            return Array { shape, data: self.data.clone() };
        }
        shape.set(0, 0);
        proof {
            assert forall|k: int| 1 <= k <= shape@.len() implies #[trigger] product(shape@.skip(k))
                <= usize::MAX by {
                assert(shape@.skip(k) == self.shape@.skip(k));
            }
            lemma_product_zero(shape@);
        }
        let data = CowSlice::new(EcoVec::new());
        Array { shape, data }
    }
}

impl<T: Clone> Clone for Array<T> {
    fn clone(&self) -> (r: Self)
        ensures
            r@ == self@,
    {
        proof {
            use_type_invariant(self);
        }
        let shape = self.shape.clone();
        assert(shape@ == self.shape@);
        Array { shape, data: self.data.clone() }
    }
}

} // verus!
