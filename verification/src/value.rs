//! Values: arrays of one of five kinds of items.
use crate::array::{Array, ArrayView};
use vstd::prelude::*;

verus! {

/// An array of numbers, bytes, complex numbers, characters or boxed values.
#[verifier::reject_recursive_types(N)]
#[verifier::reject_recursive_types(C)]
#[verifier::reject_recursive_types(B)]
pub enum Value<N, C, B> {
    Num(Array<N>),
    Byte(Array<u8>),
    Complex(Array<C>),
    Char(Array<char>),
    Boxed(Array<B>),
}

/// A value as a mathematical value.
#[verifier::ext_equal]
pub enum ValueView<N, C, B> {
    Num(ArrayView<N>),
    Byte(ArrayView<u8>),
    Complex(ArrayView<C>),
    Char(ArrayView<char>),
    Boxed(ArrayView<B>),
}

impl<N, C, B> ValueView<N, C, B> {
    /// The items fill the shape.
    pub open spec fn wf(self) -> bool {
        match self {
            ValueView::Num(a) => a.wf(),
            ValueView::Byte(a) => a.wf(),
            ValueView::Complex(a) => a.wf(),
            ValueView::Char(a) => a.wf(),
            ValueView::Boxed(a) => a.wf(),
        }
    }

    /// The size of each dimension.
    pub open spec fn shape(self) -> Seq<usize> {
        match self {
            ValueView::Num(a) => a.shape,
            ValueView::Byte(a) => a.shape,
            ValueView::Complex(a) => a.shape,
            ValueView::Char(a) => a.shape,
            ValueView::Boxed(a) => a.shape,
        }
    }

    /// The number of dimensions.
    pub open spec fn rank(self) -> nat {
        self.shape().len()
    }

    /// The number of rows. A value without dimensions is its own only row.
    pub open spec fn row_count(self) -> nat {
        if self.rank() == 0 {
            1
        } else {
            self.shape()[0] as nat
        }
    }

    /// The row at a position.
    pub open spec fn row(self, i: int) -> ValueView<N, C, B> {
        match self {
            ValueView::Num(a) => ValueView::Num(a.row(i)),
            ValueView::Byte(a) => ValueView::Byte(a.row(i)),
            ValueView::Complex(a) => ValueView::Complex(a.row(i)),
            ValueView::Char(a) => ValueView::Char(a.row(i)),
            ValueView::Boxed(a) => ValueView::Boxed(a.row(i)),
        }
    }

    /// All rows in order.
    pub open spec fn rows(self) -> Seq<ValueView<N, C, B>> {
        Seq::new(self.row_count(), |i: int| self.row(i))
    }

    /// The value without rows whose rows would have the same shape. A value without dimensions
    /// stays as it is.
    pub open spec fn without_rows(self) -> ValueView<N, C, B> {
        match self {
            ValueView::Num(a) => ValueView::Num(a.without_rows()),
            ValueView::Byte(a) => ValueView::Byte(a.without_rows()),
            ValueView::Complex(a) => ValueView::Complex(a.without_rows()),
            ValueView::Char(a) => ValueView::Char(a.without_rows()),
            ValueView::Boxed(a) => ValueView::Boxed(a.without_rows()),
        }
    }

    /// The value with the first two dimensions made one. One with fewer stays as it is.
    pub open spec fn joined(self) -> ValueView<N, C, B> {
        if self.rank() < 2 {
            self
        } else {
            self.reshaped(
                seq![(self.shape()[0] * self.shape()[1]) as usize] + self.shape().skip(2),
            )
        }
    }

    /// The value with the same items under another shape.
    pub open spec fn reshaped(self, shape: Seq<usize>) -> ValueView<N, C, B> {
        match self {
            ValueView::Num(a) => ValueView::Num(ArrayView { shape, items: a.items }),
            ValueView::Byte(a) => ValueView::Byte(ArrayView { shape, items: a.items }),
            ValueView::Complex(a) => ValueView::Complex(ArrayView { shape, items: a.items }),
            ValueView::Char(a) => ValueView::Char(ArrayView { shape, items: a.items }),
            ValueView::Boxed(a) => ValueView::Boxed(ArrayView { shape, items: a.items }),
        }
    }
}

impl<N, C, B> View for Value<N, C, B> {
    type V = ValueView<N, C, B>;

    open spec fn view(&self) -> ValueView<N, C, B> {
        match self {
            Value::Num(a) => ValueView::Num(a@),
            Value::Byte(a) => ValueView::Byte(a@),
            Value::Complex(a) => ValueView::Complex(a@),
            Value::Char(a) => ValueView::Char(a@),
            Value::Boxed(a) => ValueView::Boxed(a@),
        }
    }
}

/// The views of values in order.
pub open spec fn views<N, C, B>(values: Seq<Value<N, C, B>>) -> Seq<ValueView<N, C, B>> {
    Seq::new(values.len(), |i: int| values[i]@)
}

/// The view of a value that may be there.
pub open spec fn option_view<N, C, B>(value: Option<Value<N, C, B>>) -> Option<
    ValueView<N, C, B>,
> {
    match value {
        Some(v) => Some(v@),
        None => None,
    }
}

/// The view of a value that may have failed to come about.
pub open spec fn result_view<N, C, B, E>(value: Result<Value<N, C, B>, E>) -> Result<
    ValueView<N, C, B>,
    E,
> {
    match value {
        Ok(v) => Ok(v@),
        Err(e) => Err(e),
    }
}

impl<N, C, B> Value<N, C, B> {
    /// The size of each dimension.
    pub fn shape(&self) -> (r: &Vec<usize>)
        ensures
            r@ == self@.shape(),
            self@.wf(),
    {
        match self {
            Value::Num(a) => a.shape(),
            Value::Byte(a) => a.shape(),
            Value::Complex(a) => a.shape(),
            Value::Char(a) => a.shape(),
            Value::Boxed(a) => a.shape(),
        }
    }

    /// The number of dimensions.
    pub fn rank(&self) -> (n: usize)
        ensures
            n == self@.rank(),
            self@.wf(),
    {
        self.shape().len()
    }

    /// The number of rows. A value without dimensions is its own only row.
    pub fn row_count(&self) -> (n: usize)
        ensures
            n == self@.row_count(),
            self@.wf(),
    {
        let shape = self.shape();
        if shape.len() == 0 {
            1
        } else {
            shape[0]
        }
    }
}

impl<N, C, B> Value<N, C, B> {
    /// The value with the first two dimensions made one. One with fewer stays as it is.
    pub fn join_rows(self) -> (r: Self)
        requires
            self@.rank() >= 2 ==> self@.shape()[0] * self@.shape()[1] <= usize::MAX,
        ensures
            r@ == self@.joined(),
    {
        if self.rank() < 2 {
            return self;
        }
        match self {
            Value::Num(a) => Value::Num(a.join_rows()),
            Value::Byte(a) => Value::Byte(a.join_rows()),
            Value::Complex(a) => Value::Complex(a.join_rows()),
            Value::Char(a) => Value::Char(a.join_rows()),
            Value::Boxed(a) => Value::Boxed(a.join_rows()),
        }
    }
}

impl<N: Clone, C: Clone, B: Clone> Value<N, C, B> {
    /// The row at a position.
    pub fn row(&self, i: usize) -> (r: Self)
        requires
            i < self@.row_count(),
        ensures
            r@ == self@.row(i as int),
    {
        match self {
            Value::Num(a) => Value::Num(a.row(i)),
            Value::Byte(a) => Value::Byte(a.row(i)),
            Value::Complex(a) => Value::Complex(a.row(i)),
            Value::Char(a) => Value::Char(a.row(i)),
            Value::Boxed(a) => Value::Boxed(a.row(i)),
        }
    }

    /// The value without rows whose rows would have the shape of this value's rows. A value
    /// without dimensions stays as it is.
    pub fn first_dim_zero(&self) -> (r: Self)
        ensures
            r@ == self@.without_rows(),
    {
        match self {
            Value::Num(a) => Value::Num(a.first_dim_zero()),
            Value::Byte(a) => Value::Byte(a.first_dim_zero()),
            Value::Complex(a) => Value::Complex(a.first_dim_zero()),
            Value::Char(a) => Value::Char(a.first_dim_zero()),
            Value::Boxed(a) => Value::Boxed(a.first_dim_zero()),
        }
    }
}

impl<N: Clone, C: Clone, B: Clone> Clone for Value<N, C, B> {
    fn clone(&self) -> (r: Self)
        ensures
            r@ == self@,
    {
        match self {
            Value::Num(a) => Value::Num(a.clone()),
            Value::Byte(a) => Value::Byte(a.clone()),
            Value::Complex(a) => Value::Complex(a.clone()),
            Value::Char(a) => Value::Char(a.clone()),
            Value::Boxed(a) => Value::Boxed(a.clone()),
        }
    }
}

} // verus!
