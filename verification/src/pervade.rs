//! Operations on numbers, as a runtime has them.
use crate::array::{Array, ArrayView};
use crate::eco::{allocatable, eco_from_vec, CowSlice};
use crate::env::{Runtime, Uiua};
use crate::function::Dyadic;
use vstd::prelude::*;

verus! {

/// What an operation on two numbers may give. An operation that minds the order of its operands
/// takes them the other way round when it is flipped.
pub open spec fn num_steps<R: Runtime>(rt: R, op: Dyadic, flipped: bool) -> spec_fn(
    R::Num,
    R::Num,
    R::Num,
) -> bool {
    |a: R::Num, b: R::Num, c: R::Num|
        if flipped && op.ordered() {
            call_ensures(R::num_num, (&rt, op, b, a), c)
        } else {
            call_ensures(R::num_num, (&rt, op, a, b), c)
        }
}

/// What an operation on two complex numbers may give. An operation that minds the order of its
/// operands takes them the other way round when it is flipped.
pub open spec fn com_steps<R: Runtime>(rt: R, op: Dyadic, flipped: bool) -> spec_fn(
    R::Complex,
    R::Complex,
    R::Complex,
) -> bool {
    |a: R::Complex, b: R::Complex, c: R::Complex|
        if flipped && op.ordered() {
            call_ensures(R::com_x, (&rt, op, b, a), c)
        } else {
            call_ensures(R::com_x, (&rt, op, a, b), c)
        }
}

/// The byte that an operation on two bytes gives: one for true and zero for false, or the larger
/// or the smaller of the two.
pub open spec fn byte_of(op: Dyadic, a: u8, b: u8) -> u8 {
    match op {
        Dyadic::Eq => if a == b {
            1
        } else {
            0
        },
        Dyadic::Ne => if a != b {
            1
        } else {
            0
        },
        Dyadic::Max => if a < b {
            b
        } else {
            a
        },
        _ => if a < b {
            a
        } else {
            b
        },
    }
}

/// What an operation on two bytes gives.
pub open spec fn byte_steps(op: Dyadic) -> spec_fn(u8, u8, u8) -> bool {
    |a: u8, b: u8, c: u8| c == byte_of(op, a, b)
}

/// An operation on two bytes that gives a byte.
pub fn byte_byte(op: Dyadic, a: u8, b: u8) -> (c: u8)
    requires
        op.bytewise(),
    ensures
        c == byte_of(op, a, b),
{
    match op {
        Dyadic::Eq => if a == b {
            1
        } else {
            0
        },
        Dyadic::Ne => if a != b {
            1
        } else {
            0
        },
        Dyadic::Max => if a < b {
            b
        } else {
            a
        },
        _ => if a < b {
            a
        } else {
            b
        },
    }
}

/// Whether `out` has the shape of `a` and holds numbers that its bytes may stand for.
pub open spec fn converted<R: Runtime>(rt: R, a: ArrayView<u8>, out: ArrayView<R::Num>) -> bool {
    &&& out.shape == a.shape
    &&& out.items.len() == a.items.len()
    &&& forall|i: int|
        0 <= i < a.items.len() ==> call_ensures(
            R::byte_to_num,
            (&rt, a.items[i]),
            #[trigger] out.items[i],
        )
}

/// The bytes of an array as numbers.
pub fn convert<R: Runtime>(env: &Uiua<R>, bytes: Array<u8>) -> (r: Array<R::Num>)
    requires
        allocatable::<R::Num>(bytes@.items.len()),
    ensures
        converted(env.runtime(), bytes@, r@),
{
    let ghost a = bytes@;
    let (shape, data) = bytes.into_parts();
    let total: usize = data.len();
    let mut items: Vec<R::Num> = Vec::with_capacity(total);
    let mut i: usize = 0;
    while i < total
        invariant
            total == data@.len(),
            data@ == a.items,
            0 <= i <= total,
            items@.len() == i,
            forall|k: int|
                0 <= k < i ==> call_ensures(
                    R::byte_to_num,
                    (&env.runtime(), a.items[k]),
                    #[trigger] items@[k],
                ),
        decreases total - i,
    {
        items.push(env.byte_to_num(*data.get(i)));
        i = i + 1;
    }
    Array::new(shape, CowSlice::new(eco_from_vec(items)))
}

} // verus!
