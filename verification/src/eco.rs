//! The clone-on-write vector of the `ecow` crate, and windows into it.
use core::ops::Deref;
use ecow::EcoVec;
use vstd::prelude::*;

verus! {

/// Declares `ecow::EcoVec`, whose fields stay hidden.
#[verifier::external_type_specification]
#[verifier::external_body]
#[verifier::reject_recursive_types(T)]
pub struct ExEcoVec<T>(EcoVec<T>);

/// Whether `target` is what dereferencing `pointer` may give.
pub open spec fn derefs_to<D: Deref>(pointer: &D, target: &D::Target) -> bool {
    call_ensures(<D as Deref>::deref, (pointer,), target)
}

/// The items of a vector in order: those of the slice it dereferences to.
pub open spec fn contents<T>(v: EcoVec<T>) -> Seq<T> {
    (choose|s: &[T]| derefs_to(&v, s))@
}

/// The bytes of a machine word.
pub open spec fn word() -> nat {
    (usize::BITS / 8) as nat
}

/// The alignment of an allocation that holds items of type `T` behind a header of two words.
pub open spec fn block_align<T>() -> nat {
    if vstd::layout::align_of::<T>() > word() {
        vstd::layout::align_of::<T>()
    } else {
        word()
    }
}

/// Where the items start in such an allocation.
pub open spec fn block_offset<T>() -> nat {
    if block_align::<T>() > 2 * word() {
        block_align::<T>()
    } else {
        2 * word()
    }
}

/// Whether one allocation can hold `n` items of type `T`.
pub open spec fn allocatable<T>(n: nat) -> bool {
    n == 0 || {
        &&& n <= isize::MAX
        &&& block_offset::<T>() + n * vstd::layout::size_of::<T>() < isize::MAX - block_align::<T>()
    }
}

/// Tells whether one allocation can hold `n` items of type `T`.
pub fn can_allocate<T>(n: usize) -> (r: bool)
    ensures
        r == allocatable::<T>(n as nat),
{
    if n == 0 {
        return true;
    }
    let word: usize = (usize::BITS / 8) as usize;
    let limit: usize = isize::MAX as usize;
    let mut align: usize = core::mem::align_of::<T>();
    if align < word {
        align = word;
    }
    let mut offset: usize = align;
    if offset < 2 * word {
        offset = 2 * word;
    }
    if n > limit || align >= limit {
        return false;
    }
    match n.checked_mul(core::mem::size_of::<T>()) {
        None => false,
        Some(bytes) => match offset.checked_add(bytes) {
            None => false,
            Some(total) => total < limit - align,
        },
    }
}

/// `EcoVec::new` gives a vector without items.
pub assume_specification<T>[ EcoVec::<T>::new ]() -> (v: EcoVec<T>)
    ensures
        contents(v) == Seq::<T>::empty(),
;

/// `EcoVec::as_slice` gives the slice that the vector dereferences to: `deref` is defined as it.
pub assume_specification<T>[ EcoVec::<T>::as_slice ](v: &EcoVec<T>) -> (s: &[T])
    ensures
        s@ == contents(*v),
;

/// Cloning an `EcoVec` shares its allocation, so the items are the same ones. None is cloned. How
/// many vectors share an allocation is not stated; the call panics where they are over
/// `isize::MAX`.
pub assume_specification<T: Clone>[ <EcoVec<T> as Clone>::clone ](v: &EcoVec<T>) -> (r: EcoVec<T>)
    ensures
        contents(r) == contents(*v),
;

/// `EcoVec::from_elem` fills a new vector with clones of one item. Of a type that is `Copy`, a
/// clone is documented to be the same as a copy. The call panics where the items do not fit in one
/// allocation.
#[verifier::external_body]
pub(crate) fn eco_repeat<T: Copy>(value: T, n: usize) -> (v: EcoVec<T>)
    requires
        allocatable::<T>(n as nat),
    ensures
        contents(v) == Seq::new(n as nat, |i: int| value),
{
    EcoVec::from_elem(value, n)
}

/// `EcoVec::from` on a `Vec` moves its items, in order, into a new vector. The call panics where
/// the items do not fit in one allocation.
#[verifier::external_body]
pub(crate) fn eco_from_vec<T: Clone>(items: Vec<T>) -> (v: EcoVec<T>)
    requires
        allocatable::<T>(items@.len()),
    ensures
        contents(v) == items@,
{
    EcoVec::from(items)
}

/// `EcoVec::make_mut` gives a slice of the vector's items through which they can be replaced.
/// Where the allocation is shared, it first puts clones of them into another one. Of a type that is
/// `Copy`, a clone is documented to be the same as a copy.
#[verifier::external_body]
pub(crate) fn eco_make_mut<T: Copy>(v: &mut EcoVec<T>) -> (s: &mut [T])
    ensures
        s@ == contents(*old(v)),
        final(s)@ == contents(*final(v)),
{
    v.make_mut()
}

/// A window into a clone-on-write vector. Windows into one vector share its allocation.
#[verifier::reject_recursive_types(T)]
pub struct CowSlice<T> {
    data: EcoVec<T>,
    start: usize,
    end: usize,
}

impl<T> View for CowSlice<T> {
    type V = Seq<T>;

    closed spec fn view(&self) -> Seq<T> {
        contents(self.data).subrange(self.start as int, self.end as int)
    }
}

impl<T> CowSlice<T> {
    #[verifier::type_invariant]
    spec fn in_bounds(self) -> bool {
        self.start <= self.end <= contents(self.data).len()
    }

    /// The window that shows a whole vector.
    pub fn new(data: EcoVec<T>) -> (r: Self)
        ensures
            r@ == contents(data),
    {
        let end: usize = data.as_slice().len();
        assert(contents(data).subrange(0, end as int) == contents(data));
        CowSlice { data, start: 0, end }
    }

    /// The number of items in the window.
    pub fn len(&self) -> (n: usize)
        ensures
            n == self@.len(),
    {
        proof {
            use_type_invariant(self);
        }
        self.end - self.start
    }

    /// The item at a position.
    pub fn get(&self, i: usize) -> (r: &T)
        requires
            i < self@.len(),
        ensures
            *r == self@[i as int],
    {
        proof {
            use_type_invariant(self);
        }
        &self.data.as_slice()[self.start + i]
    }

    /// The window cut down to its first `n` items.
    pub fn truncate(self, n: usize) -> (r: Self)
        requires
            n <= self@.len(),
        ensures
            r@ == self@.take(n as int),
    {
        proof {
            use_type_invariant(&self);
        }
        let CowSlice { data, start, end } = self;
        assert(contents(data).subrange(start as int, end as int).take(n as int)
            == contents(data).subrange(start as int, start + n));
        CowSlice { data, start, end: start + n }
    }
}

impl<T: Clone> CowSlice<T> {
    /// The window on the items from `from` up to, not including, `to`.
    pub fn slice(&self, from: usize, to: usize) -> (r: Self)
        requires
            from <= to <= self@.len(),
        ensures
            r@ == self@.subrange(from as int, to as int),
    {
        proof {
            use_type_invariant(self);
        }
        let data = self.data.clone();
        assert(contents(data).subrange(self.start as int, self.end as int).subrange(
            from as int,
            to as int,
        ) == contents(data).subrange(self.start + from, self.start + to));
        CowSlice { data, start: self.start + from, end: self.start + to }
    }
}

impl<T: Clone> Clone for CowSlice<T> {
    fn clone(&self) -> (r: Self)
        ensures
            r@ == self@,
    {
        proof {
            use_type_invariant(self);
        }
        CowSlice { data: self.data.clone(), start: self.start, end: self.end }
    }
}

impl<T: Copy> CowSlice<T> {
    /// The window with the item at a position replaced.
    pub fn set(self, i: usize, value: T) -> (r: Self)
        requires
            i < self@.len(),
        ensures
            r@ == self@.update(i as int, value),
    {
        proof {
            use_type_invariant(&self);
        }
        let CowSlice { data, start, end } = self;
        let mut data = data;
        let items = eco_make_mut(&mut data);
        items[start + i] = value;
        let r = CowSlice { data, start, end };
        assert(r@ == self@.update(i as int, value));
        r
    }
}

} // verus!
