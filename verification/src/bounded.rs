//! A vector of bounded capacity, held in a `heapless::Vec`.

use vstd::prelude::*;

verus! {

/// `heapless::Vec`: opaque here. Its contents are reached through [`BoundedVec`] alone.
#[verifier::external_type_specification]
#[verifier::external_body]
#[verifier::reject_recursive_types(T)]
pub struct ExHeaplessVec<T, const N: usize>(heapless::Vec<T, N>);

/// At most `N` values of type `T`, in order, stored inline.
///
/// The view is the sequence of the values held. The storage and the view can only be changed
/// together, by the methods below, each of which makes one call into `heapless`.
#[verifier::reject_recursive_types(T)]
pub struct BoundedVec<T, const N: usize> {
    inner: heapless::Vec<T, N>,
    model: Ghost<Seq<T>>,
}

impl<T, const N: usize> View for BoundedVec<T, N> {
    type V = Seq<T>;

    closed spec fn view(&self) -> Seq<T> {
        self.model@
    }
}

impl<T, const N: usize> BoundedVec<T, N> {
    /// An empty vector (`heapless::Vec::new`).
    #[verifier::external_body]
    pub(crate) fn new() -> (v: Self)
        ensures
            v@ == Seq::<T>::empty(),
    {
        BoundedVec { inner: heapless::Vec::new(), model: Ghost(Seq::empty()) }
    }

    /// A vector that holds nothing yet.
    pub fn empty() -> (v: Self)
        ensures
            v@ == Seq::<T>::empty(),
    {
        Self::new()
    }

    /// The values held, as a slice.
    pub fn as_slice(&self) -> (s: &[T])
        ensures
            s@ == self@,
            s@.len() <= N,
    {
        self.slice()
    }

    /// The number of values held, which never exceeds `N`.
    pub fn len(&self) -> (n: usize)
        ensures
            n == self@.len(),
            n <= N,
    {
        self.slice().len()
    }

    /// The values held, as a slice (`heapless::Vec::as_slice`), of which there are at most `N`.
    #[verifier::external_body]
    pub(crate) fn slice(&self) -> (s: &[T])
        ensures
            s@ == self@,
            s@.len() <= N,
    {
        self.inner.as_slice()
    }

    /// Drops every value (`heapless::Vec::clear`).
    #[verifier::external_body]
    pub(crate) fn clear(&mut self)
        ensures
            final(self)@ == Seq::<T>::empty(),
    {
        self.inner.clear()
    }

    /// Appends `item` (`heapless::Vec::push`). A full vector is left as it was and hands the
    /// item back.
    #[verifier::external_body]
    pub(crate) fn push(&mut self, item: T) -> (r: Result<(), T>)
        ensures
            old(self)@.len() < N ==> r is Ok && final(self)@ == old(self)@.push(item),
            old(self)@.len() >= N ==> r is Err && r->Err_0 == item && final(self)@ == old(self)@,
    {
        self.inner.push(item)
    }

    /// Shortens the vector to its first `len` values; a shorter one is left as it was
    /// (`heapless::Vec::truncate`).
    #[verifier::external_body]
    pub(crate) fn truncate(&mut self, len: usize)
        ensures
            len <= old(self)@.len() ==> final(self)@ == old(self)@.take(len as int),
            len > old(self)@.len() ==> final(self)@ == old(self)@,
    {
        self.inner.truncate(len)
    }

    /// The vector without its value at `index`, which is handed out (`heapless::Vec::remove`).
    #[verifier::external_body]
    pub(crate) fn remove(&mut self, index: usize) -> (item: T)
        requires
            index < old(self)@.len(),
        ensures
            item == old(self)@[index as int],
            final(self)@ == old(self)@.remove(index as int),
    {
        self.inner.remove(index)
    }

    /// The value at `index`, to be changed in place (`heapless::Vec::as_mut_slice`, and a borrow of
    /// the element).
    #[verifier::external_body]
    pub(crate) fn at_mut(&mut self, index: usize) -> (item: &mut T)
        requires
            index < old(self)@.len(),
        ensures
            *item == old(self)@[index as int],
            final(self)@ == old(self)@.update(index as int, *final(item)),
    {
        &mut self.inner.as_mut_slice()[index]
    }

    /// True when no value is held.
    pub fn is_empty(&self) -> (b: bool)
        ensures
            b == (self@.len() == 0),
    {
        self.len() == 0
    }
}

impl<const N: usize> BoundedVec<u8, N> {
    /// Appends every byte of `other` (`heapless::Vec::extend_from_slice`). Where they
    /// do not all fit, the vector is left as it was.
    #[verifier::external_body]
    pub(crate) fn extend_from_slice(&mut self, other: &[u8]) -> (r: Result<(), ()>)
        ensures
            old(self)@.len() + other@.len() <= N ==> r is Ok && final(self)@ == old(self)@ + other@,
            old(self)@.len() + other@.len() > N ==> r is Err && final(self)@ == old(self)@,
    {
        self.inner.extend_from_slice(other)
    }

    /// Copies the bytes from `from` on to the front (`heapless::Vec::as_mut_slice`, and
    /// `copy_within` on the slice); the bytes behind the copy stay where they are.
    #[verifier::external_body]
    fn copy_to_front(&mut self, from: usize)
        requires
            from <= old(self)@.len(),
        ensures
            final(self)@ == old(self)@.skip(from as int) + old(self)@.skip(
                old(self)@.len() - from,
            ),
    {
        self.inner.as_mut_slice().copy_within(from.., 0)
    }

    /// Drops the first `n` bytes and moves the rest to the front.
    pub fn discard_front(&mut self, n: usize)
        requires
            n <= old(self)@.len(),
        ensures
            final(self)@ == old(self)@.skip(n as int),
    {
        let len: usize = self.len();
        self.copy_to_front(n);
        self.truncate(len - n);
        proof {
            assert(self@ =~= old(self)@.skip(n as int));
        }
    }

    /// A vector that holds the bytes `items`, or `None` where they do not fit.
    pub fn from_slice(items: &[u8]) -> (r: Option<Self>)
        ensures
            r is Some <==> items@.len() <= N,
            r is Some ==> r->0@ == items@,
    {
        let mut v: Self = Self::new();
        match v.extend_from_slice(items) {
            Ok(()) => {
                assert(v@ =~= items@);
                Some(v)
            },
            Err(()) => None,
        }
    }

    /// A vector that holds the same bytes.
    pub fn duplicate(&self) -> (v: Self)
        ensures
            v@ == self@,
    {
        let mut v: Self = Self::new();
        let _ = v.extend_from_slice(self.slice());
        assert(v@ =~= self@);
        v
    }
}

} // verus!
