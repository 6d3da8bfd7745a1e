//! Values that are made when they are first needed, and the cell from which a thread takes
//! such a value while it works on it.

use vstd::prelude::*;

verus! {

/// A value that is made on first use: what it is made from until then, the value from
/// then on. Once made, it is never unmade.
///
/// `Disarmed` stands in a cell for a value that was taken out to be worked on. Nothing can
/// be made from it.
pub enum LazyInit<F, T> {
    Uninitialized(F),
    Initialized(T),
    Disarmed,
}

impl<F: View, T: View> View for LazyInit<F, T> {
    type V = LazyInit<F::V, T::V>;

    open spec fn view(&self) -> LazyInit<F::V, T::V> {
        match *self {
            LazyInit::Uninitialized(f) => LazyInit::Uninitialized(f@),
            LazyInit::Initialized(t) => LazyInit::Initialized(t@),
            LazyInit::Disarmed => LazyInit::Disarmed,
        }
    }
}

impl<F, T> LazyInit<F, T> {
    /// A value that is yet to be made from `init`.
    pub fn new(init: F) -> (r: Self)
        ensures
            r == LazyInit::<F, T>::Uninitialized(init),
    {
        LazyInit::Uninitialized(init)
    }

    /// The stand-in from which nothing can be made.
    pub fn disarmed() -> (r: Self)
        ensures
            r == LazyInit::<F, T>::Disarmed,
    {
        LazyInit::Disarmed
    }

    /// Whether the value was made.
    pub fn is_initialized(&self) -> (r: bool)
        ensures
            r == (*self is Initialized),
    {
        match self {
            LazyInit::Initialized(_) => true,
            _ => false,
        }
    }

    /// The value, which was made.
    pub fn into_inner(self) -> (r: T)
        requires
            self is Initialized,
        ensures
            self == LazyInit::<F, T>::Initialized(r),
    {
        match self {
            LazyInit::Initialized(t) => t,
            _ => vstd::pervasive::unreached(),
        }
    }
}

/// A cell whose content is replaced as a whole: taken out to be worked on, and put back.
pub struct MoveCell<T> {
    inner: T,
}

impl<T: View> View for MoveCell<T> {
    type V = T::V;

    open spec fn view(&self) -> T::V {
        self.inner()@
    }
}

impl<T> MoveCell<T> {
    /// What the cell holds.
    pub closed spec fn inner(self) -> T {
        self.inner
    }

    /// A look at what the cell holds.
    pub fn borrow(&self) -> (r: &T)
        ensures
            *r == self.inner(),
    {
        &self.inner
    }

    /// A cell that holds `inner`.
    pub fn new(inner: T) -> (r: Self)
        ensures
            r.inner() == inner,
    {
        MoveCell { inner }
    }

    /// Puts `new` into the cell and hands out what it held.
    pub fn replace(&mut self, new: T) -> (r: T)
        ensures
            r == old(self).inner(),
            final(self).inner() == new,
    {
        let mut new = new;
        core::mem::swap(&mut self.inner, &mut new);
        new
    }
}

} // verus!
