use vstd::prelude::*;

verus! {

/// The storage of one ring slot.
///
/// Every access goes through a closure handed to `with` (shared) or `with_mut`
/// (exclusive), so the place where a slot is read or written is always explicit.
pub struct UnsafeCell<T> {
    value: T,
}

impl<T> UnsafeCell<T> {
    /// What the cell holds.
    pub closed spec fn get(&self) -> T {
        self.value
    }

    pub fn new(t: T) -> (r: UnsafeCell<T>)
        ensures
            r.get() == t,
    {
        UnsafeCell { value: t }
    }

    /// Hands the held value to `f` and returns what `f` returns.
    pub fn with<F, R>(&self, f: F) -> (r: R)
        where
            F: FnOnce(&T) -> R,
        requires
            f.requires((&self.get(),)),
        ensures
            f.ensures((&self.get(),), r),
    {
        f(&self.value)
    }

    /// Replaces the held value with what `f` makes of it.
    pub fn with_mut<F>(&mut self, f: F)
        where
            F: FnOnce(&T) -> T,
        requires
            f.requires((&old(self).get(),)),
        ensures
            f.ensures((&old(self).get(),), final(self).get()),
    {
        let v = f(&self.value);
        self.value = v;
    }
}

} // verus!
