//! Atomic cells, modelled sequentially: every operation takes effect at once
//! and exclusively.
use vstd::prelude::*;

verus! {

/// Types that can be stored in an atomic cell: they convert into the bits of
/// the underlying integer, and values are compared by their bits.
pub trait Atomic: Sized + Copy {
    /// The bits of the value.
    spec fn bits(self) -> u64;

    /// The bits of the value.
    fn into_bits(self) -> (r: u64)
        ensures
            r == self.bits(),
    ;
}

impl Atomic for u32 {
    open spec fn bits(self) -> u64 {
        self as u64
    }

    fn into_bits(self) -> (r: u64) {
        self as u64
    }
}

impl Atomic for u64 {
    open spec fn bits(self) -> u64 {
        self
    }

    fn into_bits(self) -> (r: u64) {
        self
    }
}

/// Atomic value.
pub struct Atom<T: Atomic> {
    v: T,
}

impl<T: Atomic> View for Atom<T> {
    type V = T;

    closed spec fn view(&self) -> T {
        self.v
    }
}

impl<T: Atomic> Atom<T> {
    /// A cell holding `v`.
    pub fn new(v: T) -> (r: Self)
        ensures
            r@ == v,
    {
        Atom { v }
    }

    /// The current value.
    pub fn load(&self) -> (r: T)
        ensures
            r == self@,
    {
        self.v
    }

    /// Replace the value.
    pub fn store(&mut self, v: T)
        ensures
            final(self)@ == v,
    {
        self.v = v;
    }

    /// Replace the value, returning the previous one.
    pub fn swap(&mut self, v: T) -> (r: T)
        ensures
            r == old(self)@,
            final(self)@ == v,
    {
        let r = self.v;
        self.v = v;
        r
    }

    /// Replace the value by `new` if it has the bits of `current`; returns
    /// the previous value, as `Ok` if it was replaced.
    pub fn compare_exchange(&mut self, current: T, new: T) -> (r: Result<T, T>)
        ensures
            old(self)@.bits() == current.bits() ==> r == Ok::<T, T>(old(self)@) && final(self)@ == new,
            old(self)@.bits() != current.bits() ==> r == Err::<T, T>(old(self)@) && final(self)@ == old(self)@,
    {
        let v = self.v;
        if v.into_bits() == current.into_bits() {
            self.v = new;
            Ok(v)
        } else {
            Err(v)
        }
    }

    /// Replace the value by `f` of it if that is `Some`; returns the previous
    /// value, as `Ok` if it was replaced.
    pub fn fetch_update<F: Fn(T) -> Option<T>>(&mut self, f: F) -> (r: Result<T, T>)
        requires
            f.requires((old(self)@,)),
        ensures
            match r {
                Ok(v) => v == old(self)@ && f.ensures((v,), Some(final(self)@)),
                Err(v) => v == old(self)@ && f.ensures((v,), None::<T>) && final(self)@ == old(self)@,
            },
    {
        let v = self.v;
        match f(v) {
            Some(n) => {
                self.v = n;
                Ok(v)
            },
            None => Err(v),
        }
    }
}

impl Atom<u64> {
    /// Bitwise and with `v`, returning the previous value.
    pub fn fetch_and(&mut self, v: u64) -> (r: u64)
        ensures
            r == old(self)@,
            final(self)@ == old(self)@ & v,
    {
        let r = self.v;
        self.v = r & v;
        r
    }

    /// Bitwise or with `v`, returning the previous value.
    pub fn fetch_or(&mut self, v: u64) -> (r: u64)
        ensures
            r == old(self)@,
            final(self)@ == old(self)@ | v,
    {
        let r = self.v;
        self.v = r | v;
        r
    }
}

impl<T: Atomic + Default> Default for Atom<T> {
    fn default() -> (r: Self)
        ensures
            call_ensures(T::default, (), r@),
    {
        Self::new(T::default())
    }
}

} // verus!
