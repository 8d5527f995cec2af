//! Record keys: the identity of a record, apart from what the record holds.
use std::marker::PhantomData;
use vstd::prelude::*;

verus! {

/// The key of one record of an arena of `T`: the record's position there.
///
/// Two records may hold equal data and still be different records; a key
/// tells them apart, and capacity is booked against keys, never against
/// what a record holds.
#[derive(Debug, Hash)]
pub struct RcKey<T>(pub usize, pub PhantomData<T>);

impl<T> View for RcKey<T> {
    type V = nat;

    open spec fn view(&self) -> nat {
        self.0 as nat
    }
}

impl<T> RcKey<T> {
    /// The key of the record at position `index`.
    pub fn from(index: usize) -> (key: Self)
        ensures
            key@ == index,
    {
        RcKey(index, PhantomData)
    }

    /// The position of the record that the key names.
    pub fn index(&self) -> (index: usize)
        ensures
            index == self@,
    {
        self.0
    }
}

impl<T> Clone for RcKey<T> {
    fn clone(&self) -> (key: Self)
        ensures
            key@ == self@,
    {
        RcKey(self.0, PhantomData)
    }
}

impl<T> Copy for RcKey<T> {

}

impl<T> PartialEq for RcKey<T> {
    fn eq(&self, other: &Self) -> (r: bool) {
        self.0 == other.0
    }
}

impl<T> Eq for RcKey<T> {

}

impl<T> vstd::std_specs::cmp::PartialEqSpecImpl for RcKey<T> {
    open spec fn obeys_eq_spec() -> bool {
        true
    }

    open spec fn eq_spec(&self, other: &Self) -> bool {
        self@ == other@
    }
}

} // verus!
