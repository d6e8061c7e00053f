//! Owned value holders: one that can only be read, one that can be replaced.

use std::sync::Arc;
use vstd::prelude::*;

verus! {

/// A value that is fixed once built and can only be read afterwards.
pub struct Immutable<T> {
    store: Arc<T>,
}

impl<T> Immutable<T> {
    /// The value held.
    pub closed spec fn value(&self) -> T {
        *self.store
    }

    /// Builds the holder from anything that converts into `T`.
    pub fn new<V>(value: V) -> (result: Self) where V: Into<T>
        ensures
            <V as vstd::std_specs::convert::IntoSpec<T>>::obeys_into_spec() ==> result.value()
                == <V as vstd::std_specs::convert::IntoSpec<T>>::into_spec(value),
    {
        Self { store: Arc::new(value.into()) }
    }

    /// A shared reference to the value held.
    pub fn get(&self) -> (result: &T)
        ensures
            *result == self.value(),
    {
        &*self.store
    }
}

/// A value held by its owner, who can read it and replace it.
pub struct Mutable<T> {
    store: T,
}

impl<T> Mutable<T> {
    /// The value held.
    pub closed spec fn value(&self) -> T {
        self.store
    }

    /// Builds the holder from anything that converts into `T`.
    pub fn new<V>(value: V) -> (result: Self) where V: Into<T>
        ensures
            <V as vstd::std_specs::convert::IntoSpec<T>>::obeys_into_spec() ==> result.value()
                == <V as vstd::std_specs::convert::IntoSpec<T>>::into_spec(value),
    {
        Self { store: value.into() }
    }

    /// A reference to the value held.
    pub fn get(&self) -> (result: &T)
        ensures
            *result == self.value(),
    {
        &self.store
    }

    /// Replaces the value held by the conversion of `value`.
    pub fn set<V>(&mut self, value: V) where V: Into<T>
        ensures
            <V as vstd::std_specs::convert::IntoSpec<T>>::obeys_into_spec() ==> final(self).value()
                == <V as vstd::std_specs::convert::IntoSpec<T>>::into_spec(value),
    {
        self.store = value.into();
    }
}

} // verus!
