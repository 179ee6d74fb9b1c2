//! A value built from its type's default.
use vstd::prelude::*;

verus! {

/// Holds a value that was made by `Default`.
pub struct FromDefault<T>(pub T);

impl<T: Default> FromDefault<T> {
    /// Wraps the default value of `T`.
    pub fn new() -> (r: FromDefault<T>)
        ensures
            call_ensures(T::default, (), r.0),
    {
        FromDefault(T::default())
    }
}

impl<T> FromDefault<T> {
    /// The wrapped value.
    pub fn get(&self) -> (r: &T)
        ensures
            *r == self.0,
    {
        &self.0
    }

    /// Unwraps the value.
    pub fn into_inner(self) -> (r: T)
        ensures
            r == self.0,
    {
        self.0
    }
}

} // verus!
