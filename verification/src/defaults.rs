//! Values with a default fixed by the type.
use vstd::prelude::*;

verus! {

/// A `u32` that defaults to `T`.
pub struct U32Or<const T: u32>(pub u32);

impl<const T: u32> Default for U32Or<T> {
    fn default() -> (s: Self)
        ensures
            s.0 == T,
    {
        Self(T)
    }
}

/// A `bool` that defaults to `T`.
pub struct BoolOr<const T: bool>(pub bool);

impl<const T: bool> Default for BoolOr<T> {
    fn default() -> (s: Self)
        ensures
            s.0 == T,
    {
        Self(T)
    }
}

} // verus!
