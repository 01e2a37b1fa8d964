//! A state variable that owns its updater and tells it about every new
//! value.
use std::marker::PhantomData;
use vstd::prelude::*;

verus! {

/// What happens when a state variable tagged `S` takes a new value.
pub trait UpdateState<S: StateTag<T>, T>: Clone {
    fn update_state(&self, new: &T);
}

/// A type that tags a state variable of type `T` and holds its initial
/// value.
pub trait StateTag<T>: Into<T> {}

/// A state variable: its value and the updater to tell about changes.
pub struct State<T, S: StateTag<T>, U: UpdateState<S, T>> {
    pub _marker: PhantomData<S>,
    pub updater: U,
    pub val: T,
}

impl<T, S: StateTag<T>, U: UpdateState<S, T>> State<T, S, U> {
    /// A state variable holding the value that `val` converts to.
    pub fn new(val: S, updater: U) -> (s: Self)
        ensures
            s.updater == updater,
            <S as vstd::std_specs::convert::IntoSpec<T>>::obeys_into_spec() ==> s.val
                == <S as vstd::std_specs::convert::IntoSpec<T>>::into_spec(val),
    {
        State { _marker: PhantomData, updater, val: val.into() }
    }

    /// Tells the updater about the current value.
    pub fn update_state(&self) {
        self.updater.update_state(&self.val);
    }

    /// The current value.
    pub fn borrow(&self) -> (v: &T)
        ensures
            *v == self.val,
    {
        &self.val
    }

    /// Stores a new value and tells the updater about it.
    pub fn set(&mut self, new: T)
        ensures
            final(self).val == new,
            final(self).updater == old(self).updater,
    {
        self.val = new;
        self.update_state();
    }
}

} // verus!
