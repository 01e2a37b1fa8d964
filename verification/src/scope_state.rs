//! A state variable of a component that tells the component's updater
//! about every new value.
use std::marker::PhantomData;
use std::rc::Rc;
use vstd::prelude::*;

verus! {

/// What a component does when one of its state variables, tagged `S`, takes
/// a new value: typically it refreshes the text nodes showing it.
pub trait UpdateState<S: StateTag<T>, T> {
    fn update_state(&self, new: &T);
}

/// A type that tags a state variable of type `T` and holds its initial
/// value.
pub trait StateTag<T>: Into<T> {}

/// A state variable: its value and the updater to tell about changes.
pub struct ScopeState<T, S: StateTag<T>, U: UpdateState<S, T>> {
    pub _marker: PhantomData<S>,
    pub updater: Rc<U>,
    pub val: T,
}

impl<T, S: StateTag<T>, U: UpdateState<S, T>> ScopeState<T, S, U> {
    /// A state variable holding the value that `val` converts to.
    pub fn new(val: S, updater: Rc<U>) -> (s: Self)
        ensures
            s.updater == updater,
            <S as vstd::std_specs::convert::IntoSpec<T>>::obeys_into_spec() ==> s.val
                == <S as vstd::std_specs::convert::IntoSpec<T>>::into_spec(val),
    {
        ScopeState { _marker: PhantomData, updater, val: val.into() }
    }

    /// Tells the updater about the current value.
    pub fn update_state(&self) {
        self.updater.update_state(&self.val);
    }

    /// The current value.
    pub fn borrow(&self) -> (v: &T)
        ensures
            *v == self.val,
    {
        &self.val
    }

    /// Stores a new value and tells the updater about it.
    pub fn set(&mut self, new: T)
        ensures
            final(self).val == new,
            final(self).updater == old(self).updater,
    {
        self.val = new;
        self.update_state();
    }
}

} // verus!
