//! The traits of reactive state cells: a tag that reacts to changes of its
//! cell within a scope, and values shown in the document.
use std::fmt::Display;
use vstd::prelude::*;

verus! {

/// A scope that state cells belong to.
pub trait Scope {}

/// Tags a state cell of a scope: reacts when the cell has changed.
pub trait StateTag<ScopeType: Scope> {
    fn on_change(&self, scope: &ScopeType);
}

/// A value that can be shown in the document.
pub trait ToDomString {
    fn to_dom_string(&self) -> String;
}

impl<T: Display> ToDomString for T {
    /// The value's `Display` text.
    fn to_dom_string(&self) -> (s: String)
        ensures
            vstd::string::to_string_from_display_ensures::<T>(self, s),
    {
        self.to_string()
    }
}

} // verus!
