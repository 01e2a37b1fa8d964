//! The traits that generated component code implements.
use std::fmt::Display;
use vstd::prelude::*;

verus! {

/// The context of a component with `N_TEXT_NODES` text nodes, `N_WALKS`
/// walks and `N_EVENT_LISTENERS` event listeners.
pub trait Context<const N_TEXT_NODES: usize, const N_WALKS: usize, const N_EVENT_LISTENERS: usize> {
    /// The component's scope.
    type Scope;
}

/// A context that can compute the content of its text node `INDEX`.
pub trait WithTextNode<
    const INDEX: usize,
    const N_TEXT_NODES: usize,
    const N_WALKS: usize,
    const N_EVENT_LISTENERS: usize,
>: Context<N_TEXT_NODES, N_WALKS, N_EVENT_LISTENERS> {
    fn get_text_node_data(&self) -> String;
}

/// A value that can be shown in a text node.
pub trait ToData {
    fn to_data(&self) -> String;
}

impl<T: Display> ToData for T {
    /// The value's `Display` text.
    fn to_data(&self) -> (s: String)
        ensures
            vstd::string::to_string_from_display_ensures::<T>(self, s),
    {
        self.to_string()
    }
}

} // verus!
