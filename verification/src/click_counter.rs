//! A button that counts its clicks and shows the count in a text node.
use vstd::prelude::*;

use crate::text::{decimal, u32_text};

verus! {

/// The type of the counter's state.
pub type Count = u32;

/// The counter's state.
#[derive(Clone, Copy)]
pub struct State {
    count: Count,
}

impl State {
    /// No clicks yet.
    pub fn new() -> (s: Self)
        ensures
            s.count() == 0,
    {
        State { count: 0 }
    }

    /// The number of clicks.
    pub closed spec fn count(&self) -> Count {
        self.count
    }
}

/// A mounted counter: its state and the content of its text node.
pub struct Scope {
    state: State,
    text_node: String,
}

impl Scope {
    /// The number of clicks.
    pub closed spec fn count(&self) -> Count {
        self.state.count
    }

    /// The content of the text node.
    pub closed spec fn text(&self) -> Seq<char> {
        self.text_node@
    }

    /// The text node shows the count.
    pub open spec fn shows_count(&self) -> bool {
        self.text() == decimal(self.count() as int)
    }

    /// Mounts a counter with no clicks over a text node showing
    /// `text_node`.
    pub fn new(text_node: String) -> (s: Self)
        ensures
            s.count() == 0,
            s.text() == text_node@,
    {
        Scope { state: State::new(), text_node }
    }

    /// The number of clicks.
    pub fn get_count(&self) -> (c: Count)
        ensures
            c == self.count(),
    {
        self.state.count
    }

    /// The content of the text node.
    pub fn text_node(&self) -> (t: &String)
        ensures
            t@ == self.text(),
    {
        &self.text_node
    }
}

/// Sets the count: where it changes, the text node shows the new count.
pub fn apply_count(scope: &mut Scope, count: Count)
    ensures
        final(scope).count() == count,
        old(scope).count() == count ==> final(scope).text() == old(scope).text(),
        old(scope).count() != count ==> final(scope).text() == decimal(count as int),
        // the text node keeps showing the count
        old(scope).shows_count() ==> final(scope).shows_count(),
{
    if scope.state.count != count {
        scope.state.count = count;
        scope.text_node = u32_text(count);
    }
}

/// A click: the count goes up by one.
pub fn handle_click(scope: &mut Scope)
    requires
        old(scope).count() < Count::MAX,
    ensures
        final(scope).count() == old(scope).count() + 1,
        final(scope).text() == decimal(old(scope).count() + 1),
        // so the text node shows the count after every click
        final(scope).shows_count(),
{
    let new_count = scope.state.count + 1;
    apply_count(scope, new_count);
}

} // verus!
