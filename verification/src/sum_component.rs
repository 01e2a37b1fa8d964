//! A component showing two numbers and their sum: each prop change updates
//! the text nodes that depend on it.
use vstd::prelude::*;

use crate::arrays::array_to_vec;
use crate::text::{decimal, i32_text};

verus! {

/// The component's props.
pub struct Props {
    pub a: i32,
    pub b: i32,
}

/// The component's own state (it has none).
pub struct State;

impl State {
    fn new() -> Self {
        State
    }
}

/// A mounted component: its props, its state and the contents of its three
/// text nodes (`a`, `b` and `a + b`).
pub struct Scope {
    props: Props,
    state: State,
    text_nodes: Vec<String>,
}

impl Scope {
    /// The component has its three text nodes.
    pub closed spec fn well_formed(&self) -> bool {
        self.text_nodes@.len() == 3
    }

    /// The prop `a`.
    pub closed spec fn a(&self) -> i32 {
        self.props.a
    }

    /// The prop `b`.
    pub closed spec fn b(&self) -> i32 {
        self.props.b
    }

    /// The contents of the text node `i`.
    pub closed spec fn text(&self, i: int) -> Seq<char> {
        self.text_nodes@[i]@
    }

    /// The text nodes show `a`, `b` and `a + b`.
    pub open spec fn shows_props(&self) -> bool {
        &&& self.text(0) == decimal(self.a() as int)
        &&& self.text(1) == decimal(self.b() as int)
        &&& self.text(2) == decimal(self.a() + self.b())
    }

    /// Mounts the component with `props` over text nodes showing
    /// `text_nodes`.
    pub fn new(props: Props, text_nodes: [String; 3]) -> (s: Self)
        ensures
            s.well_formed(),
            s.a() == props.a,
            s.b() == props.b,
            forall|i: int| 0 <= i < 3 ==> s.text(i) == text_nodes@[i]@,
    {
        let v = array_to_vec(text_nodes);
        Scope { props, state: State::new(), text_nodes: v }
    }

    /// The prop `a`.
    pub fn get_a(&self) -> (a: i32)
        ensures
            a == self.a(),
    {
        self.props.a
    }

    /// The prop `b`.
    pub fn get_b(&self) -> (b: i32)
        ensures
            b == self.b(),
    {
        self.props.b
    }

    /// The contents of the text node `i`.
    pub fn text_node(&self, i: usize) -> (t: &String)
        requires
            self.well_formed(),
            i < 3,
        ensures
            t@ == self.text(i as int),
    {
        &self.text_nodes[i]
    }
}

/// Sets the prop `a`: where it changes, its text node and the sum's are
/// updated.
pub fn apply_a(scope: &mut Scope, a: i32)
    requires
        old(scope).well_formed(),
        old(scope).a() != a ==> i32::MIN <= a + old(scope).b() <= i32::MAX,
    ensures
        final(scope).well_formed(),
        final(scope).a() == a,
        final(scope).b() == old(scope).b(),
        old(scope).a() == a ==> final(scope).text(0) == old(scope).text(0) && final(scope).text(2)
            == old(scope).text(2),
        old(scope).a() != a ==> final(scope).text(0) == decimal(a as int) && final(scope).text(2)
            == decimal(a + old(scope).b()),
        final(scope).text(1) == old(scope).text(1),
        // the text nodes keep showing the props
        old(scope).shows_props() ==> final(scope).shows_props(),
{
    if scope.props.a != a {
        scope.props.a = a;
        let t = i32_text(a);
        scope.text_nodes.set(0, t);
        applyWith_a_b(scope);
    }
}

/// Sets the prop `b`: where it changes, its text node and the sum's are
/// updated.
pub fn apply_b(scope: &mut Scope, b: i32)
    requires
        old(scope).well_formed(),
        old(scope).b() != b ==> i32::MIN <= old(scope).a() + b <= i32::MAX,
    ensures
        final(scope).well_formed(),
        final(scope).b() == b,
        final(scope).a() == old(scope).a(),
        old(scope).b() == b ==> final(scope).text(1) == old(scope).text(1) && final(scope).text(2)
            == old(scope).text(2),
        old(scope).b() != b ==> final(scope).text(1) == decimal(b as int) && final(scope).text(2)
            == decimal(old(scope).a() + b),
        final(scope).text(0) == old(scope).text(0),
        // the text nodes keep showing the props
        old(scope).shows_props() ==> final(scope).shows_props(),
{
    if scope.props.b != b {
        scope.props.b = b;
        let t = i32_text(b);
        scope.text_nodes.set(1, t);
        applyWith_a_b(scope);
    }
}

/// Shows `a + b` in the third text node.
#[allow(non_snake_case)]
fn applyWith_a_b(scope: &mut Scope)
    requires
        old(scope).well_formed(),
        i32::MIN <= old(scope).props.a + old(scope).props.b <= i32::MAX,
    ensures
        final(scope).well_formed(),
        final(scope).props == old(scope).props,
        final(scope).text(0) == old(scope).text(0),
        final(scope).text(1) == old(scope).text(1),
        final(scope).text(2) == decimal(old(scope).props.a + old(scope).props.b),
{
    let t = i32_text(scope.props.a + scope.props.b);
    scope.text_nodes.set(2, t);
}

} // verus!
