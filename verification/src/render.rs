//! Following a component's walks through its rendered template: which
//! comment placeholders become text nodes and where event listeners go.
use vstd::prelude::*;

use crate::dom::{follow, follow_links, DomTree};
use crate::walk::Walk;

verus! {

/// One change to make to the rendered template.
#[derive(Debug, Clone, Copy)]
pub enum RenderStep {
    /// Replace the comment `node` by the component's text node `text_node`.
    ReplaceComment { node: usize, text_node: usize },
    /// Attach the component's event handler `handler` to `node` for `event`.
    AddListener { node: usize, event: &'static str, handler: usize },
}

/// Why the walks do not fit the template.
#[derive(Debug, Clone, Copy, PartialEq, Eq, Structural)]
pub enum RenderError {
    MissingFirstChild,
    MissingParent,
    MissingNextSibling,
    NotAComment,
    NoTextNodeLeft,
    NoEventHandler,
}

/// Following `ws` from `node`: the node reached, the number of text nodes
/// used and the changes collected, or the first misfit.
pub open spec fn render_from(
    dom: DomTree,
    node: usize,
    ws: Seq<Walk>,
    n_text_nodes: nat,
    n_event_handlers: nat,
) -> Result<(usize, nat, Seq<RenderStep>), RenderError>
    decreases ws.len(),
{
    if ws.len() == 0 {
        Ok((node, 0, Seq::empty()))
    } else {
        match render_from(dom, node, ws.drop_last(), n_text_nodes, n_event_handlers) {
            Err(e) => Err(e),
            Ok((cur, used, steps)) => match ws.last() {
                Walk::In(n) => match follow(dom.first_child@, cur, n as nat) {
                    Some(c) => Ok((c, used, steps)),
                    None => Err(RenderError::MissingFirstChild),
                },
                Walk::Out(n) => match follow(dom.parent@, cur, n as nat) {
                    Some(c) => Ok((c, used, steps)),
                    None => Err(RenderError::MissingParent),
                },
                Walk::Over(n) => match follow(dom.next_sibling@, cur, n as nat) {
                    Some(c) => Ok((c, used, steps)),
                    None => Err(RenderError::MissingNextSibling),
                },
                Walk::Replace => if !dom.is_comment@[cur as int] {
                    Err(RenderError::NotAComment)
                } else if used >= n_text_nodes {
                    Err(RenderError::NoTextNodeLeft)
                } else {
                    Ok(
                        (
                            cur,
                            used + 1,
                            steps.push(RenderStep::ReplaceComment { node: cur, text_node: used as usize }),
                        ),
                    )
                },
                Walk::Event(event) => if n_event_handlers == 0 {
                    Err(RenderError::NoEventHandler)
                } else {
                    Ok((cur, used, steps.push(RenderStep::AddListener { node: cur, event, handler: 0 })))
                },
            },
        }
    }
}

/// A misfit in a prefix of the walks is the misfit of the whole.
pub proof fn lemma_render_error_prefix(
    dom: DomTree,
    node: usize,
    ws: Seq<Walk>,
    k: int,
    n_text_nodes: nat,
    n_event_handlers: nat,
)
    requires
        0 <= k <= ws.len(),
        render_from(dom, node, ws.take(k), n_text_nodes, n_event_handlers) is Err,
    ensures
        render_from(dom, node, ws, n_text_nodes, n_event_handlers) == render_from(
            dom,
            node,
            ws.take(k),
            n_text_nodes,
            n_event_handlers,
        ),
    decreases ws.len() - k,
{
    if k < ws.len() {
        assert(ws.take(k + 1).drop_last() =~= ws.take(k));
        lemma_render_error_prefix(dom, node, ws, k + 1, n_text_nodes, n_event_handlers);
    } else {
        assert(ws.take(k) =~= ws);
    }
}

/// Follows `walks` from the template's first node `first` (no node, no
/// changes): each comment reached by `Replace` is to become the next of the
/// `n_text_nodes` text nodes, each node reached by `Event` gets the first
/// event handler.
///
/// Nothing is changed here: the result lists the changes to make. An `Err`
/// marks walks that do not fit the template (a missing link, a `Replace`
/// on a node that is no comment, more `Replace` steps than text nodes, an
/// `Event` without a handler); a renderer makes none of the changes then and
/// stops with "TEMPLATE and WALKS are not compatible!", before it puts the
/// template into the document.
pub fn render(
    dom: &DomTree,
    first: Option<usize>,
    walks: &[Walk],
    n_text_nodes: usize,
    n_event_handlers: usize,
) -> (r: Result<Vec<RenderStep>, RenderError>)
    requires
        dom.well_formed(),
        first matches Some(f) ==> f < dom.size(),
    ensures
        match first {
            None => r matches Ok(v) && v@.len() == 0,
            Some(f) => match render_from(*dom, f, walks@, n_text_nodes as nat, n_event_handlers as nat) {
                Ok(t) => r matches Ok(v) && v@ == t.2,
                Err(e) => r == Err::<Vec<RenderStep>, RenderError>(e),
            },
        },
{
    let mut steps: Vec<RenderStep> = Vec::new();
    let mut node = match first {
        Some(f) => f,
        None => {
            return Ok(steps);
        },
    };
    let ghost f0 = node;
    let mut used: usize = 0;
    let mut i: usize = 0;
    proof {
        assert(walks@.take(0) =~= Seq::<Walk>::empty());
    }
    while i < walks.len()
        invariant
            dom.well_formed(),
            first == Some(f0),
            render_from(*dom, f0, walks@.take(i as int), n_text_nodes as nat, n_event_handlers as nat) == Ok::<(usize, nat, Seq<RenderStep>), RenderError>((node, used as nat, steps@)),
            node < dom.size(),
            i <= walks.len(),
            used <= n_text_nodes,
        decreases walks.len() - i,
    {
        let ghost f = f0;
        proof {
            assert(walks@.take(i + 1).drop_last() =~= walks@.take(i as int));
            assert(walks@.take(i + 1).last() == walks@[i as int]);
        }
        match walks[i] {
            Walk::In(n) => match follow_links(&dom.first_child, node, n) {
                Some(c) => {
                    node = c;
                },
                None => {
                    proof {
                        lemma_render_error_prefix(*dom, f0, walks@, i + 1, n_text_nodes as nat, n_event_handlers as nat);
                    }
                    return Err(RenderError::MissingFirstChild);
                },
            },
            Walk::Out(n) => match follow_links(&dom.parent, node, n) {
                Some(c) => {
                    node = c;
                },
                None => {
                    proof {
                        lemma_render_error_prefix(*dom, f0, walks@, i + 1, n_text_nodes as nat, n_event_handlers as nat);
                    }
                    return Err(RenderError::MissingParent);
                },
            },
            Walk::Over(n) => match follow_links(&dom.next_sibling, node, n) {
                Some(c) => {
                    node = c;
                },
                None => {
                    proof {
                        lemma_render_error_prefix(*dom, f0, walks@, i + 1, n_text_nodes as nat, n_event_handlers as nat);
                    }
                    return Err(RenderError::MissingNextSibling);
                },
            },
            Walk::Replace => {
                if !dom.is_comment[node] {
                    proof {
                        lemma_render_error_prefix(*dom, f0, walks@, i + 1, n_text_nodes as nat, n_event_handlers as nat);
                    }
                    return Err(RenderError::NotAComment);
                }
                if used >= n_text_nodes {
                    proof {
                        lemma_render_error_prefix(*dom, f0, walks@, i + 1, n_text_nodes as nat, n_event_handlers as nat);
                    }
                    return Err(RenderError::NoTextNodeLeft);
                }
                steps.push(RenderStep::ReplaceComment { node, text_node: used });
                used = used + 1;
            },
            Walk::Event(event) => {
                if n_event_handlers == 0 {
                    proof {
                        lemma_render_error_prefix(*dom, f0, walks@, i + 1, n_text_nodes as nat, n_event_handlers as nat);
                    }
                    return Err(RenderError::NoEventHandler);
                }
                steps.push(RenderStep::AddListener { node, event, handler: 0 });
            },
        }
        i = i + 1;
    }
    proof {
        assert(walks@.take(walks@.len() as int) =~= walks@);
    }
    Ok(steps)
}

/// Following `links` `n + 1` times is following them `n` times and then
/// once more.
pub proof fn lemma_follow_last(links: Seq<Option<usize>>, node: usize, n: nat)
    ensures
        follow(links, node, n + 1) == match follow(links, node, n) {
            Some(m) => links[m as int],
            None => None,
        },
    decreases n,
{
    reveal_with_fuel(follow, 2);
    if n > 0 {
        match links[node as int] {
            Some(c) => lemma_follow_last(links, c, (n - 1) as nat),
            None => {},
        }
    }
}

/// The links that a one-level move `w` follows.
spec fn unit_links(dom: DomTree, w: Walk) -> Seq<Option<usize>> {
    match w {
        Walk::In(_) => dom.first_child@,
        Walk::Out(_) => dom.parent@,
        _ => dom.next_sibling@,
    }
}

/// The misfit of a one-level move `w` where its link is missing.
spec fn unit_error(w: Walk) -> RenderError {
    match w {
        Walk::In(_) => RenderError::MissingFirstChild,
        Walk::Out(_) => RenderError::MissingParent,
        _ => RenderError::MissingNextSibling,
    }
}

/// `n` one-level moves `w` in a row follow `w`'s link `n` times.
proof fn lemma_render_units(dom: DomTree, c: usize, w: Walk, n: nat, n_text_nodes: nat, n_event_handlers: nat)
    requires
        w == Walk::In(1) || w == Walk::Out(1) || w == Walk::Over(1),
    ensures
        render_from(dom, c, Seq::new(n, |i: int| w), n_text_nodes, n_event_handlers) == match follow(
            unit_links(dom, w),
            c,
            n,
        ) {
            Some(m) => Ok::<(usize, nat, Seq<RenderStep>), RenderError>((m, 0nat, Seq::empty())),
            None => Err(unit_error(w)),
        },
    decreases n,
{
    if n > 0 {
        let ws = Seq::new(n, |i: int| w);
        assert(ws.drop_last() =~= Seq::new((n - 1) as nat, |i: int| w));
        lemma_render_units(dom, c, w, (n - 1) as nat, n_text_nodes, n_event_handlers);
        lemma_follow_last(unit_links(dom, w), c, (n - 1) as nat);
        match follow(unit_links(dom, w), c, (n - 1) as nat) {
            Some(m) => {
                assert(follow(unit_links(dom, w), m, 1) == unit_links(dom, w)[m as int]) by {
                    reveal_with_fuel(follow, 2);
                }
            },
            None => {},
        }
    }
}

/// `Out(n)` climbs `n` levels: it reaches the node that `n` steps `Out(1)`
/// in a row reach, and fails where they fail; one `Out(1)` moves to the
/// parent, and fails where there is none.
pub proof fn lemma_render_out_climbs(dom: DomTree, c: usize, n: usize, n_text_nodes: nat, n_event_handlers: nat)
    requires
        dom.well_formed(),
        c < dom.size(),
    ensures
        render_from(dom, c, seq![Walk::Out(n)], n_text_nodes, n_event_handlers) == render_from(
            dom,
            c,
            Seq::new(n as nat, |i: int| Walk::Out(1)),
            n_text_nodes,
            n_event_handlers,
        ),
        render_from(dom, c, seq![Walk::Out(1)], n_text_nodes, n_event_handlers) == match dom.parent@[c as int] {
            Some(p) => Ok::<(usize, nat, Seq<RenderStep>), RenderError>((p, 0nat, Seq::empty())),
            None => Err(RenderError::MissingParent),
        },
{
    assert(seq![Walk::Out(n)].drop_last() =~= Seq::<Walk>::empty());
    assert(seq![Walk::Out(1)].drop_last() =~= Seq::<Walk>::empty());
    reveal_with_fuel(render_from, 2);
    lemma_render_units(dom, c, Walk::Out(1), n as nat, n_text_nodes, n_event_handlers);
    reveal_with_fuel(follow, 2);
}

/// `In(n)` descends `n` levels: it reaches the node that `n` steps `In(1)`
/// in a row reach, and fails where they fail; one `In(1)` moves to the
/// first child, and fails where there is none.
pub proof fn lemma_render_in_descends(dom: DomTree, c: usize, n: usize, n_text_nodes: nat, n_event_handlers: nat)
    requires
        dom.well_formed(),
        c < dom.size(),
    ensures
        render_from(dom, c, seq![Walk::In(n)], n_text_nodes, n_event_handlers) == render_from(
            dom,
            c,
            Seq::new(n as nat, |i: int| Walk::In(1)),
            n_text_nodes,
            n_event_handlers,
        ),
        render_from(dom, c, seq![Walk::In(1)], n_text_nodes, n_event_handlers) == match dom.first_child@[c as int] {
            Some(p) => Ok::<(usize, nat, Seq<RenderStep>), RenderError>((p, 0nat, Seq::empty())),
            None => Err(RenderError::MissingFirstChild),
        },
{
    assert(seq![Walk::In(n)].drop_last() =~= Seq::<Walk>::empty());
    assert(seq![Walk::In(1)].drop_last() =~= Seq::<Walk>::empty());
    reveal_with_fuel(render_from, 2);
    lemma_render_units(dom, c, Walk::In(1), n as nat, n_text_nodes, n_event_handlers);
    reveal_with_fuel(follow, 2);
}

/// `Over(n)` moves `n` siblings on: it reaches the node that `n` steps
/// `Over(1)` in a row reach, and fails where they fail; one `Over(1)` moves
/// to the next sibling, and fails where there is none.
pub proof fn lemma_render_over_moves_on(dom: DomTree, c: usize, n: usize, n_text_nodes: nat, n_event_handlers: nat)
    requires
        dom.well_formed(),
        c < dom.size(),
    ensures
        render_from(dom, c, seq![Walk::Over(n)], n_text_nodes, n_event_handlers) == render_from(
            dom,
            c,
            Seq::new(n as nat, |i: int| Walk::Over(1)),
            n_text_nodes,
            n_event_handlers,
        ),
        render_from(dom, c, seq![Walk::Over(1)], n_text_nodes, n_event_handlers) == match dom.next_sibling@[c as int] {
            Some(p) => Ok::<(usize, nat, Seq<RenderStep>), RenderError>((p, 0nat, Seq::empty())),
            None => Err(RenderError::MissingNextSibling),
        },
{
    assert(seq![Walk::Over(n)].drop_last() =~= Seq::<Walk>::empty());
    assert(seq![Walk::Over(1)].drop_last() =~= Seq::<Walk>::empty());
    reveal_with_fuel(render_from, 2);
    lemma_render_units(dom, c, Walk::Over(1), n as nat, n_text_nodes, n_event_handlers);
    reveal_with_fuel(follow, 2);
}

/// The changes `steps` with each text node index moved on by `k`.
pub open spec fn shifted_steps(steps: Seq<RenderStep>, k: nat) -> Seq<RenderStep> {
    steps.map_values(
        |st: RenderStep|
            match st {
                RenderStep::ReplaceComment { node, text_node } => RenderStep::ReplaceComment {
                    node,
                    text_node: (text_node + k) as usize,
                },
                other => other,
            },
    )
}

/// What the first part of the walks left, `(cur, used, steps)`, put in
/// front of what the rest of them gives from `cur`.
pub open spec fn render_after(
    first: (usize, nat, Seq<RenderStep>),
    r: Result<(usize, nat, Seq<RenderStep>), RenderError>,
) -> Result<(usize, nat, Seq<RenderStep>), RenderError> {
    match r {
        Ok((cur, used, steps)) => Ok((cur, first.1 + used, first.2 + shifted_steps(steps, first.1))),
        Err(e) => Err(e),
    }
}

/// A text node index that was handed out is below `n_text_nodes`.
proof fn lemma_render_used(
    dom: DomTree,
    node: usize,
    ws: Seq<Walk>,
    n_text_nodes: nat,
    n_event_handlers: nat,
)
    requires
        render_from(dom, node, ws, n_text_nodes, n_event_handlers) is Ok,
    ensures
        render_from(dom, node, ws, n_text_nodes, n_event_handlers)->Ok_0.1 <= n_text_nodes,
    decreases ws.len(),
{
    if ws.len() > 0 {
        lemma_render_used(dom, node, ws.drop_last(), n_text_nodes, n_event_handlers);
    }
}

/// Walks go on from wherever their first part left them: following `ws1`
/// and then `ws2` from `node` gives what `ws1` gave, followed by what `ws2`
/// gives when followed alone from the node `ws1` reached, with the text
/// nodes that are left, numbered on from those used.
pub proof fn lemma_render_continues(
    dom: DomTree,
    node: usize,
    ws1: Seq<Walk>,
    ws2: Seq<Walk>,
    n_text_nodes: nat,
    n_event_handlers: nat,
)
    requires
        render_from(dom, node, ws1, n_text_nodes, n_event_handlers) is Ok,
        n_text_nodes <= usize::MAX,
    ensures
        ({
            let first = render_from(dom, node, ws1, n_text_nodes, n_event_handlers)->Ok_0;
            render_from(dom, node, ws1 + ws2, n_text_nodes, n_event_handlers) == render_after(
                first,
                render_from(dom, first.0, ws2, (n_text_nodes - first.1) as nat, n_event_handlers),
            )
        }),
    decreases ws2.len(),
{
    let first = render_from(dom, node, ws1, n_text_nodes, n_event_handlers)->Ok_0;
    lemma_render_used(dom, node, ws1, n_text_nodes, n_event_handlers);
    let nt2 = (n_text_nodes - first.1) as nat;
    if ws2.len() == 0 {
        assert(ws1 + ws2 =~= ws1);
        assert(first.2 + shifted_steps(Seq::<RenderStep>::empty(), first.1) =~= first.2);
    } else {
        lemma_render_continues(dom, node, ws1, ws2.drop_last(), n_text_nodes, n_event_handlers);
        assert((ws1 + ws2).drop_last() =~= ws1 + ws2.drop_last());
        assert((ws1 + ws2).last() == ws2.last());
        match render_from(dom, first.0, ws2.drop_last(), nt2, n_event_handlers) {
            Ok((cur, used, steps)) => {
                lemma_render_used(dom, first.0, ws2.drop_last(), nt2, n_event_handlers);
                let sh = shifted_steps(steps, first.1);
                match ws2.last() {
                    Walk::Replace => {
                        let st = RenderStep::ReplaceComment { node: cur, text_node: used as usize };
                        let st2 = RenderStep::ReplaceComment { node: cur, text_node: (first.1 + used) as usize };
                        assert(shifted_steps(steps.push(st), first.1) =~= sh.push(st2));
                        assert((first.2 + sh).push(st2) =~= first.2 + sh.push(st2));
                    },
                    Walk::Event(event) => {
                        let st = RenderStep::AddListener { node: cur, event, handler: 0 };
                        assert(shifted_steps(steps.push(st), first.1) =~= sh.push(st));
                        assert((first.2 + sh).push(st) =~= first.2 + sh.push(st));
                    },
                    _ => {},
                }
            },
            Err(e) => {},
        }
    }
}

} // verus!
