//! The walk format of fine-grained compiled components: a walk visits the
//! template once, collecting the comments that become text nodes and the
//! nodes that receive event listeners.
use vstd::prelude::*;

use crate::dom::DomTree;

verus! {

/// One instruction of a compiled component's walk.
///
/// `Next` descends to the first child, `Over` moves to the next sibling,
/// `Out` climbs to the parent and moves on to the parent's next sibling
/// (ending the walk where there is none), `Replace` turns the current
/// comment into a text node and `EventTarget` collects the current node.
#[derive(Debug, Clone, Copy, PartialEq, Eq, Structural)]
pub enum FgWalk {
    Next(usize),
    Over(usize),
    Out(usize),
    Replace,
    EventTarget,
}

/// Why a walk does not fit the template.
#[derive(Debug, Clone, Copy, PartialEq, Eq, Structural)]
pub enum WalkThroughError {
    /// A counted step of zero.
    ZeroCount,
    NoChild,
    NoNextSibling,
    NoParent,
    TooManyTextNodes,
    TooManyEventTargets,
}

/// The nodes a walk collected: the comments that become text nodes and the
/// event targets, each in the order reached.
pub struct WalkTargets {
    pub text_nodes: Vec<usize>,
    pub event_targets: Vec<usize>,
}

/// Where a walk stands: the current node, what it collected so far, and
/// whether it has ended.
pub struct WalkState {
    pub node: usize,
    pub text_nodes: Seq<usize>,
    pub event_targets: Seq<usize>,
    pub ended: bool,
}

/// One instruction taken from `s`. Every counted step moves once, whatever
/// its count.
pub open spec fn fg_step(
    dom: DomTree,
    s: WalkState,
    w: FgWalk,
    max_text_nodes: nat,
    max_event_targets: nat,
) -> Result<WalkState, WalkThroughError> {
    if s.ended {
        Ok(s)
    } else {
        match w {
            FgWalk::Next(n) => if n == 0 {
                Err(WalkThroughError::ZeroCount)
            } else {
                match dom.first_child@[s.node as int] {
                    Some(c) => Ok(WalkState { node: c, ..s }),
                    None => Err(WalkThroughError::NoChild),
                }
            },
            FgWalk::Over(n) => if n == 0 {
                Err(WalkThroughError::ZeroCount)
            } else {
                match dom.next_sibling@[s.node as int] {
                    Some(c) => Ok(WalkState { node: c, ..s }),
                    None => Err(WalkThroughError::NoNextSibling),
                }
            },
            FgWalk::Out(n) => if n == 0 {
                Err(WalkThroughError::ZeroCount)
            } else {
                match dom.parent@[s.node as int] {
                    Some(p) => match dom.next_sibling@[p as int] {
                        Some(c) => Ok(WalkState { node: c, ..s }),
                        None => Ok(WalkState { ended: true, ..s }),
                    },
                    None => Err(WalkThroughError::NoParent),
                }
            },
            FgWalk::Replace => if dom.parent@[s.node as int] is None {
                Err(WalkThroughError::NoParent)
            } else if s.text_nodes.len() >= max_text_nodes {
                Err(WalkThroughError::TooManyTextNodes)
            } else {
                Ok(WalkState { text_nodes: s.text_nodes.push(s.node), ..s })
            },
            FgWalk::EventTarget => if s.event_targets.len() >= max_event_targets {
                Err(WalkThroughError::TooManyEventTargets)
            } else {
                Ok(WalkState { event_targets: s.event_targets.push(s.node), ..s })
            },
        }
    }
}

/// The state after the instructions `ws`, from `node`.
pub open spec fn fg_walk(
    dom: DomTree,
    node: usize,
    ws: Seq<FgWalk>,
    max_text_nodes: nat,
    max_event_targets: nat,
) -> Result<WalkState, WalkThroughError>
    decreases ws.len(),
{
    if ws.len() == 0 {
        Ok(WalkState { node, text_nodes: Seq::empty(), event_targets: Seq::empty(), ended: false })
    } else {
        match fg_walk(dom, node, ws.drop_last(), max_text_nodes, max_event_targets) {
            Ok(s) => fg_step(dom, s, ws.last(), max_text_nodes, max_event_targets),
            Err(e) => Err(e),
        }
    }
}

/// A misfit in a prefix of the walk is the misfit of the whole walk.
pub proof fn lemma_fg_error_prefix(
    dom: DomTree,
    node: usize,
    ws: Seq<FgWalk>,
    k: int,
    max_text_nodes: nat,
    max_event_targets: nat,
)
    requires
        0 <= k <= ws.len(),
        fg_walk(dom, node, ws.take(k), max_text_nodes, max_event_targets) is Err,
    ensures
        fg_walk(dom, node, ws, max_text_nodes, max_event_targets) == fg_walk(
            dom,
            node,
            ws.take(k),
            max_text_nodes,
            max_event_targets,
        ),
    decreases ws.len() - k,
{
    if k < ws.len() {
        assert(ws.take(k + 1).drop_last() =~= ws.take(k));
        lemma_fg_error_prefix(dom, node, ws, k + 1, max_text_nodes, max_event_targets);
    } else {
        assert(ws.take(k) =~= ws);
    }
}

/// Once a walk has ended, the remaining instructions change nothing.
pub proof fn lemma_fg_ended(
    dom: DomTree,
    node: usize,
    ws: Seq<FgWalk>,
    k: int,
    max_text_nodes: nat,
    max_event_targets: nat,
)
    requires
        0 <= k <= ws.len(),
        fg_walk(dom, node, ws.take(k), max_text_nodes, max_event_targets) matches Ok(s) && s.ended,
    ensures
        fg_walk(dom, node, ws, max_text_nodes, max_event_targets) == fg_walk(
            dom,
            node,
            ws.take(k),
            max_text_nodes,
            max_event_targets,
        ),
    decreases ws.len() - k,
{
    if k < ws.len() {
        assert(ws.take(k + 1).drop_last() =~= ws.take(k));
        lemma_fg_ended(dom, node, ws, k + 1, max_text_nodes, max_event_targets);
    } else {
        assert(ws.take(k) =~= ws);
    }
}

/// Walks the template from `node` by `walks`, collecting at most
/// `max_text_nodes` comments to replace and `max_event_targets` event
/// targets.
pub fn walk_through(
    dom: &DomTree,
    node: usize,
    walks: &[FgWalk],
    max_text_nodes: usize,
    max_event_targets: usize,
) -> (r: Result<WalkTargets, WalkThroughError>)
    requires
        dom.well_formed(),
        node < dom.size(),
    ensures
        match fg_walk(*dom, node, walks@, max_text_nodes as nat, max_event_targets as nat) {
            Ok(s) => r matches Ok(t) && t.text_nodes@ == s.text_nodes && t.event_targets@ == s.event_targets,
            Err(e) => r matches Err(x) && x == e,
        },
{
    let mut text_nodes: Vec<usize> = Vec::new();
    let mut event_targets: Vec<usize> = Vec::new();
    let mut current_node = node;
    let mut i: usize = 0;
    proof {
        assert(walks@.take(0) =~= Seq::<FgWalk>::empty());
    }
    while i < walks.len()
        invariant
            dom.well_formed(),
            i <= walks.len(),
            current_node < dom.size(),
            fg_walk(*dom, node, walks@.take(i as int), max_text_nodes as nat, max_event_targets as nat)
                == Ok::<WalkState, WalkThroughError>(
                WalkState {
                    node: current_node,
                    text_nodes: text_nodes@,
                    event_targets: event_targets@,
                    ended: false,
                },
            ),
        decreases walks.len() - i,
    {
        proof {
            assert(walks@.take(i + 1).drop_last() =~= walks@.take(i as int));
            assert(walks@.take(i + 1).last() == walks@[i as int]);
        }
        match walks[i] {
            FgWalk::Next(n) => {
                if n == 0 {
                    proof { lemma_fg_error_prefix(*dom, node, walks@, i + 1, max_text_nodes as nat, max_event_targets as nat); }
                    return Err(WalkThroughError::ZeroCount);
                }
                match dom.first_child[current_node] {
                    Some(c) => {
                        current_node = c;
                    },
                    None => {
                        proof { lemma_fg_error_prefix(*dom, node, walks@, i + 1, max_text_nodes as nat, max_event_targets as nat); }
                        return Err(WalkThroughError::NoChild);
                    },
                }
            },
            FgWalk::Over(n) => {
                if n == 0 {
                    proof { lemma_fg_error_prefix(*dom, node, walks@, i + 1, max_text_nodes as nat, max_event_targets as nat); }
                    return Err(WalkThroughError::ZeroCount);
                }
                match dom.next_sibling[current_node] {
                    Some(c) => {
                        current_node = c;
                    },
                    None => {
                        proof { lemma_fg_error_prefix(*dom, node, walks@, i + 1, max_text_nodes as nat, max_event_targets as nat); }
                        return Err(WalkThroughError::NoNextSibling);
                    },
                }
            },
            FgWalk::Out(n) => {
                if n == 0 {
                    proof { lemma_fg_error_prefix(*dom, node, walks@, i + 1, max_text_nodes as nat, max_event_targets as nat); }
                    return Err(WalkThroughError::ZeroCount);
                }
                match dom.parent[current_node] {
                    Some(p) => match dom.next_sibling[p] {
                        Some(c) => {
                            current_node = c;
                        },
                        None => {
                            proof { lemma_fg_ended(*dom, node, walks@, i + 1, max_text_nodes as nat, max_event_targets as nat); }
                            return Ok(WalkTargets { text_nodes, event_targets });
                        },
                    },
                    None => {
                        proof { lemma_fg_error_prefix(*dom, node, walks@, i + 1, max_text_nodes as nat, max_event_targets as nat); }
                        return Err(WalkThroughError::NoParent);
                    },
                }
            },
            FgWalk::Replace => {
                if dom.parent[current_node].is_none() {
                    proof { lemma_fg_error_prefix(*dom, node, walks@, i + 1, max_text_nodes as nat, max_event_targets as nat); }
                    return Err(WalkThroughError::NoParent);
                }
                if text_nodes.len() >= max_text_nodes {
                    proof { lemma_fg_error_prefix(*dom, node, walks@, i + 1, max_text_nodes as nat, max_event_targets as nat); }
                    return Err(WalkThroughError::TooManyTextNodes);
                }
                text_nodes.push(current_node);
            },
            FgWalk::EventTarget => {
                if event_targets.len() >= max_event_targets {
                    proof { lemma_fg_error_prefix(*dom, node, walks@, i + 1, max_text_nodes as nat, max_event_targets as nat); }
                    return Err(WalkThroughError::TooManyEventTargets);
                }
                event_targets.push(current_node);
            },
        }
        i = i + 1;
    }
    proof {
        assert(walks@.take(walks@.len() as int) =~= walks@);
    }
    Ok(WalkTargets { text_nodes, event_targets })
}

/// What a walk collected, put in front of what a later part of it collects:
/// the state `r` reached from where the earlier part `s` stood.
pub open spec fn fg_after(
    s: WalkState,
    r: Result<WalkState, WalkThroughError>,
) -> Result<WalkState, WalkThroughError> {
    match r {
        Ok(t) => Ok(
            WalkState {
                node: t.node,
                text_nodes: s.text_nodes + t.text_nodes,
                event_targets: s.event_targets + t.event_targets,
                ended: t.ended,
            },
        ),
        Err(e) => Err(e),
    }
}

/// A walk that fits never collects more than its limits allow.
pub proof fn lemma_fg_within_limits(
    dom: DomTree,
    node: usize,
    ws: Seq<FgWalk>,
    max_text_nodes: nat,
    max_event_targets: nat,
)
    requires
        fg_walk(dom, node, ws, max_text_nodes, max_event_targets) is Ok,
    ensures
        fg_walk(dom, node, ws, max_text_nodes, max_event_targets)->Ok_0.text_nodes.len() <= max_text_nodes,
        fg_walk(dom, node, ws, max_text_nodes, max_event_targets)->Ok_0.event_targets.len() <= max_event_targets,
    decreases ws.len(),
{
    if ws.len() > 0 {
        lemma_fg_within_limits(dom, node, ws.drop_last(), max_text_nodes, max_event_targets);
    }
}

/// One instruction from a state that carries earlier collections does what
/// it does from the bare state, with the limits lowered by what is carried.
proof fn lemma_fg_step_after(
    dom: DomTree,
    s: WalkState,
    t: WalkState,
    w: FgWalk,
    max_text_nodes: nat,
    max_event_targets: nat,
)
    requires
        s.text_nodes.len() <= max_text_nodes,
        s.event_targets.len() <= max_event_targets,
    ensures
        fg_step(dom, fg_after(s, Ok(t))->Ok_0, w, max_text_nodes, max_event_targets) == fg_after(
            s,
            fg_step(
                dom,
                t,
                w,
                (max_text_nodes - s.text_nodes.len()) as nat,
                (max_event_targets - s.event_targets.len()) as nat,
            ),
        ),
{
    let u = fg_after(s, Ok(t))->Ok_0;
    assert(u.text_nodes.push(t.node) =~= s.text_nodes + t.text_nodes.push(t.node));
    assert(u.event_targets.push(t.node) =~= s.event_targets + t.event_targets.push(t.node));
}

/// A walk goes on from wherever its first part left it: walking `ws1` and
/// then `ws2` from `node` collects what `ws1` collected followed by what
/// `ws2` collects when walked alone from the node `ws1` reached, within
/// what is left of the limits.
pub proof fn lemma_fg_walk_continues(
    dom: DomTree,
    node: usize,
    ws1: Seq<FgWalk>,
    ws2: Seq<FgWalk>,
    max_text_nodes: nat,
    max_event_targets: nat,
)
    requires
        fg_walk(dom, node, ws1, max_text_nodes, max_event_targets) matches Ok(s) && !s.ended,
    ensures
        ({
            let s = fg_walk(dom, node, ws1, max_text_nodes, max_event_targets)->Ok_0;
            fg_walk(dom, node, ws1 + ws2, max_text_nodes, max_event_targets) == fg_after(
                s,
                fg_walk(
                    dom,
                    s.node,
                    ws2,
                    (max_text_nodes - s.text_nodes.len()) as nat,
                    (max_event_targets - s.event_targets.len()) as nat,
                ),
            )
        }),
    decreases ws2.len(),
{
    let s = fg_walk(dom, node, ws1, max_text_nodes, max_event_targets)->Ok_0;
    lemma_fg_within_limits(dom, node, ws1, max_text_nodes, max_event_targets);
    let mt = (max_text_nodes - s.text_nodes.len()) as nat;
    let me = (max_event_targets - s.event_targets.len()) as nat;
    if ws2.len() == 0 {
        assert(ws1 + ws2 =~= ws1);
        assert(s.text_nodes + Seq::<usize>::empty() =~= s.text_nodes);
        assert(s.event_targets + Seq::<usize>::empty() =~= s.event_targets);
    } else {
        lemma_fg_walk_continues(dom, node, ws1, ws2.drop_last(), max_text_nodes, max_event_targets);
        assert((ws1 + ws2).drop_last() =~= ws1 + ws2.drop_last());
        assert((ws1 + ws2).last() == ws2.last());
        match fg_walk(dom, s.node, ws2.drop_last(), mt, me) {
            Ok(t) => {
                lemma_fg_step_after(dom, s, t, ws2.last(), max_text_nodes, max_event_targets);
            },
            Err(e) => {},
        }
    }
}

/// `Out(n)` climbs to the parent of the node it starts from and stands on
/// the parent's next sibling: the target that `EventTarget` collects next is
/// that sibling. Where the parent has no next sibling the walk ends there,
/// having collected nothing, and where the node has no parent it fails.
pub proof fn lemma_fg_out_moves_to_parents_sibling(
    dom: DomTree,
    c: usize,
    n: usize,
    max_text_nodes: nat,
    max_event_targets: nat,
)
    requires
        dom.well_formed(),
        c < dom.size(),
        n != 0,
        max_event_targets != 0,
    ensures
        ({
            let r = fg_walk(dom, c, seq![FgWalk::Out(n), FgWalk::EventTarget], max_text_nodes, max_event_targets);
            match dom.parent@[c as int] {
                None => r == Err::<WalkState, WalkThroughError>(WalkThroughError::NoParent),
                Some(p) => match dom.next_sibling@[p as int] {
                    Some(q) => r matches Ok(t) && t.event_targets == seq![q]
                        && t.text_nodes.len() == 0 && !t.ended,
                    None => r matches Ok(t) && t.event_targets.len() == 0
                        && t.text_nodes.len() == 0 && t.ended,
                },
            }
        }),
{
    let ws = seq![FgWalk::Out(n), FgWalk::EventTarget];
    assert(ws.drop_last() =~= seq![FgWalk::Out(n)]);
    assert(seq![FgWalk::Out(n)].drop_last() =~= Seq::<FgWalk>::empty());
    reveal_with_fuel(fg_walk, 3);
    assert(Seq::<usize>::empty().push(dom.next_sibling@[dom.parent@[c as int]->Some_0 as int]->Some_0)
        =~= seq![dom.next_sibling@[dom.parent@[c as int]->Some_0 as int]->Some_0]);
}

/// `Next(n)` stands on the first child of the node it starts from, however
/// large `n` is; where there is none the walk fails.
pub proof fn lemma_fg_next_moves_to_first_child(
    dom: DomTree,
    c: usize,
    n: usize,
    max_text_nodes: nat,
    max_event_targets: nat,
)
    requires
        dom.well_formed(),
        c < dom.size(),
        n != 0,
        max_event_targets != 0,
    ensures
        ({
            let r = fg_walk(dom, c, seq![FgWalk::Next(n), FgWalk::EventTarget], max_text_nodes, max_event_targets);
            match dom.first_child@[c as int] {
                None => r == Err::<WalkState, WalkThroughError>(WalkThroughError::NoChild),
                Some(q) => r matches Ok(t) && t.event_targets == seq![q] && t.text_nodes.len() == 0,
            }
        }),
{
    let ws = seq![FgWalk::Next(n), FgWalk::EventTarget];
    assert(ws.drop_last() =~= seq![FgWalk::Next(n)]);
    assert(seq![FgWalk::Next(n)].drop_last() =~= Seq::<FgWalk>::empty());
    reveal_with_fuel(fg_walk, 3);
    assert(Seq::<usize>::empty().push(dom.first_child@[c as int]->Some_0)
        =~= seq![dom.first_child@[c as int]->Some_0]);
}

/// `Over(n)` stands on the next sibling of the node it starts from, however
/// large `n` is; where there is none the walk fails.
pub proof fn lemma_fg_over_moves_to_next_sibling(
    dom: DomTree,
    c: usize,
    n: usize,
    max_text_nodes: nat,
    max_event_targets: nat,
)
    requires
        dom.well_formed(),
        c < dom.size(),
        n != 0,
        max_event_targets != 0,
    ensures
        ({
            let r = fg_walk(dom, c, seq![FgWalk::Over(n), FgWalk::EventTarget], max_text_nodes, max_event_targets);
            match dom.next_sibling@[c as int] {
                None => r == Err::<WalkState, WalkThroughError>(WalkThroughError::NoNextSibling),
                Some(q) => r matches Ok(t) && t.event_targets == seq![q] && t.text_nodes.len() == 0,
            }
        }),
{
    let ws = seq![FgWalk::Over(n), FgWalk::EventTarget];
    assert(ws.drop_last() =~= seq![FgWalk::Over(n)]);
    assert(seq![FgWalk::Over(n)].drop_last() =~= Seq::<FgWalk>::empty());
    reveal_with_fuel(fg_walk, 3);
    assert(Seq::<usize>::empty().push(dom.next_sibling@[c as int]->Some_0)
        =~= seq![dom.next_sibling@[c as int]->Some_0]);
}

} // verus!
