//! Where a template's placeholders are: the path of each block from the
//! template's root, in document order, and what walking a template's steps
//! marks.
use vstd::prelude::*;

use crate::html::{lemma_forest_take, steps_after, supported_forest, HtmlNode};
use crate::nav::{lemma_nav_append, nav_marks, nav_pos};
use crate::walk::Walk;

verus! {

/// The blocks among the first `k` nodes of a forest whose node `i` sits at
/// `prefix.push(i)`, in document order: each with its path, marked for
/// replacement.
pub open spec fn blocks_after(nodes: Seq<HtmlNode>, prefix: Seq<nat>, k: nat) -> Seq<(Seq<nat>, Walk)>
    decreases nodes, k,
{
    if k == 0 || k > nodes.len() {
        Seq::empty()
    } else {
        let prev = blocks_after(nodes, prefix, (k - 1) as nat);
        match nodes[k - 1] {
            HtmlNode::Element(ch) => prev + blocks_after(ch@, prefix.push((k - 1) as nat), ch@.len()),
            HtmlNode::Block => prev.push((prefix.push((k - 1) as nat), Walk::Replace)),
            _ => prev,
        }
    }
}

/// The placeholders of a template: the path of each block (the top-level
/// node `i` at `[i]`, its child `j` at `[i, j]`, and so on), in document
/// order, marked for replacement.
pub open spec fn placeholders(nodes: Seq<HtmlNode>) -> Seq<(Seq<nat>, Walk)> {
    blocks_after(nodes, Seq::empty(), nodes.len())
}

/// The children of an element of a supported forest are supported.
pub proof fn lemma_children_supported(nodes: Seq<HtmlNode>, i: int)
    requires
        supported_forest(nodes),
        0 <= i < nodes.len(),
    ensures
        nodes[i] matches HtmlNode::Element(ch) ==> supported_forest(ch@),
        nodes[i] is Element || nodes[i] is Text || nodes[i] is Comment || nodes[i] is Block,
{
    lemma_forest_take(nodes, i + 1);
    assert(nodes.take(i + 1).last() == nodes[i]);
}

/// Walking the steps of the first `k` nodes of a forest from its first node
/// at `prefix.push(0)` marks exactly the blocks among them, and ends on the
/// node after the last one taken (on the last node itself where it is an
/// element that ends the forest).
pub proof fn lemma_steps_marks(nodes: Seq<HtmlNode>, prefix: Seq<nat>, k: nat)
    requires
        supported_forest(nodes),
        k <= nodes.len(),
    ensures
        nav_marks(steps_after(nodes, k), prefix.push(0)) == blocks_after(nodes, prefix, k),
        nav_pos(steps_after(nodes, k), prefix.push(0)) == if k == nodes.len() && k > 0
            && nodes[k - 1] is Element {
            prefix.push((k - 1) as nat)
        } else {
            prefix.push(k)
        },
    decreases nodes, k,
{
    let p0 = prefix.push(0);
    if k == 0 {
        assert(nav_marks(Seq::<Walk>::empty(), p0) == Seq::<(Seq<nat>, Walk)>::empty());
    } else {
        lemma_steps_marks(nodes, prefix, (k - 1) as nat);
        let prev = steps_after(nodes, (k - 1) as nat);
        let here = prefix.push((k - 1) as nat);
        let next = prefix.push(k);
        assert(nav_pos(prev, p0) == here);
        assert(here.update(here.len() - 1, (here.last() + 1) as nat) =~= next);
        lemma_children_supported(nodes, k - 1);
        match nodes[k - 1] {
            HtmlNode::Element(ch) => {
                assert(decreases_to!(nodes => nodes[k - 1]));
                let inner = here.push(0);
                let opened = prev.push(Walk::In(1));
                assert(opened.drop_last() =~= prev);
                assert(nav_pos(opened, p0) == here + crate::nav::zeros(1));
                assert(here + crate::nav::zeros(1) =~= inner);
                assert(nav_marks(opened, p0) == nav_marks(prev, p0));
                lemma_steps_marks(ch@, here, ch@.len());
                let cs = steps_after(ch@, ch@.len());
                lemma_nav_append(opened, cs, p0);
                let body = opened + cs;
                let end = nav_pos(body, p0);
                assert(end.len() == here.len() + 1);
                assert(end.take(end.len() - 1) =~= here);
                let closed = body.push(Walk::Out(1));
                assert(closed.drop_last() =~= body);
                assert(nav_pos(closed, p0) == here);
                assert(nav_marks(closed, p0) == nav_marks(body, p0));
                assert(nav_marks(closed, p0) == blocks_after(nodes, prefix, k));
                if k < nodes.len() {
                    let moved = closed.push(Walk::Over(1));
                    assert(moved.drop_last() =~= closed);
                    assert(steps_after(nodes, k) == moved);
                    assert(nav_pos(moved, p0) == next);
                    assert(nav_marks(moved, p0) == blocks_after(nodes, prefix, k));
                } else {
                    assert(steps_after(nodes, k) == closed);
                }
            },
            HtmlNode::Block => {
                let marked = prev.push(Walk::Replace);
                assert(marked.drop_last() =~= prev);
                let moved = marked.push(Walk::Over(1));
                assert(moved.drop_last() =~= marked);
                assert(steps_after(nodes, k) == moved);
                assert(nav_marks(marked, p0) == nav_marks(prev, p0).push((here, Walk::Replace)));
                assert(nav_marks(moved, p0) == blocks_after(nodes, prefix, k));
                assert(nav_pos(moved, p0) == next);
            },
            _ => {
                let moved = prev.push(Walk::Over(1));
                assert(moved.drop_last() =~= prev);
                assert(steps_after(nodes, k) == moved);
                assert(nav_marks(moved, p0) == blocks_after(nodes, prefix, k));
                assert(nav_pos(moved, p0) == next);
            },
        }
    }
}

} // verus!
