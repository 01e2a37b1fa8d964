//! What a lazy walk builder still has to walk, one step per node boundary,
//! and why the walks it yields navigate as those steps.
use vstd::prelude::*;

use crate::html::{supported_forest, HtmlNode};
use crate::nav::{
    lemma_merge_navigation, lemma_nav_append, lemma_same_append, lemma_same_tail, lemma_same_trans, lemma_two_steps,
    merge_keeps_navigation, nav_marks, nav_pos, nav_step, same_navigation, zeros,
};
use crate::placeholders::{blocks_after, lemma_children_supported, placeholders};
use crate::walk::Walk;
use crate::walk_stream::{drains, next_relation, next_spec, pushed_back, run, with_rec, Phase, StreamModel};

verus! {

/// The steps a lazy builder takes for the first `k` nodes of a forest, one
/// per node boundary: an element descends one level, takes its children's
/// steps, climbs back and moves to the next sibling; text and comments move
/// over; a block is marked and moved over.
pub open spec fn lazy_steps_after(nodes: Seq<HtmlNode>, k: nat) -> Seq<Walk>
    decreases nodes, k,
{
    if k == 0 || k > nodes.len() {
        Seq::empty()
    } else {
        let prev = lazy_steps_after(nodes, (k - 1) as nat);
        match nodes[k - 1] {
            HtmlNode::Element(ch) => prev + (seq![Walk::In(1)] + lazy_steps_after(ch@, ch@.len()) + seq![
                Walk::Out(1),
                Walk::Over(1),
            ]),
            HtmlNode::Text => prev + seq![Walk::Over(1)],
            HtmlNode::Comment => prev + seq![Walk::Over(1)],
            HtmlNode::Block => prev + seq![Walk::Replace, Walk::Over(1)],
            _ => prev,
        }
    }
}

/// The steps a lazy builder takes for a whole forest.
pub open spec fn lazy_steps(nodes: Seq<HtmlNode>) -> Seq<Walk> {
    lazy_steps_after(nodes, nodes.len())
}

/// The steps a lazy builder takes for one node.
pub open spec fn node_steps(n: HtmlNode) -> Seq<Walk> {
    match n {
        HtmlNode::Element(ch) => seq![Walk::In(1)] + lazy_steps(ch@) + seq![Walk::Out(1), Walk::Over(1)],
        HtmlNode::Text => seq![Walk::Over(1)],
        HtmlNode::Comment => seq![Walk::Over(1)],
        HtmlNode::Block => seq![Walk::Replace, Walk::Over(1)],
        _ => Seq::empty(),
    }
}

/// The steps for a forest, seen from its first node.
pub proof fn lemma_lazy_steps_front(nodes: Seq<HtmlNode>, k: nat)
    requires
        1 <= k <= nodes.len(),
    ensures
        lazy_steps_after(nodes, k) == node_steps(nodes[0]) + lazy_steps_after(nodes.drop_first(), (k - 1) as nat),
    decreases k,
{
    let rest = nodes.drop_first();
    if k == 1 {
        assert(lazy_steps_after(nodes, 0) == Seq::<Walk>::empty());
        assert(lazy_steps_after(rest, 0) == Seq::<Walk>::empty());
        assert(lazy_steps_after(nodes, 1) =~= node_steps(nodes[0]) + Seq::<Walk>::empty());
    } else {
        lemma_lazy_steps_front(nodes, (k - 1) as nat);
        assert(rest[k - 2] == nodes[k - 1]);
        let a = node_steps(nodes[0]);
        let b = lazy_steps_after(rest, (k - 2) as nat);
        match nodes[k - 1] {
            HtmlNode::Element(ch) => {
                let x = seq![Walk::In(1)] + lazy_steps_after(ch@, ch@.len()) + seq![Walk::Out(1), Walk::Over(1)];
                assert((a + b) + x =~= a + (b + x));
            },
            HtmlNode::Block => {
                assert((a + b) + seq![Walk::Replace, Walk::Over(1)] =~= a + (b + seq![Walk::Replace, Walk::Over(1)]));
            },
            HtmlNode::Text => {
                assert((a + b) + seq![Walk::Over(1)] =~= a + (b + seq![Walk::Over(1)]));
            },
            HtmlNode::Comment => {
                assert((a + b) + seq![Walk::Over(1)] =~= a + (b + seq![Walk::Over(1)]));
            },
            _ => {},
        }
    }
}

/// A queue in the order its walks are taken: from the back.
pub open spec fn queue_order(q: Seq<Walk>) -> Seq<Walk>
    decreases q.len(),
{
    if q.len() == 0 {
        Seq::empty()
    } else {
        seq![q.last()] + queue_order(q.drop_last())
    }
}

/// The steps a builder still has to take: those of its inner builder, then
/// its queue from the back, then its nodes.
pub open spec fn pending_steps(m: StreamModel) -> Seq<Walk>
    decreases m,
{
    let inner = match m.rec {
        Some(r) => pending_steps(*r),
        None => Seq::<Walk>::empty(),
    };
    inner + queue_order(m.queue) + lazy_steps(m.nodes)
}

/// The steps the inner builder of `m` still has to take.
pub open spec fn inner_steps(m: StreamModel) -> Seq<Walk> {
    match m.rec {
        Some(r) => pending_steps(*r),
        None => Seq::<Walk>::empty(),
    }
}

/// A walk that may be missing, as a sequence of at most one.
pub open spec fn opt_walk(o: Option<Walk>) -> Seq<Walk> {
    match o {
        Some(w) => seq![w],
        None => Seq::empty(),
    }
}

/// Putting a walk back makes it the next step to take.
pub proof fn lemma_pushed_back_steps(m: StreamModel, w: Walk)
    ensures
        pending_steps(pushed_back(m, w)) == seq![w] + pending_steps(m),
    decreases m,
{
    match m.rec {
        Some(r) => {
            lemma_pushed_back_steps(*r, w);
            let q = queue_order(m.queue) + lazy_steps(m.nodes);
            assert(pending_steps(pushed_back(m, w)) =~= (seq![w] + pending_steps(*r)) + queue_order(m.queue)
                + lazy_steps(m.nodes));
            assert(pending_steps(m) =~= pending_steps(*r) + queue_order(m.queue) + lazy_steps(m.nodes));
            assert((seq![w] + pending_steps(*r)) + queue_order(m.queue) + lazy_steps(m.nodes) =~= seq![w] + (
            pending_steps(*r) + queue_order(m.queue) + lazy_steps(m.nodes)));
        },
        None => {
            let q = m.queue.push(w);
            assert(q.drop_last() =~= m.queue);
            assert(queue_order(q) == seq![w] + queue_order(m.queue));
            assert(pending_steps(pushed_back(m, w)) =~= seq![w] + pending_steps(m));
        },
    }
}

/// Merging `w` into the pending walk `next` keeps navigation: nothing is
/// pending, or the merge is one of those that navigate as the two steps
/// taken in turn, within `usize`.
pub open spec fn step_keeps(next: Option<Walk>, w: Walk) -> bool {
    match next {
        None => true,
        Some(o) => o.well_formed() && w.well_formed() && Walk::merge_fits(Some(o), w)
            && merge_keeps_navigation(o, w),
    }
}

/// Every merge that one call of `next` on `m` makes within `fuel` steps
/// keeps navigation.
pub open spec fn next_keeps(m: StreamModel, fuel: nat) -> bool
    decreases fuel, 1nat,
{
    run_keeps(m, None, Phase::Start, fuel)
}

/// Every merge that `next`'s loop makes from `phase` within `fuel` steps
/// keeps navigation.
pub open spec fn run_keeps(m: StreamModel, next: Option<Walk>, phase: Phase, fuel: nat) -> bool
    decreases fuel, 0nat,
{
    if fuel == 0 {
        true
    } else {
        let f = (fuel - 1) as nat;
        match phase {
            Phase::Start => if m.rec is Some {
                run_keeps(m, next, Phase::Inner, f)
            } else {
                run_keeps(m, next, Phase::Queue, f)
            },
            Phase::Inner => match m.rec {
                None => run_keeps(m, next, Phase::Queue, f),
                Some(r) => next_keeps(*r, f) && match next_spec(*r, f) {
                    None => true,
                    Some((r2, out)) => match out {
                        None => run_keeps(with_rec(m, r2), next, Phase::Queue, f),
                        Some(w) => match Walk::merged(next, w) {
                            Ok(n2) => step_keeps(next, w) && run_keeps(with_rec(m, r2), n2, Phase::Inner, f),
                            Err(_) => true,
                        },
                    },
                },
            },
            Phase::Queue => if m.queue.len() == 0 {
                run_keeps(m, next, Phase::Node, f)
            } else {
                match Walk::merged(next, m.queue.last()) {
                    Ok(n2) => step_keeps(next, m.queue.last()) && run_keeps(
                        StreamModel { queue: m.queue.drop_last(), ..m },
                        n2,
                        Phase::Queue,
                        f,
                    ),
                    Err(_) => true,
                }
            },
            Phase::Node => if m.nodes.len() == 0 {
                true
            } else {
                let rest = m.nodes.drop_first();
                match m.nodes[0] {
                    HtmlNode::Element(ch) => match Walk::merged(next, Walk::In(1)) {
                        Err(_) => true,
                        Ok(n2) => step_keeps(next, Walk::In(1)) && run_keeps(
                            StreamModel {
                                nodes: rest,
                                queue: seq![Walk::Over(1), Walk::Out(1)],
                                rec: Some(Box::new(StreamModel { nodes: ch@, queue: m.queue, rec: None })),
                            },
                            n2,
                            Phase::Start,
                            f,
                        ),
                    },
                    HtmlNode::Text => match Walk::merged(next, Walk::Over(1)) {
                        Err(_) => true,
                        Ok(n2) => step_keeps(next, Walk::Over(1)) && run_keeps(
                            StreamModel { nodes: rest, ..m },
                            n2,
                            Phase::Start,
                            f,
                        ),
                    },
                    HtmlNode::Comment => match Walk::merged(next, Walk::Over(1)) {
                        Err(_) => true,
                        Ok(n2) => step_keeps(next, Walk::Over(1)) && run_keeps(
                            StreamModel { nodes: rest, ..m },
                            n2,
                            Phase::Start,
                            f,
                        ),
                    },
                    HtmlNode::Block => match Walk::merged(next, Walk::Replace) {
                        Err(_) => true,
                        Ok(n2) => run_keeps(
                            StreamModel { nodes: rest, queue: seq![Walk::Over(1)] + m.queue, ..m },
                            n2,
                            Phase::Start,
                            f,
                        ),
                    },
                    _ => true,
                }
            },
        }
    }
}

/// What holds of a builder on entering `phase`: the inner builder has
/// nothing left before the queue is taken, and the queue is empty before a
/// node is visited.
pub open spec fn phase_ready(m: StreamModel, phase: Phase) -> bool {
    match phase {
        Phase::Queue => inner_steps(m) == Seq::<Walk>::empty(),
        Phase::Node => inner_steps(m) == Seq::<Walk>::empty() && m.queue.len() == 0,
        _ => true,
    }
}

/// Every walk sequence navigates as itself.
pub proof fn lemma_same_refl(a: Seq<Walk>)
    ensures
        same_navigation(a, a),
{
}

/// A merge that keeps navigation navigates as the pending walk followed by
/// the merged one.
proof fn lemma_merge_opt(next: Option<Walk>, w: Walk, rest: Seq<Walk>)
    requires
        Walk::merged(next, w) is Ok,
        step_keeps(next, w),
    ensures
        same_navigation(
            opt_walk(Walk::merged(next, w)->Ok_0) + rest,
            opt_walk(next) + (seq![w] + rest),
        ),
{
    let n2 = Walk::merged(next, w)->Ok_0;
    match next {
        None => {
            assert(opt_walk(n2) + rest =~= opt_walk(next) + (seq![w] + rest));
        },
        Some(o) => {
            lemma_merge_navigation(o, w);
            assert(opt_walk(next) + seq![w] =~= seq![o, w]);
            match n2 {
                Some(x) => {
                    assert(opt_walk(n2) =~= seq![x]);
                },
                None => {
                    assert(opt_walk(n2) =~= Seq::<Walk>::empty());
                },
            }
            lemma_same_append(opt_walk(n2), seq![o, w], rest);
            assert(seq![o, w] + rest =~= opt_walk(next) + (seq![w] + rest));
        },
    }
}

/// The queue order of a queue of one or two walks.
proof fn lemma_short_queues(a: Walk, b: Walk)
    ensures
        queue_order(Seq::<Walk>::empty()) == Seq::<Walk>::empty(),
        queue_order(seq![a]) == seq![a],
        queue_order(seq![a, b]) == seq![b, a],
{
    assert(seq![a].drop_last() =~= Seq::<Walk>::empty());
    assert(seq![a, b].drop_last() =~= seq![a]);
    assert(seq![a] + Seq::<Walk>::empty() =~= seq![a]);
    assert(seq![b] + seq![a] =~= seq![b, a]);
}

/// One call of `next`'s loop from `phase`, with the pending walk `next`:
/// the walk it yields followed by the steps left after it navigates as the
/// pending walk followed by the steps left before it, wherever its merges
/// keep navigation; where it yields nothing, no step is left.
pub proof fn lemma_run_navigation(m: StreamModel, next: Option<Walk>, phase: Phase, fuel: nat)
    requires
        run(m, next, phase, fuel) is Some,
        run_keeps(m, next, phase, fuel),
        phase_ready(m, phase),
    ensures
        same_navigation(
            opt_walk(run(m, next, phase, fuel)->Some_0.1) + pending_steps(run(m, next, phase, fuel)->Some_0.0),
            opt_walk(next) + pending_steps(m),
        ),
        run(m, next, phase, fuel)->Some_0.1 is None ==> pending_steps(run(m, next, phase, fuel)->Some_0.0)
            == Seq::<Walk>::empty(),
    decreases fuel, 0nat,
{
    let f = (fuel - 1) as nat;
    let res = run(m, next, phase, fuel)->Some_0;
    let a = opt_walk(res.1) + pending_steps(res.0);
    let c = opt_walk(next) + pending_steps(m);
    let rest = queue_order(m.queue) + lazy_steps(m.nodes);
    assert(pending_steps(m) =~= inner_steps(m) + rest);
    match phase {
        Phase::Start => {
            if m.rec is Some {
                lemma_run_navigation(m, next, Phase::Inner, f);
            } else {
                lemma_run_navigation(m, next, Phase::Queue, f);
            }
        },
        Phase::Inner => match m.rec {
            None => {
                lemma_run_navigation(m, next, Phase::Queue, f);
            },
            Some(r) => {
                assert(next_keeps(*r, f));
                assert(run_keeps(*r, None, Phase::Start, f));
                lemma_run_navigation(*r, None, Phase::Start, f);
                let (r2, out) = next_spec(*r, f)->Some_0;
                assert(opt_walk(None) + pending_steps(*r) =~= pending_steps(*r));
                let m1 = with_rec(m, r2);
                assert(pending_steps(m1) =~= pending_steps(r2) + rest);
                match out {
                    None => {
                        assert(opt_walk(out) + pending_steps(r2) =~= pending_steps(r2));
                        lemma_run_navigation(m1, next, Phase::Queue, f);
                        lemma_same_append(pending_steps(r2), pending_steps(*r), rest);
                        lemma_same_tail(opt_walk(next), pending_steps(r2) + rest, pending_steps(*r) + rest);
                        lemma_same_trans(a, opt_walk(next) + pending_steps(m1), c);
                    },
                    Some(w) => {
                        let wr = seq![w] + pending_steps(r2);
                        assert(opt_walk(out) + pending_steps(r2) =~= wr);
                        lemma_same_append(wr, pending_steps(*r), rest);
                        lemma_same_tail(opt_walk(next), wr + rest, pending_steps(*r) + rest);
                        match Walk::merged(next, w) {
                            Ok(n2) => {
                                lemma_run_navigation(m1, n2, Phase::Inner, f);
                                lemma_merge_opt(next, w, pending_steps(r2) + rest);
                                assert(seq![w] + (pending_steps(r2) + rest) =~= wr + rest);
                                let b = opt_walk(n2) + pending_steps(m1);
                                lemma_same_trans(b, opt_walk(next) + (wr + rest), c);
                                lemma_same_trans(a, b, c);
                            },
                            Err(_) => {
                                lemma_pushed_back_steps(r2, w);
                                assert(pending_steps(res.0) =~= wr + rest);
                            },
                        }
                    },
                }
            },
        },
        Phase::Queue => {
            if m.queue.len() == 0 {
                lemma_run_navigation(m, next, Phase::Node, f);
            } else {
                let q = m.queue;
                match Walk::merged(next, q.last()) {
                    Ok(n2) => {
                        let m1 = StreamModel { queue: q.drop_last(), ..m };
                        assert(inner_steps(m1) == inner_steps(m));
                        lemma_run_navigation(m1, n2, Phase::Queue, f);
                        let tail = queue_order(q.drop_last()) + lazy_steps(m.nodes);
                        assert(pending_steps(m1) =~= inner_steps(m1) + tail);
                        assert(pending_steps(m1) =~= tail);
                        assert(pending_steps(m) =~= seq![q.last()] + tail);
                        lemma_merge_opt(next, q.last(), tail);
                        lemma_same_trans(a, opt_walk(n2) + tail, c);
                    },
                    Err(_) => {
                        lemma_same_refl(c);
                    },
                }
            }
        },
        Phase::Node => {
            lemma_short_queues(Walk::Over(1), Walk::Out(1));
            lemma_short_queues(Walk::Over(1), Walk::Replace);
            lemma_short_queues(Walk::In(1), Walk::In(1));
            assert(m.queue =~= Seq::<Walk>::empty());
            if m.nodes.len() == 0 {
                assert(pending_steps(m) =~= Seq::<Walk>::empty());
                lemma_same_refl(c);
            } else {
                let rest_nodes = m.nodes.drop_first();
                lemma_lazy_steps_front(m.nodes, m.nodes.len());
                let lr = lazy_steps(rest_nodes);
                assert(pending_steps(m) =~= node_steps(m.nodes[0]) + lr);
                match m.nodes[0] {
                    HtmlNode::Element(ch) => {
                        let chs = lazy_steps(ch@);
                        match Walk::merged(next, Walk::In(1)) {
                            Err(_) => {
                                let inner = StreamModel { nodes: ch@, queue: seq![Walk::In(1)] + m.queue, rec: None };
                                assert(inner.queue =~= seq![Walk::In(1)]);
                                assert(pending_steps(inner) =~= seq![Walk::In(1)] + chs);
                                assert(pending_steps(res.0) =~= pending_steps(m));
                                lemma_same_refl(c);
                            },
                            Ok(n2) => {
                                let inner = StreamModel { nodes: ch@, queue: m.queue, rec: None };
                                let m1 = StreamModel {
                                    nodes: rest_nodes,
                                    queue: seq![Walk::Over(1), Walk::Out(1)],
                                    rec: Some(Box::new(inner)),
                                };
                                lemma_run_navigation(m1, n2, Phase::Start, f);
                                let tail = chs + seq![Walk::Out(1), Walk::Over(1)] + lr;
                                assert(pending_steps(inner) =~= chs);
                                assert(pending_steps(m1) =~= tail);
                                assert(pending_steps(m) =~= seq![Walk::In(1)] + tail);
                                lemma_merge_opt(next, Walk::In(1), tail);
                                lemma_same_trans(a, opt_walk(n2) + tail, c);
                            },
                        }
                    },
                    HtmlNode::Block => {
                        match Walk::merged(next, Walk::Replace) {
                            Err(_) => {
                                assert(pending_steps(res.0) =~= pending_steps(m));
                                lemma_same_refl(c);
                            },
                            Ok(n2) => {
                                let m1 = StreamModel { nodes: rest_nodes, queue: seq![Walk::Over(1)] + m.queue, ..m };
                                lemma_run_navigation(m1, n2, Phase::Start, f);
                                let tail = seq![Walk::Over(1)] + lr;
                                assert(m1.queue =~= seq![Walk::Over(1)]);
                                assert(pending_steps(m1) =~= tail);
                                assert(pending_steps(m) =~= seq![Walk::Replace] + tail);
                                lemma_merge_opt(next, Walk::Replace, tail);
                                lemma_same_trans(a, opt_walk(n2) + tail, c);
                            },
                        }
                    },
                    _ => {
                        match Walk::merged(next, Walk::Over(1)) {
                            Err(_) => {
                                assert(res.0.queue =~= seq![Walk::Over(1)]);
                                assert(pending_steps(res.0) =~= pending_steps(m));
                                lemma_same_refl(c);
                            },
                            Ok(n2) => {
                                let m1 = StreamModel { nodes: rest_nodes, ..m };
                                lemma_run_navigation(m1, n2, Phase::Start, f);
                                assert(pending_steps(m1) =~= lr);
                                assert(pending_steps(m) =~= seq![Walk::Over(1)] + lr);
                                lemma_merge_opt(next, Walk::Over(1), lr);
                                lemma_same_trans(a, opt_walk(n2) + lr, c);
                            },
                        }
                    },
                }
            }
        },
    }
}

/// Every call of `next` while a builder drains to `ws` makes only merges
/// that keep navigation.
pub open spec fn drain_keeps(m: StreamModel, ws: Seq<Walk>) -> bool
    decreases ws.len(),
{
    &&& forall|f: nat| #[trigger] next_keeps(m, f)
    &&& ws.len() > 0 ==> forall|m2: StreamModel|
        #[trigger] next_relation(m, m2, Some(ws[0])) ==> drain_keeps(m2, ws.drop_first())
}

/// The walks a builder drains to navigate as the steps it had left,
/// wherever its merges keep navigation.
pub proof fn lemma_drain_navigation(m: StreamModel, ws: Seq<Walk>)
    requires
        drains(m, ws),
        drain_keeps(m, ws),
    ensures
        same_navigation(ws, pending_steps(m)),
    decreases ws.len(),
{
    if ws.len() == 0 {
        let m2 = choose|m2: StreamModel| #[trigger] next_relation(m, m2, None);
        let fuel = choose|f: nat| next_spec(m, f) == Some((m2, None::<Walk>));
        assert(next_keeps(m, fuel));
        lemma_run_navigation(m, None, Phase::Start, fuel);
        assert(opt_walk(None) + pending_steps(m) =~= pending_steps(m));
        assert(opt_walk(None) + pending_steps(m2) =~= ws);
    } else {
        let m2 = choose|m2: StreamModel|
            #![trigger next_relation(m, m2, Some(ws[0]))]
            next_relation(m, m2, Some(ws[0])) && drains(m2, ws.drop_first());
        let fuel = choose|f: nat| next_spec(m, f) == Some((m2, Some(ws[0])));
        assert(next_keeps(m, fuel));
        lemma_run_navigation(m, None, Phase::Start, fuel);
        assert(opt_walk(None) + pending_steps(m) =~= pending_steps(m));
        assert(opt_walk(Some(ws[0])) =~= seq![ws[0]]);
        lemma_drain_navigation(m2, ws.drop_first());
        lemma_same_tail(seq![ws[0]], ws.drop_first(), pending_steps(m2));
        assert(seq![ws[0]] + ws.drop_first() =~= ws);
        lemma_same_trans(ws, seq![ws[0]] + pending_steps(m2), pending_steps(m));
    }
}

/// Walking a forest's lazy steps for its first `k` nodes from its first
/// node at `prefix.push(0)` marks exactly the blocks among them and ends on
/// the node after the last one taken.
pub proof fn lemma_lazy_steps_marks(nodes: Seq<HtmlNode>, prefix: Seq<nat>, k: nat)
    requires
        supported_forest(nodes),
        k <= nodes.len(),
    ensures
        nav_marks(lazy_steps_after(nodes, k), prefix.push(0)) == blocks_after(nodes, prefix, k),
        nav_pos(lazy_steps_after(nodes, k), prefix.push(0)) == prefix.push(k),
    decreases nodes, k,
{
    let p0 = prefix.push(0);
    if k == 0 {
        assert(nav_marks(Seq::<Walk>::empty(), p0) == Seq::<(Seq<nat>, Walk)>::empty());
    } else {
        lemma_lazy_steps_marks(nodes, prefix, (k - 1) as nat);
        let prev = lazy_steps_after(nodes, (k - 1) as nat);
        let here = prefix.push((k - 1) as nat);
        let next = prefix.push(k);
        assert(here.update(here.len() - 1, (here.last() + 1) as nat) =~= next);
        assert(nav_step(here, Walk::Over(1)) == next);
        lemma_children_supported(nodes, k - 1);
        match nodes[k - 1] {
            HtmlNode::Element(ch) => {
                assert(decreases_to!(nodes => nodes[k - 1]));
                let chs = lazy_steps_after(ch@, ch@.len());
                let descend = seq![Walk::In(1)];
                let body = descend + chs;
                let close = seq![Walk::Out(1), Walk::Over(1)];
                let x = body + close;
                lemma_nav_append(prev, x, p0);
                lemma_nav_append(body, close, here);
                lemma_nav_append(descend, chs, here);
                lemma_two_steps(Walk::In(1), Walk::In(1), here);
                assert(here + zeros(1) =~= here.push(0));
                lemma_lazy_steps_marks(ch@, here, ch@.len());
                let end = here.push(ch@.len());
                lemma_two_steps(Walk::Out(1), Walk::Over(1), end);
                assert(end.take(end.len() - 1) =~= here);
                assert(nav_marks(descend, here) + blocks_after(ch@, here, ch@.len()) =~= blocks_after(ch@, here, ch@.len()));
                assert(nav_marks(x, here) =~= blocks_after(ch@, here, ch@.len()));
                assert(lazy_steps_after(nodes, k) == prev + x);
            },
            HtmlNode::Block => {
                let x = seq![Walk::Replace, Walk::Over(1)];
                lemma_nav_append(prev, x, p0);
                assert(x.drop_last() =~= seq![Walk::Replace]);
                assert(seq![Walk::Replace].drop_last() =~= Seq::<Walk>::empty());
                assert(seq![Walk::Replace].last() == Walk::Replace);
                assert(x.last() == Walk::Over(1));
                assert(nav_pos(Seq::<Walk>::empty(), here) == here);
                assert(nav_marks(Seq::<Walk>::empty(), here) == Seq::<(Seq<nat>, Walk)>::empty());
                assert(nav_pos(seq![Walk::Replace], here) == here);
                assert(nav_marks(seq![Walk::Replace], here) =~= seq![(here, Walk::Replace)]);
                assert(nav_marks(x, here) =~= seq![(here, Walk::Replace)]);
                assert(nav_marks(prev, p0) + seq![(here, Walk::Replace)] =~= nav_marks(prev, p0).push((here, Walk::Replace)));
                assert(lazy_steps_after(nodes, k) == prev + x);
            },
            _ => {
                let x = seq![Walk::Over(1)];
                lemma_nav_append(prev, x, p0);
                lemma_two_steps(Walk::Over(1), Walk::Over(1), here);
                assert(nav_marks(prev, p0) + nav_marks(x, here) =~= nav_marks(prev, p0));
                assert(lazy_steps_after(nodes, k) == prev + x);
            },
        }
    }
}

/// Wherever its merges keep navigation, a lazy builder over a template
/// drains to walks that navigate as the template's steps, one per node
/// boundary (an element: a descent of one level, its children's steps, a
/// climb of one level and a move to the next sibling), and so mark exactly
/// the template's blocks in document order, walked from its first node.
pub proof fn lemma_lazy_walks_mark_placeholders(nodes: Seq<HtmlNode>, ws: Seq<Walk>)
    requires
        supported_forest(nodes),
        drains(StreamModel { nodes, queue: Seq::empty(), rec: None }, ws),
        drain_keeps(StreamModel { nodes, queue: Seq::empty(), rec: None }, ws),
    ensures
        same_navigation(ws, lazy_steps(nodes)),
        nav_marks(ws, seq![0nat]) == placeholders(nodes),
{
    let m = StreamModel { nodes, queue: Seq::empty(), rec: None };
    lemma_short_queues(Walk::Replace, Walk::Replace);
    assert(pending_steps(m) =~= lazy_steps(nodes));
    lemma_drain_navigation(m, ws);
    lemma_lazy_steps_marks(nodes, Seq::empty(), nodes.len());
    let p0 = Seq::<nat>::empty().push(0);
    assert(p0 =~= seq![0nat]);
    assert(nav_pos(ws, p0) == nav_pos(lazy_steps(nodes), p0));
}

} // verus!
