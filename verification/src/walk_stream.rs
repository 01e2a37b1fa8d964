//! A lazy walk builder: yields the merged walks of a template one at a
//! time, descending into each element with an inner builder for its
//! children.
use std::collections::VecDeque;
use vstd::prelude::*;

use crate::amounts::moves;
use crate::html::{supported_forest, HtmlNode};
use crate::nav::nav_marks;
use crate::placeholders::placeholders;
use crate::stream_nav::{drain_keeps, lemma_lazy_walks_mark_placeholders};
use crate::walk::Walk;

verus! {

/// The state of a lazy walk builder: the nodes still to visit, the queued
/// walks (taken from the back), and the builder for the children of the
/// element being visited.
pub struct StreamModel {
    pub nodes: Seq<HtmlNode>,
    pub queue: Seq<Walk>,
    pub rec: Option<Box<StreamModel>>,
}

/// Where the builder stands within one call of `next`.
pub enum Phase {
    /// At the top of its loop.
    Start,
    /// Taking walks from the inner builder.
    Inner,
    /// Taking walks from its own queue.
    Queue,
    /// Visiting the next node.
    Node,
}

/// What a queued walk weighs: two, plus the moves it makes.
pub open spec fn walk_cost(w: Walk) -> nat {
    2 + moves(w)
}

/// What a queue weighs.
pub open spec fn queue_cost(q: Seq<Walk>) -> nat
    decreases q.len(),
{
    if q.len() == 0 {
        0
    } else {
        queue_cost(q.drop_last()) + walk_cost(q.last())
    }
}

/// What the nodes still to visit weigh: each node at least as much as the
/// walks it gives rise to.
pub open spec fn nodes_weight(s: Seq<HtmlNode>) -> nat
    decreases s,
{
    if s.len() == 0 {
        0
    } else {
        let own: nat = match s[0] {
            HtmlNode::Element(ch) => 11 + nodes_weight(ch@),
            HtmlNode::Text => 4,
            HtmlNode::Comment => 4,
            HtmlNode::Block => 6,
            _ => 0,
        };
        own + nodes_weight(s.drop_first())
    }
}

/// What a builder weighs: its nodes, its queue and its inner builders.
pub open spec fn measure(m: StreamModel) -> nat
    decreases m,
{
    let inner: nat = match m.rec {
        Some(r) => 1 + measure(*r),
        None => 0,
    };
    nodes_weight(m.nodes) + queue_cost(m.queue) + inner
}

/// Every queued walk moves at least once where it moves, and every node is
/// supported, at every level.
pub open spec fn model_wf(m: StreamModel) -> bool
    decreases m,
{
    &&& supported_forest(m.nodes)
    &&& forall|i: int| 0 <= i < m.queue.len() ==> (#[trigger] m.queue[i]).well_formed()
    &&& match m.rec {
        Some(r) => model_wf(*r),
        None => true,
    }
}

/// The builder after putting `w` back at the end of the innermost queue.
pub open spec fn pushed_back(m: StreamModel, w: Walk) -> StreamModel
    decreases m,
{
    match m.rec {
        Some(r) => StreamModel { rec: Some(Box::new(pushed_back(*r, w))), ..m },
        None => StreamModel { queue: m.queue.push(w), ..m },
    }
}

/// The result of `next` on `m`, given `fuel` steps: the new state and the
/// walk yielded, `None` where the fuel runs out (or a node is unsupported).
pub open spec fn next_spec(m: StreamModel, fuel: nat) -> Option<(StreamModel, Option<Walk>)>
    decreases fuel, 1nat,
{
    run(m, None, Phase::Start, fuel)
}

/// `next`'s loop from `phase`, with the walk merged so far `next`.
///
/// Walks are merged into `next` until one does not merge; that one is put
/// back and `next` is yielded. The inner builder is drained first, then the
/// queue, then a node is visited: an element descends (`In(1)`), starts an
/// inner builder on its children and queues `Out(1)` and `Over(1)`; text
/// and comments step over (`Over(1)`); a block is marked (`Replace`) and
/// stepped over. A walk that does not merge at a node is queued instead.
pub open spec fn run(m: StreamModel, next: Option<Walk>, phase: Phase, fuel: nat) -> Option<
    (StreamModel, Option<Walk>),
>
    decreases fuel, 0nat,
{
    if fuel == 0 {
        None
    } else {
        let f = (fuel - 1) as nat;
        match phase {
            Phase::Start => if m.rec is Some {
                run(m, next, Phase::Inner, f)
            } else {
                run(m, next, Phase::Queue, f)
            },
            Phase::Inner => match m.rec {
                None => run(m, next, Phase::Queue, f),
                Some(r) => match next_spec(*r, f) {
                    None => None,
                    Some((r2, out)) => match out {
                        None => run(StreamModel { rec: Some(Box::new(r2)), ..m }, next, Phase::Queue, f),
                        Some(w) => match Walk::merged(next, w) {
                            Ok(n2) => run(StreamModel { rec: Some(Box::new(r2)), ..m }, n2, Phase::Inner, f),
                            Err(_) => Some((StreamModel { rec: Some(Box::new(pushed_back(r2, w))), ..m }, next)),
                        },
                    },
                },
            },
            Phase::Queue => if m.queue.len() == 0 {
                run(m, next, Phase::Node, f)
            } else {
                match Walk::merged(next, m.queue.last()) {
                    Ok(n2) => run(StreamModel { queue: m.queue.drop_last(), ..m }, n2, Phase::Queue, f),
                    Err(_) => Some((m, next)),
                }
            },
            Phase::Node => if m.nodes.len() == 0 {
                Some((m, next))
            } else {
                let rest = m.nodes.drop_first();
                match m.nodes[0] {
                    HtmlNode::Element(ch) => match Walk::merged(next, Walk::In(1)) {
                        Err(_) => Some(
                            (
                                StreamModel {
                                    nodes: rest,
                                    queue: seq![Walk::Over(1), Walk::Out(1)],
                                    rec: Some(
                                        Box::new(
                                            StreamModel {
                                                nodes: ch@,
                                                queue: seq![Walk::In(1)] + m.queue,
                                                rec: None,
                                            },
                                        ),
                                    ),
                                },
                                next,
                            ),
                        ),
                        Ok(n2) => run(
                            StreamModel {
                                nodes: rest,
                                queue: seq![Walk::Over(1), Walk::Out(1)],
                                rec: Some(Box::new(StreamModel { nodes: ch@, queue: m.queue, rec: None })),
                            },
                            n2,
                            Phase::Start,
                            f,
                        ),
                    },
                    HtmlNode::Text => match Walk::merged(next, Walk::Over(1)) {
                        Err(_) => Some(
                            (StreamModel { nodes: rest, queue: seq![Walk::Over(1)] + m.queue, ..m }, next),
                        ),
                        Ok(n2) => run(StreamModel { nodes: rest, ..m }, n2, Phase::Start, f),
                    },
                    HtmlNode::Comment => match Walk::merged(next, Walk::Over(1)) {
                        Err(_) => Some(
                            (StreamModel { nodes: rest, queue: seq![Walk::Over(1)] + m.queue, ..m }, next),
                        ),
                        Ok(n2) => run(StreamModel { nodes: rest, ..m }, n2, Phase::Start, f),
                    },
                    HtmlNode::Block => match Walk::merged(next, Walk::Replace) {
                        Err(_) => Some(
                            (
                                StreamModel {
                                    nodes: rest,
                                    queue: seq![Walk::Over(1), Walk::Replace] + m.queue,
                                    ..m
                                },
                                next,
                            ),
                        ),
                        Ok(n2) => run(
                            StreamModel { nodes: rest, queue: seq![Walk::Over(1)] + m.queue, ..m },
                            n2,
                            Phase::Start,
                            f,
                        ),
                    },
                    _ => None,
                }
            },
        }
    }
}

/// `next` on `old` leaves `new` and yields `r`.
pub open spec fn next_relation(old: StreamModel, new: StreamModel, r: Option<Walk>) -> bool {
    exists|fuel: nat| next_spec(old, fuel) == Some((new, r))
}

/// More fuel does not change a result once there is one.
pub proof fn lemma_run_fuel(m: StreamModel, next: Option<Walk>, phase: Phase, f: nat, g: nat)
    requires
        run(m, next, phase, f) is Some,
        f <= g,
    ensures
        run(m, next, phase, g) == run(m, next, phase, f),
    decreases f, 0nat,
{
    let f1 = (f - 1) as nat;
    let g1 = (g - 1) as nat;
    match phase {
        Phase::Start => {
            if m.rec is Some {
                lemma_run_fuel(m, next, Phase::Inner, f1, g1);
            } else {
                lemma_run_fuel(m, next, Phase::Queue, f1, g1);
            }
        },
        Phase::Inner => match m.rec {
            None => {
                lemma_run_fuel(m, next, Phase::Queue, f1, g1);
            },
            Some(r) => {
                lemma_next_fuel(*r, f1, g1);
                let (r2, out) = next_spec(*r, f1)->Some_0;
                match out {
                    None => {
                        lemma_run_fuel(StreamModel { rec: Some(Box::new(r2)), ..m }, next, Phase::Queue, f1, g1);
                    },
                    Some(w) => match Walk::merged(next, w) {
                        Ok(n2) => {
                            lemma_run_fuel(StreamModel { rec: Some(Box::new(r2)), ..m }, n2, Phase::Inner, f1, g1);
                        },
                        Err(_) => {},
                    },
                }
            },
        },
        Phase::Queue => {
            if m.queue.len() == 0 {
                lemma_run_fuel(m, next, Phase::Node, f1, g1);
            } else {
                match Walk::merged(next, m.queue.last()) {
                    Ok(n2) => {
                        lemma_run_fuel(StreamModel { queue: m.queue.drop_last(), ..m }, n2, Phase::Queue, f1, g1);
                    },
                    Err(_) => {},
                }
            }
        },
        Phase::Node => {
            if m.nodes.len() > 0 {
                let rest = m.nodes.drop_first();
                match m.nodes[0] {
                    HtmlNode::Element(ch) => match Walk::merged(next, Walk::In(1)) {
                        Err(_) => {},
                        Ok(n2) => {
                            lemma_run_fuel(
                                StreamModel {
                                    nodes: rest,
                                    queue: seq![Walk::Over(1), Walk::Out(1)],
                                    rec: Some(Box::new(StreamModel { nodes: ch@, queue: m.queue, rec: None })),
                                },
                                n2,
                                Phase::Start,
                                f1,
                                g1,
                            );
                        },
                    },
                    HtmlNode::Text => match Walk::merged(next, Walk::Over(1)) {
                        Err(_) => {},
                        Ok(n2) => {
                            lemma_run_fuel(StreamModel { nodes: rest, ..m }, n2, Phase::Start, f1, g1);
                        },
                    },
                    HtmlNode::Comment => match Walk::merged(next, Walk::Over(1)) {
                        Err(_) => {},
                        Ok(n2) => {
                            lemma_run_fuel(StreamModel { nodes: rest, ..m }, n2, Phase::Start, f1, g1);
                        },
                    },
                    HtmlNode::Block => match Walk::merged(next, Walk::Replace) {
                        Err(_) => {},
                        Ok(n2) => {
                            lemma_run_fuel(
                                StreamModel { nodes: rest, queue: seq![Walk::Over(1)] + m.queue, ..m },
                                n2,
                                Phase::Start,
                                f1,
                                g1,
                            );
                        },
                    },
                    _ => {},
                }
            }
        },
    }
}

/// More fuel does not change `next`'s result once there is one.
pub proof fn lemma_next_fuel(m: StreamModel, f: nat, g: nat)
    requires
        next_spec(m, f) is Some,
        f <= g,
    ensures
        next_spec(m, g) == next_spec(m, f),
    decreases f, 1nat,
{
    lemma_run_fuel(m, None, Phase::Start, f, g);
}

/// The node a builder handles: an element with supported children, text, a
/// comment or a block.
pub open spec fn node_ok(n: HtmlNode) -> bool {
    match n {
        HtmlNode::Element(ch) => supported_forest(ch@),
        HtmlNode::Text => true,
        HtmlNode::Comment => true,
        HtmlNode::Block => true,
        _ => false,
    }
}

/// The first node of a supported forest is supported, and so is the rest.
pub proof fn lemma_supported_first(s: Seq<HtmlNode>)
    requires
        supported_forest(s),
        s.len() > 0,
    ensures
        node_ok(s[0]),
        supported_forest(s.drop_first()),
    decreases s.len(),
{
    if s.len() == 1 {
        assert(s.drop_last() =~= Seq::<HtmlNode>::empty());
        assert(s.drop_first() =~= Seq::<HtmlNode>::empty());
    } else {
        lemma_supported_first(s.drop_last());
        assert(s.drop_last()[0] == s[0]);
        assert(s.drop_first().drop_last() =~= s.drop_last().drop_first());
        assert(s.drop_first().last() == s.last());
    }
}

/// A queue's cost, seen from its front.
pub proof fn lemma_queue_cost_front(a: Walk, q: Seq<Walk>)
    ensures
        queue_cost(seq![a] + q) == walk_cost(a) + queue_cost(q),
    decreases q.len(),
{
    if q.len() == 0 {
        assert(seq![a] + q =~= seq![a]);
        assert(seq![a].drop_last() =~= Seq::<Walk>::empty());
        assert(queue_cost(Seq::<Walk>::empty()) == 0);
        assert(queue_cost(q) == 0);
    } else {
        lemma_queue_cost_front(a, q.drop_last());
        assert((seq![a] + q).drop_last() =~= seq![a] + q.drop_last());
        assert((seq![a] + q).last() == q.last());
    }
}

/// The moves of a pending walk, if there is one.
pub open spec fn pending_moves(next: Option<Walk>) -> nat {
    match next {
        Some(w) => moves(w),
        None => 0,
    }
}

/// What a builder in the middle of `next` weighs: its own weight, the
/// moves of the pending walk and two for having one.
pub open spec fn load(next: Option<Walk>, m: StreamModel) -> nat {
    pending_moves(next) + measure(m) + if next is Some {
        2nat
    } else {
        0nat
    }
}

/// A merge of well-formed steps is well formed and moves no more than the
/// two together.
pub proof fn lemma_merged(next: Option<Walk>, w: Walk)
    requires
        Walk::pending_well_formed(next),
        w.well_formed(),
        Walk::merge_fits(next, w),
    ensures
        Walk::merged(next, w) matches Ok(n2) ==> Walk::pending_well_formed(n2) && pending_moves(n2)
            <= pending_moves(next) + moves(w),
        next is None ==> Walk::merged(next, w) == Ok::<Option<Walk>, ()>(Some(w)),
{
}

/// Putting a walk back adds its cost and keeps the builder well formed.
pub proof fn lemma_pushed_back(m: StreamModel, w: Walk)
    requires
        model_wf(m),
        w.well_formed(),
    ensures
        model_wf(pushed_back(m, w)),
        measure(pushed_back(m, w)) == measure(m) + walk_cost(w),
    decreases m,
{
    match m.rec {
        Some(r) => {
            lemma_pushed_back(*r, w);
        },
        None => {
            let q = m.queue.push(w);
            assert(q.drop_last() =~= m.queue);
            assert forall|i: int| 0 <= i < q.len() implies (#[trigger] q[i]).well_formed() by {
                if i < m.queue.len() {
                    assert(q[i] == m.queue[i]);
                }
            }
        },
    }
}

/// `next`, run from `orig`, comes after `k` steps to the state `cur` with
/// the pending walk `next` in `phase`, for all fuel from `f0` on.
pub open spec fn reaches(
    orig: StreamModel,
    cur: StreamModel,
    next: Option<Walk>,
    phase: Phase,
    k: nat,
    f0: nat,
) -> bool {
    forall|f: nat| f >= f0 ==> next_spec(orig, f + k) == #[trigger] run(cur, next, phase, f)
}

/// One more step.
pub proof fn lemma_reach_step(
    orig: StreamModel,
    cur: StreamModel,
    next: Option<Walk>,
    phase: Phase,
    k: nat,
    f0: nat,
    cur2: StreamModel,
    next2: Option<Walk>,
    phase2: Phase,
    f1: nat,
)
    requires
        reaches(orig, cur, next, phase, k, f0),
        f1 + 1 >= f0,
        forall|f: nat| f >= f1 ==> #[trigger] run(cur2, next2, phase2, f) == run(cur, next, phase, f + 1),
    ensures
        reaches(orig, cur2, next2, phase2, k + 1, f1),
{
    assert forall|f: nat| f >= f1 implies next_spec(orig, f + (k + 1)) == #[trigger] run(cur2, next2, phase2, f) by {
        assert(run(cur, next, phase, (f + 1) as nat) == next_spec(orig, (f + 1) as nat + k));
        assert((f + 1) as nat + k == f + (k + 1));
    }
}

/// The end: `next` from `orig` yields what the loop returns here.
pub proof fn lemma_reach_done(
    orig: StreamModel,
    cur: StreamModel,
    next: Option<Walk>,
    phase: Phase,
    k: nat,
    f0: nat,
    result: (StreamModel, Option<Walk>),
)
    requires
        reaches(orig, cur, next, phase, k, f0),
        run(cur, next, phase, f0 + 1) == Some(result),
    ensures
        next_relation(orig, result.0, result.1),
{
    assert(next_spec(orig, (f0 + 1) as nat + k) == run(cur, next, phase, (f0 + 1) as nat));
}

/// `next` has one result: the new state and the walk yielded are
/// determined by the old state.
pub proof fn lemma_next_relation_unique(
    old: StreamModel,
    new1: StreamModel,
    r1: Option<Walk>,
    new2: StreamModel,
    r2: Option<Walk>,
)
    requires
        next_relation(old, new1, r1),
        next_relation(old, new2, r2),
    ensures
        new1 == new2,
        r1 == r2,
{
    let f1 = choose|f: nat| next_spec(old, f) == Some((new1, r1));
    let f2 = choose|f: nat| next_spec(old, f) == Some((new2, r2));
    if f1 <= f2 {
        lemma_next_fuel(old, f1, f2);
    } else {
        lemma_next_fuel(old, f2, f1);
    }
}

/// What one node weighs on its own.
pub open spec fn own_weight(n: HtmlNode) -> nat {
    match n {
        HtmlNode::Element(ch) => 11 + nodes_weight(ch@),
        HtmlNode::Text => 4,
        HtmlNode::Comment => 4,
        HtmlNode::Block => 6,
        _ => 0,
    }
}

/// The state after visiting an element: its children in a new inner
/// builder with the queue `inner_queue`, `Over(1)` and `Out(1)` queued.
pub proof fn lemma_element_state(cur: StreamModel, ch: Vec<HtmlNode>, inner_queue: Seq<Walk>, new: StreamModel)
    requires
        cur.nodes.len() > 0,
        cur.nodes[0] == HtmlNode::Element(ch),
        new.nodes =~= cur.nodes.subrange(1, cur.nodes.len() as int),
        new.queue =~= seq![Walk::Over(1)] + (seq![Walk::Out(1)] + Seq::<Walk>::empty()),
        new.rec == Some(Box::new(StreamModel { nodes: ch@, queue: inner_queue, rec: None })),
        model_wf(cur),
        forall|i: int| 0 <= i < inner_queue.len() ==> (#[trigger] inner_queue[i]).well_formed(),
    ensures
        model_wf(new),
        new == (StreamModel {
            nodes: cur.nodes.drop_first(),
            queue: seq![Walk::Over(1), Walk::Out(1)],
            rec: Some(Box::new(StreamModel { nodes: ch@, queue: inner_queue, rec: None })),
        }),
        nodes_weight(cur.nodes) == 11 + nodes_weight(ch@) + nodes_weight(new.nodes),
        queue_cost(new.queue) == 6,
        measure(new) == nodes_weight(new.nodes) + 7 + nodes_weight(ch@) + queue_cost(inner_queue),
{
    let q2 = seq![Walk::Over(1), Walk::Out(1)];
    assert(new.queue =~= q2);
    assert(q2.drop_last() =~= seq![Walk::Over(1)]);
    assert(seq![Walk::Over(1)].drop_last() =~= Seq::<Walk>::empty());
    assert(queue_cost(Seq::<Walk>::empty()) == 0);
    assert(queue_cost(seq![Walk::Over(1)]) == 3);
    assert(q2.last() == Walk::Out(1));
    assert(queue_cost(q2) == 6);
    let inner = StreamModel { nodes: ch@, queue: inner_queue, rec: None };
    assert(measure(inner) == nodes_weight(ch@) + queue_cost(inner_queue));
    lemma_supported_first(cur.nodes);
    assert(cur.nodes.drop_first() =~= new.nodes);
    assert(model_wf(inner));
    assert forall|i: int| 0 <= i < new.queue.len() implies (#[trigger] new.queue[i]).well_formed() by {
        assert(new.queue[i] == q2[i]);
    }
}

/// The state after visiting a leaf: the rest of the nodes, the queue
/// `queue`, the same inner builder.
pub proof fn lemma_leaf_state(cur: StreamModel, queue: Seq<Walk>, new: StreamModel)
    requires
        cur.nodes.len() > 0,
        new.nodes =~= cur.nodes.subrange(1, cur.nodes.len() as int),
        new.queue =~= queue,
        new.rec == cur.rec,
    ensures
        new == (StreamModel { nodes: cur.nodes.drop_first(), queue, ..cur }),
        nodes_weight(cur.nodes) == own_weight(cur.nodes[0]) + nodes_weight(new.nodes),
        queue_cost(seq![Walk::Over(1)]) == 3,
        measure(cur) == nodes_weight(cur.nodes) + queue_cost(cur.queue) + match cur.rec {
            Some(r) => 1 + measure(*r),
            None => 0,
        },
        measure(new) == nodes_weight(new.nodes) + queue_cost(queue) + match cur.rec {
            Some(r) => 1 + measure(*r),
            None => 0,
        },
{
    assert(seq![Walk::Over(1)].drop_last() =~= Seq::<Walk>::empty());
    assert(queue_cost(Seq::<Walk>::empty()) == 0);
}

/// `cur` with the inner builder `r`.
pub open spec fn with_rec(cur: StreamModel, r: StreamModel) -> StreamModel {
    StreamModel { rec: Some(Box::new(r)), ..cur }
}

/// The height of the chain of inner builders.
pub open spec fn height(m: StreamModel) -> nat
    decreases m,
{
    match m.rec {
        Some(r) => 1 + height(*r),
        None => 0,
    }
}

/// A lazy walk builder over a forest of template nodes.
pub struct WalkIteratorTest {
    nodes: VecDeque<HtmlNode>,
    queue: VecDeque<Walk>,
    recursive_iterator: Option<Box<WalkIteratorTest>>,
}

impl WalkIteratorTest {
    /// The builder's state.
    pub closed spec fn model(&self) -> StreamModel
        decreases self,
    {
        StreamModel {
            nodes: self.nodes@,
            queue: self.queue@,
            rec: match &self.recursive_iterator {
                Some(b) => Some(Box::new((**b).model())),
                None => None,
            },
        }
    }

    /// A builder over `nodes`.
    pub fn new(nodes: VecDeque<HtmlNode>) -> (it: Self)
        ensures
            it.model() == (StreamModel { nodes: nodes@, queue: Seq::empty(), rec: None }),
    {
        WalkIteratorTest { nodes, queue: VecDeque::new(), recursive_iterator: None }
    }

    fn new_with_queue(nodes: VecDeque<HtmlNode>, queue: VecDeque<Walk>) -> (it: Self)
        ensures
            it.model() == (StreamModel { nodes: nodes@, queue: queue@, rec: None }),
    {
        WalkIteratorTest { nodes, queue, recursive_iterator: None }
    }

    fn block_invariant(&mut self)
        ensures
            final(self).model() == (StreamModel { queue: seq![Walk::Over(1)] + old(self).model().queue, ..old(self).model() }),
    {
        self.queue.push_front(Walk::Over(1));
    }

    /// Yields the next merged walk; `None` once every node is walked and
    /// nothing is left to merge.
    pub fn next(&mut self) -> (r: Option<Walk>)
        requires
            model_wf(old(self).model()),
            measure(old(self).model()) <= usize::MAX,
        ensures
            model_wf(final(self).model()),
            next_relation(old(self).model(), final(self).model(), r),
            match r {
                Some(w) => w.well_formed() && moves(w) + measure(final(self).model()) + 2 <= measure(
                    old(self).model(),
                ),
                None => measure(final(self).model()) <= measure(old(self).model()),
            },
        decreases measure(old(self).model()),
    {
        let ghost orig = self.model();
        let mut next: Option<Walk> = None;
        let ghost mut k: nat = 0;
        let ghost mut f0: nat = 0;
        loop
            invariant
                orig == old(self).model(),
                model_wf(self.model()),
                Walk::pending_well_formed(next),
                reaches(orig, self.model(), next, Phase::Start, k, f0),
                load(next, self.model()) <= measure(orig),
                measure(orig) <= usize::MAX,
            decreases load(next, self.model()),
        {
            let ghost start_load = load(next, self.model());
            let ghost cur0 = self.model();
            let rec_opt = self.recursive_iterator.take();
            match rec_opt {
                Some(mut rec) => {
                    proof {
                        assert(cur0 == with_rec(cur0, rec.model()));
                        lemma_reach_step(orig, cur0, next, Phase::Start, k, f0, cur0, next, Phase::Inner, f0);
                        k = k + 1;
                    }
                    let mut draining = true;
                    while draining
                        invariant
                            orig == old(self).model(),
                            self.recursive_iterator is None,
                            self.nodes@ == cur0.nodes,
                            self.queue@ == cur0.queue,
                            model_wf(cur0),
                            model_wf(rec.model()),
                            Walk::pending_well_formed(next),
                            draining ==> reaches(orig, with_rec(cur0, rec.model()), next, Phase::Inner, k, f0),
                            !draining ==> reaches(orig, with_rec(cur0, rec.model()), next, Phase::Queue, k, f0),
                            load(next, with_rec(cur0, rec.model())) <= start_load,
                            start_load <= measure(orig),
                            measure(orig) <= usize::MAX,
                        decreases measure(rec.model()) + if draining {
                            1nat
                        } else {
                            0nat
                        },
                    {
                        let ghost rec_old = rec.model();
                        let ghost cur = with_rec(cur0, rec_old);
                        proof {
                            assert(measure(cur) == nodes_weight(cur0.nodes) + queue_cost(cur0.queue) + 1 + measure(rec_old));
                            assert(measure(rec_old) < measure(orig));
                        }
                        let out = rec.next();
                        let ghost rec_new = rec.model();
                        let ghost fr = choose|f: nat| next_spec(rec_old, f) == Some((rec_new, out));
                        proof {
                            f0 = if fr > f0 { fr } else { f0 };
                        }
                        match out {
                            None => {
                                proof {
                                    let cur2 = with_rec(cur0, rec_new);
                                    assert forall|f: nat| f >= f0 implies #[trigger] run(cur2, next, Phase::Queue, f)
                                        == run(cur, next, Phase::Inner, f + 1) by {
                                        lemma_next_fuel(rec_old, fr, f);
                                    }
                                    lemma_reach_step(orig, cur, next, Phase::Inner, k, f0, cur2, next, Phase::Queue, f0);
                                    k = k + 1;
                                }
                                draining = false;
                            },
                            Some(walk) => {
                                let ghost before = next;
                                proof {
                                    lemma_merged(next, walk);
                                }
                                match Walk::combine(&mut next, walk) {
                                    Ok(()) => {
                                        proof {
                                            let cur2 = with_rec(cur0, rec_new);
                                            assert forall|f: nat| f >= f0 implies #[trigger] run(cur2, next, Phase::Inner, f)
                                                == run(cur, before, Phase::Inner, f + 1) by {
                                                lemma_next_fuel(rec_old, fr, f);
                                            }
                                            lemma_reach_step(orig, cur, before, Phase::Inner, k, f0, cur2, next, Phase::Inner, f0);
                                            k = k + 1;
                                        }
                                    },
                                    Err(()) => {
                                        proof {
                                            lemma_pushed_back(rec_new, walk);
                                        }
                                        (&mut *rec).queue_push_back(walk);
                                        self.recursive_iterator = Some(rec);
                                        proof {
                                            lemma_next_fuel(rec_old, fr, f0);
                                            lemma_reach_done(orig, cur, next, Phase::Inner, k, f0, (self.model(), next));
                                        }
                                        return next;
                                    },
                                }
                            },
                        }
                    }
                    self.recursive_iterator = Some(rec);
                },
                None => {
                    proof {
                        lemma_reach_step(orig, cur0, next, Phase::Start, k, f0, cur0, next, Phase::Queue, f0);
                        k = k + 1;
                    }
                },
            }
            let ghost cur1 = self.model();
            let mut popping = true;
            while popping
                invariant
                    orig == old(self).model(),
                    self.nodes@ == cur1.nodes,
                    self.model() == (StreamModel { queue: self.queue@, ..cur1 }),
                    model_wf(self.model()),
                    Walk::pending_well_formed(next),
                    popping ==> reaches(orig, self.model(), next, Phase::Queue, k, f0),
                    !popping ==> reaches(orig, self.model(), next, Phase::Node, k, f0),
                    load(next, self.model()) <= start_load,
                    start_load <= measure(orig),
                    measure(orig) <= usize::MAX,
                decreases self.queue@.len() + if popping {
                    1nat
                } else {
                    0nat
                },
            {
                let ghost cur = self.model();
                match self.queue.pop_back() {
                    None => {
                        proof {
                            lemma_reach_step(orig, cur, next, Phase::Queue, k, f0, cur, next, Phase::Node, f0);
                            k = k + 1;
                        }
                        popping = false;
                    },
                    Some(walk) => {
                        let ghost before = next;
                        proof {
                            assert(cur.queue[cur.queue.len() - 1] == walk);
                            lemma_merged(next, walk);
                        }
                        match Walk::combine(&mut next, walk) {
                            Ok(()) => {
                                proof {
                                    let cur2 = self.model();
                                    assert(cur2 == (StreamModel { queue: cur.queue.drop_last(), ..cur }));
                                    lemma_reach_step(orig, cur, before, Phase::Queue, k, f0, cur2, next, Phase::Queue, f0);
                                    k = k + 1;
                                }
                            },
                            Err(()) => {
                                self.queue.push_back(walk);
                                proof {
                                    assert(self.queue@ =~= cur.queue);
                                    lemma_reach_done(orig, cur, next, Phase::Queue, k, f0, (self.model(), next));
                                }
                                return next;
                            },
                        }
                    },
                }
            }
            let ghost cur = self.model();
            let node_opt = self.nodes.pop_front();
            let node = match node_opt {
                None => {
                    proof {
                        lemma_reach_done(orig, cur, next, Phase::Node, k, f0, (self.model(), next));
                    }
                    return next;
                },
                Some(n) => n,
            };
            proof {
                lemma_supported_first(cur.nodes);
            }
            let ghost rest = cur.nodes.drop_first();
            let ghost before = next;
            match node {
                HtmlNode::Element(children) => {
                    let ghost ch = children@;
                    let ghost chv = children;
                    let dq = to_deque(children);
                    proof {
                        lemma_merged(next, Walk::In(1));
                    }
                    match Walk::combine_in(&mut next, 1) {
                        Err(()) => {
                            self.queue.push_front(Walk::In(1));
                            let mut q = VecDeque::new();
                            std::mem::swap(&mut q, &mut self.queue);
                            self.recursive_iterator = Some(Box::new(WalkIteratorTest::new_with_queue(dq, q)));
                            self.queue.push_front(Walk::Out(1));
                            self.queue.push_front(Walk::Over(1));
                            proof {
                                assert(q@ =~= seq![Walk::In(1)] + cur.queue);
                                lemma_element_state(cur, chv, seq![Walk::In(1)] + cur.queue, self.model());
                                lemma_queue_cost_front(Walk::In(1), cur.queue);
                                lemma_reach_done(orig, cur, next, Phase::Node, k, f0, (self.model(), next));
                            }
                            return next;
                        },
                        Ok(()) => {
                            let mut q = VecDeque::new();
                            std::mem::swap(&mut q, &mut self.queue);
                            self.recursive_iterator = Some(Box::new(WalkIteratorTest::new_with_queue(dq, q)));
                            self.queue.push_front(Walk::Out(1));
                            self.queue.push_front(Walk::Over(1));
                            proof {
                                assert(q@ =~= cur.queue);
                                lemma_element_state(cur, chv, cur.queue, self.model());
                                lemma_reach_step(orig, cur, before, Phase::Node, k, f0, self.model(), next, Phase::Start, f0);
                                k = k + 1;
                            }
                        },
                    }
                },
                HtmlNode::Text | HtmlNode::Comment => {
                    proof {
                        lemma_merged(next, Walk::Over(1));
                    }
                    match Walk::combine_over(&mut next, 1) {
                        Err(()) => {
                            self.queue.push_front(Walk::Over(1));
                            proof {
                                lemma_leaf_state(cur, seq![Walk::Over(1)] + cur.queue, self.model());
                                lemma_queue_cost_front(Walk::Over(1), cur.queue);
                                lemma_reach_done(orig, cur, next, Phase::Node, k, f0, (self.model(), next));
                            }
                            return next;
                        },
                        Ok(()) => {
                            proof {
                                lemma_leaf_state(cur, cur.queue, self.model());
                                lemma_reach_step(orig, cur, before, Phase::Node, k, f0, self.model(), next, Phase::Start, f0);
                                k = k + 1;
                            }
                        },
                    }
                },
                HtmlNode::Block => {
                    proof {
                        lemma_merged(next, Walk::Replace);
                    }
                    match Walk::combine_replace(&mut next) {
                        Err(()) => {
                            self.queue.push_front(Walk::Replace);
                            self.block_invariant();
                            proof {
                                assert(self.model().queue =~= seq![Walk::Over(1), Walk::Replace] + cur.queue);
                                lemma_leaf_state(cur, seq![Walk::Over(1), Walk::Replace] + cur.queue, self.model());
                                lemma_queue_cost_front(Walk::Replace, cur.queue);
                                lemma_queue_cost_front(Walk::Over(1), seq![Walk::Replace] + cur.queue);
                                assert(seq![Walk::Over(1)] + (seq![Walk::Replace] + cur.queue) =~= seq![Walk::Over(1), Walk::Replace] + cur.queue);
                                lemma_reach_done(orig, cur, next, Phase::Node, k, f0, (self.model(), next));
                            }
                            return next;
                        },
                        Ok(()) => {
                            self.block_invariant();
                            proof {
                                lemma_leaf_state(cur, seq![Walk::Over(1)] + cur.queue, self.model());
                                lemma_queue_cost_front(Walk::Over(1), cur.queue);
                                lemma_reach_step(orig, cur, before, Phase::Node, k, f0, self.model(), next, Phase::Start, f0);
                                k = k + 1;
                            }
                        },
                    }
                },
                _ => {
                    proof {
                        assert(false);
                    }
                    return next;
                },
            }
        }
    }

    fn queue_push_back(&mut self, walk: Walk)
        ensures
            final(self).model() == pushed_back(old(self).model(), walk),
        decreases height(old(self).model()),
    {
        let r = self.recursive_iterator.take();
        match r {
            Some(mut b) => {
                (&mut *b).queue_push_back(walk);
                self.recursive_iterator = Some(b);
            },
            None => {
                self.queue.push_back(walk);
            },
        }
    }
}

/// Calling `next` on `m` until it yields `None` yields `ws`.
pub open spec fn drains(m: StreamModel, ws: Seq<Walk>) -> bool
    decreases ws.len(),
{
    if ws.len() == 0 {
        exists|m2: StreamModel| #[trigger] next_relation(m, m2, None)
    } else {
        exists|m2: StreamModel|
            #![trigger next_relation(m, m2, Some(ws[0]))]
            next_relation(m, m2, Some(ws[0])) && drains(m2, ws.drop_first())
    }
}

/// Dropping nodes from the front makes the weight no larger.
pub proof fn lemma_weight_skip(s: Seq<HtmlNode>, i: int)
    requires
        0 <= i <= s.len(),
    ensures
        nodes_weight(s.skip(i)) <= nodes_weight(s),
    decreases i,
{
    if i > 0 {
        lemma_weight_skip(s, i - 1);
        assert(s.skip(i - 1).drop_first() =~= s.skip(i));
    } else {
        assert(s.skip(0) =~= s);
    }
}

/// The weight of a template's nodes, where it fits in a `usize`.
pub fn builder_weight(nodes: &Vec<HtmlNode>) -> (r: Option<usize>)
    ensures
        r == (if nodes_weight(nodes@) <= usize::MAX {
            Some(nodes_weight(nodes@) as usize)
        } else {
            None::<usize>
        }),
    decreases nodes@,
{
    let mut i: usize = nodes.len();
    let mut total: usize = 0;
    proof {
        assert(nodes@.skip(nodes@.len() as int) =~= Seq::<HtmlNode>::empty());
    }
    while i > 0
        invariant
            i <= nodes.len(),
            total == nodes_weight(nodes@.skip(i as int)),
        decreases i,
    {
        i = i - 1;
        proof {
            assert(nodes@.skip(i as int).drop_first() =~= nodes@.skip(i as int + 1));
            assert(nodes@.skip(i as int)[0] == nodes@[i as int]);
            lemma_weight_skip(nodes@, i as int);
        }
        let own: Option<usize> = match &nodes[i] {
            HtmlNode::Element(children) => {
                proof {
                    assert(decreases_to!(nodes@ => nodes@[i as int]));
                }
                match builder_weight(children) {
                    Some(n) => n.checked_add(11),
                    None => None,
                }
            },
            HtmlNode::Text | HtmlNode::Comment => Some(4),
            HtmlNode::Block => Some(6),
            _ => Some(0),
        };
        let next = match own {
            Some(n) => total.checked_add(n),
            None => None,
        };
        match next {
            Some(t) => {
                total = t;
            },
            None => {
                return None;
            },
        }
    }
    proof {
        assert(nodes@.skip(0) =~= nodes@);
    }
    Some(total)
}

/// A builder drains to one sequence of walks only: the walks that
/// `html_iter_walks` returns are determined by the template.
pub proof fn lemma_drains_unique(m: StreamModel, ws1: Seq<Walk>, ws2: Seq<Walk>)
    requires
        drains(m, ws1),
        drains(m, ws2),
    ensures
        ws1 == ws2,
    decreases ws1.len(),
{
    let (a, r1) = drained_first(m, ws1);
    let (b, r2) = drained_first(m, ws2);
    lemma_next_relation_unique(m, a, r1, b, r2);
    if ws1.len() > 0 {
        lemma_drains_unique(a, ws1.drop_first(), ws2.drop_first());
        assert(ws1 =~= seq![ws1[0]] + ws1.drop_first());
        assert(ws2 =~= seq![ws2[0]] + ws2.drop_first());
    }
}

/// The state after the first `next` of a builder that drains to `ws`, and
/// what that `next` yields.
proof fn drained_first(m: StreamModel, ws: Seq<Walk>) -> (r: (StreamModel, Option<Walk>))
    requires
        drains(m, ws),
    ensures
        next_relation(m, r.0, r.1),
        ws.len() == 0 ==> r.1 is None,
        ws.len() > 0 ==> r.1 == Some(ws[0]) && drains(r.0, ws.drop_first()),
{
    if ws.len() == 0 {
        let a = choose|m2: StreamModel| #[trigger] next_relation(m, m2, None);
        (a, None)
    } else {
        let a = choose|m2: StreamModel|
            #![trigger next_relation(m, m2, Some(ws[0]))]
            next_relation(m, m2, Some(ws[0])) && drains(m2, ws.drop_first());
        (a, Some(ws[0]))
    }
}

/// Drains a lazy builder over `html`: the walks it yields, in order.
pub fn html_iter_walks(html: Vec<HtmlNode>) -> (walks: Vec<Walk>)
    requires
        supported_forest(html@),
        nodes_weight(html@) <= usize::MAX,
    ensures
        drains(StreamModel { nodes: html@, queue: Seq::empty(), rec: None }, walks@),
        drain_keeps(StreamModel { nodes: html@, queue: Seq::empty(), rec: None }, walks@) ==> nav_marks(
            walks@,
            seq![0nat],
        ) == placeholders(html@),
{
    let mut it = WalkIteratorTest::new(to_deque(html));
    let ghost orig = it.model();
    let mut walks: Vec<Walk> = Vec::new();
    proof {
        assert(measure(orig) == nodes_weight(html@) + queue_cost(Seq::<Walk>::empty()));
        assert(queue_cost(Seq::<Walk>::empty()) == 0);
        assert forall|ws: Seq<Walk>| drains(it.model(), ws) implies drains(orig, walks@ + ws) by {
            assert(walks@ + ws =~= ws);
        }
    }
    loop
        invariant
            orig == (StreamModel { nodes: html@, queue: Seq::empty(), rec: None }),
            supported_forest(html@),
            model_wf(it.model()),
            measure(it.model()) <= usize::MAX,
            forall|ws: Seq<Walk>| drains(it.model(), ws) ==> #[trigger] drains(orig, walks@ + ws),
        decreases measure(it.model()),
    {
        let ghost cur = it.model();
        match it.next() {
            None => {
                proof {
                    assert(next_relation(cur, it.model(), None));
                    assert(drains(cur, Seq::<Walk>::empty()));
                    assert(walks@ + Seq::<Walk>::empty() =~= walks@);
                    if drain_keeps(orig, walks@) {
                        lemma_lazy_walks_mark_placeholders(html@, walks@);
                    }
                }
                return walks;
            },
            Some(w) => {
                let ghost before = walks@;
                walks.push(w);
                proof {
                    assert forall|ws: Seq<Walk>| drains(it.model(), ws) implies drains(orig, walks@ + ws) by {
                        let ws2 = seq![w] + ws;
                        assert(ws2.len() == ws.len() + 1);
                        assert(ws2[0] == w);
                        assert(ws2.drop_first() =~= ws);
                        assert(next_relation(cur, it.model(), Some(ws2[0])) && drains(it.model(), ws2.drop_first()));
                        assert(drains(cur, ws2));
                        assert(before + ws2 =~= walks@ + ws);
                    }
                }
            },
        }
    }
}

/// The nodes of `v`, in order, as a double-ended queue.
fn to_deque(v: Vec<HtmlNode>) -> (q: VecDeque<HtmlNode>)
    ensures
        q@ == v@,
{
    let ghost ch = v@;
    let mut rest = v;
    let mut level: VecDeque<HtmlNode> = VecDeque::new();
    while rest.len() > 0
        invariant
            rest@.len() <= ch.len(),
            rest@ == ch.take(rest@.len() as int),
            level@ == ch.skip(rest@.len() as int),
        decreases rest@.len(),
    {
        let c = rest.pop().unwrap();
        level.push_front(c);
        proof {
            assert(rest@ =~= ch.take(rest@.len() as int));
            assert(level@ =~= ch.skip(rest@.len() as int));
        }
    }
    proof {
        assert(level@ =~= ch);
    }
    level
}

} // verus!
