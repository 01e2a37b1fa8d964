//! Visiting the nodes of a template in document order, one at a time, with
//! how many levels each visit climbed.
use std::collections::VecDeque;
use vstd::prelude::*;

use crate::html::HtmlNode;

verus! {

/// The nodes of a forest in document order: each node, then (for an
/// element) its descendants, then the nodes after it.
pub open spec fn preorder(s: Seq<HtmlNode>) -> Seq<HtmlNode>
    decreases s,
{
    if s.len() == 0 {
        Seq::empty()
    } else {
        seq![s[0]] + match s[0] {
            HtmlNode::Element(ch) => preorder(ch@),
            _ => Seq::empty(),
        } + preorder(s.drop_first())
    }
}

/// The nodes still to visit from a stack of pending sibling lists: the top
/// list first, then the ones below.
pub open spec fn preorder_stack(st: Seq<Seq<HtmlNode>>) -> Seq<HtmlNode>
    decreases st.len(),
{
    if st.len() == 0 {
        Seq::empty()
    } else {
        preorder(st.last()) + preorder_stack(st.drop_last())
    }
}

/// One visit, from the stack `st` to the stack `new`, yielding `r`: the
/// exhausted lists on top are dropped (`k` levels stay); `None` where none
/// stays; otherwise the first node of the top list is yielded without its
/// children, with the change in depth `k - st.len()`, and, for an element,
/// its children go on top. So the visits still to come lose their first,
/// which is the node yielded.
pub open spec fn visit_step(st: Seq<Seq<HtmlNode>>, new: Seq<Seq<HtmlNode>>, r: Option<DepthFirstIterNode>) -> bool {
    let k = kept_levels(st) as int;
    let base = st.take(k);
    &&& match r {
        None => k == 0 && new == base,
        Some(v) => {
            let q = base.last();
            &&& k > 0
            &&& stripped_of(v.node, q[0])
            &&& v.level_diff == k - st.len()
            // the depth of this node, less the height left by the visit
            // before, which is that node's depth plus one for an element
            &&& new.len() == k + if q[0] is Element { 1int } else { 0int }
            &&& new == match q[0] {
                HtmlNode::Element(ch) => base.drop_last().push(q.drop_first()).push(ch@),
                _ => base.drop_last().push(q.drop_first()),
            }
        },
    }
    // the visits follow document order
    &&& match r {
        None => preorder_stack(st) == Seq::<HtmlNode>::empty(),
        Some(v) => {
            &&& preorder_stack(st).len() > 0
            &&& stripped_of(v.node, preorder_stack(st)[0])
            &&& preorder_stack(new) == preorder_stack(st).drop_first()
        },
    }
}

/// The depth of each node of a forest at depth `d`, in document order.
pub open spec fn preorder_depths(s: Seq<HtmlNode>, d: nat) -> Seq<nat>
    decreases s,
{
    if s.len() == 0 {
        Seq::empty()
    } else {
        seq![d] + match s[0] {
            HtmlNode::Element(ch) => preorder_depths(ch@, d + 1),
            _ => Seq::empty(),
        } + preorder_depths(s.drop_first(), d)
    }
}

/// The depth of each node still to visit from a stack of pending sibling
/// lists, the list at level `i` being at depth `i + 1`.
pub open spec fn stack_depths(st: Seq<Seq<HtmlNode>>) -> Seq<nat>
    decreases st.len(),
{
    if st.len() == 0 {
        Seq::empty()
    } else {
        preorder_depths(st.last(), st.len()) + stack_depths(st.drop_last())
    }
}

/// The height of the stack once its empty top lists are dropped.
pub open spec fn kept_levels(st: Seq<Seq<HtmlNode>>) -> nat
    decreases st.len(),
{
    if st.len() == 0 {
        0
    } else if st.last().len() == 0 {
        kept_levels(st.drop_last())
    } else {
        st.len()
    }
}

/// `out` is `n` with its children, if it has any, removed.
pub open spec fn stripped_of(out: HtmlNode, n: HtmlNode) -> bool {
    match n {
        HtmlNode::Element(_) => out matches HtmlNode::Element(c) && c@.len() == 0,
        HtmlNode::Fragment(_) => out matches HtmlNode::Fragment(c) && c@.len() == 0,
        _ => out == n,
    }
}

/// A visited node, without its children, and the change in depth since the
/// previous visit (never positive: a descent shows as zero).
pub struct DepthFirstIterNode {
    pub node: HtmlNode,
    pub level_diff: isize,
}

/// A depth-first walk over a forest of template nodes.
pub struct DepthFirstIter {
    nodes_stack: Vec<VecDeque<HtmlNode>>,
}

impl View for DepthFirstIter {
    type V = Seq<Seq<HtmlNode>>;

    closed spec fn view(&self) -> Seq<Seq<HtmlNode>> {
        self.nodes_stack@.map_values(|q: VecDeque<HtmlNode>| q@)
    }
}

/// Empty lists on top of the stack hold nothing to visit.
pub proof fn lemma_kept_levels(st: Seq<Seq<HtmlNode>>)
    ensures
        kept_levels(st) <= st.len(),
        preorder_stack(st) == preorder_stack(st.take(kept_levels(st) as int)),
        kept_levels(st) > 0 ==> st[kept_levels(st) - 1].len() > 0,
        kept_levels(st.take(kept_levels(st) as int)) == kept_levels(st),
    decreases st.len(),
{
    if st.len() == 0 {
        assert(st.take(0) =~= st);
    } else if st.last().len() == 0 {
        lemma_kept_levels(st.drop_last());
        let k = kept_levels(st) as int;
        assert(st.drop_last().take(k) =~= st.take(k));
        assert(preorder(st.last()) == Seq::<HtmlNode>::empty());
        assert(preorder_stack(st) =~= preorder_stack(st.drop_last()));
    } else {
        assert(st.take(st.len() as int) =~= st);
    }
}

impl DepthFirstIter {
    /// Starts a walk over `nodes`.
    pub fn new(nodes: VecDeque<HtmlNode>) -> (it: Self)
        ensures
            it@ == seq![nodes@],
            // the visits to come are the forest in document order
            preorder_stack(it@) == preorder(nodes@),
    {
        let mut nodes_stack = Vec::new();
        nodes_stack.push(nodes);
        let it = DepthFirstIter { nodes_stack };
        proof {
            assert(it@ =~= seq![nodes@]);
            assert(it@.drop_last() =~= Seq::<Seq<HtmlNode>>::empty());
            assert(it@.last() == nodes@);
            assert(preorder_stack(Seq::<Seq<HtmlNode>>::empty()) == Seq::<HtmlNode>::empty());
            assert(preorder_stack(it@) == preorder(nodes@) + Seq::<HtmlNode>::empty());
            assert(preorder(nodes@) + Seq::<HtmlNode>::empty() =~= preorder(nodes@));
        }
        it
    }

    /// Visits the next node: drops the exhausted lists on top of the stack,
    /// takes the first node of the list now on top and, for an element,
    /// puts its children on top.
    pub fn next(&mut self) -> (r: Option<DepthFirstIterNode>)
        requires
            old(self)@.len() <= isize::MAX,
        ensures
            visit_step(old(self)@, final(self)@, r),
    {
        let ghost st = self@;
        let old_stack_len = self.nodes_stack.len();
        proof {
            lemma_kept_levels(st);
        }
        while self.nodes_stack.len() > 0 && self.nodes_stack[self.nodes_stack.len() - 1].len() == 0
            invariant
                self.nodes_stack@.len() <= st.len(),
                self@ == st.take(self.nodes_stack@.len() as int),
                kept_levels(self@) == kept_levels(st),
            decreases self.nodes_stack@.len(),
        {
            let ghost before = self@;
            self.nodes_stack.pop();
            proof {
                assert(before.last().len() == 0);
                assert(self@ =~= before.drop_last());
                assert(self@ =~= st.take(self.nodes_stack@.len() as int));
            }
        }
        let len = self.nodes_stack.len();
        proof {
            if len > 0 {
                assert(self@.last().len() > 0);
                assert(kept_levels(self@) == len);
            }
            assert(self@ == st.take(kept_levels(st) as int));
        }
        if len == 0 {
            return None;
        }
        let level_diff = (len as isize) - (old_stack_len as isize);
        let mut nodes = self.nodes_stack.pop().unwrap();
        let ghost q = nodes@;
        let node = nodes.pop_front().unwrap();
        self.nodes_stack.push(nodes);
        let ghost base = st.take(len as int);
        proof {
            assert(base.last() == q);
            assert(self@ =~= base.drop_last().push(q.drop_first()));
            assert(preorder_stack(base) == preorder(q) + preorder_stack(base.drop_last()));
            assert(preorder(q) == seq![q[0]] + match q[0] {
                HtmlNode::Element(ch) => preorder(ch@),
                _ => Seq::empty(),
            } + preorder(q.drop_first()));
        }
        match node {
            HtmlNode::Element(children) => {
                let ghost ch = children@;
                let mut rest = children;
                let mut level: VecDeque<HtmlNode> = VecDeque::new();
                while rest.len() > 0
                    invariant
                        rest@.len() <= ch.len(),
                        rest@ == ch.take(rest@.len() as int),
                        level@ == ch.skip(rest@.len() as int),
                    decreases rest@.len(),
                {
                    let ghost before = rest@;
                    let c = rest.pop().unwrap();
                    level.push_front(c);
                    proof {
                        assert(rest@ =~= ch.take(rest@.len() as int));
                        assert(level@ =~= ch.skip(rest@.len() as int));
                    }
                }
                let ghost mid = self@;
                self.nodes_stack.push(level);
                proof {
                    assert(level@ =~= ch);
                    assert(self@ =~= mid.push(ch));
                    let tail = base.drop_last().push(q.drop_first());
                    assert(self@.drop_last() =~= tail);
                    assert(tail.drop_last() =~= base.drop_last());
                    assert(preorder_stack(self@) == preorder(ch) + preorder_stack(tail));
                    assert(preorder_stack(tail) == preorder(q.drop_first()) + preorder_stack(base.drop_last()));
                    assert(preorder_stack(st) =~= seq![q[0]] + preorder_stack(self@));
                    assert(preorder_stack(st)[0] == q[0]);
                    assert(preorder_stack(st).drop_first() =~= preorder_stack(self@));
                }
                Some(DepthFirstIterNode { node: HtmlNode::Element(Vec::new()), level_diff })
            },
            HtmlNode::Fragment(_) => {
                proof {
                    let tail = base.drop_last().push(q.drop_first());
                    assert(tail.drop_last() =~= base.drop_last());
                    assert(preorder_stack(st) =~= seq![q[0]] + preorder_stack(self@));
                    assert(preorder_stack(st).drop_first() =~= preorder_stack(self@));
                }
                Some(DepthFirstIterNode { node: HtmlNode::Fragment(Vec::new()), level_diff })
            },
            other => {
                proof {
                    let tail = base.drop_last().push(q.drop_first());
                    assert(tail.drop_last() =~= base.drop_last());
                    assert(preorder_stack(st) =~= seq![q[0]] + preorder_stack(self@));
                    assert(preorder_stack(st).drop_first() =~= preorder_stack(self@));
                }
                Some(DepthFirstIterNode { node: other, level_diff })
            },
        }
    }
}


/// A forest has one depth for each node it visits.
pub proof fn lemma_preorder_depths_len(s: Seq<HtmlNode>, d: nat)
    ensures
        preorder_depths(s, d).len() == preorder(s).len(),
    decreases s,
{
    if s.len() > 0 {
        match s[0] {
            HtmlNode::Element(ch) => {
                assert(decreases_to!(s => s[0]));
                lemma_preorder_depths_len(ch@, d + 1);
            },
            _ => {},
        }
        lemma_preorder_depths_len(s.drop_first(), d);
    }
}

/// Empty lists on top of the stack hold no depths.
pub proof fn lemma_stack_depths_kept(st: Seq<Seq<HtmlNode>>)
    ensures
        stack_depths(st) == stack_depths(st.take(kept_levels(st) as int)),
    decreases st.len(),
{
    if st.len() == 0 {
        assert(st.take(0) =~= st);
    } else if st.last().len() == 0 {
        lemma_stack_depths_kept(st.drop_last());
        lemma_kept_levels(st.drop_last());
        let k = kept_levels(st) as int;
        assert(st.drop_last().take(k) =~= st.take(k));
        assert(preorder_depths(st.last(), st.len()) == Seq::<nat>::empty());
        assert(stack_depths(st) =~= stack_depths(st.drop_last()));
    } else {
        assert(st.take(st.len() as int) =~= st);
    }
}

/// A visit yields the node at the depth of the levels that stay, and the
/// depths still to come lose their first.
pub proof fn lemma_step_depths(st: Seq<Seq<HtmlNode>>, new: Seq<Seq<HtmlNode>>, r: Option<DepthFirstIterNode>)
    requires
        visit_step(st, new, r),
        r is Some,
    ensures
        stack_depths(st).len() > 0,
        stack_depths(st)[0] == kept_levels(st),
        stack_depths(new) == stack_depths(st).drop_first(),
        preorder_stack(st).len() > 0,
        new.len() == kept_levels(st) + if preorder_stack(st)[0] is Element { 1int } else { 0int },
{
    let k = kept_levels(st) as int;
    let base = st.take(k);
    lemma_kept_levels(st);
    lemma_stack_depths_kept(st);
    let q = base.last();
    let rest = base.drop_last();
    assert(base.len() == k);
    assert(stack_depths(base) == preorder_depths(q, k as nat) + stack_depths(rest));
    let tail = rest.push(q.drop_first());
    assert(tail.drop_last() =~= rest);
    assert(tail.last() == q.drop_first());
    assert(stack_depths(tail) == preorder_depths(q.drop_first(), k as nat) + stack_depths(rest));
    match q[0] {
        HtmlNode::Element(ch) => {
            let c = preorder_depths(ch@, (k + 1) as nat);
            assert(preorder_depths(q, k as nat) == seq![k as nat] + c + preorder_depths(q.drop_first(), k as nat));
            assert(new.drop_last() =~= tail);
            assert(new.last() == ch@);
            assert(stack_depths(new) == c + stack_depths(tail));
            assert(stack_depths(st) =~= seq![k as nat] + stack_depths(new));
        },
        _ => {
            assert(preorder_depths(q, k as nat) == seq![k as nat] + Seq::<nat>::empty() + preorder_depths(q.drop_first(), k as nat));
            assert(stack_depths(st) =~= seq![k as nat] + stack_depths(new));
        },
    }
    assert(stack_depths(st).drop_first() =~= stack_depths(new));
    assert(preorder_stack(st) == preorder_stack(base));
    assert(preorder_stack(base) == preorder(q) + preorder_stack(rest));
    assert(preorder(q)[0] == q[0]);
}

/// Where the visits stand after `j` calls of `next` from a fresh walk over
/// `forest` (the states `sts`, the results `rs`).
proof fn lemma_visits_upto(
    forest: Seq<HtmlNode>,
    sts: Seq<Seq<Seq<HtmlNode>>>,
    rs: Seq<Option<DepthFirstIterNode>>,
    j: int,
)
    requires
        sts.len() == rs.len() + 1,
        sts[0] == seq![forest],
        forall|i: int| 0 <= i < rs.len() ==> visit_step(#[trigger] sts[i], sts[i + 1], rs[i]),
        0 <= j <= rs.len(),
    ensures
        j <= preorder(forest).len() ==> preorder_stack(sts[j]) == preorder(forest).skip(j)
            && stack_depths(sts[j]) == preorder_depths(forest, 1).skip(j),
        j > preorder(forest).len() ==> preorder_stack(sts[j]).len() == 0,
        j == 0 ==> sts[j].len() == 1,
        0 < j <= preorder(forest).len() ==> sts[j].len() == preorder_depths(forest, 1)[j - 1] + if preorder(
            forest,
        )[j - 1] is Element {
            1int
        } else {
            0int
        },
    decreases j,
{
    let p = preorder(forest);
    let d = preorder_depths(forest, 1);
    lemma_preorder_depths_len(forest, 1);
    if j == 0 {
        let st = sts[0];
        assert(st.drop_last() =~= Seq::<Seq<HtmlNode>>::empty());
        assert(st.last() == forest);
        assert(preorder_stack(Seq::<Seq<HtmlNode>>::empty()) == Seq::<HtmlNode>::empty());
        assert(stack_depths(Seq::<Seq<HtmlNode>>::empty()) == Seq::<nat>::empty());
        assert(preorder_stack(st) == p + Seq::<HtmlNode>::empty());
        assert(stack_depths(st) == d + Seq::<nat>::empty());
        assert(p + Seq::<HtmlNode>::empty() =~= p);
        assert(d + Seq::<nat>::empty() =~= d);
        assert(p.skip(0) =~= p);
        assert(d.skip(0) =~= d);
    } else {
        lemma_visits_upto(forest, sts, rs, j - 1);
        let st = sts[j - 1];
        let new = sts[j];
        assert(visit_step(sts[j - 1], sts[(j - 1) + 1], rs[j - 1]));
        if j - 1 < p.len() {
            assert(preorder_stack(st).len() > 0);
            assert(rs[j - 1] is Some);
            lemma_step_depths(st, new, rs[j - 1]);
            assert(p.skip(j - 1).drop_first() =~= p.skip(j));
            assert(d.skip(j - 1).drop_first() =~= d.skip(j));
            assert(stack_depths(st)[0] == d[j - 1]);
            assert(preorder_stack(st)[0] == p[j - 1]);
        } else {
            assert(preorder_stack(st).len() == 0);
            if rs[j - 1] is Some {
                assert(false);
            }
            assert(new == st.take(0));
            assert(new =~= Seq::<Seq<HtmlNode>>::empty());
        }
    }
}

/// The change in depth at the `i`-th visit of a walk over `forest`: the
/// node's depth less that of the node before, less one more where that one
/// was an element (zero for the first).
pub open spec fn expected_level_diff(forest: Seq<HtmlNode>, i: int) -> int {
    if i == 0 {
        0
    } else {
        preorder_depths(forest, 1)[i] - preorder_depths(forest, 1)[i - 1] - if preorder(
            forest,
        )[i - 1] is Element {
            1int
        } else {
            0int
        }
    }
}

/// What the `i`-th visit of a walk over `forest` yields: the `i`-th node in
/// document order, without its children, with its change in depth; `None`
/// once all nodes were visited.
pub open spec fn expected_visit(forest: Seq<HtmlNode>, i: int, r: Option<DepthFirstIterNode>) -> bool {
    if i < preorder(forest).len() {
        r matches Some(v) && stripped_of(v.node, preorder(forest)[i]) && v.level_diff
            == expected_level_diff(forest, i)
    } else {
        r is None
    }
}

/// Successive visits of a walk over `forest` yield its nodes in document
/// order, each once and without its children, each with its change in
/// depth, then only `None`.
pub proof fn lemma_visits_in_preorder(
    forest: Seq<HtmlNode>,
    sts: Seq<Seq<Seq<HtmlNode>>>,
    rs: Seq<Option<DepthFirstIterNode>>,
)
    requires
        sts.len() == rs.len() + 1,
        sts[0] == seq![forest],
        forall|i: int| 0 <= i < rs.len() ==> visit_step(#[trigger] sts[i], sts[i + 1], rs[i]),
    ensures
        forall|i: int| 0 <= i < rs.len() ==> expected_visit(forest, i, #[trigger] rs[i]),
{
    let p = preorder(forest);
    let d = preorder_depths(forest, 1);
    lemma_preorder_depths_len(forest, 1);
    assert forall|i: int| 0 <= i < rs.len() implies expected_visit(forest, i, #[trigger] rs[i]) by {
        lemma_visits_upto(forest, sts, rs, i);
        let st = sts[i];
        assert(visit_step(sts[i], sts[i + 1], rs[i]));
        if i < p.len() {
            assert(preorder_stack(st) == p.skip(i));
            assert(preorder_stack(st).len() > 0);
            assert(rs[i] is Some);
            lemma_step_depths(st, sts[i + 1], rs[i]);
            assert(stack_depths(st)[0] == d.skip(i)[0]);
            assert(preorder_stack(st)[0] == p.skip(i)[0]);
        } else {
            if i == p.len() {
                assert(p.skip(i) =~= Seq::<HtmlNode>::empty());
            }
            assert(preorder_stack(st).len() == 0);
        }
    }
}

} // verus!
