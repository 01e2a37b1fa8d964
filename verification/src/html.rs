//! The node tree of an HTML template and the walks that visit its
//! placeholders.
use vstd::prelude::*;

use crate::amounts::{
    amount, lemma_amount_in, lemma_amount_out, lemma_amount_over, lemma_amount_prefix, lemma_fits,
    lemma_push_no_events, moves, no_events,
};
use crate::walk::Walk;
use crate::nav::{
    lemma_same_append, lemma_same_push, lemma_same_tail, lemma_same_trans, nav_marks, nav_pos,
    same_navigation,
};
use crate::placeholders::{lemma_steps_marks, placeholders};
use crate::walk_iterator::{
    all_well_formed, ins_follow_overs, lemma_ins_push, lemma_ins_pushed_in, lemma_ins_pushed_out,
    lemma_ins_pushed_over, lemma_same_refl, push_in_keeps_navigation, pushed_in, pushed_out,
    pushed_over, WalkIterator,
};

verus! {

/// A node of a parsed template, as far as the walks depend on it.
///
/// `Element` and `Fragment` hold their children; `Block` is a `{ .. }`
/// expression whose value becomes a text node.
#[derive(Debug)]
pub enum HtmlNode {
    Element(Vec<HtmlNode>),
    Attribute,
    Text,
    Comment,
    Doctype,
    Block,
    Fragment(Vec<HtmlNode>),
}

/// The nodes the walk builder handles: elements, text, comments and blocks,
/// at every depth.
pub open spec fn supported_forest(s: Seq<HtmlNode>) -> bool
    decreases s,
{
    if s.len() == 0 {
        true
    } else {
        supported_forest(s.drop_last()) && match s.last() {
            HtmlNode::Element(ch) => supported_forest(ch@),
            HtmlNode::Text => true,
            HtmlNode::Comment => true,
            HtmlNode::Block => true,
            _ => false,
        }
    }
}

/// The number of nodes in a forest, at every depth.
pub open spec fn forest_size(s: Seq<HtmlNode>) -> nat
    decreases s,
{
    if s.len() == 0 {
        0
    } else {
        forest_size(s.drop_last()) + match s.last() {
            HtmlNode::Element(ch) => 1 + forest_size(ch@),
            HtmlNode::Fragment(ch) => 1 + forest_size(ch@),
            _ => 1,
        }
    }
}

/// `s` after pushing the step `w`, merged as `WalkIterator` merges it.
pub open spec fn pushed_walk(s: Seq<Walk>, w: Walk) -> Seq<Walk> {
    match w {
        Walk::In(n) => pushed_in(s, n),
        Walk::Out(n) => pushed_out(s, n),
        Walk::Over(n) => pushed_over(s, n),
        Walk::Replace => s.push(Walk::Replace),
        Walk::Event(_) => s,
    }
}

/// `acc` after pushing each step of `ws` in turn.
pub open spec fn replayed(acc: Seq<Walk>, ws: Seq<Walk>) -> Seq<Walk>
    decreases ws.len(),
{
    if ws.len() == 0 {
        acc
    } else {
        pushed_walk(replayed(acc, ws.drop_last()), ws.last())
    }
}

/// The walks for the first `k` nodes of a forest: an element descends into
/// its first child, walks its children, climbs back and, unless it is the
/// last node, moves to the next sibling; text and comments are stepped
/// over; a block is marked for replacement and stepped over.
pub open spec fn walks_after(nodes: Seq<HtmlNode>, k: nat) -> Seq<Walk>
    decreases nodes, k,
{
    if k == 0 || k > nodes.len() {
        Seq::empty()
    } else {
        let prev = walks_after(nodes, (k - 1) as nat);
        match nodes[k - 1] {
            HtmlNode::Element(ch) => {
                let closed = pushed_out(
                    replayed(pushed_in(prev, 1), walks_after(ch@, ch@.len())),
                    1,
                );
                if k < nodes.len() {
                    pushed_over(closed, 1)
                } else {
                    closed
                }
            },
            HtmlNode::Text => pushed_over(prev, 1),
            HtmlNode::Comment => pushed_over(prev, 1),
            HtmlNode::Block => pushed_over(prev.push(Walk::Replace), 1),
            _ => prev,
        }
    }
}

/// The walks for a whole forest.
pub open spec fn forest_walks(nodes: Seq<HtmlNode>) -> Seq<Walk> {
    walks_after(nodes, nodes.len())
}

/// The steps for the first `k` nodes of a forest, one step per node
/// boundary and nothing merged: an element descends one level, takes its
/// children's steps, climbs back and, unless it is the last node, moves to
/// the next sibling; text and comments move over; a block is marked and
/// moved over.
pub open spec fn steps_after(nodes: Seq<HtmlNode>, k: nat) -> Seq<Walk>
    decreases nodes, k,
{
    if k == 0 || k > nodes.len() {
        Seq::empty()
    } else {
        let prev = steps_after(nodes, (k - 1) as nat);
        match nodes[k - 1] {
            HtmlNode::Element(ch) => {
                let closed = (prev.push(Walk::In(1)) + steps_after(ch@, ch@.len())).push(Walk::Out(1));
                if k < nodes.len() {
                    closed.push(Walk::Over(1))
                } else {
                    closed
                }
            },
            HtmlNode::Text => prev.push(Walk::Over(1)),
            HtmlNode::Comment => prev.push(Walk::Over(1)),
            HtmlNode::Block => prev.push(Walk::Replace).push(Walk::Over(1)),
            _ => prev,
        }
    }
}

/// The children's walks of an element do not begin with a descent of more
/// than one level (which the builder would merge into the descent into the
/// element as a descent of two).
pub open spec fn first_descent_merges(ws: Seq<Walk>) -> bool {
    ws.len() > 0 && ws[0] is In ==> ws[0] == Walk::In(1)
}

/// At every depth, each element's children's walks begin with no descent of
/// more than one level.
pub open spec fn descents_merge(s: Seq<HtmlNode>) -> bool
    decreases s,
{
    if s.len() == 0 {
        true
    } else {
        descents_merge(s.drop_last()) && match s.last() {
            HtmlNode::Element(ch) => first_descent_merges(forest_walks(ch@)) && descents_merge(ch@),
            _ => true,
        }
    }
}

/// What `descents_merge` says of each node of a forest.
pub proof fn lemma_descents_take(s: Seq<HtmlNode>, k: int)
    requires
        0 <= k < s.len(),
        descents_merge(s),
    ensures
        descents_merge(s.take(k + 1)),
        descents_merge(s.take(k)),
        s[k] matches HtmlNode::Element(ch) ==> first_descent_merges(forest_walks(ch@)) && descents_merge(ch@),
    decreases s.len() - k,
{
    if k + 1 < s.len() {
        lemma_descents_take(s, k + 1);
        assert(s.take(k + 2).drop_last() =~= s.take(k + 1));
        assert(s.take(k + 2).last() == s[k + 1]);
    } else {
        assert(s.take(k + 1) =~= s);
    }
    assert(s.take(k + 1).drop_last() =~= s.take(k));
    assert(s.take(k + 1).last() == s[k]);
}

/// The number of `Replace` steps in `s`.
pub open spec fn replace_count(s: Seq<Walk>) -> nat
    decreases s.len(),
{
    if s.len() == 0 {
        0
    } else {
        replace_count(s.drop_last()) + if s.last() is Replace {
            1nat
        } else {
            0nat
        }
    }
}

/// The number of blocks of a forest, at every depth.
pub open spec fn block_count(s: Seq<HtmlNode>) -> nat
    decreases s,
{
    if s.len() == 0 {
        0
    } else {
        block_count(s.drop_last()) + match s.last() {
            HtmlNode::Element(ch) => block_count(ch@),
            HtmlNode::Block => 1,
            _ => 0,
        }
    }
}

/// Appending a step adds one `Replace` where it is one.
pub proof fn lemma_replace_push(s: Seq<Walk>, w: Walk)
    ensures
        replace_count(s.push(w)) == replace_count(s) + if w is Replace {
            1nat
        } else {
            0nat
        },
{
    assert(s.push(w).drop_last() =~= s);
}

/// Merging a move into the walks keeps their `Replace` steps.
pub proof fn lemma_replace_pushed(s: Seq<Walk>, w: Walk)
    ensures
        replace_count(pushed_walk(s, w)) == replace_count(s) + if w is Replace {
            1nat
        } else {
            0nat
        },
    decreases s.len(),
{
    if s.len() > 0 {
        let d = s.drop_last();
        assert(replace_count(s) == replace_count(d) + if s.last() is Replace { 1nat } else { 0nat });
    }
    match w {
        Walk::Over(n) => {
            if s.len() > 0 && s.last() is Over {
                lemma_replace_push(s.drop_last(), Walk::Over((s.last()->Over_0 + n) as usize));
            } else {
                lemma_replace_push(s, Walk::Over(n));
            }
        },
        Walk::Out(n) => {
            if s.len() == 0 {
                lemma_replace_push(s, Walk::Out(n));
                assert(s.push(Walk::Out(n)) =~= seq![Walk::Out(n)]);
            } else {
                let d = s.drop_last();
                match s.last() {
                    Walk::In(k) => {
                        if k > n {
                            lemma_replace_push(d, Walk::In((k - n) as usize));
                        } else if n > k {
                            lemma_replace_pushed(d, Walk::Out((n - k) as usize));
                        }
                    },
                    Walk::Out(k) => {
                        lemma_replace_push(d, Walk::Out((k + n) as usize));
                    },
                    Walk::Over(_) => {
                        lemma_replace_pushed(d, Walk::Out(n));
                    },
                    _ => {
                        lemma_replace_push(s, Walk::Out(n));
                    },
                }
            }
        },
        Walk::In(n) => {
            if s.len() == 0 {
                lemma_replace_push(s, Walk::In(n));
                assert(s.push(Walk::In(n)) =~= seq![Walk::In(n)]);
            } else {
                let d = s.drop_last();
                match s.last() {
                    Walk::In(k) => {
                        lemma_replace_push(d, Walk::In((k + 1) as usize));
                    },
                    Walk::Out(k) => {
                        if k > n {
                            lemma_replace_push(d, Walk::Out((k - n) as usize));
                        } else if n > k {
                            lemma_replace_pushed(d, Walk::In((n - k) as usize));
                        }
                    },
                    _ => {
                        lemma_replace_push(s, Walk::In(n));
                    },
                }
            }
        },
        Walk::Replace => {
            lemma_replace_push(s, Walk::Replace);
        },
        Walk::Event(_) => {},
    }
}

/// Replaying walks adds their `Replace` steps.
pub proof fn lemma_replace_replayed(acc: Seq<Walk>, ws: Seq<Walk>)
    ensures
        replace_count(replayed(acc, ws)) == replace_count(acc) + replace_count(ws),
    decreases ws.len(),
{
    if ws.len() > 0 {
        lemma_replace_replayed(acc, ws.drop_last());
        lemma_replace_pushed(replayed(acc, ws.drop_last()), ws.last());
    }
}

/// The walks of the first `k` nodes of a forest hold one `Replace` for each
/// block among them.
pub proof fn lemma_replace_per_block(nodes: Seq<HtmlNode>, k: nat)
    requires
        k <= nodes.len(),
    ensures
        replace_count(walks_after(nodes, k)) == block_count(nodes.take(k as int)),
    decreases nodes, k,
{
    if k == 0 {
        assert(nodes.take(0) =~= Seq::<HtmlNode>::empty());
    } else {
        lemma_replace_per_block(nodes, (k - 1) as nat);
        let prev = walks_after(nodes, (k - 1) as nat);
        let t = nodes.take(k as int);
        assert(t.drop_last() =~= nodes.take(k - 1));
        assert(t.last() == nodes[k - 1]);
        match nodes[k - 1] {
            HtmlNode::Element(ch) => {
                assert(decreases_to!(nodes => nodes[k - 1]));
                lemma_replace_per_block(ch@, ch@.len());
                assert(ch@.take(ch@.len() as int) =~= ch@);
                lemma_replace_pushed(prev, Walk::In(1));
                let opened = pushed_in(prev, 1);
                let cw = walks_after(ch@, ch@.len());
                lemma_replace_replayed(opened, cw);
                lemma_replace_pushed(replayed(opened, cw), Walk::Out(1));
                let closed = pushed_out(replayed(opened, cw), 1);
                lemma_replace_pushed(closed, Walk::Over(1));
            },
            HtmlNode::Text | HtmlNode::Comment => {
                lemma_replace_pushed(prev, Walk::Over(1));
            },
            HtmlNode::Block => {
                lemma_replace_push(prev, Walk::Replace);
                lemma_replace_pushed(prev.push(Walk::Replace), Walk::Over(1));
            },
            _ => {},
        }
    }
}

/// The walks of a template hold exactly one `Replace` for each of its
/// blocks, whatever the template.
pub proof fn lemma_one_replace_per_block(nodes: Seq<HtmlNode>)
    ensures
        replace_count(forest_walks(nodes)) == block_count(nodes),
{
    lemma_replace_per_block(nodes, nodes.len());
    assert(nodes.take(nodes.len() as int) =~= nodes);
}

/// A prefix of a supported forest is supported and no larger.
pub proof fn lemma_forest_take(s: Seq<HtmlNode>, k: int)
    requires
        0 <= k <= s.len(),
    ensures
        supported_forest(s) ==> supported_forest(s.take(k)),
        forest_size(s.take(k)) <= forest_size(s),
    decreases s.len() - k,
{
    if k < s.len() {
        lemma_forest_take(s, k + 1);
        assert(s.take(k + 1).drop_last() =~= s.take(k));
    } else {
        assert(s.take(k) =~= s);
    }
}

/// Replaying one more step.
pub proof fn lemma_replayed_step(acc: Seq<Walk>, ws: Seq<Walk>, j: int)
    requires
        0 <= j < ws.len(),
    ensures
        replayed(acc, ws.take(j + 1)) == pushed_walk(replayed(acc, ws.take(j)), ws[j]),
        amount(ws.take(j + 1)) == amount(ws.take(j)) + moves(ws[j]),
{
    assert(ws.take(j + 1).drop_last() =~= ws.take(j));
    assert(ws.take(j + 1).last() == ws[j]);
}

/// Builds the walks for a forest of template nodes, one node after the
/// other.
pub fn process_html_inner(nodes: &Vec<HtmlNode>) -> (walks: WalkIterator)
    requires
        supported_forest(nodes@),
        3 * forest_size(nodes@) <= usize::MAX,
    ensures
        walks@ == forest_walks(nodes@),
        all_well_formed(walks@),
        no_events(walks@),
        amount(walks@) <= 3 * forest_size(nodes@),
        ins_follow_overs(walks@),
        descents_merge(nodes@) ==> same_navigation(walks@, steps_after(nodes@, nodes@.len())),
    decreases nodes@,
{
    let ghost dm = descents_merge(nodes@);
    let mut walks = WalkIterator::new();
    let mut i: usize = 0;
    proof {
        assert(nodes@.take(0) =~= Seq::<HtmlNode>::empty());
        assert(no_events(walks@));
        lemma_same_refl(walks@);
    }
    while i < nodes.len()
        invariant
            i <= nodes.len(),
            supported_forest(nodes@),
            3 * forest_size(nodes@) <= usize::MAX,
            walks@ == walks_after(nodes@, i as nat),
            all_well_formed(walks@),
            no_events(walks@),
            amount(walks@) <= 3 * forest_size(nodes@.take(i as int)),
            dm == descents_merge(nodes@),
            ins_follow_overs(walks@),
            i == 0 ==> walks@.len() == 0,
            0 < i < nodes.len() ==> walks@.len() > 0 && walks@.last() is Over,
            dm ==> same_navigation(walks@, steps_after(nodes@, i as nat)),
        decreases nodes.len() - i,
    {
        let ghost prev = walks@;
        let ghost prev_steps = steps_after(nodes@, i as nat);
        proof {
            lemma_forest_take(nodes@, i as int + 1);
            assert(nodes@.take(i as int + 1).drop_last() =~= nodes@.take(i as int));
            assert(nodes@.take(i as int + 1).last() == nodes@[i as int]);
            if dm {
                lemma_descents_take(nodes@, i as int);
            }
        }
        match &nodes[i] {
            HtmlNode::Element(children) => {
                proof {
                    lemma_fits(walks@, 1);
                    lemma_amount_in(walks@, 1);
                    lemma_ins_pushed_in(walks@, 1);
                    assert(decreases_to!(nodes@ => nodes@[i as int]));
                }
                walks.push_in(1);
                let ghost opened = walks@;
                proof {
                    if dm {
                        lemma_same_push(prev, prev_steps, Walk::In(1));
                        lemma_same_trans(opened, prev.push(Walk::In(1)), prev_steps.push(Walk::In(1)));
                    }
                }
                let inner = process_html_inner(children);
                let ghost inner_seq = inner@;
                let inner_walks: Vec<Walk> = Vec::from(inner);
                proof {
                    crate::walk_iterator::lemma_into_vec_keeps_walks(inner);
                    assert(inner_walks@ == inner_seq);
                    assert(inner_walks@.take(0) =~= Seq::<Walk>::empty());
                    assert(amount(Seq::<Walk>::empty()) == 0);
                    assert(opened + inner_seq.take(0) =~= opened);
                    lemma_same_refl(opened);
                }
                let mut j: usize = 0;
                while j < inner_walks.len()
                    invariant
                        j <= inner_walks.len(),
                        inner_walks@ == inner_seq,
                        inner_seq == forest_walks(children@),
                        all_well_formed(inner_seq),
                        no_events(inner_seq),
                        amount(inner_seq) <= 3 * forest_size(children@),
                        walks@ == replayed(opened, inner_seq.take(j as int)),
                        all_well_formed(walks@),
                        no_events(walks@),
                        amount(walks@) <= amount(opened) + amount(inner_seq.take(j as int)),
                        amount(opened) + 3 * forest_size(children@) + 2 <= usize::MAX,
                        ins_follow_overs(inner_seq),
                        ins_follow_overs(walks@),
                        j == 0 ==> walks@.len() > 0 && walks@.last() is In,
                        j > 0 && inner_seq[j - 1] is Over ==> walks@.len() > 0 && walks@.last() is Over,
                        dm ==> first_descent_merges(inner_seq),
                        dm ==> same_navigation(walks@, opened + inner_seq.take(j as int)),
                    decreases inner_walks.len() - j,
                {
                    let ghost before = walks@;
                    proof {
                        lemma_replayed_step(opened, inner_seq, j as int);
                        lemma_amount_prefix(inner_seq, j as int + 1);
                        assert(inner_seq[j as int].well_formed());
                        assert(!(inner_seq[j as int] is Event));
                        assert(opened + inner_seq.take(j as int + 1) =~= (opened + inner_seq.take(j as int)).push(inner_seq[j as int]));
                    }
                    match inner_walks[j] {
                        Walk::In(n) => {
                            proof {
                                lemma_fits(walks@, n);
                                lemma_amount_in(walks@, n);
                                if j > 0 {
                                    assert(inner_seq[j - 1] is Over);
                                }
                                lemma_ins_pushed_in(walks@, n);
                            }
                            walks.push_in(n);
                            proof {
                                if dm {
                                    if j == 0 {
                                        assert(inner_seq[0] == Walk::In(1));
                                    }
                                    assert(push_in_keeps_navigation(before, n));
                                    lemma_same_push(before, opened + inner_seq.take(j as int), Walk::In(n));
                                    lemma_same_trans(walks@, before.push(Walk::In(n)), (opened + inner_seq.take(j as int)).push(Walk::In(n)));
                                }
                            }
                        },
                        Walk::Out(n) => {
                            proof {
                                lemma_fits(walks@, n);
                                lemma_amount_out(walks@, n);
                                lemma_ins_pushed_out(walks@, n);
                            }
                            walks.push_out(n);
                            proof {
                                if dm {
                                    lemma_same_push(before, opened + inner_seq.take(j as int), Walk::Out(n));
                                    lemma_same_trans(walks@, before.push(Walk::Out(n)), (opened + inner_seq.take(j as int)).push(Walk::Out(n)));
                                }
                            }
                        },
                        Walk::Over(n) => {
                            proof {
                                lemma_fits(walks@, n);
                                lemma_amount_over(walks@, n);
                                lemma_ins_pushed_over(walks@, n);
                            }
                            walks.push_over(n);
                            proof {
                                if dm {
                                    lemma_same_push(before, opened + inner_seq.take(j as int), Walk::Over(n));
                                    lemma_same_trans(walks@, before.push(Walk::Over(n)), (opened + inner_seq.take(j as int)).push(Walk::Over(n)));
                                }
                            }
                        },
                        Walk::Replace => {
                            proof {
                                lemma_push_no_events(walks@, Walk::Replace);
                                assert(walks@.push(Walk::Replace).drop_last() =~= walks@);
                                lemma_ins_push(walks@, Walk::Replace);
                            }
                            walks.push_replace();
                            proof {
                                if dm {
                                    lemma_same_push(before, opened + inner_seq.take(j as int), Walk::Replace);
                                }
                            }
                        },
                        Walk::Event(_) => {},
                    }
                    j = j + 1;
                }
                proof {
                    assert(inner_seq.take(inner_seq.len() as int) =~= inner_seq);
                    lemma_fits(walks@, 1);
                    lemma_amount_out(walks@, 1);
                    lemma_ins_pushed_out(walks@, 1);
                }
                let ghost replayed_all = walks@;
                let ghost child_steps = steps_after(children@, children@.len());
                proof {
                    if dm {
                        lemma_same_tail(opened, inner_seq, child_steps);
                        lemma_same_trans(replayed_all, opened + inner_seq, opened + child_steps);
                        lemma_same_append(opened, prev_steps.push(Walk::In(1)), child_steps);
                        lemma_same_trans(replayed_all, opened + child_steps, prev_steps.push(Walk::In(1)) + child_steps);
                    }
                }
                walks.push_out(1);
                proof {
                    if dm {
                        lemma_same_push(replayed_all, prev_steps.push(Walk::In(1)) + child_steps, Walk::Out(1));
                        lemma_same_trans(walks@, replayed_all.push(Walk::Out(1)), (prev_steps.push(Walk::In(1)) + child_steps).push(Walk::Out(1)));
                    }
                }
                if i + 1 < nodes.len() {
                    let ghost closed = walks@;
                    proof {
                        lemma_fits(walks@, 1);
                        lemma_amount_over(walks@, 1);
                        lemma_ins_pushed_over(walks@, 1);
                    }
                    walks.push_over(1);
                    proof {
                        if dm {
                            lemma_same_push(closed, (prev_steps.push(Walk::In(1)) + child_steps).push(Walk::Out(1)), Walk::Over(1));
                            lemma_same_trans(walks@, closed.push(Walk::Over(1)), (prev_steps.push(Walk::In(1)) + child_steps).push(Walk::Out(1)).push(Walk::Over(1)));
                        }
                    }
                }
            },
            HtmlNode::Text | HtmlNode::Comment => {
                proof {
                    lemma_fits(walks@, 1);
                    lemma_amount_over(walks@, 1);
                    lemma_ins_pushed_over(walks@, 1);
                }
                walks.push_over(1);
                proof {
                    if dm {
                        lemma_same_push(prev, prev_steps, Walk::Over(1));
                        lemma_same_trans(walks@, prev.push(Walk::Over(1)), prev_steps.push(Walk::Over(1)));
                    }
                }
            },
            HtmlNode::Block => {
                proof {
                    lemma_push_no_events(walks@, Walk::Replace);
                    assert(walks@.push(Walk::Replace).drop_last() =~= walks@);
                    lemma_ins_push(walks@, Walk::Replace);
                }
                walks.push_replace();
                let ghost marked = walks@;
                proof {
                    lemma_fits(walks@, 1);
                    lemma_amount_over(walks@, 1);
                    lemma_ins_pushed_over(walks@, 1);
                    if dm {
                        lemma_same_push(prev, prev_steps, Walk::Replace);
                    }
                }
                walks.push_over(1);
                proof {
                    if dm {
                        lemma_same_push(marked, prev_steps.push(Walk::Replace), Walk::Over(1));
                        lemma_same_trans(walks@, marked.push(Walk::Over(1)), prev_steps.push(Walk::Replace).push(Walk::Over(1)));
                    }
                }
            },
            _ => {},
        }
        i = i + 1;
    }
    proof {
        assert(nodes@.take(nodes@.len() as int) =~= nodes@);
    }
    walks
}

/// Whether the walk builders handle every node of a template: elements,
/// text, comments and blocks only, at every depth.
pub fn is_supported(nodes: &Vec<HtmlNode>) -> (ok: bool)
    ensures
        ok == supported_forest(nodes@),
    decreases nodes@,
{
    let mut i: usize = 0;
    proof {
        assert(nodes@.take(0) =~= Seq::<HtmlNode>::empty());
    }
    while i < nodes.len()
        invariant
            i <= nodes.len(),
            supported_forest(nodes@.take(i as int)),
        decreases nodes.len() - i,
    {
        proof {
            assert(nodes@.take(i as int + 1).drop_last() =~= nodes@.take(i as int));
            assert(nodes@.take(i as int + 1).last() == nodes@[i as int]);
        }
        let fine = match &nodes[i] {
            HtmlNode::Element(children) => {
                proof {
                    assert(decreases_to!(nodes@ => nodes@[i as int]));
                }
                is_supported(children)
            },
            HtmlNode::Text | HtmlNode::Comment | HtmlNode::Block => true,
            _ => false,
        };
        if !fine {
            proof {
                lemma_forest_take(nodes@, i as int + 1);
            }
            return false;
        }
        i = i + 1;
    }
    proof {
        assert(nodes@.take(nodes@.len() as int) =~= nodes@);
    }
    true
}

/// The number of nodes of a template, at every depth, where it fits in a
/// `usize`.
pub fn node_count(nodes: &Vec<HtmlNode>) -> (r: Option<usize>)
    ensures
        r == (if forest_size(nodes@) <= usize::MAX {
            Some(forest_size(nodes@) as usize)
        } else {
            None::<usize>
        }),
    decreases nodes@,
{
    let mut i: usize = 0;
    let mut total: usize = 0;
    proof {
        assert(nodes@.take(0) =~= Seq::<HtmlNode>::empty());
    }
    while i < nodes.len()
        invariant
            i <= nodes.len(),
            total == forest_size(nodes@.take(i as int)),
        decreases nodes.len() - i,
    {
        proof {
            assert(nodes@.take(i as int + 1).drop_last() =~= nodes@.take(i as int));
            assert(nodes@.take(i as int + 1).last() == nodes@[i as int]);
            lemma_forest_take(nodes@, i as int + 1);
        }
        let own: Option<usize> = match &nodes[i] {
            HtmlNode::Element(children) | HtmlNode::Fragment(children) => {
                proof {
                    assert(decreases_to!(nodes@ => nodes@[i as int]));
                }
                match node_count(children) {
                    Some(n) => n.checked_add(1),
                    None => None,
                }
            },
            _ => Some(1),
        };
        let next = match own {
            Some(n) => total.checked_add(n),
            None => None,
        };
        match next {
            Some(t) => {
                total = t;
            },
            None => {
                return None;
            },
        }
        i = i + 1;
    }
    proof {
        assert(nodes@.take(nodes@.len() as int) =~= nodes@);
    }
    Some(total)
}

/// The walks that lead from a template's first node through all of its
/// placeholders.
pub fn process_html(html: Vec<HtmlNode>) -> (walks: Vec<Walk>)
    requires
        supported_forest(html@),
        3 * forest_size(html@) <= usize::MAX,
    ensures
        walks@ == forest_walks(html@),
        all_well_formed(walks@),
        no_events(walks@),
        // one `Replace` per block
        replace_count(walks@) == block_count(html@),
        // the walks, from the first node, mark the blocks in document order
        descents_merge(html@) ==> nav_marks(walks@, seq![0nat]) == placeholders(html@),
{
    let it = process_html_inner(&html);
    proof {
        lemma_one_replace_per_block(html@);
        crate::walk_iterator::lemma_into_vec_keeps_walks(it);
        lemma_walks_mark_placeholders(html@, it@);
    }
    Vec::from(it)
}

/// Walks that navigate as a template's steps mark its placeholders.
pub proof fn lemma_walks_mark_placeholders(nodes: Seq<HtmlNode>, ws: Seq<Walk>)
    requires
        supported_forest(nodes),
        descents_merge(nodes) ==> same_navigation(ws, steps_after(nodes, nodes.len())),
    ensures
        descents_merge(nodes) ==> nav_marks(ws, seq![0nat]) == placeholders(nodes),
{
    if descents_merge(nodes) {
        let p0 = Seq::<nat>::empty().push(0);
        assert(p0 =~= seq![0nat]);
        assert(nav_pos(ws, p0) == nav_pos(steps_after(nodes, nodes.len()), p0));
        lemma_steps_marks(nodes, Seq::empty(), nodes.len());
    }
}

} // verus!
