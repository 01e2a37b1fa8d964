//! What a sequence of walks means: a position in the template tree, given as
//! the path of child indices from the root, and the marks (`Replace` and
//! `Event` steps) that the walk makes on the way.
use vstd::prelude::*;

use crate::walk::Walk;

verus! {

/// `n` zeros: the path suffix of descending `n` times to the first child.
pub open spec fn zeros(n: nat) -> Seq<nat> {
    Seq::new(n, |i: int| 0nat)
}

/// The position after one walk step from `p`. Climbing above the root stays
/// at the root; moving to a sibling of the root changes nothing.
pub open spec fn nav_step(p: Seq<nat>, w: Walk) -> Seq<nat> {
    match w {
        Walk::In(n) => p + zeros(n as nat),
        Walk::Out(n) => if n <= p.len() {
            p.take(p.len() - n)
        } else {
            Seq::empty()
        },
        Walk::Over(n) => if p.len() == 0 {
            p
        } else {
            p.update(p.len() - 1, (p.last() + n) as nat)
        },
        _ => p,
    }
}

/// A step that marks the node it stands on.
pub open spec fn is_mark(w: Walk) -> bool {
    w is Replace || w is Event
}

/// The position reached by walking `ws` from `p`.
pub open spec fn nav_pos(ws: Seq<Walk>, p: Seq<nat>) -> Seq<nat>
    decreases ws.len(),
{
    if ws.len() == 0 {
        p
    } else {
        nav_step(nav_pos(ws.drop_last(), p), ws.last())
    }
}

/// The marks made by walking `ws` from `p`: each with the position it was
/// made at.
pub open spec fn nav_marks(ws: Seq<Walk>, p: Seq<nat>) -> Seq<(Seq<nat>, Walk)>
    decreases ws.len(),
{
    if ws.len() == 0 {
        Seq::empty()
    } else if is_mark(ws.last()) {
        nav_marks(ws.drop_last(), p).push((nav_pos(ws.drop_last(), p), ws.last()))
    } else {
        nav_marks(ws.drop_last(), p)
    }
}

/// Two walk sequences lead from every position to the same place and make
/// the same marks on the way.
pub open spec fn same_navigation(a: Seq<Walk>, b: Seq<Walk>) -> bool {
    forall|p: Seq<nat>|
        #![trigger nav_pos(a, p)]
        #![trigger nav_pos(b, p)]
        nav_pos(a, p) == nav_pos(b, p) && nav_marks(a, p) == nav_marks(b, p)
}

/// Walking `d + t` is walking `d` and then `t`.
pub proof fn lemma_nav_append(d: Seq<Walk>, t: Seq<Walk>, p: Seq<nat>)
    ensures
        nav_pos(d + t, p) == nav_pos(t, nav_pos(d, p)),
        nav_marks(d + t, p) == nav_marks(d, p) + nav_marks(t, nav_pos(d, p)),
    decreases t.len(),
{
    if t.len() == 0 {
        assert(d + t =~= d);
        assert(nav_marks(d, p) + nav_marks(t, nav_pos(d, p)) =~= nav_marks(d, p));
    } else {
        assert((d + t).drop_last() =~= d + t.drop_last());
        assert((d + t).last() == t.last());
        lemma_nav_append(d, t.drop_last(), p);
        if is_mark(t.last()) {
            assert(nav_marks(d + t, p) =~= nav_marks(d, p) + nav_marks(t, nav_pos(d, p)));
        }
    }
}

/// Replacing the tail of a walk by one that navigates the same way keeps
/// the whole walk's navigation.
pub proof fn lemma_same_tail(d: Seq<Walk>, t1: Seq<Walk>, t2: Seq<Walk>)
    requires
        same_navigation(t1, t2),
    ensures
        same_navigation(d + t1, d + t2),
{
    assert forall|p: Seq<nat>|
        nav_pos(d + t1, p) == nav_pos(d + t2, p) && nav_marks(d + t1, p) == nav_marks(d + t2, p) by {
        lemma_nav_append(d, t1, p);
        lemma_nav_append(d, t2, p);
        let q = nav_pos(d, p);
        assert(nav_pos(t1, q) == nav_pos(t2, q));
    }
}

/// Walking on the same way after two walks that navigate alike keeps them
/// alike.
pub proof fn lemma_same_append(a: Seq<Walk>, b: Seq<Walk>, t: Seq<Walk>)
    requires
        same_navigation(a, b),
    ensures
        same_navigation(a + t, b + t),
{
    assert forall|p: Seq<nat>|
        nav_pos(a + t, p) == nav_pos(b + t, p) && nav_marks(a + t, p) == nav_marks(b + t, p) by {
        lemma_nav_append(a, t, p);
        lemma_nav_append(b, t, p);
        assert(nav_pos(a, p) == nav_pos(b, p));
    }
}

/// Taking one more step after two walks that navigate alike keeps them
/// alike.
pub proof fn lemma_same_push(a: Seq<Walk>, b: Seq<Walk>, w: Walk)
    requires
        same_navigation(a, b),
    ensures
        same_navigation(a.push(w), b.push(w)),
{
    lemma_same_append(a, b, seq![w]);
    assert(a.push(w) =~= a + seq![w]);
    assert(b.push(w) =~= b + seq![w]);
}

/// `same_navigation` is transitive.
pub proof fn lemma_same_trans(a: Seq<Walk>, b: Seq<Walk>, c: Seq<Walk>)
    requires
        same_navigation(a, b),
        same_navigation(b, c),
    ensures
        same_navigation(a, c),
{
    assert forall|p: Seq<nat>| nav_pos(a, p) == nav_pos(c, p) && nav_marks(a, p) == nav_marks(c, p) by {
        assert(nav_pos(a, p) == nav_pos(b, p));
        assert(nav_pos(b, p) == nav_pos(c, p));
    }
}

/// Unfolds the meaning of a walk of one or two steps that make no marks.
pub proof fn lemma_two_steps(a: Walk, b: Walk, p: Seq<nat>)
    requires
        !is_mark(a),
        !is_mark(b),
    ensures
        nav_pos(seq![a], p) == nav_step(p, a),
        nav_pos(seq![a, b], p) == nav_step(nav_step(p, a), b),
        nav_marks(seq![a], p) == Seq::<(Seq<nat>, Walk)>::empty(),
        nav_marks(seq![a, b], p) == Seq::<(Seq<nat>, Walk)>::empty(),
{
    assert(seq![a, b].drop_last() =~= seq![a]);
    assert(seq![a].drop_last() =~= Seq::<Walk>::empty());
    assert(nav_pos(Seq::<Walk>::empty(), p) == p);
    assert(nav_pos(seq![a], p) == nav_step(p, a));
    assert(seq![a].last() == a);
    assert(nav_marks(Seq::<Walk>::empty(), p) == Seq::<(Seq<nat>, Walk)>::empty());
    assert(nav_marks(seq![a], p) == Seq::<(Seq<nat>, Walk)>::empty());
    assert(seq![a, b].last() == b);
}

/// `[x]` navigates as `[a, b]` where neither marks and the steps compose.
pub proof fn lemma_pair_as_one(a: Walk, b: Walk, x: Walk)
    requires
        !is_mark(a),
        !is_mark(b),
        !is_mark(x),
        forall|p: Seq<nat>| #[trigger] nav_step(nav_step(p, a), b) == nav_step(p, x),
    ensures
        same_navigation(seq![x], seq![a, b]),
{
    assert forall|p: Seq<nat>|
        nav_pos(seq![x], p) == nav_pos(seq![a, b], p) && nav_marks(seq![x], p) == nav_marks(
            seq![a, b],
            p,
        ) by {
        lemma_two_steps(a, b, p);
        lemma_two_steps(x, x, p);
        assert(nav_step(nav_step(p, a), b) == nav_step(p, x));
    }
}

/// `[]` navigates as `[a, b]` where neither marks and the steps cancel.
pub proof fn lemma_pair_as_none(a: Walk, b: Walk)
    requires
        !is_mark(a),
        !is_mark(b),
        forall|p: Seq<nat>| #[trigger] nav_step(nav_step(p, a), b) == p,
    ensures
        same_navigation(Seq::<Walk>::empty(), seq![a, b]),
{
    assert forall|p: Seq<nat>|
        nav_pos(Seq::<Walk>::empty(), p) == nav_pos(seq![a, b], p) && nav_marks(
            Seq::<Walk>::empty(),
            p,
        ) == nav_marks(seq![a, b], p) by {
        lemma_two_steps(a, b, p);
        assert(nav_step(nav_step(p, a), b) == p);
    }
}

/// Moving `a` then `b` siblings over is moving `a + b` over.
pub proof fn lemma_over_over(a: usize, b: usize)
    requires
        a + b <= usize::MAX,
    ensures
        forall|p: Seq<nat>|
            #[trigger] nav_step(nav_step(p, Walk::Over(a)), Walk::Over(b)) == nav_step(
                p,
                Walk::Over((a + b) as usize),
            ),
{
    assert forall|p: Seq<nat>|
        #[trigger] nav_step(nav_step(p, Walk::Over(a)), Walk::Over(b)) == nav_step(
            p,
            Walk::Over((a + b) as usize),
        ) by {
        if p.len() != 0 {
            let q = nav_step(p, Walk::Over(a));
            assert(q.len() == p.len());
            assert(nav_step(q, Walk::Over(b)) =~= nav_step(p, Walk::Over((a + b) as usize)));
        }
    }
}

/// Climbing `a` then `b` levels is climbing `a + b` levels.
pub proof fn lemma_out_out(a: usize, b: usize)
    requires
        a + b <= usize::MAX,
    ensures
        forall|p: Seq<nat>|
            #[trigger] nav_step(nav_step(p, Walk::Out(a)), Walk::Out(b)) == nav_step(
                p,
                Walk::Out((a + b) as usize),
            ),
{
    assert forall|p: Seq<nat>|
        #[trigger] nav_step(nav_step(p, Walk::Out(a)), Walk::Out(b)) == nav_step(
            p,
            Walk::Out((a + b) as usize),
        ) by {
        let q = nav_step(p, Walk::Out(a));
        assert(nav_step(q, Walk::Out(b)) =~= nav_step(p, Walk::Out((a + b) as usize)));
    }
}

/// Descending `a` then `b` levels is descending `a + b` levels.
pub proof fn lemma_in_in(a: usize, b: usize)
    requires
        a + b <= usize::MAX,
    ensures
        forall|p: Seq<nat>|
            #[trigger] nav_step(nav_step(p, Walk::In(a)), Walk::In(b)) == nav_step(
                p,
                Walk::In((a + b) as usize),
            ),
{
    assert forall|p: Seq<nat>|
        #[trigger] nav_step(nav_step(p, Walk::In(a)), Walk::In(b)) == nav_step(
            p,
            Walk::In((a + b) as usize),
        ) by {
        assert(nav_step(nav_step(p, Walk::In(a)), Walk::In(b)) =~= nav_step(
            p,
            Walk::In((a + b) as usize),
        ));
    }
}

/// Descending `a` and climbing `b` levels: what remains of the larger one.
pub proof fn lemma_in_out(a: usize, b: usize)
    ensures
        forall|p: Seq<nat>|
            #[trigger] nav_step(nav_step(p, Walk::In(a)), Walk::Out(b)) == if a > b {
                nav_step(p, Walk::In((a - b) as usize))
            } else {
                nav_step(p, Walk::Out((b - a) as usize))
            },
{
    assert forall|p: Seq<nat>|
        #[trigger] nav_step(nav_step(p, Walk::In(a)), Walk::Out(b)) == if a > b {
            nav_step(p, Walk::In((a - b) as usize))
        } else {
            nav_step(p, Walk::Out((b - a) as usize))
        } by {
        let q = nav_step(p, Walk::In(a));
        if a > b {
            assert(nav_step(q, Walk::Out(b)) =~= nav_step(p, Walk::In((a - b) as usize)));
        } else {
            assert(nav_step(q, Walk::Out(b)) =~= nav_step(p, Walk::Out((b - a) as usize)));
        }
    }
}

/// Moving over siblings and then climbing is just climbing.
pub proof fn lemma_over_out(a: usize, b: usize)
    requires
        b != 0,
    ensures
        forall|p: Seq<nat>|
            #[trigger] nav_step(nav_step(p, Walk::Over(a)), Walk::Out(b)) == nav_step(
                p,
                Walk::Out(b),
            ),
{
    assert forall|p: Seq<nat>|
        #[trigger] nav_step(nav_step(p, Walk::Over(a)), Walk::Out(b)) == nav_step(
            p,
            Walk::Out(b),
        ) by {
        let q = nav_step(p, Walk::Over(a));
        assert(nav_step(q, Walk::Out(b)) =~= nav_step(p, Walk::Out(b)));
    }
}


/// The merges of `Walk::merged` that keep navigation: all but a descent
/// after a climb, and, where a descent follows a descent or a climb follows
/// a climb, only a new step of one level (the merge adds one level).
pub open spec fn merge_keeps_navigation(o: Walk, w: Walk) -> bool {
    &&& !(o is Out && w is In)
    &&& (o is In && w is In ==> w == Walk::In(1))
    &&& (o is Out && w is Out ==> w == Walk::Out(1))
}

/// Merging a step into a pending one navigates as taking the two in turn,
/// wherever the merge keeps navigation.
pub proof fn lemma_merge_navigation(o: Walk, w: Walk)
    requires
        o.well_formed(),
        w.well_formed(),
        Walk::merge_fits(Some(o), w),
        Walk::merged(Some(o), w) is Ok,
        merge_keeps_navigation(o, w),
    ensures
        match Walk::merged(Some(o), w) {
            Ok(Some(x)) => same_navigation(seq![x], seq![o, w]),
            Ok(None) => same_navigation(Seq::<Walk>::empty(), seq![o, w]),
            Err(_) => true,
        },
{
    match o {
        Walk::In(a) => match w {
            Walk::In(b) => {
                lemma_in_in(a, b);
                lemma_pair_as_one(Walk::In(a), Walk::In(b), Walk::In((a + 1) as usize));
            },
            Walk::Out(b) => {
                lemma_in_out(a, b);
                if a > b {
                    lemma_pair_as_one(Walk::In(a), Walk::Out(b), Walk::In((a - b) as usize));
                } else if b > a {
                    lemma_pair_as_one(Walk::In(a), Walk::Out(b), Walk::Out((b - a) as usize));
                } else {
                    assert forall|p: Seq<nat>| #[trigger] nav_step(nav_step(p, Walk::In(a)), Walk::Out(b)) == p by {
                        assert(nav_step(p, Walk::Out(0)) =~= p);
                    }
                    lemma_pair_as_none(Walk::In(a), Walk::Out(b));
                }
            },
            _ => {},
        },
        Walk::Out(a) => match w {
            Walk::Out(b) => {
                lemma_out_out(a, b);
                lemma_pair_as_one(Walk::Out(a), Walk::Out(b), Walk::Out((a + 1) as usize));
            },
            _ => {},
        },
        Walk::Over(a) => match w {
            Walk::Out(b) => {
                lemma_over_out(a, b);
                lemma_pair_as_one(Walk::Over(a), Walk::Out(b), Walk::Out(b));
            },
            Walk::Over(b) => {
                lemma_over_over(a, b);
                lemma_pair_as_one(Walk::Over(a), Walk::Over(b), Walk::Over((a + b) as usize));
            },
            _ => {},
        },
        _ => {},
    }
}

} // verus!
