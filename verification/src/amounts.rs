//! How far a walk sequence moves in total, and what that bounds.
use vstd::prelude::*;

use crate::walk::Walk;
use crate::walk_iterator::{
    pushed_in, pushed_out, pushed_over, push_in_fits, push_out_fits, push_over_fits,
};

verus! {

/// The number of moves one step makes.
pub open spec fn moves(w: Walk) -> nat {
    match w {
        Walk::In(n) => n as nat,
        Walk::Out(n) => n as nat,
        Walk::Over(n) => n as nat,
        _ => 0,
    }
}

/// The number of moves a walk sequence makes.
pub open spec fn amount(s: Seq<Walk>) -> nat
    decreases s.len(),
{
    if s.len() == 0 {
        0
    } else {
        amount(s.drop_last()) + moves(s.last())
    }
}

/// No step of `s` attaches an event listener.
pub open spec fn no_events(s: Seq<Walk>) -> bool {
    forall|i: int| 0 <= i < s.len() ==> !((#[trigger] s[i]) is Event)
}

/// A prefix moves no more than the whole.
pub proof fn lemma_amount_prefix(s: Seq<Walk>, k: int)
    requires
        0 <= k <= s.len(),
    ensures
        amount(s.take(k)) <= amount(s),
    decreases s.len() - k,
{
    if k < s.len() {
        lemma_amount_prefix(s, k + 1);
        assert(s.take(k + 1).drop_last() =~= s.take(k));
    } else {
        assert(s.take(k) =~= s);
    }
}

/// Pushing onto a sequence whose moves leave room for the new step's
/// moves stays within `usize`.
pub proof fn lemma_fits(s: Seq<Walk>, n: usize)
    requires
        amount(s) + n <= usize::MAX,
        n != 0,
    ensures
        push_over_fits(s, n),
        push_out_fits(s, n),
        push_in_fits(s, n),
    decreases s.len(),
{
    if s.len() > 0 {
        let d = s.drop_last();
        match s.last() {
            Walk::In(k) => {
                if n > k {
                    lemma_fits(d, (n - k) as usize);
                }
            },
            Walk::Out(k) => {
                if n > k {
                    lemma_fits(d, (n - k) as usize);
                }
            },
            Walk::Over(_) => {
                lemma_fits(d, n);
            },
            _ => {},
        }
    }
}

/// Pushing `Over(n)` adds at most `n` moves.
pub proof fn lemma_amount_over(s: Seq<Walk>, n: usize)
    requires
        push_over_fits(s, n),
    ensures
        amount(pushed_over(s, n)) <= amount(s) + n,
        no_events(s) ==> no_events(pushed_over(s, n)),
{
    let r = pushed_over(s, n);
    if s.len() > 0 && s.last() is Over {
        assert(r.drop_last() =~= s.drop_last());
    } else {
        assert(r.drop_last() =~= s);
    }
    if no_events(s) {
        assert forall|i: int| 0 <= i < r.len() implies !((#[trigger] r[i]) is Event) by {
            if i < r.len() - 1 {
                assert(r[i] == s[i]);
            }
        }
    }
}

/// Pushing `Out(n)` adds at most `n` moves.
pub proof fn lemma_amount_out(s: Seq<Walk>, n: usize)
    requires
        push_out_fits(s, n),
    ensures
        amount(pushed_out(s, n)) <= amount(s) + n,
        no_events(s) ==> no_events(pushed_out(s, n)),
    decreases s.len(),
{
    if s.len() == 0 {
        assert(seq![Walk::Out(n)].drop_last() =~= Seq::<Walk>::empty());
        assert(amount(Seq::<Walk>::empty()) == 0);
        assert(no_events(seq![Walk::Out(n)]));
    } else {
        let d = s.drop_last();
        if no_events(s) {
            assert(no_events(d)) by {
                assert forall|i: int| 0 <= i < d.len() implies !((#[trigger] d[i]) is Event) by {
                    assert(d[i] == s[i]);
                }
            }
        }
        match s.last() {
            Walk::In(k) => {
                if k > n {
                    lemma_push_no_events(d, Walk::In((k - n) as usize));
                    assert(d.push(Walk::In((k - n) as usize)).drop_last() =~= d);
                } else if n > k {
                    lemma_amount_out(d, (n - k) as usize);
                }
            },
            Walk::Out(k) => {
                lemma_push_no_events(d, Walk::Out((k + n) as usize));
                assert(d.push(Walk::Out((k + n) as usize)).drop_last() =~= d);
            },
            Walk::Over(_) => {
                lemma_amount_out(d, n);
            },
            _ => {
                lemma_push_no_events(s, Walk::Out(n));
                assert(s.push(Walk::Out(n)).drop_last() =~= s);
            },
        }
    }
}

/// Pushing `In(n)` adds at most `n` moves.
pub proof fn lemma_amount_in(s: Seq<Walk>, n: usize)
    requires
        push_in_fits(s, n),
        n != 0,
    ensures
        amount(pushed_in(s, n)) <= amount(s) + n,
        no_events(s) ==> no_events(pushed_in(s, n)),
    decreases s.len(),
{
    if s.len() == 0 {
        assert(seq![Walk::In(n)].drop_last() =~= Seq::<Walk>::empty());
        assert(amount(Seq::<Walk>::empty()) == 0);
        assert(no_events(seq![Walk::In(n)]));
    } else {
        let d = s.drop_last();
        if no_events(s) {
            assert(no_events(d)) by {
                assert forall|i: int| 0 <= i < d.len() implies !((#[trigger] d[i]) is Event) by {
                    assert(d[i] == s[i]);
                }
            }
        }
        match s.last() {
            Walk::In(k) => {
                lemma_push_no_events(d, Walk::In((k + 1) as usize));
                assert(d.push(Walk::In((k + 1) as usize)).drop_last() =~= d);
            },
            Walk::Out(k) => {
                if k > n {
                    lemma_push_no_events(d, Walk::Out((k - n) as usize));
                    assert(d.push(Walk::Out((k - n) as usize)).drop_last() =~= d);
                } else if n > k {
                    lemma_amount_in(d, (n - k) as usize);
                }
            },
            _ => {
                lemma_push_no_events(s, Walk::In(n));
                assert(s.push(Walk::In(n)).drop_last() =~= s);
            },
        }
    }
}

/// Pushing a step that attaches no listener keeps `no_events`.
pub proof fn lemma_push_no_events(s: Seq<Walk>, w: Walk)
    ensures
        no_events(s) && !(w is Event) ==> no_events(s.push(w)),
{
    if no_events(s) && !(w is Event) {
        assert forall|i: int| 0 <= i < s.push(w).len() implies !((#[trigger] s.push(w)[i]) is Event) by {
        if i < s.len() {
            assert(s.push(w)[i] == s[i]);
        }
    }
    }
}

} // verus!
