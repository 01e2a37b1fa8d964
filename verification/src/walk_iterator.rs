//! A growing walk sequence that merges each new step into the last one
//! wherever the two can be expressed as one.
use vstd::prelude::*;

use crate::nav::{
    lemma_in_in, lemma_in_out, lemma_out_out, lemma_over_out, lemma_over_over, lemma_pair_as_none,
    lemma_pair_as_one, lemma_same_tail, lemma_same_trans, nav_step, same_navigation,
};
use crate::walk::Walk;

verus! {

/// Every step of `s` covers at least one move.
pub open spec fn all_well_formed(s: Seq<Walk>) -> bool {
    forall|i: int| 0 <= i < s.len() ==> (#[trigger] s[i]).well_formed()
}

/// `s` after pushing `Over(n)`: a trailing `Over` grows by `n`.
pub open spec fn pushed_over(s: Seq<Walk>, n: usize) -> Seq<Walk> {
    if s.len() > 0 && s.last() is Over {
        match s.last() {
            Walk::Over(k) => s.drop_last().push(Walk::Over((k + n) as usize)),
            _ => s,
        }
    } else {
        s.push(Walk::Over(n))
    }
}

/// Pushing `Over(n)` onto `s` stays within `usize`.
pub open spec fn push_over_fits(s: Seq<Walk>, n: usize) -> bool {
    s.len() > 0 ==> match s.last() {
        Walk::Over(k) => k + n <= usize::MAX,
        _ => true,
    }
}

/// `s` after pushing `Out(n)`: a trailing `In` is cancelled against it (the
/// rest climbing on from what precedes it), a trailing `Over` is dropped, a
/// trailing `Out` grows by `n`.
pub open spec fn pushed_out(s: Seq<Walk>, n: usize) -> Seq<Walk>
    decreases s.len(),
{
    if s.len() == 0 {
        seq![Walk::Out(n)]
    } else {
        match s.last() {
            Walk::In(k) => if k > n {
                s.drop_last().push(Walk::In((k - n) as usize))
            } else if n > k {
                pushed_out(s.drop_last(), (n - k) as usize)
            } else {
                s.drop_last()
            },
            Walk::Out(k) => s.drop_last().push(Walk::Out((k + n) as usize)),
            Walk::Over(_) => pushed_out(s.drop_last(), n),
            _ => s.push(Walk::Out(n)),
        }
    }
}

/// Pushing `Out(n)` onto `s` stays within `usize`.
pub open spec fn push_out_fits(s: Seq<Walk>, n: usize) -> bool
    decreases s.len(),
{
    if s.len() == 0 {
        true
    } else {
        match s.last() {
            Walk::In(k) => n > k ==> push_out_fits(s.drop_last(), (n - k) as usize),
            Walk::Out(k) => k + n <= usize::MAX,
            Walk::Over(_) => push_out_fits(s.drop_last(), n),
            _ => true,
        }
    }
}

/// `s` after pushing `In(n)`: a trailing `Out` is cancelled against it (the
/// rest descending on from what precedes it), a trailing `In` grows by one.
pub open spec fn pushed_in(s: Seq<Walk>, n: usize) -> Seq<Walk>
    decreases s.len(),
{
    if s.len() == 0 {
        seq![Walk::In(n)]
    } else {
        match s.last() {
            Walk::In(k) => s.drop_last().push(Walk::In((k + 1) as usize)),
            Walk::Out(k) => if k > n {
                s.drop_last().push(Walk::Out((k - n) as usize))
            } else if n > k {
                pushed_in(s.drop_last(), (n - k) as usize)
            } else {
                s.drop_last()
            },
            _ => s.push(Walk::In(n)),
        }
    }
}

/// Pushing `In(n)` onto `s` stays within `usize`.
pub open spec fn push_in_fits(s: Seq<Walk>, n: usize) -> bool
    decreases s.len(),
{
    if s.len() == 0 {
        true
    } else {
        match s.last() {
            Walk::In(k) => k + 1 <= usize::MAX,
            Walk::Out(k) => n > k ==> push_in_fits(s.drop_last(), (n - k) as usize),
            _ => true,
        }
    }
}

/// Pushing `In(n)` keeps the navigation of `s` followed by `In(n)`: the last
/// step is no `Out`, and where it is an `In` the new step descends by one.
pub open spec fn push_in_keeps_navigation(s: Seq<Walk>, n: usize) -> bool {
    s.len() > 0 ==> match s.last() {
        Walk::In(_) => n == 1,
        Walk::Out(_) => false,
        _ => true,
    }
}

/// The walks of a template, merged as they are pushed.
#[derive(Debug)]
pub struct WalkIterator {
    walks: Vec<Walk>,
}

impl WalkIterator {
    /// Every step covers at least one move.
    #[verifier::type_invariant]
    spec fn steps_well_formed(self) -> bool {
        all_well_formed(self.walks@)
    }
}

impl View for WalkIterator {
    type V = Seq<Walk>;

    closed spec fn view(&self) -> Seq<Walk> {
        self.walks@
    }
}

impl Default for WalkIterator {
    fn default() -> (r: Self)
        ensures
            r@ == Seq::<Walk>::empty(),
    {
        WalkIterator { walks: Vec::new() }
    }

}

impl From<WalkIterator> for Vec<Walk> {
    /// The walks pushed so far.
    fn from(value: WalkIterator) -> (v: Vec<Walk>) {
        value.walks
    }
}

impl vstd::std_specs::convert::FromSpecImpl<WalkIterator> for Vec<Walk> {
    open spec fn obeys_from_spec() -> bool {
        true
    }

    closed spec fn from_spec(v: WalkIterator) -> Vec<Walk> {
        v.walks
    }
}

/// Turning a `WalkIterator` into a `Vec` keeps its walks.
pub proof fn lemma_into_vec_keeps_walks(w: WalkIterator)
    ensures
        <Vec<Walk> as vstd::std_specs::convert::FromSpec<WalkIterator>>::from_spec(w)@ == w@,
{
}

impl WalkIterator {
    /// An empty walk sequence.
    pub fn new() -> (r: Self)
        ensures
            r@ == Seq::<Walk>::empty(),
            all_well_formed(r@),
            no_mergeable_neighbours(r@),
    {
        WalkIterator { walks: Vec::new() }
    }

    /// Takes the walks out, leaving none behind.
    fn take_walks(&mut self) -> (walks: Vec<Walk>)
        ensures
            walks@ == old(self)@,
            all_well_formed(walks@),
            final(self)@ == Seq::<Walk>::empty(),
    {
        proof {
            use_type_invariant(&*self);
        }
        let mut walks: Vec<Walk> = Vec::new();
        std::mem::swap(&mut walks, &mut self.walks);
        walks
    }

    /// Appends a `Replace` step.
    pub fn push_replace(&mut self)
        ensures
            final(self)@ == old(self)@.push(Walk::Replace),
            all_well_formed(final(self)@),
            // no neighbouring steps that a push would merge
            no_mergeable_neighbours(old(self)@) ==> no_mergeable_neighbours(final(self)@),
    {
        let mut walks = self.take_walks();
        proof {
            lemma_wf_push(walks@, Walk::Replace);
            if no_mergeable_neighbours(walks@) {
                lemma_neighbours_push(walks@, Walk::Replace);
            }
        }
        walks.push(Walk::Replace);
        self.walks = walks;
    }

    /// Appends `Over(over_n)`, merged into a trailing `Over`.
    pub fn push_over(&mut self, over_n: usize)
        requires
            over_n != 0,
            push_over_fits(old(self)@, over_n),
        ensures
            final(self)@ == pushed_over(old(self)@, over_n),
            all_well_formed(final(self)@),
            same_navigation(final(self)@, old(self)@.push(Walk::Over(over_n))),
            no_mergeable_neighbours(old(self)@) ==> no_mergeable_neighbours(final(self)@),
    {
        let mut walks = self.take_walks();
        let ghost s = walks@;
        proof {
            lemma_pushed_over_nav(s, over_n);
            if no_mergeable_neighbours(s) {
                lemma_neighbours_pushed_over(s, over_n);
            }
        }
        let len = walks.len();
        if len == 0 {
            walks.push(Walk::Over(over_n));
            self.walks = walks;
            return;
        }
        match walks[len - 1] {
            Walk::Over(last_n) => {
                walks.set(len - 1, Walk::Over(last_n + over_n));
                proof {
                    assert(walks@ =~= s.drop_last().push(Walk::Over((last_n + over_n) as usize)));
                    assert forall|i: int| 0 <= i < walks@.len() implies (#[trigger] walks@[i]).well_formed() by {
                        if i < len - 1 {
                            assert(walks@[i] == s[i]);
                        }
                    }
                }
            },
            _ => {
                walks.push(Walk::Over(over_n));
            },
        }
        self.walks = walks;
    }

    /// Appends `Out(out_n)`: cancels a trailing `In`, drops a trailing
    /// `Over`, grows a trailing `Out`.
    pub fn push_out(&mut self, out_n: usize)
        requires
            out_n != 0,
            push_out_fits(old(self)@, out_n),
        ensures
            final(self)@ == pushed_out(old(self)@, out_n),
            all_well_formed(final(self)@),
            same_navigation(final(self)@, old(self)@.push(Walk::Out(out_n))),
            no_mergeable_neighbours(old(self)@) ==> no_mergeable_neighbours(final(self)@),
        decreases old(self)@.len(),
    {
        let mut walks = self.take_walks();
        let ghost s = walks@;
        proof {
            lemma_pushed_out_nav(s, out_n);
            if no_mergeable_neighbours(s) {
                lemma_neighbours_pushed_out(s, out_n);
            }
        }
        let len = walks.len();
        if len == 0 {
            walks.push(Walk::Out(out_n));
            proof {
                assert(walks@ =~= seq![Walk::Out(out_n)]);
            }
            self.walks = walks;
            return;
        }
        let ghost d = s.drop_last();
        proof {
            assert(all_well_formed(d)) by {
                assert forall|i: int| 0 <= i < d.len() implies (#[trigger] d[i]).well_formed() by {
                    assert(d[i] == s[i]);
                }
            }
        }
        match walks[len - 1] {
            Walk::In(n) => {
                if n > out_n {
                    walks.set(len - 1, Walk::In(n - out_n));
                    proof {
                        assert(walks@ =~= d.push(Walk::In((n - out_n) as usize)));
                        lemma_wf_push(d, Walk::In((n - out_n) as usize));
                    }
                } else if out_n > n {
                    let m = out_n - n;
                    walks.pop();
                    assert(walks@ =~= d);
                    self.walks = walks;
                    self.push_out(m);
                    return;
                } else {
                    walks.pop();
                    proof {
                        assert(walks@ =~= d);
                    }
                }
            },
            Walk::Out(n) => {
                walks.set(len - 1, Walk::Out(n + out_n));
                proof {
                    assert(walks@ =~= d.push(Walk::Out((n + out_n) as usize)));
                    lemma_wf_push(d, Walk::Out((n + out_n) as usize));
                }
            },
            Walk::Over(_) => {
                walks.pop();
                assert(walks@ =~= d);
                self.walks = walks;
                self.push_out(out_n);
                return;
            },
            _ => {
                walks.push(Walk::Out(out_n));
            },
        }
        self.walks = walks;
    }

    /// Appends `In(in_n)`: cancels a trailing `Out`, grows a trailing `In`
    /// by one.
    pub fn push_in(&mut self, in_n: usize)
        requires
            in_n != 0,
            push_in_fits(old(self)@, in_n),
        ensures
            final(self)@ == pushed_in(old(self)@, in_n),
            all_well_formed(final(self)@),
            push_in_keeps_navigation(old(self)@, in_n) ==> same_navigation(
                final(self)@,
                old(self)@.push(Walk::In(in_n)),
            ),
            no_mergeable_neighbours(old(self)@) ==> no_mergeable_neighbours(final(self)@),
        decreases old(self)@.len(),
    {
        let mut walks = self.take_walks();
        let ghost s = walks@;
        proof {
            if no_mergeable_neighbours(s) {
                lemma_neighbours_pushed_in(s, in_n);
            }
        }
        let len = walks.len();
        if len == 0 {
            walks.push(Walk::In(in_n));
            proof {
                assert(walks@ =~= seq![Walk::In(in_n)]);
                lemma_same_refl(walks@);
            }
            self.walks = walks;
            return;
        }
        let ghost d = s.drop_last();
        proof {
            assert(all_well_formed(d)) by {
                assert forall|i: int| 0 <= i < d.len() implies (#[trigger] d[i]).well_formed() by {
                    assert(d[i] == s[i]);
                }
            }
        }
        match walks[len - 1] {
            Walk::In(n) => {
                walks.set(len - 1, Walk::In(n + 1));
                proof {
                    assert(walks@ =~= d + seq![Walk::In((n + 1) as usize)]);
                    lemma_wf_push(d, Walk::In((n + 1) as usize));
                    if in_n == 1 {
                        assert(s.push(Walk::In(in_n)) =~= d + seq![Walk::In(n), Walk::In(in_n)]);
                        lemma_in_in(n, in_n);
                        lemma_pair_as_one(Walk::In(n), Walk::In(in_n), Walk::In((n + 1) as usize));
                        lemma_same_tail(d, seq![Walk::In((n + 1) as usize)], seq![Walk::In(n), Walk::In(in_n)]);
                    }
                }
            },
            Walk::Out(n) => {
                if n > in_n {
                    walks.set(len - 1, Walk::Out(n - in_n));
                    proof {
                        assert(walks@ =~= d.push(Walk::Out((n - in_n) as usize)));
                        lemma_wf_push(d, Walk::Out((n - in_n) as usize));
                    }
                } else if in_n > n {
                    let m = in_n - n;
                    walks.pop();
                    assert(walks@ =~= d);
                    self.walks = walks;
                    self.push_in(m);
                    return;
                } else {
                    walks.pop();
                    assert(walks@ =~= d);
                }
            },
            _ => {
                walks.push(Walk::In(in_n));
                proof { lemma_same_refl(walks@); }
            },
        }
        proof {
            assert(walks@ == pushed_in(s, in_n));
        }
        self.walks = walks;
    }
}

/// Every descent but one at the front comes right after a move over
/// siblings.
pub open spec fn ins_follow_overs(s: Seq<Walk>) -> bool {
    forall|j: int| 0 < j < s.len() && (#[trigger] s[j]) is In ==> s[j - 1] is Over
}

/// Pushing `Over` keeps descents after moves over siblings, and ends with a
/// move over siblings.
pub proof fn lemma_ins_pushed_over(s: Seq<Walk>, n: usize)
    requires
        ins_follow_overs(s),
    ensures
        ins_follow_overs(pushed_over(s, n)),
        pushed_over(s, n).len() > 0,
        pushed_over(s, n).last() is Over,
{
    let r = pushed_over(s, n);
    assert forall|j: int| 0 < j < r.len() && (#[trigger] r[j]) is In implies r[j - 1] is Over by {
        assert(j < s.len());
        assert(r[j] == s[j]);
        assert(r[j - 1] == s[j - 1]);
    }
}

/// Pushing a step that is no descent keeps descents after moves over
/// siblings.
pub proof fn lemma_ins_push(s: Seq<Walk>, w: Walk)
    requires
        ins_follow_overs(s),
        !(w is In),
    ensures
        ins_follow_overs(s.push(w)),
{
    let r = s.push(w);
    assert forall|j: int| 0 < j < r.len() && (#[trigger] r[j]) is In implies r[j - 1] is Over by {
        assert(r[j] == s[j]);
        assert(r[j - 1] == s[j - 1]);
    }
}

/// Dropping the last step keeps descents after moves over siblings.
pub proof fn lemma_ins_drop_last(s: Seq<Walk>)
    requires
        ins_follow_overs(s),
        s.len() > 0,
    ensures
        ins_follow_overs(s.drop_last()),
{
    let r = s.drop_last();
    assert forall|j: int| 0 < j < r.len() && (#[trigger] r[j]) is In implies r[j - 1] is Over by {
        assert(r[j] == s[j]);
        assert(r[j - 1] == s[j - 1]);
    }
}

/// Pushing `Out` keeps descents after moves over siblings.
pub proof fn lemma_ins_pushed_out(s: Seq<Walk>, n: usize)
    requires
        ins_follow_overs(s),
    ensures
        ins_follow_overs(pushed_out(s, n)),
    decreases s.len(),
{
    if s.len() == 0 {
        lemma_ins_push(s, Walk::Out(n));
        assert(s.push(Walk::Out(n)) =~= seq![Walk::Out(n)]);
    } else {
        let d = s.drop_last();
        lemma_ins_drop_last(s);
        match s.last() {
            Walk::In(k) => {
                if k > n {
                    let r = d.push(Walk::In((k - n) as usize));
                    assert forall|j: int| 0 < j < r.len() && (#[trigger] r[j]) is In implies r[j - 1] is Over by {
                        if j < r.len() - 1 {
                            assert(r[j] == s[j]);
                        }
                        assert(r[j - 1] == s[j - 1]);
                    }
                } else if n > k {
                    lemma_ins_pushed_out(d, (n - k) as usize);
                }
            },
            Walk::Out(k) => {
                lemma_ins_push(d, Walk::Out((k + n) as usize));
            },
            Walk::Over(_) => {
                lemma_ins_pushed_out(d, n);
            },
            _ => {
                lemma_ins_push(s, Walk::Out(n));
            },
        }
    }
}

/// Pushing `In` onto nothing, a descent or a move over siblings keeps
/// descents after moves over siblings.
pub proof fn lemma_ins_pushed_in(s: Seq<Walk>, n: usize)
    requires
        ins_follow_overs(s),
        s.len() == 0 || s.last() is Over || s.last() is In,
    ensures
        ins_follow_overs(pushed_in(s, n)),
        pushed_in(s, n).len() > 0,
        pushed_in(s, n).last() is In,
{
    let r = pushed_in(s, n);
    if s.len() == 0 {
        assert(r =~= seq![Walk::In(n)]);
    } else {
        assert forall|j: int| 0 < j < r.len() && (#[trigger] r[j]) is In implies r[j - 1] is Over by {
            if j < s.len() {
                if j < s.len() - 1 || !(s.last() is In) {
                    assert(r[j] == s[j]);
                }
                assert(r[j - 1] == s[j - 1]);
            }
        }
    }
}

/// Pushing `Over(n)` navigates as appending it.
pub proof fn lemma_pushed_over_nav(s: Seq<Walk>, n: usize)
    requires
        push_over_fits(s, n),
    ensures
        same_navigation(pushed_over(s, n), s.push(Walk::Over(n))),
{
    if s.len() > 0 && s.last() is Over {
        let k = s.last()->Over_0;
        let d = s.drop_last();
        assert(pushed_over(s, n) =~= d + seq![Walk::Over((k + n) as usize)]);
        assert(s.push(Walk::Over(n)) =~= d + seq![Walk::Over(k), Walk::Over(n)]);
        lemma_over_over(k, n);
        lemma_pair_as_one(Walk::Over(k), Walk::Over(n), Walk::Over((k + n) as usize));
        lemma_same_tail(d, seq![Walk::Over((k + n) as usize)], seq![Walk::Over(k), Walk::Over(n)]);
    } else {
        lemma_same_refl(s.push(Walk::Over(n)));
    }
}

/// Pushing `Out(n)` navigates as appending it.
pub proof fn lemma_pushed_out_nav(s: Seq<Walk>, n: usize)
    requires
        n != 0,
        push_out_fits(s, n),
    ensures
        same_navigation(pushed_out(s, n), s.push(Walk::Out(n))),
    decreases s.len(),
{
    if s.len() == 0 {
        assert(pushed_out(s, n) =~= s.push(Walk::Out(n)));
        lemma_same_refl(s.push(Walk::Out(n)));
    } else {
        let d = s.drop_last();
        match s.last() {
            Walk::In(k) => {
                assert(s.push(Walk::Out(n)) =~= d + seq![Walk::In(k), Walk::Out(n)]);
                lemma_in_out(k, n);
                if k > n {
                    assert(pushed_out(s, n) =~= d + seq![Walk::In((k - n) as usize)]);
                    lemma_pair_as_one(Walk::In(k), Walk::Out(n), Walk::In((k - n) as usize));
                    lemma_same_tail(d, seq![Walk::In((k - n) as usize)], seq![Walk::In(k), Walk::Out(n)]);
                } else if n > k {
                    let m = (n - k) as usize;
                    lemma_pushed_out_nav(d, m);
                    lemma_pair_as_one(Walk::In(k), Walk::Out(n), Walk::Out(m));
                    lemma_same_tail(d, seq![Walk::Out(m)], seq![Walk::In(k), Walk::Out(n)]);
                    assert(d.push(Walk::Out(m)) =~= d + seq![Walk::Out(m)]);
                    lemma_same_trans(pushed_out(s, n), d + seq![Walk::Out(m)], d + seq![Walk::In(k), Walk::Out(n)]);
                } else {
                    assert forall|p: Seq<nat>| #[trigger] nav_step(nav_step(p, Walk::In(k)), Walk::Out(n)) == p by {
                        assert(nav_step(p, Walk::Out(0)) =~= p);
                    }
                    lemma_pair_as_none(Walk::In(k), Walk::Out(n));
                    lemma_same_tail(d, Seq::<Walk>::empty(), seq![Walk::In(k), Walk::Out(n)]);
                    assert(d + Seq::<Walk>::empty() =~= d);
                }
            },
            Walk::Out(k) => {
                assert(pushed_out(s, n) =~= d + seq![Walk::Out((k + n) as usize)]);
                assert(s.push(Walk::Out(n)) =~= d + seq![Walk::Out(k), Walk::Out(n)]);
                lemma_out_out(k, n);
                lemma_pair_as_one(Walk::Out(k), Walk::Out(n), Walk::Out((k + n) as usize));
                lemma_same_tail(d, seq![Walk::Out((k + n) as usize)], seq![Walk::Out(k), Walk::Out(n)]);
            },
            Walk::Over(k) => {
                lemma_pushed_out_nav(d, n);
                assert(s.push(Walk::Out(n)) =~= d + seq![Walk::Over(k), Walk::Out(n)]);
                lemma_over_out(k, n);
                lemma_pair_as_one(Walk::Over(k), Walk::Out(n), Walk::Out(n));
                lemma_same_tail(d, seq![Walk::Out(n)], seq![Walk::Over(k), Walk::Out(n)]);
                assert(d.push(Walk::Out(n)) =~= d + seq![Walk::Out(n)]);
                lemma_same_trans(pushed_out(s, n), d + seq![Walk::Out(n)], d + seq![Walk::Over(k), Walk::Out(n)]);
            },
            _ => {
                lemma_same_refl(s.push(Walk::Out(n)));
            },
        }
    }
}

/// Two neighbouring steps that a push merges or cancels: a descent or a
/// climb after either, a move over after a move over, a climb after a move
/// over.
pub open spec fn mergeable(a: Walk, b: Walk) -> bool {
    ||| (a is In || a is Out) && (b is In || b is Out)
    ||| a is Over && (b is Over || b is Out)
}

/// No two neighbouring steps of `s` are mergeable.
pub open spec fn no_mergeable_neighbours(s: Seq<Walk>) -> bool {
    forall|i: int| 0 <= i && i + 1 < s.len() ==> !#[trigger] mergeable(s[i], s[i + 1])
}

/// Dropping the last step, or appending one that does not merge with the
/// last, keeps no mergeable neighbours.
pub proof fn lemma_neighbours_push(d: Seq<Walk>, w: Walk)
    requires
        no_mergeable_neighbours(d),
        d.len() > 0 ==> !mergeable(d.last(), w),
    ensures
        no_mergeable_neighbours(d.push(w)),
{
    let r = d.push(w);
    assert forall|i: int| 0 <= i && i + 1 < r.len() implies !#[trigger] mergeable(r[i], r[i + 1]) by {
        if i + 1 < d.len() {
            assert(mergeable(d[i], d[i + 1]) == mergeable(r[i], r[i + 1]));
        }
    }
}

/// A prefix without its last step keeps no mergeable neighbours.
pub proof fn lemma_neighbours_drop_last(s: Seq<Walk>)
    requires
        no_mergeable_neighbours(s),
        s.len() > 0,
    ensures
        no_mergeable_neighbours(s.drop_last()),
{
    let d = s.drop_last();
    assert forall|i: int| 0 <= i && i + 1 < d.len() implies !#[trigger] mergeable(d[i], d[i + 1]) by {
        assert(mergeable(s[i], s[i + 1]) == mergeable(d[i], d[i + 1]));
    }
}

/// The step before the last of a sequence without mergeable neighbours.
pub proof fn lemma_neighbours_before_last(s: Seq<Walk>)
    requires
        no_mergeable_neighbours(s),
        s.len() > 1,
    ensures
        !mergeable(s.drop_last().last(), s.last()),
{
    let i = s.len() - 2;
    assert(!mergeable(s[i], s[i + 1]));
    assert(s[i + 1] == s.last());
    assert(s.drop_last().last() == s[i]);
}

/// Pushing `Over` keeps no mergeable neighbours.
pub proof fn lemma_neighbours_pushed_over(s: Seq<Walk>, n: usize)
    requires
        no_mergeable_neighbours(s),
    ensures
        no_mergeable_neighbours(pushed_over(s, n)),
{
    if s.len() > 0 && s.last() is Over {
        let d = s.drop_last();
        lemma_neighbours_drop_last(s);
        if s.len() > 1 {
            lemma_neighbours_before_last(s);
        }
        lemma_neighbours_push(d, Walk::Over((s.last()->Over_0 + n) as usize));
    } else {
        lemma_neighbours_push(s, Walk::Over(n));
    }
}

/// Pushing `Out` keeps no mergeable neighbours.
pub proof fn lemma_neighbours_pushed_out(s: Seq<Walk>, n: usize)
    requires
        no_mergeable_neighbours(s),
    ensures
        no_mergeable_neighbours(pushed_out(s, n)),
    decreases s.len(),
{
    if s.len() == 0 {
        lemma_neighbours_push(s, Walk::Out(n));
        assert(s.push(Walk::Out(n)) =~= seq![Walk::Out(n)]);
    } else {
        let d = s.drop_last();
        lemma_neighbours_drop_last(s);
        if s.len() > 1 {
            lemma_neighbours_before_last(s);
        }
        match s.last() {
            Walk::In(k) => {
                if k > n {
                    lemma_neighbours_push(d, Walk::In((k - n) as usize));
                } else if n > k {
                    lemma_neighbours_pushed_out(d, (n - k) as usize);
                }
            },
            Walk::Out(k) => {
                lemma_neighbours_push(d, Walk::Out((k + n) as usize));
            },
            Walk::Over(_) => {
                lemma_neighbours_pushed_out(d, n);
            },
            _ => {
                lemma_neighbours_push(s, Walk::Out(n));
            },
        }
    }
}

/// Pushing `In` keeps no mergeable neighbours.
pub proof fn lemma_neighbours_pushed_in(s: Seq<Walk>, n: usize)
    requires
        no_mergeable_neighbours(s),
    ensures
        no_mergeable_neighbours(pushed_in(s, n)),
    decreases s.len(),
{
    if s.len() == 0 {
        lemma_neighbours_push(s, Walk::In(n));
        assert(s.push(Walk::In(n)) =~= seq![Walk::In(n)]);
    } else {
        let d = s.drop_last();
        lemma_neighbours_drop_last(s);
        if s.len() > 1 {
            lemma_neighbours_before_last(s);
        }
        match s.last() {
            Walk::In(k) => {
                lemma_neighbours_push(d, Walk::In((k + 1) as usize));
            },
            Walk::Out(k) => {
                if k > n {
                    lemma_neighbours_push(d, Walk::Out((k - n) as usize));
                } else if n > k {
                    lemma_neighbours_pushed_in(d, (n - k) as usize);
                }
            },
            _ => {
                lemma_neighbours_push(s, Walk::In(n));
            },
        }
    }
}

/// Every sequence navigates as itself.
pub proof fn lemma_same_refl(s: Seq<Walk>)
    ensures
        same_navigation(s, s),
{
}

/// Pushing a well-formed step keeps all steps well formed.
pub proof fn lemma_wf_push(d: Seq<Walk>, w: Walk)
    requires
        all_well_formed(d),
        w.well_formed(),
    ensures
        all_well_formed(d.push(w)),
{
    assert forall|i: int| 0 <= i < d.push(w).len() implies (#[trigger] d.push(w)[i]).well_formed() by {
        if i < d.len() {
            assert(d.push(w)[i] == d[i]);
        }
    }
}

} // verus!
