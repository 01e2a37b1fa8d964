//! Walks that nest: a component's walk list may hand over to the walk list
//! of a child component. Lists are kept in a table and named by index; a
//! stack of positions in lists says where each list stands.
use vstd::prelude::*;

use crate::dom::DomTree;
use crate::fine_grained::WalkTargets;

verus! {

/// One instruction of a nesting walk list.
///
/// `Next` descends to the first child, `Over` moves to the next sibling,
/// `Out` climbs to the parent, `Replace` turns the current comment into a
/// text node, `EventTarget` collects the current node and `MoreWalks`
/// continues with the list it names, one level deeper.
#[derive(Debug, Clone, Copy, PartialEq, Eq, Structural)]
pub enum NestedWalk {
    Next(usize, bool),
    Over(usize),
    Out(usize),
    Replace,
    EventTarget,
    MoreWalks(usize),
}

/// Why a nesting walk does not fit the template or its slots.
#[derive(Debug, Clone, Copy, PartialEq, Eq, Structural)]
pub enum NestedWalkError {
    /// A counted step of zero.
    ZeroCount,
    NoChild,
    NoNextSibling,
    NoParent,
    /// A `Replace` beyond the text node slots of one round.
    TooManyTextNodes,
    /// An `EventTarget` beyond the event target slots of one round.
    TooManyEventTargets,
    /// A `MoreWalks` beyond the last level of the stack.
    TooDeep,
    /// A text node slot that no `Replace` filled.
    MissingTextNode,
    /// An event target slot that no `EventTarget` filled.
    MissingEventTarget,
}

/// Where a nesting walk stands: the current node, each level's list and
/// position, the deepest level used, the level being walked, the slots
/// filled so far and how many of each were filled in this round.
pub struct NestedState {
    pub node: usize,
    pub stack: Seq<Option<(usize, usize)>>,
    pub index: usize,
    pub active: Option<usize>,
    pub text_slots: Seq<Option<usize>>,
    pub event_slots: Seq<Option<usize>>,
    pub text_count: usize,
    pub event_count: usize,
}

/// Every `MoreWalks` names a list of the table (and every list's length is
/// a `usize`).
pub open spec fn lists_valid(lists: Seq<Vec<NestedWalk>>) -> bool {
    &&& forall|l: int| 0 <= l < lists.len() ==> #[trigger] lists[l]@.len() <= usize::MAX
    &&& forall|l: int, q: int|
        0 <= l < lists.len() && 0 <= q < lists[l]@.len() ==> match #[trigger] lists[l]@[q] {
            NestedWalk::MoreWalks(j) => j < lists.len(),
            _ => true,
        }
}

/// Every starting level names a list of the table.
pub open spec fn starts_valid(lists: Seq<Vec<NestedWalk>>, start: Seq<Option<usize>>) -> bool {
    forall|k: int| 0 <= k < start.len() ==> match #[trigger] start[k] {
        Some(l) => l < lists.len(),
        None => true,
    }
}

/// The walks left at one level.
pub open spec fn slot_rem(lists: Seq<Vec<NestedWalk>>, slot: Option<(usize, usize)>) -> nat {
    match slot {
        Some((l, p)) => if p < lists[l as int]@.len() {
            (lists[l as int]@.len() - p) as nat
        } else {
            0
        },
        None => 0,
    }
}

/// The lowest level from `from` on with walks left.
pub open spec fn first_nonempty(
    lists: Seq<Vec<NestedWalk>>,
    stack: Seq<Option<(usize, usize)>>,
    from: nat,
) -> Option<usize>
    decreases stack.len() - from,
{
    if from >= stack.len() {
        None
    } else if slot_rem(lists, stack[from as int]) > 0 {
        Some(from as usize)
    } else {
        first_nonempty(lists, stack, from + 1)
    }
}

/// One instruction taken at the current node.
pub open spec fn nested_apply(dom: DomTree, s: NestedState, w: NestedWalk) -> Result<
    NestedState,
    NestedWalkError,
> {
    match w {
        NestedWalk::Next(n, _) => if n == 0 {
            Err(NestedWalkError::ZeroCount)
        } else {
            match dom.first_child@[s.node as int] {
                Some(c) => Ok(NestedState { node: c, ..s }),
                None => Err(NestedWalkError::NoChild),
            }
        },
        NestedWalk::Over(n) => if n == 0 {
            Err(NestedWalkError::ZeroCount)
        } else {
            match dom.next_sibling@[s.node as int] {
                Some(c) => Ok(NestedState { node: c, ..s }),
                None => Err(NestedWalkError::NoNextSibling),
            }
        },
        NestedWalk::Out(n) => if n == 0 {
            Err(NestedWalkError::ZeroCount)
        } else {
            match dom.parent@[s.node as int] {
                Some(c) => Ok(NestedState { node: c, ..s }),
                None => Err(NestedWalkError::NoParent),
            }
        },
        NestedWalk::Replace => if dom.parent@[s.node as int] is None {
            Err(NestedWalkError::NoParent)
        } else if s.text_count >= s.text_slots.len() {
            Err(NestedWalkError::TooManyTextNodes)
        } else {
            Ok(
                NestedState {
                    text_slots: s.text_slots.update(s.text_count as int, Some(s.node)),
                    text_count: (s.text_count + 1) as usize,
                    ..s
                },
            )
        },
        NestedWalk::EventTarget => if s.event_count >= s.event_slots.len() {
            Err(NestedWalkError::TooManyEventTargets)
        } else {
            Ok(
                NestedState {
                    event_slots: s.event_slots.update(s.event_count as int, Some(s.node)),
                    event_count: (s.event_count + 1) as usize,
                    ..s
                },
            )
        },
        NestedWalk::MoreWalks(j) => if s.index + 1 >= s.stack.len() {
            Err(NestedWalkError::TooDeep)
        } else {
            Ok(
                NestedState {
                    stack: s.stack.update(s.index + 1, Some((j, 0usize))),
                    index: (s.index + 1) as usize,
                    active: None,
                    ..s
                },
            )
        },
    }
}

/// One instruction of the walk from `s`, or `None` where no level has
/// walks left. The level being walked goes on while it has walks left;
/// otherwise a new round starts at the lowest level with walks left, with
/// no slots filled in that round yet.
pub open spec fn nested_step(dom: DomTree, lists: Seq<Vec<NestedWalk>>, s: NestedState) -> Option<
    Result<NestedState, NestedWalkError>,
> {
    let goes_on = s.active is Some && slot_rem(lists, s.stack[s.active->0 as int]) > 0;
    let pick = first_nonempty(lists, s.stack, 0);
    if !goes_on && pick is None {
        None
    } else {
        let s1 = if goes_on {
            s
        } else {
            NestedState { active: pick, text_count: 0, event_count: 0, ..s }
        };
        let i = s1.active->0;
        let (l, p) = s1.stack[i as int]->0;
        let s2 = NestedState { stack: s1.stack.update(i as int, Some((l, (p + 1) as usize))), ..s1 };
        Some(nested_apply(dom, s2, lists[l as int]@[p as int]))
    }
}

/// The walks left at every level.
pub open spec fn stack_rem(lists: Seq<Vec<NestedWalk>>, st: Seq<Option<(usize, usize)>>) -> nat
    decreases st.len(),
{
    if st.len() == 0 {
        0
    } else {
        stack_rem(lists, st.drop_last()) + slot_rem(lists, st.last())
    }
}

/// The length of the longest list.
pub open spec fn longest(lists: Seq<Vec<NestedWalk>>) -> nat
    decreases lists.len(),
{
    if lists.len() == 0 {
        0
    } else {
        let rest = longest(lists.drop_last());
        if lists.last()@.len() > rest {
            lists.last()@.len()
        } else {
            rest
        }
    }
}

/// A bound on the instructions still to take: those left at every level,
/// and a longest list for each level not used yet.
pub open spec fn nested_measure(lists: Seq<Vec<NestedWalk>>, s: NestedState) -> nat {
    stack_rem(lists, s.stack) + if s.index < s.stack.len() {
        ((s.stack.len() - 1 - s.index) * (longest(lists) + 1)) as nat
    } else {
        0
    }
}

/// The walk from `s` to its end: the final state, or the first misfit.
/// (Every step makes `nested_measure` smaller on valid states, see
/// `lemma_step_valid`, so the walk always goes on to its end.)
pub open spec fn nested_run(dom: DomTree, lists: Seq<Vec<NestedWalk>>, s: NestedState) -> Result<
    NestedState,
    NestedWalkError,
>
    decreases nested_measure(lists, s),
{
    match nested_step(dom, lists, s) {
        None => Ok(s),
        Some(Err(e)) => Err(e),
        Some(Ok(s2)) => if nested_measure(lists, s2) < nested_measure(lists, s) {
            nested_run(dom, lists, s2)
        } else {
            Ok(s2)
        },
    }
}

/// The state a walk starts from: each starting level at the front of its
/// list, and every slot empty.
pub open spec fn nested_init(
    start: Seq<Option<usize>>,
    node: usize,
    n_text_slots: nat,
    n_event_slots: nat,
) -> NestedState {
    NestedState {
        node,
        stack: start.map_values(
            |o: Option<usize>|
                match o {
                    Some(l) => Some((l, 0usize)),
                    None => None,
                },
        ),
        index: 0,
        active: None,
        text_slots: Seq::new(n_text_slots, |k: int| None::<usize>),
        event_slots: Seq::new(n_event_slots, |k: int| None::<usize>),
        text_count: 0,
        event_count: 0,
    }
}

/// What an ended walk yields: the nodes in the text node slots and in the
/// event target slots, where every slot was filled.
pub open spec fn nested_finish(s: NestedState) -> Result<(Seq<usize>, Seq<usize>), NestedWalkError> {
    if exists|k: int| 0 <= k < s.text_slots.len() && #[trigger] s.text_slots[k] is None {
        Err(NestedWalkError::MissingTextNode)
    } else if exists|k: int| 0 <= k < s.event_slots.len() && #[trigger] s.event_slots[k] is None {
        Err(NestedWalkError::MissingEventTarget)
    } else {
        Ok(
            (
                s.text_slots.map_values(|o: Option<usize>| o->0),
                s.event_slots.map_values(|o: Option<usize>| o->0),
            ),
        )
    }
}

/// The outcome of walking from `node` with the lists `start` names at its
/// levels.
pub open spec fn nested_walk(
    dom: DomTree,
    lists: Seq<Vec<NestedWalk>>,
    start: Seq<Option<usize>>,
    node: usize,
    n_text_slots: nat,
    n_event_slots: nat,
) -> Result<(Seq<usize>, Seq<usize>), NestedWalkError> {
    match nested_run(dom, lists, nested_init(start, node, n_text_slots, n_event_slots)) {
        Ok(s) => nested_finish(s),
        Err(e) => Err(e),
    }
}

/// The state is one a walk can reach: nodes and lists exist, each level's
/// position lies within its list, the levels named exist.
pub open spec fn state_valid(dom: DomTree, lists: Seq<Vec<NestedWalk>>, s: NestedState) -> bool {
    &&& s.node < dom.size()
    &&& forall|k: int| 0 <= k < s.stack.len() ==> match #[trigger] s.stack[k] {
        Some((l, p)) => l < lists.len() && p <= lists[l as int]@.len(),
        None => true,
    }
    &&& s.active matches Some(i) ==> i < s.stack.len()
    &&& (s.stack.len() == 0 || s.index < s.stack.len())
}


/// Changing one level changes the walks left by the difference at that
/// level.
pub proof fn lemma_stack_rem_update(
    lists: Seq<Vec<NestedWalk>>,
    st: Seq<Option<(usize, usize)>>,
    k: int,
    v: Option<(usize, usize)>,
)
    requires
        0 <= k < st.len(),
    ensures
        stack_rem(lists, st.update(k, v)) + slot_rem(lists, st[k]) == stack_rem(lists, st)
            + slot_rem(lists, v),
    decreases st.len(),
{
    let u = st.update(k, v);
    if k == st.len() - 1 {
        assert(u.drop_last() =~= st.drop_last());
    } else {
        lemma_stack_rem_update(lists, st.drop_last(), k, v);
        assert(u.drop_last() =~= st.drop_last().update(k, v));
    }
}

/// No list is longer than the longest.
pub proof fn lemma_longest(lists: Seq<Vec<NestedWalk>>, j: int)
    requires
        0 <= j < lists.len(),
    ensures
        lists[j]@.len() <= longest(lists),
    decreases lists.len(),
{
    if j < lists.len() - 1 {
        lemma_longest(lists.drop_last(), j);
    }
}

/// The lowest level with walks left has walks left, and the levels below it
/// have none.
pub proof fn lemma_first_nonempty(
    lists: Seq<Vec<NestedWalk>>,
    st: Seq<Option<(usize, usize)>>,
    from: nat,
)
    requires
        st.len() <= usize::MAX,
    ensures
        match first_nonempty(lists, st, from) {
            Some(i) => from <= i < st.len() && slot_rem(lists, st[i as int]) > 0,
            None => forall|k: int| from <= k < st.len() ==> slot_rem(lists, #[trigger] st[k]) == 0,
        },
    decreases st.len() - from,
{
    if from < st.len() && slot_rem(lists, st[from as int]) == 0 {
        lemma_first_nonempty(lists, st, from + 1);
    }
}

/// A step keeps the state valid and takes one instruction off the bound.
pub proof fn lemma_step_valid(dom: DomTree, lists: Seq<Vec<NestedWalk>>, s: NestedState)
    requires
        dom.well_formed(),
        lists_valid(lists),
        state_valid(dom, lists, s),
        s.stack.len() <= usize::MAX,
        nested_step(dom, lists, s) is Some,
    ensures
        match nested_step(dom, lists, s) {
            Some(Ok(s2)) => state_valid(dom, lists, s2) && s2.stack.len() == s.stack.len()
                && nested_measure(lists, s2) < nested_measure(lists, s),
            _ => true,
        },
{
    let goes_on = s.active is Some && slot_rem(lists, s.stack[s.active->0 as int]) > 0;
    let pick = first_nonempty(lists, s.stack, 0);
    lemma_first_nonempty(lists, s.stack, 0);
    let s1 = if goes_on {
        s
    } else {
        NestedState { active: pick, text_count: 0, event_count: 0, ..s }
    };
    let i = s1.active->0;
    let (l, p) = s1.stack[i as int]->0;
    assert(s1.stack[i as int] == Some((l, p)));
    assert(slot_rem(lists, s1.stack[i as int]) > 0);
    assert(l < lists.len() && p < lists[l as int]@.len());
    let s2 = NestedState { stack: s1.stack.update(i as int, Some((l, (p + 1) as usize))), ..s1 };
    lemma_stack_rem_update(lists, s1.stack, i as int, Some((l, (p + 1) as usize)));
    assert(stack_rem(lists, s2.stack) + 1 == stack_rem(lists, s.stack));
    assert(state_valid(dom, lists, s2)) by {
        assert forall|k: int| 0 <= k < s2.stack.len() implies match #[trigger] s2.stack[k] {
            Some((l2, p2)) => l2 < lists.len() && p2 <= lists[l2 as int]@.len(),
            None => true,
        } by {
            if k != i {
                assert(s2.stack[k] == s.stack[k]);
            }
        }
    }
    let w = lists[l as int]@[p as int];
    assert(w == lists[l as int]@[p as int]);
    match w {
        NestedWalk::MoreWalks(j) => {
            if s2.index + 1 < s2.stack.len() {
                let s3 = nested_apply(dom, s2, w)->Ok_0;
                assert(j < lists.len());
                lemma_stack_rem_update(lists, s2.stack, s2.index + 1, Some((j, 0usize)));
                lemma_longest(lists, j as int);
                let a = (s.stack.len() - 1 - s.index) as int;
                let big = longest(lists) + 1;
                assert(a * big == (a - 1) * big + big) by (nonlinear_arith);
                assert(nested_measure(lists, s3) < nested_measure(lists, s));
                assert(state_valid(dom, lists, s3)) by {
                    assert forall|k: int| 0 <= k < s3.stack.len() implies match #[trigger] s3.stack[k] {
                        Some((l2, p2)) => l2 < lists.len() && p2 <= lists[l2 as int]@.len(),
                        None => true,
                    } by {
                        if k != s2.index + 1 {
                            assert(s3.stack[k] == s2.stack[k]);
                        }
                    }
                }
            }
        },
        _ => {
            match nested_apply(dom, s2, w) {
                Ok(s3) => {
                    assert(s3.stack == s2.stack);
                    assert(s3.index == s2.index);
                },
                Err(_) => {},
            }
        },
    }
}

/// Where a step is taken, the walk from the state is the walk from the
/// step's result.
pub proof fn lemma_run_step(dom: DomTree, lists: Seq<Vec<NestedWalk>>, s: NestedState)
    requires
        dom.well_formed(),
        lists_valid(lists),
        state_valid(dom, lists, s),
        s.stack.len() <= usize::MAX,
        nested_step(dom, lists, s) is Some,
    ensures
        nested_run(dom, lists, s) == match nested_step(dom, lists, s) {
            Some(Ok(s2)) => nested_run(dom, lists, s2),
            Some(Err(e)) => Err(e),
            None => Ok(s),
        },
{
    lemma_step_valid(dom, lists, s);
}


/// The state a walk's variables stand for.
pub open spec fn state_of(
    node: usize,
    stack: Seq<Option<(usize, usize)>>,
    index: usize,
    active: Option<usize>,
    text_slots: Seq<Option<usize>>,
    event_slots: Seq<Option<usize>>,
    text_count: usize,
    event_count: usize,
) -> NestedState {
    NestedState { node, stack, index, active, text_slots, event_slots, text_count, event_count }
}

/// Checks `lists_valid` and `starts_valid`.
pub fn check_lists(lists: &Vec<Vec<NestedWalk>>, start: &Vec<Option<usize>>) -> (ok: bool)
    ensures
        ok == (lists_valid(lists@) && starts_valid(lists@, start@)),
{
    let n = lists.len();
    let mut l: usize = 0;
    while l < n
        invariant
            n == lists@.len(),
            l <= n,
            forall|l2: int| 0 <= l2 < l ==> #[trigger] lists@[l2]@.len() <= usize::MAX,
            forall|l2: int, q: int|
                0 <= l2 < l && 0 <= q < lists@[l2]@.len() ==> match #[trigger] lists@[l2]@[q] {
                    NestedWalk::MoreWalks(j) => j < n,
                    _ => true,
                },
        decreases n - l,
    {
        let list = &lists[l];
        let mut q: usize = 0;
        while q < list.len()
            invariant
                n == lists@.len(),
                l < n,
                list@ == lists@[l as int]@,
                q <= list@.len(),
                forall|q2: int| 0 <= q2 < q ==> match #[trigger] list@[q2] {
                    NestedWalk::MoreWalks(j) => j < n,
                    _ => true,
                },
            decreases list@.len() - q,
        {
            match list[q] {
                NestedWalk::MoreWalks(j) => {
                    if j >= n {
                        assert(match lists@[l as int]@[q as int] {
                            NestedWalk::MoreWalks(j) => j < n,
                            _ => true,
                        } == false);
                        return false;
                    }
                },
                _ => {},
            }
            q = q + 1;
        }
        assert(lists@[l as int]@.len() <= usize::MAX);
        l = l + 1;
    }
    let mut k: usize = 0;
    while k < start.len()
        invariant
            n == lists@.len(),
            k <= start@.len(),
            lists_valid(lists@),
            forall|k2: int| 0 <= k2 < k ==> match #[trigger] start@[k2] {
                Some(l2) => l2 < n,
                None => true,
            },
        decreases start@.len() - k,
    {
        match start[k] {
            Some(l2) => {
                if l2 >= n {
                    assert(match start@[k as int] {
                        Some(l3) => l3 < n,
                        None => true,
                    } == false);
                    return false;
                }
            },
            None => {},
        }
        k = k + 1;
    }
    true
}

/// `count` empty slots.
fn empty_slots(count: usize) -> (v: Vec<Option<usize>>)
    ensures
        v@ == Seq::new(count as nat, |k: int| None::<usize>),
{
    let mut v: Vec<Option<usize>> = Vec::new();
    let mut k: usize = 0;
    while k < count
        invariant
            k <= count,
            v@ == Seq::new(k as nat, |m: int| None::<usize>),
        decreases count - k,
    {
        v.push(None);
        k = k + 1;
        assert(v@ =~= Seq::new(k as nat, |m: int| None::<usize>));
    }
    v
}

/// The nodes in `slots`, where every slot is filled.
fn filled(slots: &Vec<Option<usize>>) -> (r: Option<Vec<usize>>)
    ensures
        (exists|k: int| 0 <= k < slots@.len() && #[trigger] slots@[k] is None) ==> r is None,
        !(exists|k: int| 0 <= k < slots@.len() && #[trigger] slots@[k] is None) ==> (r matches Some(v)
            && v@ == slots@.map_values(|o: Option<usize>| o->0)),
{
    let mut v: Vec<usize> = Vec::new();
    let mut k: usize = 0;
    while k < slots.len()
        invariant
            k <= slots@.len(),
            v@ == slots@.take(k as int).map_values(|o: Option<usize>| o->0),
            forall|m: int| 0 <= m < k ==> #[trigger] slots@[m] is Some,
        decreases slots@.len() - k,
    {
        match slots[k] {
            Some(x) => {
                v.push(x);
            },
            None => {
                assert(slots@[k as int] is None);
                return None;
            },
        }
        k = k + 1;
        assert(v@ =~= slots@.take(k as int).map_values(|o: Option<usize>| o->0));
    }
    assert(slots@.take(slots@.len() as int) =~= slots@);
    Some(v)
}


/// The levels a walk starts with: each named list at its front.
fn start_levels(start: &Vec<Option<usize>>) -> (v: Vec<Option<(usize, usize)>>)
    ensures
        v@ == nested_init(start@, 0, 0, 0).stack,
{
    let mut v: Vec<Option<(usize, usize)>> = Vec::new();
    let mut k: usize = 0;
    while k < start.len()
        invariant
            k <= start@.len(),
            v@ == start@.take(k as int).map_values(
                |o: Option<usize>|
                    match o {
                        Some(l) => Some((l, 0usize)),
                        None => None,
                    },
            ),
        decreases start@.len() - k,
    {
        let level = match start[k] {
            Some(l) => Some((l, 0usize)),
            None => None,
        };
        v.push(level);
        k = k + 1;
        assert(v@ =~= start@.take(k as int).map_values(
            |o: Option<usize>|
                match o {
                    Some(l) => Some((l, 0usize)),
                    None => None,
                },
        ));
    }
    assert(start@.take(start@.len() as int) =~= start@);
    v
}

/// Walks the template from `node`. The stack has one level for each entry
/// of `start`, holding the list it names; each round walks the lowest level
/// with walks left until that level runs out or hands over to a deeper
/// level (`MoreWalks`). Each round fills the `n_text_slots` text node slots
/// and the `n_event_slots` event target slots from the first on; every
/// slot must be filled in the end.
pub fn walk_through(
    dom: &DomTree,
    node: usize,
    lists: &Vec<Vec<NestedWalk>>,
    start: &Vec<Option<usize>>,
    n_text_slots: usize,
    n_event_slots: usize,
) -> (r: Result<WalkTargets, NestedWalkError>)
    requires
        dom.well_formed(),
        node < dom.size(),
        lists_valid(lists@),
        starts_valid(lists@, start@),
    ensures
        match nested_walk(*dom, lists@, start@, node, n_text_slots as nat, n_event_slots as nat) {
            Ok((t, e)) => r matches Ok(x) && x.text_nodes@ == t && x.event_targets@ == e,
            Err(e) => r matches Err(x) && x == e,
        },
{
    let ghost ls = lists@;
    let ghost init = nested_init(start@, node, n_text_slots as nat, n_event_slots as nat);
    let mut stack = start_levels(start);
    let n_levels = stack.len();
    let mut text_slots = empty_slots(n_text_slots);
    let mut event_slots = empty_slots(n_event_slots);
    let mut index: usize = 0;
    let mut current = node;
    let mut text_count: usize = 0;
    let mut event_count: usize = 0;
    let ghost mut active: Option<usize> = None;
    proof {
        assert(state_of(current, stack@, index, active, text_slots@, event_slots@, text_count, event_count) == init);
        assert(state_valid(*dom, ls, init)) by {
            assert forall|k: int| 0 <= k < init.stack.len() implies match #[trigger] init.stack[k] {
                Some((l, p)) => l < ls.len() && p <= ls[l as int]@.len(),
                None => true,
            } by {
                assert(start@[k] is Some ==> start@[k]->0 < ls.len());
            }
        }
    }
    loop
        invariant
            ls == lists@,
            init == nested_init(start@, node, n_text_slots as nat, n_event_slots as nat),
            dom.well_formed(),
            lists_valid(ls),
            stack@.len() == start@.len(),
            stack@.len() == n_levels,
            state_valid(*dom, ls, state_of(current, stack@, index, active, text_slots@, event_slots@, text_count, event_count)),
            active is None || slot_rem(ls, stack@[active->0 as int]) == 0,
            nested_run(*dom, ls, init) == nested_run(
                *dom,
                ls,
                state_of(current, stack@, index, active, text_slots@, event_slots@, text_count, event_count),
            ),
        ensures
            nested_run(*dom, ls, init) == nested_run(
                *dom,
                ls,
                state_of(current, stack@, index, active, text_slots@, event_slots@, text_count, event_count),
            ),
            nested_step(*dom, ls, state_of(current, stack@, index, active, text_slots@, event_slots@, text_count, event_count)) is None,
        decreases nested_measure(ls, state_of(current, stack@, index, active, text_slots@, event_slots@, text_count, event_count)),
    {
        let ghost s0 = state_of(current, stack@, index, active, text_slots@, event_slots@, text_count, event_count);
        // the lowest level with walks left
        let mut pick: Option<usize> = None;
        let mut k: usize = stack.len();
        proof {
            assert(first_nonempty(ls, stack@, k as nat) is None);
        }
        while k > 0
            invariant
                k <= stack@.len(),
                ls == lists@,
                lists_valid(ls),
                state_valid(*dom, ls, s0),
                s0.stack == stack@,
                pick == first_nonempty(ls, stack@, k as nat),
            decreases k,
        {
            k = k - 1;
            let nonempty = match stack[k] {
                Some((l, p)) => {
                    assert(stack@[k as int] == Some((l, p)));
                    p < lists[l].len()
                },
                None => false,
            };
            if nonempty {
                pick = Some(k);
            }
        }
        proof {
            lemma_first_nonempty(ls, stack@, 0);
        }
        let i = match pick {
            Some(i) => i,
            None => {
                proof {
                    assert(nested_step(*dom, ls, s0) is None);
                }
                break;
            },
        };
        text_count = 0;
        event_count = 0;
        proof {
            active = Some(i);
            let s1 = state_of(current, stack@, index, active, text_slots@, event_slots@, text_count, event_count);
            assert(nested_step(*dom, ls, s0) == nested_step(*dom, ls, s1));
            lemma_run_step(*dom, ls, s0);
            lemma_run_step(*dom, ls, s1);
            lemma_step_valid(*dom, ls, s1);
        }
        let ghost m0 = nested_measure(ls, s0);
        let ghost mut taken = false;
        loop
            invariant_except_break
                active == Some(i),
            invariant
                ls == lists@,
                init == nested_init(start@, node, n_text_slots as nat, n_event_slots as nat),
                dom.well_formed(),
                lists_valid(ls),
                stack@.len() == start@.len(),
                stack@.len() == n_levels,
                i < stack@.len(),
                state_valid(*dom, ls, state_of(current, stack@, index, active, text_slots@, event_slots@, text_count, event_count)),
                nested_run(*dom, ls, init) == nested_run(
                    *dom,
                    ls,
                    state_of(current, stack@, index, active, text_slots@, event_slots@, text_count, event_count),
                ),
                taken ==> nested_measure(ls, state_of(current, stack@, index, active, text_slots@, event_slots@, text_count, event_count)) < m0,
                !taken ==> nested_measure(ls, state_of(current, stack@, index, active, text_slots@, event_slots@, text_count, event_count)) == m0
                    && slot_rem(ls, stack@[i as int]) > 0,
            ensures
                active is None || slot_rem(ls, stack@[active->0 as int]) == 0,
                nested_measure(ls, state_of(current, stack@, index, active, text_slots@, event_slots@, text_count, event_count)) < m0,
                state_valid(*dom, ls, state_of(current, stack@, index, active, text_slots@, event_slots@, text_count, event_count)),
                stack@.len() == start@.len(),
                stack@.len() == n_levels,
                nested_run(*dom, ls, init) == nested_run(
                    *dom,
                    ls,
                    state_of(current, stack@, index, active, text_slots@, event_slots@, text_count, event_count),
                ),
            decreases slot_rem(ls, stack@[i as int]),
        {
            let ghost s = state_of(current, stack@, index, active, text_slots@, event_slots@, text_count, event_count);
            let (l, p) = match stack[i] {
                Some(level) => level,
                None => {
                    break;
                },
            };
            assert(stack@[i as int] == Some((l, p)));
            if p >= lists[l].len() {
                break;
            }
            proof {
                lemma_run_step(*dom, ls, s);
                lemma_step_valid(*dom, ls, s);
            }
            stack.set(i, Some((l, p + 1)));
            let w = lists[l][p];
            proof {
                assert(w == ls[l as int]@[p as int]);
                assert(nested_step(*dom, ls, s) == Some(nested_apply(*dom, state_of(current, stack@, index, active, text_slots@, event_slots@, text_count, event_count), w)));
            }
            match w {
                NestedWalk::Next(n, _) => {
                    if n == 0 {
                        return Err(NestedWalkError::ZeroCount);
                    }
                    match dom.first_child[current] {
                        Some(c) => {
                            current = c;
                        },
                        None => {
                            return Err(NestedWalkError::NoChild);
                        },
                    }
                },
                NestedWalk::Over(n) => {
                    if n == 0 {
                        return Err(NestedWalkError::ZeroCount);
                    }
                    match dom.next_sibling[current] {
                        Some(c) => {
                            current = c;
                        },
                        None => {
                            return Err(NestedWalkError::NoNextSibling);
                        },
                    }
                },
                NestedWalk::Out(n) => {
                    if n == 0 {
                        return Err(NestedWalkError::ZeroCount);
                    }
                    match dom.parent[current] {
                        Some(c) => {
                            current = c;
                        },
                        None => {
                            return Err(NestedWalkError::NoParent);
                        },
                    }
                },
                NestedWalk::Replace => {
                    if dom.parent[current].is_none() {
                        return Err(NestedWalkError::NoParent);
                    }
                    if text_count >= text_slots.len() {
                        return Err(NestedWalkError::TooManyTextNodes);
                    }
                    text_slots.set(text_count, Some(current));
                    text_count = text_count + 1;
                },
                NestedWalk::EventTarget => {
                    if event_count >= event_slots.len() {
                        return Err(NestedWalkError::TooManyEventTargets);
                    }
                    event_slots.set(event_count, Some(current));
                    event_count = event_count + 1;
                },
                NestedWalk::MoreWalks(j) => {
                    if index + 1 >= stack.len() {
                        return Err(NestedWalkError::TooDeep);
                    }
                    index = index + 1;
                    stack.set(index, Some((j, 0)));
                    proof {
                        active = None;
                        taken = true;
                    }
                    break;
                },
            }
            proof {
                taken = true;
            }
        }
    }
    proof {
        let s = state_of(current, stack@, index, active, text_slots@, event_slots@, text_count, event_count);
        assert(nested_run(*dom, ls, s) == Ok::<NestedState, NestedWalkError>(s));
    }
    let text_nodes = match filled(&text_slots) {
        Some(v) => v,
        None => {
            return Err(NestedWalkError::MissingTextNode);
        },
    };
    let event_targets = match filled(&event_slots) {
        Some(v) => v,
        None => {
            return Err(NestedWalkError::MissingEventTarget);
        },
    };
    Ok(WalkTargets { text_nodes, event_targets })
}

} // verus!
