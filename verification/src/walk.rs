//! A single walk step and the rules by which two consecutive steps merge.
use vstd::prelude::*;

verus! {

/// One instruction for moving through a template's node tree.
///
/// `In(n)` descends to the first child `n` times, `Out(n)` climbs to the
/// parent `n` times, `Over(n)` moves to the next sibling `n` times,
/// `Replace` marks the current node as a placeholder for a text node and
/// `Event(name)` attaches an event listener to the current node.
#[derive(Debug, Copy, Clone)]
pub enum Walk {
    In(usize),
    Out(usize),
    Over(usize),
    Replace,
    Event(&'static str),
}

impl Walk {
    /// Every counted move covers at least one step.
    pub open spec fn well_formed(self) -> bool {
        match self {
            Walk::In(n) => n != 0,
            Walk::Out(n) => n != 0,
            Walk::Over(n) => n != 0,
            _ => true,
        }
    }

    /// What merging `w` into the pending step `o` gives: `Err(())` where the
    /// two cannot merge, otherwise the new pending step (`None` where the
    /// two cancel out).
    pub open spec fn merged(o: Option<Walk>, w: Walk) -> Result<Option<Walk>, ()> {
        match o {
            None => Ok(Some(w)),
            Some(one) => match w {
                Walk::In(b) => match one {
                    Walk::In(a) => Ok(Some(Walk::In((a + 1) as usize))),
                    Walk::Out(a) => if a > b {
                        Ok(Some(Walk::Out((a - b) as usize)))
                    } else if b > a {
                        Ok(Some(Walk::In((b - a) as usize)))
                    } else {
                        Ok(None)
                    },
                    _ => Err(()),
                },
                Walk::Out(b) => match one {
                    Walk::In(a) => if a > b {
                        Ok(Some(Walk::In((a - b) as usize)))
                    } else if b > a {
                        Ok(Some(Walk::Out((b - a) as usize)))
                    } else {
                        Ok(None)
                    },
                    Walk::Out(a) => Ok(Some(Walk::Out((a + 1) as usize))),
                    Walk::Over(_) => Ok(Some(Walk::Out(b))),
                    _ => Err(()),
                },
                Walk::Over(b) => match one {
                    Walk::Over(a) => Ok(Some(Walk::Over((a + b) as usize))),
                    _ => Err(()),
                },
                _ => Err(()),
            },
        }
    }

    /// The merge of `w` into `o` stays within `usize`.
    pub open spec fn merge_fits(o: Option<Walk>, w: Walk) -> bool {
        match (o, w) {
            (Some(Walk::In(a)), Walk::In(_)) => a + 1 <= usize::MAX,
            (Some(Walk::Out(a)), Walk::Out(_)) => a + 1 <= usize::MAX,
            (Some(Walk::Over(a)), Walk::Over(b)) => a + b <= usize::MAX,
            _ => true,
        }
    }

    /// The pending step, where there is one, covers at least one step.
    pub open spec fn pending_well_formed(o: Option<Walk>) -> bool {
        match o {
            Some(w) => w.well_formed(),
            None => true,
        }
    }

    /// Merges `another` into the pending step `optional_one`.
    pub fn combine(optional_one: &mut Option<Self>, another: Self) -> (res: Result<(), ()>)
        requires
            another.well_formed(),
            Walk::pending_well_formed(*old(optional_one)),
            Walk::merge_fits(*old(optional_one), another),
        ensures
            match Walk::merged(*old(optional_one), another) {
                Ok(r) => res is Ok && *final(optional_one) == r,
                Err(_) => res is Err && *final(optional_one) == *old(optional_one),
            },
    {
        match another {
            Walk::In(n) => Self::combine_in(optional_one, n),
            Walk::Out(n) => Self::combine_out(optional_one, n),
            Walk::Over(n) => Self::combine_over(optional_one, n),
            Walk::Replace => Self::combine_replace(optional_one),
            Walk::Event(event_type) => Self::combine_event(optional_one, event_type),
        }
    }

    /// Sets the pending step to `Event(event_type)` where there is none.
    pub fn combine_event(optional_one: &mut Option<Self>, event_type: &'static str) -> (res: Result<(), ()>)
        ensures
            match Walk::merged(*old(optional_one), Walk::Event(event_type)) {
                Ok(r) => res is Ok && *final(optional_one) == r,
                Err(_) => res is Err && *final(optional_one) == *old(optional_one),
            },
    {
        match optional_one {
            Some(_) => Err(()),
            None => {
                *optional_one = Some(Walk::Event(event_type));
                Ok(())
            },
        }
    }

    /// Sets the pending step to `Replace` where there is none.
    pub fn combine_replace(optional_one: &mut Option<Self>) -> (res: Result<(), ()>)
        ensures
            match Walk::merged(*old(optional_one), Walk::Replace) {
                Ok(r) => res is Ok && *final(optional_one) == r,
                Err(_) => res is Err && *final(optional_one) == *old(optional_one),
            },
    {
        match optional_one {
            Some(_) => Err(()),
            None => {
                *optional_one = Some(Walk::Replace);
                Ok(())
            },
        }
    }

    /// Merges `Over(over_n)` into the pending step: only a pending `Over`
    /// (or none) accepts it.
    pub fn combine_over(optional_one: &mut Option<Self>, over_n: usize) -> (res: Result<(), ()>)
        requires
            over_n != 0,
            Walk::pending_well_formed(*old(optional_one)),
            Walk::merge_fits(*old(optional_one), Walk::Over(over_n)),
        ensures
            match Walk::merged(*old(optional_one), Walk::Over(over_n)) {
                Ok(r) => res is Ok && *final(optional_one) == r,
                Err(_) => res is Err && *final(optional_one) == *old(optional_one),
            },
    {
        match *optional_one {
            Some(one) => match one {
                Walk::In(_) => Err(()),
                Walk::Out(_) => Err(()),
                Walk::Over(last_n) => {
                    *optional_one = Some(Walk::Over(last_n + over_n));
                    Ok(())
                },
                Walk::Replace => Err(()),
                Walk::Event(_) => Err(()),
            },
            None => {
                *optional_one = Some(Walk::Over(over_n));
                Ok(())
            },
        }
    }

    /// Merges `Out(out_n)` into the pending step: a pending `In` is
    /// cancelled against it, a pending `Out` grows by one, a pending `Over`
    /// is dropped.
    pub fn combine_out(optional_one: &mut Option<Self>, out_n: usize) -> (res: Result<(), ()>)
        requires
            out_n != 0,
            Walk::pending_well_formed(*old(optional_one)),
            Walk::merge_fits(*old(optional_one), Walk::Out(out_n)),
        ensures
            match Walk::merged(*old(optional_one), Walk::Out(out_n)) {
                Ok(r) => res is Ok && *final(optional_one) == r,
                Err(_) => res is Err && *final(optional_one) == *old(optional_one),
            },
    {
        match *optional_one {
            Some(one) => match one {
                Walk::In(n) => {
                    if n > out_n {
                        *optional_one = Some(Walk::In(n - out_n));
                    } else if out_n > n {
                        *optional_one = Some(Walk::Out(out_n - n));
                    } else {
                        *optional_one = None;
                    }
                    Ok(())
                },
                Walk::Out(n) => {
                    *optional_one = Some(Walk::Out(n + 1));
                    Ok(())
                },
                Walk::Over(_) => {
                    *optional_one = Some(Walk::Out(out_n));
                    Ok(())
                },
                Walk::Replace => Err(()),
                Walk::Event(_) => Err(()),
            },
            None => {
                *optional_one = Some(Walk::Out(out_n));
                Ok(())
            },
        }
    }

    /// Merges `In(in_n)` into the pending step: a pending `Out` is
    /// cancelled against it and a pending `In` grows by one.
    pub fn combine_in(optional_one: &mut Option<Self>, in_n: usize) -> (res: Result<(), ()>)
        requires
            in_n != 0,
            Walk::pending_well_formed(*old(optional_one)),
            Walk::merge_fits(*old(optional_one), Walk::In(in_n)),
        ensures
            match Walk::merged(*old(optional_one), Walk::In(in_n)) {
                Ok(r) => res is Ok && *final(optional_one) == r,
                Err(_) => res is Err && *final(optional_one) == *old(optional_one),
            },
    {
        match *optional_one {
            Some(one) => match one {
                Walk::In(n) => {
                    *optional_one = Some(Walk::In(n + 1));
                    Ok(())
                },
                Walk::Out(n) => {
                    if n > in_n {
                        *optional_one = Some(Walk::Out(n - in_n));
                    } else if in_n > n {
                        *optional_one = Some(Walk::In(in_n - n));
                    } else {
                        *optional_one = None;
                    }
                    Ok(())
                },
                Walk::Over(_) => Err(()),
                Walk::Replace => Err(()),
                Walk::Event(_) => Err(()),
            },
            None => {
                *optional_one = Some(Walk::In(in_n));
                Ok(())
            },
        }
    }
}

/// How many levels a step moves down the tree: positive for a descent,
/// negative for a climb, zero for a step that stays on its level.
pub open spec fn depth_change(w: Walk) -> int {
    match w {
        Walk::In(n) => n as int,
        Walk::Out(n) => -(n as int),
        _ => 0,
    }
}

/// The depth change of a pending step, where there is one.
pub open spec fn pending_depth_change(o: Option<Walk>) -> int {
    match o {
        Some(w) => depth_change(w),
        None => 0,
    }
}

/// A climb and a descent merged in either order leave one vertical step of
/// the combined depth change: a descent of `b - a` levels, a climb of
/// `a - b` levels, or nothing at all where the two are of the same length.
pub proof fn lemma_merge_depth_change(o: Walk, w: Walk)
    requires
        o.well_formed(),
        w.well_formed(),
        (o is Out && w is In) || (o is In && w is Out),
    ensures
        Walk::merged(Some(o), w) is Ok,
        Walk::pending_well_formed(Walk::merged(Some(o), w)->Ok_0),
        pending_depth_change(Walk::merged(Some(o), w)->Ok_0) == depth_change(o) + depth_change(w),
        Walk::merged(Some(o), w)->Ok_0 is None <==> depth_change(o) + depth_change(w) == 0,
        Walk::merged(Some(o), w)->Ok_0 is Some ==> (Walk::merged(Some(o), w)->Ok_0->Some_0 is In
            || Walk::merged(Some(o), w)->Ok_0->Some_0 is Out),
{
}

} // verus!
