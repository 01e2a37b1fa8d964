//! The node links of a rendered template, as plain indices: what a walk
//! reads of the document while it moves.
use vstd::prelude::*;

verus! {

/// The nodes of a template fragment, numbered from 0, with the links a walk
/// follows. `None` marks a missing link.
pub struct DomTree {
    pub first_child: Vec<Option<usize>>,
    pub next_sibling: Vec<Option<usize>>,
    pub parent: Vec<Option<usize>>,
    pub is_comment: Vec<bool>,
}

/// Every link of `links` names a node below `n`.
pub open spec fn links_within(links: Seq<Option<usize>>, n: nat) -> bool {
    forall|i: int| 0 <= i < links.len() ==> match #[trigger] links[i] {
        Some(j) => j < n,
        None => true,
    }
}

/// The node reached from `node` by following `links` `n` times, if every
/// link on the way is present.
pub open spec fn follow(links: Seq<Option<usize>>, node: usize, n: nat) -> Option<usize>
    decreases n,
{
    if n == 0 {
        Some(node)
    } else {
        match links[node as int] {
            Some(c) => follow(links, c, (n - 1) as nat),
            None => None,
        }
    }
}

impl DomTree {
    /// The number of nodes.
    pub open spec fn size(&self) -> nat {
        self.is_comment@.len()
    }

    /// All four tables describe the same nodes and every link stays among
    /// them.
    pub open spec fn well_formed(&self) -> bool {
        &&& self.first_child@.len() == self.size()
        &&& self.next_sibling@.len() == self.size()
        &&& self.parent@.len() == self.size()
        &&& links_within(self.first_child@, self.size())
        &&& links_within(self.next_sibling@, self.size())
        &&& links_within(self.parent@, self.size())
    }

    /// Checks `well_formed`.
    pub fn check(&self) -> (ok: bool)
        ensures
            ok == self.well_formed(),
    {
        let n = self.is_comment.len();
        if self.first_child.len() != n || self.next_sibling.len() != n || self.parent.len() != n {
            return false;
        }
        links_checked(&self.first_child, n) && links_checked(&self.next_sibling, n)
            && links_checked(&self.parent, n)
    }
}

/// Checks `links_within`.
fn links_checked(links: &Vec<Option<usize>>, n: usize) -> (ok: bool)
    ensures
        ok == links_within(links@, n as nat),
{
    let mut i: usize = 0;
    while i < links.len()
        invariant
            i <= links.len(),
            forall|k: int| 0 <= k < i ==> match #[trigger] links@[k] {
                Some(j) => j < n,
                None => true,
            },
        decreases links.len() - i,
    {
        match links[i] {
            Some(j) => {
                if j >= n {
                    return false;
                }
            },
            None => {},
        }
        i = i + 1;
    }
    true
}

/// Follows `links` from `node` `n` times; `None` where a link is missing.
pub(crate) fn follow_links(links: &Vec<Option<usize>>, node: usize, n: usize) -> (r: Option<usize>)
    requires
        node < links@.len(),
        links_within(links@, links@.len()),
    ensures
        r == follow(links@, node, n as nat),
        r matches Some(j) ==> j < links@.len(),
{
    let mut cur = node;
    let mut k: usize = 0;
    while k < n
        invariant
            k <= n,
            cur < links@.len(),
            links_within(links@, links@.len()),
            follow(links@, node, n as nat) == follow(links@, cur, (n - k) as nat),
        decreases n - k,
    {
        match links[cur] {
            Some(c) => {
                assert(links@[cur as int] == Some(c));
                cur = c;
            },
            None => {
                return None;
            },
        }
        k = k + 1;
    }
    Some(cur)
}

} // verus!
