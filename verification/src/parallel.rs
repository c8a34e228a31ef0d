//! A read-only size computation whose two subtree counts are taken
//! concurrently. Safe because the two subtrees are disjoint by ownership
//! and nothing is mutated; the result is identical to the sequential
//! count on any fixed tree.

use vstd::prelude::*;
use crate::tree::Link;
use crate::tree::Tree;

verus! {

/// Relies on rayon::join: it runs both closures, possibly in parallel on
/// separate tasks, and returns the pair of their results. The closures
/// only call the verified sequential count on each subtree.
#[verifier::external_body]
fn join_counts(l: &Link, r: &Link) -> (res: (usize, usize))
    requires
        l.inorder().len() <= usize::MAX,
        r.inorder().len() <= usize::MAX,
    ensures
        res.0 == l.inorder().len(),
        res.1 == r.inorder().len(),
{
    rayon::join(|| l.len(), || r.len())
}

impl Tree {
    /// The number of values stored in the tree, with the two subtree
    /// counts evaluated concurrently; always equal to `len`.
    pub fn par_len(&self) -> (r: usize)
        requires
            self@.len() <= usize::MAX,
        ensures
            r == self@.len(),
    {
        match &self.root.node {
            Option::None => 0,
            Option::Some(n) => {
                let counts = join_counts(&n.l, &n.r);
                proof {
                    assert(self@ == n.l.inorder() + seq![n.data] + n.r.inorder());
                }
                1 + counts.0 + counts.1
            },
        }
    }
}

} // verus!
