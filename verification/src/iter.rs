//! In-order traversal: a consuming iterator that drains the tree in
//! ascending order, and a borrowing iterator that reads it in ascending
//! order while leaving it intact.

use vstd::prelude::*;
use crate::tree::Link;
use crate::tree::Node;
use crate::tree::Tree;

verus! {

/// The consuming in-order iterator. It owns what is left of the tree: a
/// held current value, and a stack of values paired with their pending
/// right subtrees, most recently discovered on top.
pub struct TreeIter {
    pub right: Vec<(i64, Link)>,
    pub cur: Option<i64>,
}

/// The values a pending-right stack will still yield, topmost first: the
/// top value, then its right subtree in order, then the rest below.
pub open spec fn pending_values(s: Seq<(i64, Link)>) -> Seq<i64>
    decreases s.len(),
{
    if s.len() == 0 {
        Seq::empty()
    } else {
        seq![s.last().0] + s.last().1.inorder() + pending_values(s.drop_last())
    }
}

/// Pushing a value and its right subtree puts them first in line.
pub proof fn lemma_pending_values_push(s: Seq<(i64, Link)>, d: i64, l: Link)
    ensures
        pending_values(s.push((d, l))) == seq![d] + l.inorder() + pending_values(s),
{
    assert(s.push((d, l)).drop_last() =~= s);
    assert(s.push((d, l)).last() == (d, l));
}

impl TreeIter {
    /// The values the iterator has not yielded yet, in yield order.
    pub open spec fn remaining(self) -> Seq<i64> {
        (match self.cur {
            Option::None => Seq::<i64>::empty(),
            Option::Some(v) => seq![v],
        }) + pending_values(self.right@)
    }

    /// The iterator's own invariant: once the held value runs out, the
    /// stack has run out too.
    pub open spec fn wf(self) -> bool {
        self.cur is None ==> self.right@.len() == 0
    }

    /// Start a consuming in-order traversal of `tree`.
    pub fn new(tree: Tree) -> (it: TreeIter)
        ensures
            it.wf(),
            it.remaining() == tree@,
    {
        let mut it = TreeIter { right: Vec::new(), cur: Option::None };
        proof {
            assert(it.remaining() =~= Seq::<i64>::empty());
        }
        it.add_left(tree.root);
        it.advance();
        proof {
            assert(Seq::<i64>::empty() + tree@ + Seq::<i64>::empty() =~= tree@);
        }
        it
    }

    /// Descend along the left spine of `root`, detaching each node met:
    /// its value and right subtree go onto the stack, and the descent
    /// continues into its left subtree.
    fn add_left(&mut self, root: Link)
        ensures
            final(self).cur == old(self).cur,
            pending_values(final(self).right@) == root.inorder() + pending_values(
                old(self).right@,
            ),
    {
        let mut walk = root;
        loop
            invariant
                self.cur == old(self).cur,
                walk.inorder() + pending_values(self.right@) == root.inorder() + pending_values(
                    old(self).right@,
                ),
            ensures
                self.cur == old(self).cur,
                walk.inorder().len() == 0,
                pending_values(self.right@) == root.inorder() + pending_values(
                    old(self).right@,
                ),
            decreases walk,
        {
            let ghost pairs0 = self.right@;
            let ghost walk0 = walk;
            match walk.node.take() {
                Option::None => {
                    proof {
                        assert(walk.inorder() + pending_values(self.right@) =~= pending_values(
                            self.right@,
                        ));
                    }
                    break ;
                },
                Option::Some(b) => {
                    let n = *b;
                    self.right.push((n.data, n.r));
                    walk = n.l;
                    proof {
                        lemma_pending_values_push(pairs0, n.data, n.r);
                        assert(walk.inorder() + pending_values(self.right@) =~= walk0.inorder()
                            + pending_values(pairs0));
                    }
                },
            }
        }
    }

    /// Re-prime the held value: pop the most recent pending entry, hold
    /// its value, and spread its right subtree's left spine on the stack.
    fn advance(&mut self)
        requires
            old(self).cur is None,
        ensures
            final(self).wf(),
            final(self).remaining() == old(self).remaining(),
    {
        let ghost pairs0 = self.right@;
        match self.right.pop() {
            Option::None => {
                proof {
                    assert(self.remaining() =~= old(self).remaining());
                }
            },
            Option::Some((d, rl)) => {
                self.cur = Option::Some(d);
                proof {
                    assert(pairs0 =~= self.right@.push((d, rl)));
                    lemma_pending_values_push(self.right@, d, rl);
                }
                self.add_left(rl);
                proof {
                    assert(self.remaining() =~= old(self).remaining());
                }
            },
        }
    }

    /// Yield the next value in ascending order, or nothing once the tree
    /// is drained.
    pub fn next(&mut self) -> (r: Option<i64>)
        requires
            old(self).wf(),
        ensures
            final(self).wf(),
            old(self).remaining().len() == 0 ==> r is None && final(self).remaining()
                == old(self).remaining(),
            old(self).remaining().len() > 0 ==> r == Some(old(self).remaining()[0])
                && final(self).remaining() == old(self).remaining().drop_first(),
    {
        let out = self.cur.take();
        proof {
            if old(self).remaining().len() == 0 {
                assert(old(self).cur is None);
                assert(self.remaining() =~= old(self).remaining());
            }
        }
        self.advance();
        proof {
            if old(self).remaining().len() > 0 {
                assert(old(self).cur is Some);
                assert(self.remaining() =~= old(self).remaining().drop_first());
            }
        }
        out
    }
}

impl Tree {
    /// Hand the whole tree over to a consuming in-order iterator.
    pub fn into_iter(self) -> (it: TreeIter)
        ensures
            it.wf(),
            it.remaining() == self@,
    {
        TreeIter::new(self)
    }
}

/// The borrowing in-order iterator: a stack of not-yet-visited nodes,
/// deepest pending one on top, pointing into a tree it does not own.
pub struct TreeRefIter<'a> {
    pub unvisited: Vec<&'a Node>,
}

/// The values a stack of borrowed nodes will still yield, topmost first:
/// the top node's value, then its right subtree in order, then the rest.
pub open spec fn unvisited_values(s: Seq<&Node>) -> Seq<i64>
    decreases s.len(),
{
    if s.len() == 0 {
        Seq::empty()
    } else {
        seq![s.last().data] + s.last().r.inorder() + unvisited_values(s.drop_last())
    }
}

/// Pushing a borrowed node puts its value and right subtree first in line.
pub proof fn lemma_unvisited_values_push(s: Seq<&Node>, n: &Node)
    ensures
        unvisited_values(s.push(n)) == seq![n.data] + n.r.inorder() + unvisited_values(s),
{
    assert(s.push(n).drop_last() =~= s);
    assert(s.push(n).last() == n);
}

impl<'a> TreeRefIter<'a> {
    /// The values the iterator has not yielded yet, in yield order.
    pub open spec fn remaining(self) -> Seq<i64> {
        unvisited_values(self.unvisited@)
    }

    /// Walk the left spine of `tree`, remembering every node passed.
    fn push_left(&mut self, tree: &'a Link)
        ensures
            unvisited_values(final(self).unvisited@) == tree.inorder() + unvisited_values(
                old(self).unvisited@,
            ),
    {
        let mut walk: &'a Link = tree;
        loop
            invariant
                walk.inorder() + unvisited_values(self.unvisited@) == tree.inorder()
                    + unvisited_values(old(self).unvisited@),
            ensures
                unvisited_values(self.unvisited@) == tree.inorder() + unvisited_values(
                    old(self).unvisited@,
                ),
            decreases *walk,
        {
            let ghost stack0 = self.unvisited@;
            let ghost walk0 = *walk;
            match &walk.node {
                Option::None => {
                    proof {
                        assert(walk.inorder() + unvisited_values(self.unvisited@)
                            =~= unvisited_values(self.unvisited@));
                    }
                    break ;
                },
                Option::Some(b) => {
                    self.unvisited.push(&**b);
                    walk = &b.l;
                    proof {
                        lemma_unvisited_values_push(stack0, &**b);
                        assert(walk.inorder() + unvisited_values(self.unvisited@)
                            =~= walk0.inorder() + unvisited_values(stack0));
                    }
                },
            }
        }
    }

    /// Yield the next value in ascending order without touching the tree.
    pub fn next(&mut self) -> (r: Option<i64>)
        ensures
            old(self).remaining().len() == 0 ==> r is None && final(self).remaining()
                == old(self).remaining(),
            old(self).remaining().len() > 0 ==> r == Some(old(self).remaining()[0])
                && final(self).remaining() == old(self).remaining().drop_first(),
    {
        let ghost stack0 = self.unvisited@;
        match self.unvisited.pop() {
            Option::None => {
                proof {
                    assert(self.remaining() =~= old(self).remaining());
                }
                Option::None
            },
            Option::Some(n) => {
                proof {
                    assert(stack0 =~= self.unvisited@.push(n));
                    lemma_unvisited_values_push(self.unvisited@, n);
                }
                self.push_left(&n.r);
                proof {
                    assert(self.remaining() =~= old(self).remaining().drop_first());
                }
                Option::Some(n.data)
            },
        }
    }
}

impl Tree {
    /// Start a read-only in-order traversal; the tree stays usable, and
    /// several such traversals may run side by side.
    pub fn iter(&self) -> (it: TreeRefIter<'_>)
        ensures
            it.remaining() == self@,
    {
        let mut it = TreeRefIter { unvisited: Vec::new() };
        proof {
            assert(it.remaining() =~= Seq::<i64>::empty());
        }
        it.push_left(&self.root);
        proof {
            assert(self@ + Seq::<i64>::empty() =~= self@);
        }
        it
    }
}

} // verus!
