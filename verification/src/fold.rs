//! The generic reduction over all stored values.
//!
//! The reduction walks the tree with an explicit work stack, so its depth
//! never grows with the height of the tree. The order it visits values in
//! is deliberately left out of the contract: callers may only rely on every
//! value being combined into the accumulator exactly once.

use vstd::prelude::*;
use crate::tree::Link;
use crate::tree::Node;
use crate::tree::Tree;

verus! {

impl Node {
    /// The order in which the reduction's work stack visits values: the
    /// node itself, then its left subtree, then its right subtree.
    pub open spec fn preorder(self) -> Seq<i64>
        decreases self,
    {
        seq![self.data] + self.l.preorder() + self.r.preorder()
    }
}

impl Link {
    /// The work-stack visiting order of the subtree under this link.
    pub open spec fn preorder(self) -> Seq<i64>
        decreases self,
    {
        match self.node {
            Option::None => Seq::empty(),
            Option::Some(n) => n.preorder(),
        }
    }
}

/// What a stack of pending subtrees will still visit, topmost first.
pub open spec fn stack_preorder(s: Seq<&Node>) -> Seq<i64>
    decreases s.len(),
{
    if s.len() == 0 {
        Seq::empty()
    } else {
        s.last().preorder() + stack_preorder(s.drop_last())
    }
}

/// An empty stack has nothing left to visit.
pub proof fn lemma_stack_preorder_empty()
    ensures
        stack_preorder(Seq::<&Node>::empty()) == Seq::<i64>::empty(),
{
}

/// Pushing a subtree onto the stack puts its values first in line.
pub proof fn lemma_stack_preorder_push(s: Seq<&Node>, n: &Node)
    ensures
        stack_preorder(s.push(n)) == n.preorder() + stack_preorder(s),
{
    assert(s.push(n).drop_last() =~= s);
    assert(s.push(n).last() == n);
}

/// Whether folding `f` over the values of `s`, first to last, starting
/// from `init`, can produce `r`: some chain of intermediate accumulators
/// permitted by `f`'s postcondition links them.
pub open spec fn folds_to<B, F: Fn(B, i64) -> B>(f: F, init: B, s: Seq<i64>, r: B) -> bool
    decreases s.len(),
{
    if s.len() == 0 {
        r == init
    } else {
        exists|m: B|
            #[trigger] call_ensures(f, (init, s[0]), m) && folds_to(f, m, s.drop_first(), r)
    }
}

/// A fold that reached `r` over `s` reaches `r2` over `s` plus one more
/// value, whenever `f` permits the step from `r` to `r2`.
pub proof fn lemma_folds_to_snoc<B, F: Fn(B, i64) -> B>(
    f: F,
    init: B,
    s: Seq<i64>,
    r: B,
    x: i64,
    r2: B,
)
    requires
        folds_to(f, init, s, r),
        call_ensures(f, (r, x), r2),
    ensures
        folds_to(f, init, s.push(x), r2),
    decreases s.len(),
{
    if s.len() == 0 {
        assert(s.push(x)[0] == x);
        assert(s.push(x).drop_first() =~= Seq::<i64>::empty());
        assert(call_ensures(f, (init, x), r2) && folds_to(f, r2, s.push(x).drop_first(), r2));
    } else {
        let m = choose|m: B|
            #[trigger] call_ensures(f, (init, s[0]), m) && folds_to(f, m, s.drop_first(), r);
        lemma_folds_to_snoc(f, m, s.drop_first(), r, x, r2);
        assert(s.push(x).drop_first() =~= s.drop_first().push(x));
        assert(s.push(x)[0] == s[0]);
        assert(call_ensures(f, (init, s.push(x)[0]), m) && folds_to(
            f,
            m,
            s.push(x).drop_first(),
            r2,
        ));
    }
}

/// The work-stack order visits every value exactly as often as the
/// in-order traversal does: once each.
pub proof fn lemma_preorder_multiset(l: Link)
    ensures
        l.preorder().to_multiset() == l.inorder().to_multiset(),
    decreases l,
{
    broadcast use vstd::seq_lib::lemma_multiset_commutative;

    match l.node {
        Option::None => {},
        Option::Some(n) => {
            lemma_preorder_multiset(n.l);
            lemma_preorder_multiset(n.r);
            assert(l.preorder() == seq![n.data] + n.l.preorder() + n.r.preorder());
            assert(l.inorder() == n.l.inorder() + seq![n.data] + n.r.inorder());
            assert(l.preorder().to_multiset() =~= l.inorder().to_multiset());
        },
    }
}

impl Node {
    /// Reduce every value in this node's subtree into one accumulator,
    /// visiting values in work-stack order.
    pub fn fold<B, F: Fn(B, i64) -> B>(&self, init: B, f: F) -> (r: B)
        requires
            forall|b: B, v: i64| #[trigger] call_requires(f, (b, v)),
        ensures
            folds_to(f, init, self.preorder(), r),
    {
        let mut acc = init;
        let mut stack: Vec<&Node> = Vec::new();
        stack.push(self);
        let ghost mut processed: Seq<i64> = Seq::empty();
        proof {
            lemma_stack_preorder_empty();
            assert(stack@ =~= Seq::<&Node>::empty().push(self));
            lemma_stack_preorder_push(Seq::<&Node>::empty(), self);
            assert(processed + stack_preorder(stack@) =~= self.preorder());
        }
        while stack.len() > 0
            invariant
                forall|b: B, v: i64| #[trigger] call_requires(f, (b, v)),
                folds_to(f, init, processed, acc),
                processed + stack_preorder(stack@) == self.preorder(),
            decreases stack_preorder(stack@).len(),
        {
            let ghost s0 = stack@;
            let node_opt = stack.pop();
            let node = node_opt.unwrap();
            proof {
                assert(s0 =~= stack@.push(node));
                lemma_stack_preorder_push(stack@, node);
                assert(stack_preorder(s0) == node.preorder() + stack_preorder(stack@));
            }
            let ghost rest = stack_preorder(stack@);
            let d = node.data;
            let ghost acc0 = acc;
            acc = f(acc, d);
            proof {
                lemma_folds_to_snoc(f, init, processed, acc0, d, acc);
                processed = processed.push(d);
            }
            match &node.r.node {
                Option::Some(b) => {
                    let ghost s1 = stack@;
                    stack.push(&**b);
                    proof {
                        assert(stack@ =~= s1.push(&**b));
                        lemma_stack_preorder_push(s1, &**b);
                        assert((&**b).preorder() == node.r.preorder());
                    }
                },
                Option::None => {
                    proof {
                        assert(node.r.preorder() =~= Seq::<i64>::empty());
                    }
                },
            }
            proof {
                assert(stack_preorder(stack@) =~= node.r.preorder() + rest);
            }
            match &node.l.node {
                Option::Some(b) => {
                    let ghost s2 = stack@;
                    stack.push(&**b);
                    proof {
                        assert(stack@ =~= s2.push(&**b));
                        lemma_stack_preorder_push(s2, &**b);
                        assert((&**b).preorder() == node.l.preorder());
                    }
                },
                Option::None => {
                    proof {
                        assert(node.l.preorder() =~= Seq::<i64>::empty());
                    }
                },
            }
            proof {
                assert(stack_preorder(stack@) =~= node.l.preorder() + (node.r.preorder()
                    + rest));
                assert(node.preorder() == seq![d] + node.l.preorder() + node.r.preorder());
                assert(processed + stack_preorder(stack@) =~= self.preorder());
            }
        }
        proof {
            assert(processed =~= processed + stack_preorder(stack@));
        }
        acc
    }
}

impl Tree {
    /// Reduce all values into one accumulator with the caller's `f`.
    ///
    /// The contract promises only that `r` is reachable by combining each
    /// stored value into the accumulator exactly once, in some order: the
    /// visiting order is not sorted order, and callers must not rely on it.
    pub fn fold<B, F: Fn(B, i64) -> B>(&self, init: B, f: F) -> (r: B)
        requires
            forall|b: B, v: i64| #[trigger] call_requires(f, (b, v)),
        ensures
            exists|s: Seq<i64>|
                s.to_multiset() == self@.to_multiset() && #[trigger] folds_to(f, init, s, r),
    {
        match &self.root.node {
            Option::None => {
                proof {
                    let s = Seq::<i64>::empty();
                    assert(s.to_multiset() =~= self@.to_multiset());
                    assert(folds_to(f, init, s, init));
                }
                init
            },
            Option::Some(n) => {
                let r = n.fold(init, f);
                proof {
                    lemma_preorder_multiset(self.root);
                    assert(self.root.preorder() == n.preorder());
                }
                r
            },
        }
    }
}

/// The arithmetic sum of a sequence of values, as an unbounded integer.
pub open spec fn sum(s: Seq<i64>) -> int
    decreases s.len(),
{
    if s.len() == 0 {
        0
    } else {
        s[0] + sum(s.drop_first())
    }
}

/// Taking one element out takes exactly its value out of the sum.
pub proof fn lemma_sum_remove(s: Seq<i64>, i: int)
    requires
        0 <= i < s.len(),
    ensures
        sum(s.remove(i)) == sum(s) - s[i],
    decreases s.len(),
{
    if i == 0 {
        assert(s.remove(0) =~= s.drop_first());
    } else {
        assert(s.remove(i)[0] == s[0]);
        assert(s.remove(i).drop_first() =~= s.drop_first().remove(i - 1));
        lemma_sum_remove(s.drop_first(), i - 1);
    }
}

/// Sequences holding the same values the same number of times have the
/// same sum: summing is immune to order.
pub proof fn lemma_sum_permutation(s1: Seq<i64>, s2: Seq<i64>)
    requires
        s1.to_multiset() == s2.to_multiset(),
    ensures
        sum(s1) == sum(s2),
    decreases s1.len(),
{
    broadcast use vstd::seq_lib::to_multiset_len;
    broadcast use vstd::seq_lib::to_multiset_contains;
    broadcast use vstd::seq_lib::to_multiset_remove;

    if s1.len() == 0 {
        assert(s1.len() == s1.to_multiset().len());
        assert(s2.len() == s2.to_multiset().len());
        assert(s2.len() == 0);
    } else {
        let x = s1[0];
        assert(s1.contains(x));
        assert(s2.to_multiset().count(x) > 0);
        assert(s2.contains(x));
        let i = choose|i: int| 0 <= i < s2.len() && s2[i] == x;
        assert(s1.drop_first() =~= s1.remove(0));
        assert(s1.remove(0).to_multiset() == s1.to_multiset().remove(x));
        assert(s2.remove(i).to_multiset() == s2.to_multiset().remove(x));
        lemma_sum_permutation(s1.drop_first(), s2.remove(i));
        lemma_sum_remove(s2, i);
    }
}

/// An exact-addition combiner makes the fold a sum: starting from `init`
/// and combining every value of `s` into the accumulator once yields
/// `init` plus the sum of `s`, whatever order `s` lists the values in.
pub proof fn lemma_folds_to_sum<F: Fn(i64, i64) -> i64>(f: F, init: i64, s: Seq<i64>, r: i64)
    requires
        folds_to(f, init, s, r),
        forall|a: i64, b: i64, y: i64| call_ensures(f, (a, b), y) ==> y == a + b,
    ensures
        r == init + sum(s),
    decreases s.len(),
{
    if s.len() > 0 {
        let m = choose|m: i64|
            #[trigger] call_ensures(f, (init, s[0]), m) && folds_to(f, m, s.drop_first(), r);
        lemma_folds_to_sum(f, m, s.drop_first(), r);
    }
}

/// Summing through the reduction equals summing the sorted in-order
/// sequence: with an exact-addition combiner, the unspecified visiting
/// order cannot change what `fold` returns. Its hypotheses are exactly
/// what `Tree::fold`'s postcondition hands a caller.
pub proof fn lemma_fold_sums_inorder<F: Fn(i64, i64) -> i64>(t: Tree, f: F, init: i64, r: i64)
    requires
        exists|s: Seq<i64>|
            s.to_multiset() == t@.to_multiset() && #[trigger] folds_to(f, init, s, r),
        forall|a: i64, b: i64, y: i64| call_ensures(f, (a, b), y) ==> y == a + b,
    ensures
        r == init + sum(t@),
{
    let s = choose|s: Seq<i64>|
        s.to_multiset() == t@.to_multiset() && #[trigger] folds_to(f, init, s, r);
    lemma_folds_to_sum(f, init, s, r);
    lemma_sum_permutation(s, t@);
}

} // verus!
