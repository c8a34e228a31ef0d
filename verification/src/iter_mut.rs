//! The value-rewriting in-order cursor.
//!
//! Handing out a mutable reference to a value while its subtrees are still
//! reachable would alias two live mutable paths, which Verus's ownership
//! discipline rules out just as Rust's does. So the cursor owns the tree
//! outright for the duration of the walk: each node it meets is suspended
//! as a frame of three sequential units of work -- left subtree, own
//! value, right subtree -- on an explicit stack, values are yielded one at
//! a time and may be overwritten in place through `put`, and the tree is
//! reassembled out of the suspended nodes, shape and all, as frames
//! complete.

use vstd::prelude::*;
use crate::tree::lemma_same_shape_refl;
use crate::tree::lemma_same_shape_trans;
use crate::tree::same_shape;
use crate::tree::Link;
use crate::tree::Node;
use crate::tree::Tree;

verus! {

/// Which of a suspended node's three units of work the walk has reached.
pub enum State {
    /// Its left subtree is still being walked by the frames above it.
    Left,
    /// Its left subtree is finished and rebuilt; its value is next in line.
    Ready,
    /// Its value has just been yielded and may be overwritten through `put`.
    Open,
    /// Its right subtree is being walked by the frames above it.
    Right,
}

/// One suspended node: its rebuilt left subtree, its value, its right
/// subtree, and how far the walk has come at this node. A side a frame
/// has handed to the frames above it is held here as an empty link until
/// their rebuilt result is attached back.
pub struct NodeIterMut {
    pub left: Link,
    pub elem: i64,
    pub right: Link,
    pub state: State,
}

/// The value-rewriting cursor: the stack of suspended frames, innermost
/// on top, and the fully rebuilt tree once every frame has completed.
/// The tree the cursor was given stays remembered, so that the rebuilt
/// tree can be promised to keep its shape.
pub struct IterMut {
    pub stack: Vec<NodeIterMut>,
    pub done: Link,
    pub orig: Ghost<Link>,
}

impl NodeIterMut {
    /// The values of this frame already yielded, in yield order.
    pub open spec fn past_part(self) -> Seq<i64> {
        match self.state {
            State::Left => Seq::empty(),
            State::Ready => self.left.inorder(),
            State::Open => self.left.inorder() + seq![self.elem],
            State::Right => self.left.inorder() + seq![self.elem],
        }
    }

    /// The values of this frame not yet yielded, in yield order.
    pub open spec fn future_part(self) -> Seq<i64> {
        match self.state {
            State::Left => seq![self.elem] + self.right.inorder(),
            State::Ready => seq![self.elem] + self.right.inorder(),
            State::Open => self.right.inorder(),
            State::Right => Seq::empty(),
        }
    }

    /// What a frame at position `i` of a stack of `n` frames may look
    /// like. `pending` says that a nonempty subtree is just about to be
    /// pushed on top of the stack (or attached back to its top frame), so
    /// the topmost frame is still waiting for it.
    pub open spec fn frame_ok(self, i: int, n: int, pending: bool) -> bool {
        match self.state {
            State::Left => self.left.inorder().len() == 0 && (i + 1 < n || pending),
            State::Right => self.right.inorder().len() == 0 && (i + 1 < n || pending),
            State::Ready => i + 1 == n && !pending,
            State::Open => i + 1 == n && !pending,
        }
    }
}

/// The already-yielded values held by a stack of frames, outermost
/// frame's first.
pub open spec fn stack_past(s: Seq<NodeIterMut>) -> Seq<i64>
    decreases s.len(),
{
    if s.len() == 0 {
        Seq::empty()
    } else {
        stack_past(s.drop_last()) + s.last().past_part()
    }
}

/// The not-yet-yielded values held by a stack of frames, topmost
/// frame's first.
pub open spec fn stack_future(s: Seq<NodeIterMut>) -> Seq<i64>
    decreases s.len(),
{
    if s.len() == 0 {
        Seq::empty()
    } else {
        s.last().future_part() + stack_future(s.drop_last())
    }
}

/// Every frame of the stack is in a shape the walk can resume from.
pub open spec fn stack_ok(s: Seq<NodeIterMut>, pending: bool) -> bool {
    forall|i: int|
        0 <= i < s.len() ==> (#[trigger] s[i]).frame_ok(i, s.len() as int, pending)
}

/// A pushed frame's past values come after the stack's, its future
/// values before the stack's.
pub proof fn lemma_stack_push(s: Seq<NodeIterMut>, f: NodeIterMut)
    ensures
        stack_past(s.push(f)) == stack_past(s) + f.past_part(),
        stack_future(s.push(f)) == f.future_part() + stack_future(s),
{
    assert(s.push(f).drop_last() =~= s);
    assert(s.push(f).last() == f);
}

/// How the suspended frames correspond, shape for shape, to a source
/// tree. Walking the stack from the outermost frame inwards descends the
/// source along the side each frame has in progress, each frame's
/// settled side shaped like the source's; at the innermost point the
/// hole -- whatever the walk is just about to suspend or attach there --
/// is shaped like what is left of the source.
pub open spec fn frames_to(s: Seq<NodeIterMut>, src: Link, hole: Link) -> bool
    decreases s.len(),
{
    if s.len() == 0 {
        same_shape(hole, src)
    } else {
        src.node is Some && {
            let n = src.node->Some_0;
            let f = s[0];
            match f.state {
                State::Left => same_shape(f.right, n.r) && frames_to(
                    s.subrange(1, s.len() as int),
                    n.l,
                    hole,
                ),
                State::Right => same_shape(f.left, n.l) && frames_to(
                    s.subrange(1, s.len() as int),
                    n.r,
                    hole,
                ),
                State::Ready | State::Open => same_shape(f.left, n.l) && same_shape(
                    f.right,
                    n.r,
                ) && s.len() == 1 && hole.node is None,
            }
        }
    }
}

/// With no frames suspended, the correspondence is a shape comparison.
pub proof fn lemma_frames_empty(src: Link, hole: Link)
    ensures
        frames_to(Seq::<NodeIterMut>::empty(), src, hole) == same_shape(hole, src),
{
}

/// Suspending one more frame keeps the correspondence, provided the
/// frame fits the shape at the hole.
pub proof fn lemma_frames_push(
    s: Seq<NodeIterMut>,
    f: NodeIterMut,
    src: Link,
    x: Link,
    hole: Link,
)
    requires
        frames_to(s, src, x),
        x.node is Some,
        match f.state {
            State::Left => same_shape(f.right, x.node->Some_0.r) && same_shape(
                hole,
                x.node->Some_0.l,
            ),
            State::Right => same_shape(f.left, x.node->Some_0.l) && same_shape(
                hole,
                x.node->Some_0.r,
            ),
            State::Ready | State::Open => same_shape(f.left, x.node->Some_0.l) && same_shape(
                f.right,
                x.node->Some_0.r,
            ) && hole.node is None,
        },
    ensures
        frames_to(s.push(f), src, hole),
    decreases s.len(),
{
    if s.len() == 0 {
        let n = src.node->Some_0;
        let m = x.node->Some_0;
        assert(same_shape(x, src));
        assert(s.push(f)[0] == f);
        assert(s.push(f).subrange(1, 1) =~= Seq::<NodeIterMut>::empty());
        match f.state {
            State::Left => {
                lemma_same_shape_trans(f.right, m.r, n.r);
                lemma_same_shape_trans(hole, m.l, n.l);
                lemma_frames_empty(n.l, hole);
            },
            State::Right => {
                lemma_same_shape_trans(f.left, m.l, n.l);
                lemma_same_shape_trans(hole, m.r, n.r);
                lemma_frames_empty(n.r, hole);
            },
            _ => {
                lemma_same_shape_trans(f.left, m.l, n.l);
                lemma_same_shape_trans(f.right, m.r, n.r);
            },
        }
    } else {
        let rest = s.subrange(1, s.len() as int);
        let n = src.node->Some_0;
        assert(s.push(f)[0] == s[0]);
        assert(s.push(f).subrange(1, s.push(f).len() as int) =~= rest.push(f));
        match s[0].state {
            State::Left => {
                lemma_frames_push(rest, f, n.l, x, hole);
            },
            State::Right => {
                lemma_frames_push(rest, f, n.r, x, hole);
            },
            _ => {
                assert(false);
            },
        }
    }
}

/// Removing the innermost frame keeps the correspondence, with the hole
/// standing where the frame's node stood: `w` is anything shaped like
/// that node with its sides as the frame left them.
pub proof fn lemma_frames_pop(
    s: Seq<NodeIterMut>,
    f: NodeIterMut,
    src: Link,
    hole: Link,
    w: Link,
)
    requires
        frames_to(s.push(f), src, hole),
        w.node is Some,
        match f.state {
            State::Ready | State::Open => same_shape(w.node->Some_0.l, f.left) && same_shape(
                w.node->Some_0.r,
                f.right,
            ),
            State::Left => same_shape(w.node->Some_0.l, hole) && same_shape(
                w.node->Some_0.r,
                f.right,
            ),
            State::Right => same_shape(w.node->Some_0.l, f.left) && same_shape(
                w.node->Some_0.r,
                hole,
            ),
        },
    ensures
        frames_to(s, src, w),
    decreases s.len(),
{
    if s.len() == 0 {
        assert(s.push(f)[0] == f);
        assert(s.push(f).subrange(1, 1) =~= Seq::<NodeIterMut>::empty());
        let n = src.node->Some_0;
        let m = w.node->Some_0;
        match f.state {
            State::Left => {
                lemma_frames_empty(n.l, hole);
                lemma_same_shape_trans(m.l, hole, n.l);
                lemma_same_shape_trans(m.r, f.right, n.r);
            },
            State::Right => {
                lemma_frames_empty(n.r, hole);
                lemma_same_shape_trans(m.l, f.left, n.l);
                lemma_same_shape_trans(m.r, hole, n.r);
            },
            _ => {
                lemma_same_shape_trans(m.l, f.left, n.l);
                lemma_same_shape_trans(m.r, f.right, n.r);
            },
        }
        assert(same_shape(w, src));
    } else {
        let rest = s.subrange(1, s.len() as int);
        let n = src.node->Some_0;
        assert(s.push(f)[0] == s[0]);
        assert(s.push(f).subrange(1, s.push(f).len() as int) =~= rest.push(f));
        match s[0].state {
            State::Left => {
                lemma_frames_pop(rest, f, n.l, hole, w);
            },
            State::Right => {
                lemma_frames_pop(rest, f, n.r, hole, w);
            },
            _ => {
                assert(false);
            },
        }
    }
}

/// The hole's correspondence depends on its shape alone.
pub proof fn lemma_frames_hole(s: Seq<NodeIterMut>, src: Link, h1: Link, h2: Link)
    requires
        frames_to(s, src, h1),
        same_shape(h2, h1),
    ensures
        frames_to(s, src, h2),
    decreases s.len(),
{
    if s.len() == 0 {
        lemma_same_shape_trans(h2, h1, src);
    } else {
        let rest = s.subrange(1, s.len() as int);
        let n = src.node->Some_0;
        match s[0].state {
            State::Left => {
                lemma_frames_hole(rest, n.l, h1, h2);
            },
            State::Right => {
                lemma_frames_hole(rest, n.r, h1, h2);
            },
            _ => {},
        }
    }
}

/// Exchanging the innermost frame for one with same-shaped sides -- its
/// value may differ, and a ready frame may open or the other way round --
/// keeps the correspondence.
pub proof fn lemma_frames_swap(
    s: Seq<NodeIterMut>,
    f: NodeIterMut,
    f2: NodeIterMut,
    src: Link,
    hole: Link,
)
    requires
        frames_to(s.push(f), src, hole),
        f.state is Ready || f.state is Open,
        f2.state is Ready || f2.state is Open,
        same_shape(f2.left, f.left),
        same_shape(f2.right, f.right),
    ensures
        frames_to(s.push(f2), src, hole),
    decreases s.len(),
{
    if s.len() == 0 {
        assert(s.push(f)[0] == f);
        assert(s.push(f2)[0] == f2);
        assert(s.push(f).subrange(1, 1) =~= Seq::<NodeIterMut>::empty());
        assert(s.push(f2).subrange(1, 1) =~= Seq::<NodeIterMut>::empty());
        let n = src.node->Some_0;
        lemma_same_shape_trans(f2.left, f.left, n.l);
        lemma_same_shape_trans(f2.right, f.right, n.r);
    } else {
        let rest = s.subrange(1, s.len() as int);
        let n = src.node->Some_0;
        assert(s.push(f)[0] == s[0]);
        assert(s.push(f2)[0] == s[0]);
        assert(s.push(f).subrange(1, s.push(f).len() as int) =~= rest.push(f));
        assert(s.push(f2).subrange(1, s.push(f2).len() as int) =~= rest.push(f2));
        match s[0].state {
            State::Left => {
                lemma_frames_swap(rest, f, f2, n.l, hole);
            },
            State::Right => {
                lemma_frames_swap(rest, f, f2, n.r, hole);
            },
            _ => {
                assert(false);
            },
        }
    }
}

/// An open frame may hand its right subtree over to the walk: it turns
/// into a right-in-progress frame, and the hole moves to where that
/// subtree stood.
pub proof fn lemma_frames_open_right(
    s: Seq<NodeIterMut>,
    f: NodeIterMut,
    f2: NodeIterMut,
    src: Link,
    hole: Link,
)
    requires
        frames_to(s.push(f), src, hole),
        f.state is Open,
        f2.state is Right,
        same_shape(f2.left, f.left),
    ensures
        frames_to(s.push(f2), src, f.right),
    decreases s.len(),
{
    if s.len() == 0 {
        assert(s.push(f)[0] == f);
        assert(s.push(f2)[0] == f2);
        assert(s.push(f).subrange(1, 1) =~= Seq::<NodeIterMut>::empty());
        assert(s.push(f2).subrange(1, 1) =~= Seq::<NodeIterMut>::empty());
        let n = src.node->Some_0;
        lemma_same_shape_trans(f2.left, f.left, n.l);
        lemma_frames_empty(n.r, f.right);
    } else {
        let rest = s.subrange(1, s.len() as int);
        let n = src.node->Some_0;
        assert(s.push(f)[0] == s[0]);
        assert(s.push(f2)[0] == s[0]);
        assert(s.push(f).subrange(1, s.push(f).len() as int) =~= rest.push(f));
        assert(s.push(f2).subrange(1, s.push(f2).len() as int) =~= rest.push(f2));
        match s[0].state {
            State::Left => {
                lemma_frames_open_right(rest, f, f2, n.l, hole);
            },
            State::Right => {
                lemma_frames_open_right(rest, f, f2, n.r, hole);
            },
            _ => {
                assert(false);
            },
        }
    }
}

/// A frame whose left side has just been finished takes the rebuilt
/// subtree -- anything shaped like the hole -- and becomes ready; the
/// hole closes.
pub proof fn lemma_frames_attach(
    s: Seq<NodeIterMut>,
    f: NodeIterMut,
    f2: NodeIterMut,
    src: Link,
    hole: Link,
)
    requires
        frames_to(s.push(f), src, hole),
        f.state is Left,
        f2.state is Ready,
        same_shape(f2.left, hole),
        same_shape(f2.right, f.right),
    ensures
        frames_to(s.push(f2), src, Link { node: Option::None }),
    decreases s.len(),
{
    if s.len() == 0 {
        assert(s.push(f)[0] == f);
        assert(s.push(f2)[0] == f2);
        assert(s.push(f).subrange(1, 1) =~= Seq::<NodeIterMut>::empty());
        assert(s.push(f2).subrange(1, 1) =~= Seq::<NodeIterMut>::empty());
        let n = src.node->Some_0;
        lemma_frames_empty(n.l, hole);
        lemma_same_shape_trans(f2.left, hole, n.l);
        lemma_same_shape_trans(f2.right, f.right, n.r);
    } else {
        let rest = s.subrange(1, s.len() as int);
        let n = src.node->Some_0;
        assert(s.push(f)[0] == s[0]);
        assert(s.push(f2)[0] == s[0]);
        assert(s.push(f).subrange(1, s.push(f).len() as int) =~= rest.push(f));
        assert(s.push(f2).subrange(1, s.push(f2).len() as int) =~= rest.push(f2));
        match s[0].state {
            State::Left => {
                lemma_frames_attach(rest, f, f2, n.l, hole);
            },
            State::Right => {
                lemma_frames_attach(rest, f, f2, n.r, hole);
            },
            _ => {
                assert(false);
            },
        }
    }
}

impl IterMut {
    /// The values already yielded, in yield order, with whatever `put`
    /// overwrote them with.
    pub open spec fn past(self) -> Seq<i64> {
        self.done.inorder() + stack_past(self.stack@)
    }

    /// The values not yet yielded, in the order they will come.
    pub open spec fn future(self) -> Seq<i64> {
        stack_future(self.stack@)
    }

    /// The tree being rebuilt keeps the shape of the tree the cursor was
    /// given: either everything is back together in `done`, or the
    /// suspended frames correspond to the original, with nothing at the
    /// innermost hole yet.
    pub open spec fn shadow(self) -> bool {
        if self.stack@.len() == 0 {
            same_shape(self.done, self.orig@)
        } else {
            frames_to(self.stack@, self.orig@, Link { node: Option::None })
        }
    }

    /// The cursor's own invariant.
    pub open spec fn wf(self) -> bool {
        &&& stack_ok(self.stack@, false)
        &&& (self.stack@.len() > 0 ==> self.done.inorder().len() == 0)
        &&& self.shadow()
    }

    /// A value was just yielded and its slot is open for `put`.
    pub open spec fn open(self) -> bool {
        self.stack@.len() > 0 && self.stack@.last().state is Open
    }

    /// Suspend every node on the left spine of `root` onto the stack,
    /// descending until the walk finds the leftmost value. The hole of
    /// the correspondence must be shaped like `root`; afterwards it is
    /// closed.
    fn push_spine(&mut self, root: Link, Ghost(hole): Ghost<Link>)
        requires
            stack_ok(old(self).stack@, root.inorder().len() > 0),
            frames_to(old(self).stack@, old(self).orig@, hole),
            same_shape(root, hole),
        ensures
            stack_ok(final(self).stack@, false),
            final(self).done == old(self).done,
            final(self).orig == old(self).orig,
            final(self).stack@.len() >= old(self).stack@.len(),
            root.inorder().len() > 0 ==> final(self).stack@.len() > old(self).stack@.len()
                && final(self).stack@.last().state is Ready,
            stack_past(final(self).stack@) == stack_past(old(self).stack@),
            stack_future(final(self).stack@) == root.inorder() + stack_future(
                old(self).stack@,
            ),
            frames_to(final(self).stack@, old(self).orig@, Link { node: Option::None }),
    {
        let mut walk = root;
        let ghost mut h = hole;
        loop
            invariant
                stack_ok(self.stack@, walk.inorder().len() > 0),
                self.done == old(self).done,
                self.orig == old(self).orig,
                self.stack@.len() >= old(self).stack@.len(),
                self.stack@.len() > old(self).stack@.len() ==> (self.stack@.last().state is Ready
                    || self.stack@.last().state is Left),
                root.inorder().len() > 0 ==> self.stack@.len() > old(self).stack@.len()
                    || walk.inorder().len() > 0,
                stack_past(self.stack@) == stack_past(old(self).stack@),
                walk.inorder() + stack_future(self.stack@) == root.inorder() + stack_future(
                    old(self).stack@,
                ),
                frames_to(self.stack@, old(self).orig@, h),
                same_shape(walk, h),
            ensures
                walk.inorder().len() == 0,
                stack_ok(self.stack@, false),
                self.done == old(self).done,
                self.orig == old(self).orig,
                self.stack@.len() >= old(self).stack@.len(),
                root.inorder().len() > 0 ==> self.stack@.len() > old(self).stack@.len()
                    && self.stack@.last().state is Ready,
                stack_past(self.stack@) == stack_past(old(self).stack@),
                stack_future(self.stack@) == root.inorder() + stack_future(old(self).stack@),
                frames_to(self.stack@, old(self).orig@, Link { node: Option::None }),
            decreases walk,
        {
            let ghost stack0 = self.stack@;
            let ghost walk0 = walk;
            match walk.node.take() {
                Option::None => {
                    proof {
                        assert(walk.inorder() + stack_future(self.stack@) =~= stack_future(
                            self.stack@,
                        ));
                        assert(same_shape(Link { node: Option::None }, h));
                        lemma_frames_hole(
                            self.stack@,
                            old(self).orig@,
                            h,
                            Link { node: Option::None },
                        );
                    }
                    break ;
                },
                Option::Some(b) => {
                    let n = *b;
                    let at_bottom = n.l.is_none();
                    let fr = NodeIterMut {
                        left: Link::none(),
                        elem: n.data,
                        right: n.r,
                        state: if at_bottom {
                            State::Ready
                        } else {
                            State::Left
                        },
                    };
                    self.stack.push(fr);
                    walk = n.l;
                    proof {
                        lemma_stack_push(stack0, fr);
                        assert(fr.past_part() =~= Seq::<i64>::empty());
                        assert(stack_past(self.stack@) =~= stack_past(stack0));
                        assert(fr.future_part() =~= seq![n.data] + n.r.inorder());
                        assert(walk.inorder() + stack_future(self.stack@) =~= walk0.inorder()
                            + stack_future(stack0));
                        assert forall|i: int|
                            0 <= i < self.stack@.len() implies (#[trigger] self.stack@[i]).frame_ok(
                            i,
                            self.stack@.len() as int,
                            walk.inorder().len() > 0,
                        ) by {
                            if i < stack0.len() {
                                assert(stack0[i].frame_ok(
                                    i,
                                    stack0.len() as int,
                                    walk0.inorder().len() > 0,
                                ));
                            }
                        }
                        assert(same_shape(walk0, h));
                        assert(h.node is Some);
                        let hn = h.node->Some_0;
                        assert(same_shape(n.l, hn.l) && same_shape(n.r, hn.r));
                        assert(fr.left.node is None) by {
                            if fr.left.node is Some {
                                assert(fr.left.inorder().len() >= 1);
                            }
                        }
                        if at_bottom {
                            assert(n.l.node is None) by {
                                if n.l.node is Some {
                                    assert(n.l.inorder().len() >= 1);
                                }
                            }
                            assert(hn.l.node is None);
                            assert(same_shape(fr.left, hn.l));
                            assert(same_shape(fr.right, hn.r));
                            lemma_frames_push(
                                stack0,
                                fr,
                                old(self).orig@,
                                h,
                                Link { node: Option::None },
                            );
                            h = Link { node: Option::None };
                            assert(same_shape(walk, h));
                        } else {
                            lemma_same_shape_refl(hn.l);
                            lemma_frames_push(stack0, fr, old(self).orig@, h, hn.l);
                            h = hn.l;
                        }
                    }
                },
            }
        }
    }
}

impl IterMut {
    /// Settle the frame whose value was yielded last: hand its right
    /// subtree to the walk, or -- when there is none -- rebuild the
    /// finished nodes and attach them back where they belong.
    fn resolve(&mut self)
        requires
            old(self).wf(),
        ensures
            final(self).wf(),
            final(self).orig == old(self).orig,
            final(self).past() == old(self).past(),
            final(self).future() == old(self).future(),
            final(self).stack@.len() > 0 ==> final(self).stack@.last().state is Ready,
    {
        let ghost s_all = self.stack@;
        let popped = self.stack.pop();
        match popped {
            Option::None => {
                proof {
                    assert(self.past() =~= old(self).past());
                    assert(self.future() =~= old(self).future());
                }
            },
            Option::Some(fr) => {
                proof {
                    assert(s_all =~= self.stack@.push(fr));
                    lemma_stack_push(self.stack@, fr);
                    assert(s_all[s_all.len() - 1].frame_ok(
                        s_all.len() - 1,
                        s_all.len() as int,
                        false,
                    ));
                }
                match fr.state {
                    State::Open => {
                        let mut fr = fr;
                        if fr.right.is_none() {
                            let ghost rest = self.stack@;
                            proof {
                                assert forall|i: int|
                                    0 <= i < rest.len() implies (#[trigger] rest[i]).frame_ok(
                                    i,
                                    rest.len() as int,
                                    true,
                                ) by {
                                    assert(s_all[i].frame_ok(i, s_all.len() as int, false));
                                }
                            }
                            let comp = Link {
                                node: Option::Some(
                                    Box::new(Node { l: fr.left, r: fr.right, data: fr.elem }),
                                ),
                            };
                            proof {
                                assert(comp.inorder() =~= s_all.last().left.inorder() + seq![
                                    s_all.last().elem,
                                ]);
                                assert(s_all =~= rest.push(s_all.last()));
                                lemma_same_shape_refl(s_all.last().left);
                                lemma_same_shape_refl(s_all.last().right);
                                lemma_frames_pop(
                                    rest,
                                    s_all.last(),
                                    old(self).orig@,
                                    Link { node: Option::None },
                                    comp,
                                );
                            }
                            self.cascade(comp);
                            proof {
                                assert(self.past() =~= old(self).past());
                                assert(self.future() =~= old(self).future());
                            }
                        } else {
                            let sub = Link { node: fr.right.node.take() };
                            fr.state = State::Right;
                            let ghost rest = self.stack@;
                            self.stack.push(fr);
                            proof {
                                lemma_stack_push(rest, fr);
                                assert forall|i: int|
                                    0 <= i < self.stack@.len() implies (
                                #[trigger] self.stack@[i]).frame_ok(
                                    i,
                                    self.stack@.len() as int,
                                    true,
                                ) by {
                                    if i < rest.len() {
                                        assert(s_all[i].frame_ok(i, s_all.len() as int, false));
                                    }
                                }
                                assert(s_all =~= rest.push(s_all.last()));
                                assert(sub == s_all.last().right);
                                lemma_same_shape_refl(sub);
                                lemma_same_shape_refl(s_all.last().left);
                                lemma_frames_open_right(
                                    rest,
                                    s_all.last(),
                                    fr,
                                    old(self).orig@,
                                    Link { node: Option::None },
                                );
                            }
                            self.push_spine(sub, Ghost(sub));
                            proof {
                                assert(self.past() =~= old(self).past());
                                assert(self.future() =~= old(self).future());
                            }
                        }
                    },
                    _ => {
                        self.stack.push(fr);
                        proof {
                            assert(self.stack@ =~= s_all);
                            assert(fr.state is Ready);
                            assert(self.past() =~= old(self).past());
                            assert(self.future() =~= old(self).future());
                        }
                    },
                }
            },
        }
    }

    /// Rebuild completed nodes bottom-up out of `comp` and the frames
    /// below it, until a node still waiting on its left side takes the
    /// rebuilt subtree, or the whole tree is back together.
    fn cascade(&mut self, comp: Link)
        requires
            stack_ok(old(self).stack@, true),
            old(self).done.inorder().len() == 0,
            comp.inorder().len() > 0,
            frames_to(old(self).stack@, old(self).orig@, comp),
        ensures
            final(self).wf(),
            final(self).orig == old(self).orig,
            final(self).past() == stack_past(old(self).stack@) + comp.inorder(),
            final(self).future() == stack_future(old(self).stack@),
            final(self).stack@.len() > 0 ==> final(self).stack@.last().state is Ready,
    {
        let ghost total_past = stack_past(old(self).stack@) + comp.inorder();
        let ghost total_future = stack_future(old(self).stack@);
        let mut comp = comp;
        loop
            invariant_except_break
                stack_ok(self.stack@, true),
                self.done == old(self).done,
                self.orig == old(self).orig,
                self.done.inorder().len() == 0,
                comp.inorder().len() > 0,
                stack_past(self.stack@) + comp.inorder() == total_past,
                stack_future(self.stack@) == total_future,
                frames_to(self.stack@, old(self).orig@, comp),
            ensures
                self.wf(),
                self.orig == old(self).orig,
                self.past() == total_past,
                self.future() == total_future,
                self.stack@.len() > 0 ==> self.stack@.last().state is Ready,
            decreases self.stack@.len(),
        {
            let ghost s1 = self.stack@;
            let ghost c0 = comp;
            match self.stack.pop() {
                Option::None => {
                    self.done = comp;
                    proof {
                        assert(self.past() =~= total_past);
                        assert(self.future() =~= total_future);
                        assert(s1 =~= Seq::<NodeIterMut>::empty());
                        lemma_frames_empty(old(self).orig@, self.done);
                        assert(same_shape(self.done, old(self).orig@));
                    }
                    break ;
                },
                Option::Some(p) => {
                    proof {
                        assert(s1 =~= self.stack@.push(p));
                        lemma_stack_push(self.stack@, p);
                        assert(s1[s1.len() - 1].frame_ok(s1.len() - 1, s1.len() as int, true));
                    }
                    match p.state {
                        State::Left => {
                            let mut p = p;
                            p.left = comp;
                            p.state = State::Ready;
                            let ghost rest = self.stack@;
                            self.stack.push(p);
                            proof {
                                lemma_stack_push(rest, p);
                                assert(stack_past(self.stack@) =~= total_past);
                                assert(stack_future(self.stack@) =~= total_future);
                                assert(self.past() =~= total_past);
                                assert(s1 =~= rest.push(s1.last()));
                                lemma_same_shape_refl(c0);
                                lemma_same_shape_refl(s1.last().right);
                                lemma_frames_attach(
                                    rest,
                                    s1.last(),
                                    p,
                                    old(self).orig@,
                                    c0,
                                );
                                assert forall|i: int|
                                    0 <= i < self.stack@.len() implies (
                                #[trigger] self.stack@[i]).frame_ok(
                                    i,
                                    self.stack@.len() as int,
                                    false,
                                ) by {
                                    if i < rest.len() {
                                        assert(s1[i].frame_ok(i, s1.len() as int, true));
                                    }
                                }
                            }
                            break ;
                        },
                        State::Right => {
                            let mut p = p;
                            p.right = comp;
                            comp = Link {
                                node: Option::Some(
                                    Box::new(Node { l: p.left, r: p.right, data: p.elem }),
                                ),
                            };
                            proof {
                                assert(comp.inorder() =~= s1.last().left.inorder() + seq![
                                    s1.last().elem,
                                ] + c0.inorder());
                                assert(stack_past(self.stack@) + comp.inorder() =~= total_past);
                                assert(stack_future(self.stack@) =~= total_future);
                                assert(s1 =~= self.stack@.push(s1.last()));
                                lemma_same_shape_refl(s1.last().left);
                                lemma_same_shape_refl(c0);
                                lemma_frames_pop(
                                    self.stack@,
                                    s1.last(),
                                    old(self).orig@,
                                    c0,
                                    comp,
                                );
                                assert forall|i: int|
                                    0 <= i < self.stack@.len() implies (
                                #[trigger] self.stack@[i]).frame_ok(
                                    i,
                                    self.stack@.len() as int,
                                    true,
                                ) by {
                                    assert(s1[i].frame_ok(i, s1.len() as int, true));
                                }
                            }
                        },
                        _ => {
                            proof {
                                assert(false);
                            }
                            break ;
                        },
                    }
                },
            }
        }
    }
}

impl IterMut {
    /// Yield the next value in ascending order; its slot stays open for
    /// `put` until the walk moves on.
    pub fn next(&mut self) -> (r: Option<i64>)
        requires
            old(self).wf(),
        ensures
            final(self).wf(),
            final(self).orig == old(self).orig,
            old(self).future().len() == 0 ==> r is None
                && final(self).past() == old(self).past()
                && final(self).future().len() == 0
                && final(self).stack@.len() == 0,
            old(self).future().len() > 0 ==> r == Some(old(self).future()[0])
                && final(self).open()
                && final(self).past() == old(self).past() + seq![old(self).future()[0]]
                && final(self).future() == old(self).future().drop_first(),
    {
        self.resolve();
        let ghost s2 = self.stack@;
        match self.stack.pop() {
            Option::None => {
                proof {
                    assert(self.past() =~= old(self).past());
                    assert(self.future() =~= old(self).future());
                }
                Option::None
            },
            Option::Some(fr) => {
                let mut fr = fr;
                proof {
                    assert(s2 =~= self.stack@.push(fr));
                    lemma_stack_push(self.stack@, fr);
                }
                let v = fr.elem;
                fr.state = State::Open;
                let ghost rest = self.stack@;
                self.stack.push(fr);
                proof {
                    lemma_stack_push(rest, fr);
                    assert(s2 =~= rest.push(s2.last()));
                    lemma_same_shape_refl(s2.last().left);
                    lemma_same_shape_refl(s2.last().right);
                    lemma_frames_swap(
                        rest,
                        s2.last(),
                        fr,
                        self.orig@,
                        Link { node: Option::None },
                    );
                    assert(self.past() =~= old(self).past() + seq![v]);
                    assert(old(self).future() =~= stack_future(s2));
                    assert(stack_future(s2)[0] == v);
                    assert(self.future() =~= old(self).future().drop_first());
                    assert forall|i: int|
                        0 <= i < self.stack@.len() implies (#[trigger] self.stack@[i]).frame_ok(
                        i,
                        self.stack@.len() as int,
                        false,
                    ) by {
                        if i < rest.len() {
                            assert(s2[i].frame_ok(i, s2.len() as int, false));
                        }
                    }
                }
                Option::Some(v)
            },
        }
    }

    /// Overwrite the value yielded last, in its place in the tree; it
    /// may be overwritten again until the walk moves on.
    #[verifier::rlimit(50)]
    pub fn put(&mut self, v: i64)
        requires
            old(self).wf(),
            old(self).open(),
        ensures
            final(self).wf(),
            final(self).orig == old(self).orig,
            final(self).open(),
            old(self).past().len() > 0,
            final(self).future() == old(self).future(),
            final(self).past() == old(self).past().update(old(self).past().len() - 1, v),
    {
        let ghost s0 = self.stack@;
        let popped = self.stack.pop();
        match popped {
            Option::Some(fr) => {
                let mut fr = fr;
                proof {
                    assert(s0 =~= self.stack@.push(fr));
                    lemma_stack_push(self.stack@, fr);
                }
                fr.elem = v;
                let ghost rest = self.stack@;
                self.stack.push(fr);
                proof {
                    lemma_stack_push(rest, fr);
                    assert(s0 =~= rest.push(s0.last()));
                    lemma_same_shape_refl(s0.last().left);
                    lemma_same_shape_refl(s0.last().right);
                    lemma_frames_swap(
                        rest,
                        s0.last(),
                        fr,
                        self.orig@,
                        Link { node: Option::None },
                    );
                    assert(old(self).past().len() > 0);
                    assert(self.past() =~= old(self).past().update(
                        old(self).past().len() - 1,
                        v,
                    ));
                    assert(self.future() =~= old(self).future());
                    assert forall|i: int|
                        0 <= i < self.stack@.len() implies (#[trigger] self.stack@[i]).frame_ok(
                        i,
                        self.stack@.len() as int,
                        false,
                    ) by {
                        if i < rest.len() {
                            assert(s0[i].frame_ok(i, s0.len() as int, false));
                        }
                    }
                }
            },
            Option::None => {
                proof {
                    assert(false);
                }
            },
        }
    }

    /// Finish the walk -- values never yielded keep what they held --
    /// and hand back the rebuilt tree: the shape the cursor was given,
    /// holding the already-yielded values as rewritten, followed by
    /// everything the walk never reached.
    pub fn into_tree(self) -> (t: Tree)
        requires
            self.wf(),
        ensures
            t@ == self.past() + self.future(),
            same_shape(t.root, self.orig@),
    {
        let ghost p0 = self.past();
        let ghost f0 = self.future();
        let ghost og = self.orig@;
        let mut it = self;
        loop
            invariant_except_break
                it.wf(),
                it.orig@ == og,
                it.past() + it.future() == p0 + f0,
            ensures
                it.wf(),
                it.orig@ == og,
                it.stack@.len() == 0,
                it.past() == p0 + f0,
            decreases it.future().len(),
        {
            let ghost past1 = it.past();
            let ghost future1 = it.future();
            match it.next() {
                Option::None => {
                    proof {
                        assert(past1 + future1 =~= past1);
                        assert(it.past() == p0 + f0);
                    }
                    break ;
                },
                Option::Some(_) => {
                    proof {
                        assert((past1 + seq![future1[0]]) + future1.drop_first() =~= past1
                            + future1);
                    }
                },
            }
        }
        let t = Tree { root: it.done };
        proof {
            assert(t@ =~= it.past());
        }
        t
    }
}

impl Tree {
    /// Suspend the whole tree into a value-rewriting cursor. The tree
    /// itself is left empty; `IterMut::into_tree` gives it back in its
    /// original shape, with whatever values `put` rewrote.
    pub fn iter_mut(&mut self) -> (it: IterMut)
        ensures
            it.wf(),
            it.orig@ == old(self).root,
            it.past() == Seq::<i64>::empty(),
            it.future() == old(self)@,
            final(self)@.len() == 0,
    {
        let root = Link { node: self.root.node.take() };
        let ghost snapshot = root;
        let mut it = IterMut { stack: Vec::new(), done: Link::none(), orig: Ghost(snapshot) };
        proof {
            assert(it.stack@ =~= Seq::<NodeIterMut>::empty());
            lemma_same_shape_refl(snapshot);
            lemma_frames_empty(it.orig@, snapshot);
        }
        it.push_spine(root, Ghost(snapshot));
        proof {
            assert(it.past() =~= Seq::<i64>::empty());
            assert(it.future() =~= old(self)@);
            if it.stack@.len() == 0 {
                assert(same_shape(it.done, it.orig@));
            }
        }
        it
    }

    /// Rewrite every stored value in place through the cursor: each value
    /// is replaced by what `f` returns for it, at its in-order position,
    /// exactly as rewriting the in-order sequence directly would have it.
    pub fn map_values<F: Fn(i64) -> i64>(&mut self, f: F)
        requires
            forall|v: i64| old(self)@.contains(v) ==> #[trigger] call_requires(f, (v,)),
        ensures
            final(self)@.len() == old(self)@.len(),
            same_shape(final(self).root, old(self).root),
            forall|i: int|
                0 <= i < old(self)@.len() ==> call_ensures(
                    f,
                    (old(self)@[i],),
                    #[trigger] final(self)@[i],
                ),
    {
        let ghost orig = self@;
        let ghost orig_root = self.root;
        let mut it = self.iter_mut();
        proof {
            assert(it.future() =~= orig.subrange(0, orig.len() as int));
        }
        loop
            invariant_except_break
                it.wf(),
                it.orig@ == orig_root,
                forall|v: i64| orig.contains(v) ==> #[trigger] call_requires(f, (v,)),
                it.past().len() + it.future().len() == orig.len(),
                it.future() == orig.subrange(it.past().len() as int, orig.len() as int),
                forall|i: int|
                    0 <= i < it.past().len() ==> call_ensures(
                        f,
                        (orig[i],),
                        #[trigger] it.past()[i],
                    ),
            ensures
                it.wf(),
                it.orig@ == orig_root,
                it.past().len() == orig.len(),
                it.future().len() == 0,
                forall|i: int|
                    0 <= i < orig.len() ==> call_ensures(f, (orig[i],), #[trigger] it.past()[i]),
            decreases it.future().len(),
        {
            let ghost k = it.past().len() as int;
            let ghost future1 = it.future();
            match it.next() {
                Option::None => {
                    break ;
                },
                Option::Some(v) => {
                    proof {
                        assert(v == future1[0]);
                        assert(v == orig[k]);
                        assert(orig.contains(v));
                    }
                    let w = f(v);
                    let ghost past2 = it.past();
                    it.put(w);
                    proof {
                        assert(it.past() =~= past2.update(k, w));
                        assert(it.future() =~= orig.subrange(k + 1, orig.len() as int));
                        assert forall|i: int|
                            0 <= i < it.past().len() implies call_ensures(
                            f,
                            (orig[i],),
                            #[trigger] it.past()[i],
                        ) by {
                            if i < k {
                                assert(it.past()[i] == past2[i]);
                            }
                        }
                    }
                },
            }
        }
        *self = it.into_tree();
        proof {
            assert(self@ =~= it.past());
        }
    }
}

} // verus!
