//! The tree structure itself: nodes, links, and the core operations.

use vstd::prelude::*;

verus! {

/// A single stored value together with its left and right subtrees.
pub struct Node {
    pub l: Link,
    pub r: Link,
    pub data: i64,
}

/// An optional owning edge to a `Node`: either empty, or owning exactly one
/// node. The root of a `Tree` is a `Link`, and all interior structure is
/// `Link`s nested inside `Node`s.
pub struct Link {
    pub node: Option<Box<Node>>,
}

/// An unbalanced binary search tree over `i64` values, without duplicates.
///
/// The tree can degenerate into a list under sorted insertion; no balancing
/// is performed and nothing is ever deleted.
pub struct Tree {
    pub root: Link,
}

impl Node {
    /// The in-order sequence of values stored in this node's subtree.
    pub open spec fn inorder(self) -> Seq<i64>
        decreases self,
    {
        self.l.inorder() + seq![self.data] + self.r.inorder()
    }

    /// Whether `v` is stored in this node's subtree.
    pub open spec fn has(self, v: i64) -> bool
        decreases self,
    {
        v == self.data || self.l.has(v) || self.r.has(v)
    }

    /// The order invariant at this node and below.
    pub open spec fn wf(self) -> bool
        decreases self,
    {
        &&& self.l.wf()
        &&& self.r.wf()
        &&& (forall|v: i64| self.l.has(v) ==> v < self.data)
        &&& (forall|v: i64| self.r.has(v) ==> v > self.data)
    }

    /// The walk a membership search takes below this node: stop here on
    /// equality, else descend the one side the order invariant allows.
    /// What the search returns, if anything, is exactly the node this
    /// walk stops at.
    pub open spec fn find(self, v: i64) -> Option<Node>
        decreases self,
    {
        if v == self.data {
            Option::Some(self)
        } else if v < self.data {
            self.l.find(v)
        } else {
            self.r.find(v)
        }
    }

    /// How inserting `v` reshapes this node's subtree into `b`: the walk
    /// descends the one side the comparison picks, the value and the
    /// other side stay exactly as they were, and a duplicate changes
    /// nothing at all.
    pub open spec fn inserted_with(self, v: i64, b: Node) -> bool
        decreases self,
    {
        if v < self.data {
            b.data == self.data && b.r == self.r && inserted(self.l, v, b.l)
        } else if v > self.data {
            b.data == self.data && b.l == self.l && inserted(self.r, v, b.r)
        } else {
            b == self
        }
    }
}

/// How inserting `v` reshapes the subtree `l` into `r`: one fresh leaf
/// appears at the unique empty position the order invariant dictates,
/// every node already present keeps its value, its place and its other
/// subtree, and inserting a value already present changes nothing. The
/// old subtree and the value determine the new subtree completely.
pub open spec fn inserted(l: Link, v: i64, r: Link) -> bool
    decreases l,
{
    match l.node {
        Option::None => r.node is Some && {
            let n = r.node->Some_0;
            n.data == v && n.l.node is None && n.r.node is None
        },
        Option::Some(a) => {
            if v == a.data {
                r == l
            } else {
                r.node is Some && a.inserted_with(v, *r.node->Some_0)
            }
        },
    }
}

/// Insertion is deterministic: the old subtree and the value determine
/// the new subtree, node for node.
pub proof fn lemma_inserted_deterministic(l: Link, v: i64, r1: Link, r2: Link)
    requires
        inserted(l, v, r1),
        inserted(l, v, r2),
    ensures
        r1 == r2,
    decreases l,
{
    match l.node {
        Option::None => {
            let n1 = *r1.node->Some_0;
            let n2 = *r2.node->Some_0;
            assert(n1.l.node == n2.l.node);
            assert(n1.r.node == n2.r.node);
            assert(n1 == n2);
        },
        Option::Some(a) => {
            if v < a.data {
                lemma_inserted_deterministic(a.l, v, r1.node->Some_0.l, r2.node->Some_0.l);
                assert(*r1.node->Some_0 == *r2.node->Some_0);
            } else if v > a.data {
                lemma_inserted_deterministic(a.r, v, r1.node->Some_0.r, r2.node->Some_0.r);
                assert(*r1.node->Some_0 == *r2.node->Some_0);
            }
        },
    }
}

/// How inserting a whole sequence of values, first to last, reshapes the
/// subtree `l` into `r`: each value is inserted in turn, under the
/// ordinary insert contract.
pub open spec fn extended(l: Link, vals: Seq<i64>, r: Link) -> bool
    decreases vals.len(),
{
    if vals.len() == 0 {
        r == l
    } else {
        exists|m: Link| #[trigger] inserted(l, vals[0], m) && extended(m, vals.drop_first(), r)
    }
}

/// One more insertion extends the walk by one step.
pub proof fn lemma_extended_snoc(l: Link, vals: Seq<i64>, m: Link, v: i64, r: Link)
    requires
        extended(l, vals, m),
        inserted(m, v, r),
    ensures
        extended(l, vals.push(v), r),
    decreases vals.len(),
{
    if vals.len() == 0 {
        assert(vals.push(v)[0] == v);
        assert(vals.push(v).drop_first() =~= Seq::<i64>::empty());
        assert(inserted(l, v, r) && extended(r, vals.push(v).drop_first(), r));
    } else {
        let m0 = choose|m0: Link|
            #[trigger] inserted(l, vals[0], m0) && extended(m0, vals.drop_first(), m);
        lemma_extended_snoc(m0, vals.drop_first(), m, v, r);
        assert(vals.push(v)[0] == vals[0]);
        assert(vals.push(v).drop_first() =~= vals.drop_first().push(v));
        assert(inserted(l, vals.push(v)[0], m0) && extended(m0, vals.push(v).drop_first(), r));
    }
}

/// A sequence of insertions is deterministic too: the old subtree and
/// the values determine the new subtree, node for node.
pub proof fn lemma_extended_deterministic(l: Link, vals: Seq<i64>, r1: Link, r2: Link)
    requires
        extended(l, vals, r1),
        extended(l, vals, r2),
    ensures
        r1 == r2,
    decreases vals.len(),
{
    if vals.len() > 0 {
        let m1 = choose|m: Link|
            #[trigger] inserted(l, vals[0], m) && extended(m, vals.drop_first(), r1);
        let m2 = choose|m: Link|
            #[trigger] inserted(l, vals[0], m) && extended(m, vals.drop_first(), r2);
        lemma_inserted_deterministic(l, vals[0], m1, m2);
        lemma_extended_deterministic(m1, vals.drop_first(), r1, r2);
    }
}

/// Inserting a concatenation of sequences is inserting the parts in
/// turn: extending by `s1` and then by `s2` is extending by `s1 + s2`.
pub proof fn lemma_extended_concat(l: Link, s1: Seq<i64>, m: Link, s2: Seq<i64>, r: Link)
    requires
        extended(l, s1, m),
        extended(m, s2, r),
    ensures
        extended(l, s1 + s2, r),
    decreases s1.len(),
{
    if s1.len() == 0 {
        assert(s1 + s2 =~= s2);
    } else {
        let m0 = choose|m0: Link|
            #[trigger] inserted(l, s1[0], m0) && extended(m0, s1.drop_first(), m);
        lemma_extended_concat(m0, s1.drop_first(), m, s2, r);
        assert((s1 + s2)[0] == s1[0]);
        assert((s1 + s2).drop_first() =~= s1.drop_first() + s2);
        assert(inserted(l, (s1 + s2)[0], m0) && extended(m0, (s1 + s2).drop_first(), r));
    }
}

impl Link {
    /// The in-order sequence of values stored under this link.
    pub open spec fn inorder(self) -> Seq<i64>
        decreases self,
    {
        match self.node {
            Option::None => Seq::empty(),
            Option::Some(n) => n.inorder(),
        }
    }

    /// Whether `v` is stored somewhere under this link.
    pub open spec fn has(self, v: i64) -> bool
        decreases self,
    {
        match self.node {
            Option::None => false,
            Option::Some(n) => n.has(v),
        }
    }

    /// The binary-search-tree order invariant: below every node, all values
    /// to the left are smaller and all values to the right are larger.
    pub open spec fn wf(self) -> bool
        decreases self,
    {
        match self.node {
            Option::None => true,
            Option::Some(n) => n.wf(),
        }
    }

    /// The walk a membership search takes under this link.
    pub open spec fn find(self, v: i64) -> Option<Node>
        decreases self,
    {
        match self.node {
            Option::None => Option::None,
            Option::Some(n) => n.find(v),
        }
    }

    /// An empty link.
    pub fn none() -> (r: Link)
        ensures
            r.node is None,
            r.inorder() == Seq::<i64>::empty(),
            forall|v: i64| !r.has(v),
            r.wf(),
    {
        Link { node: Option::None }
    }

    /// Whether the link owns no node at all.
    pub fn is_none(&self) -> (r: bool)
        ensures
            r == (self.inorder().len() == 0),
    {
        match &self.node {
            Option::None => true,
            Option::Some(_) => false,
        }
    }

    /// A link owning a fresh leaf node that stores `data`.
    pub fn new(data: i64) -> (r: Link)
        ensures
            r.node is Some,
            r.node->Some_0.data == data,
            r.node->Some_0.l.node is None,
            r.node->Some_0.r.node is None,
            r.inorder() == seq![data],
            forall|v: i64| r.has(v) <==> v == data,
            r.wf(),
    {
        let r = Link { node: Option::Some(Box::new(Node::new(data))) };
        proof {
            assert(r.inorder() =~= seq![data]);
            let n = r.node->Some_0;
            assert forall|v: i64| r.has(v) <==> v == data by {
                assert(r.has(v) <==> (v == n.data || n.l.has(v) || n.r.has(v)));
            }
        }
        r
    }

    /// The number of values stored under this link.
    pub fn len(&self) -> (r: usize)
        requires
            self.inorder().len() <= usize::MAX,
        ensures
            r == self.inorder().len(),
        decreases self,
    {
        match &self.node {
            Option::None => 0,
            Option::Some(n) => {
                let a = n.l.len();
                let b = n.r.len();
                1 + a + b
            },
        }
    }
}

impl Node {
    /// A fresh node storing `data`, with empty children.
    pub fn new(data: i64) -> (r: Node)
        ensures
            r.l.node is None,
            r.r.node is None,
            r.inorder() == seq![data],
            r.l.inorder().len() == 0,
            r.r.inorder().len() == 0,
            r.l.wf() && r.r.wf(),
            forall|v: i64| !r.l.has(v) && !r.r.has(v),
            r.data == data,
    {
        let r = Node { l: Link::none(), r: Link::none(), data };
        proof {
            assert(r.inorder() =~= seq![data]);
        }
        r
    }

    /// The number of values stored in this node's subtree.
    pub fn len(&self) -> (r: usize)
        requires
            self.inorder().len() <= usize::MAX,
        ensures
            r == self.inorder().len(),
    {
        let a = self.l.len();
        let b = self.r.len();
        1 + a + b
    }
}

impl Node {
    /// Insert `item` at the unique position the order invariant allows,
    /// or do nothing when it is already present.
    pub fn insert(&mut self, item: i64)
        requires
            old(self).wf(),
        ensures
            final(self).wf(),
            final(self).data == old(self).data,
            old(self).inserted_with(item, *final(self)),
            forall|v: i64| final(self).has(v) <==> old(self).has(v) || v == item,
            old(self).has(item) ==> *final(self) == *old(self),
            !old(self).has(item) ==> final(self).inorder().len() == old(self).inorder().len()
                + 1,
        decreases *old(self),
    {
        if item < self.data {
            proof {
                assert(!old(self).r.has(item));
            }
            self.l.insert(item);
        } else if item > self.data {
            proof {
                assert(!old(self).l.has(item));
            }
            self.r.insert(item);
        }
        proof {
            assert forall|v: i64| self.has(v) <==> old(self).has(v) || v == item by {
                assert(self.has(v) <==> (v == self.data || self.l.has(v) || self.r.has(v)));
                assert(old(self).has(v) <==> (v == old(self).data || old(self).l.has(v)
                    || old(self).r.has(v)));
            }
        }
    }
}

impl Link {
    /// Insert `item` into the subtree under this link; duplicates are
    /// silently dropped. A new node is allocated only when the value is
    /// genuinely new, always at a leaf position.
    pub fn insert(&mut self, item: i64)
        requires
            old(self).wf(),
        ensures
            final(self).wf(),
            inserted(*old(self), item, *final(self)),
            forall|v: i64| final(self).has(v) <==> old(self).has(v) || v == item,
            old(self).has(item) ==> *final(self) == *old(self),
            !old(self).has(item) ==> final(self).inorder().len() == old(self).inorder().len()
                + 1,
        decreases *old(self),
    {
        match self.node.take() {
            Option::None => {
                *self = Link::new(item);
            },
            Option::Some(mut boxed) => {
                let ghost before = *boxed;
                (&mut *boxed).insert(item);
                self.node = Option::Some(boxed);
                proof {
                    if item == before.data {
                        assert(*self == *old(self));
                    }
                }
            },
        }
        proof {
            assert forall|v: i64| self.has(v) <==> old(self).has(v) || v == item by {
                match self.node {
                    Option::None => {
                        assert(!self.has(v));
                    },
                    Option::Some(n) => {
                        assert(self.has(v) <==> n.has(v));
                    },
                }
                match old(self).node {
                    Option::None => {
                        assert(!old(self).has(v));
                    },
                    Option::Some(n) => {
                        assert(old(self).has(v) <==> n.has(v));
                    },
                }
            }
        }
    }

    /// Search for `item`, descending only into the one side the order
    /// invariant allows; returns exactly the node the search walk stops
    /// at, if any.
    pub fn contains(&self, item: &i64) -> (r: Option<&Node>)
        requires
            self.wf(),
        ensures
            match r {
                Option::Some(n) => self.has(*item) && n.data == *item && n.wf() && self.find(
                    *item,
                ) == Option::Some(*n),
                Option::None => !self.has(*item) && self.find(*item) is None,
            },
        decreases self,
    {
        match &self.node {
            Option::None => Option::None,
            Option::Some(n) => n.contains(item),
        }
    }
}

impl Node {
    /// Search this node's subtree for `item`; on equality the node
    /// itself is returned.
    pub fn contains(&self, item: &i64) -> (r: Option<&Node>)
        requires
            self.wf(),
        ensures
            match r {
                Option::Some(n) => self.has(*item) && n.data == *item && n.wf() && self.find(
                    *item,
                ) == Option::Some(*n),
                Option::None => !self.has(*item) && self.find(*item) is None,
            },
        decreases self,
    {
        if self.data == *item {
            Option::Some(self)
        } else if *item < self.data {
            proof {
                assert(!self.r.has(*item));
            }
            self.l.contains(item)
        } else {
            proof {
                assert(!self.l.has(*item));
            }
            self.r.contains(item)
        }
    }
}

/// Whether two subtrees have the same shape: a node in one exactly
/// where the other has one, whatever the values.
pub open spec fn same_shape(a: Link, b: Link) -> bool
    decreases a,
{
    match (a.node, b.node) {
        (Option::None, Option::None) => true,
        (Option::Some(x), Option::Some(y)) => same_shape(x.l, y.l) && same_shape(x.r, y.r),
        _ => false,
    }
}

/// Every subtree has its own shape.
pub proof fn lemma_same_shape_refl(a: Link)
    ensures
        same_shape(a, a),
    decreases a,
{
    match a.node {
        Option::None => {},
        Option::Some(n) => {
            lemma_same_shape_refl(n.l);
            lemma_same_shape_refl(n.r);
        },
    }
}

/// Two subtrees shaped like a third are shaped like each other.
pub proof fn lemma_same_shape_trans(a: Link, b: Link, c: Link)
    requires
        same_shape(a, b),
        same_shape(b, c),
    ensures
        same_shape(a, c),
    decreases a,
{
    match (a.node, b.node, c.node) {
        (Option::Some(x), Option::Some(y), Option::Some(z)) => {
            lemma_same_shape_trans(x.l, y.l, z.l);
            lemma_same_shape_trans(x.r, y.r, z.r);
        },
        _ => {},
    }
}

/// Structural equality of two subtrees: the same shape, with equal
/// values at every corresponding position.
fn link_eq(a: &Link, b: &Link) -> (r: bool)
    ensures
        r == (a == b),
    decreases a,
{
    match (&a.node, &b.node) {
        (Option::None, Option::None) => true,
        (Option::Some(x), Option::Some(y)) => {
            let same = x.data == y.data && link_eq(&x.l, &y.l) && link_eq(&x.r, &y.r);
            proof {
                if same {
                    assert(x.data == y.data && x.l == y.l && x.r == y.r);
                    assert(**x == **y);
                }
            }
            same
        },
        _ => false,
    }
}

impl PartialEq for Link {
    /// Structural, value-and-shape equality of two subtrees.
    fn eq(&self, other: &Self) -> (r: bool) {
        link_eq(self, other)
    }
}

impl vstd::std_specs::cmp::PartialEqSpecImpl for Link {
    open spec fn obeys_eq_spec() -> bool {
        true
    }

    open spec fn eq_spec(&self, other: &Link) -> bool {
        self == other
    }
}

impl PartialEq for Tree {
    /// Structural, value-and-shape equality: two trees are equal exactly
    /// when they have the same shape and equal values at every
    /// corresponding position.
    fn eq(&self, other: &Self) -> (r: bool) {
        link_eq(&self.root, &other.root)
    }
}

impl vstd::std_specs::cmp::PartialEqSpecImpl for Tree {
    open spec fn obeys_eq_spec() -> bool {
        true
    }

    open spec fn eq_spec(&self, other: &Tree) -> bool {
        self == other
    }
}

impl View for Tree {
    type V = Seq<i64>;

    /// A tree is viewed as its in-order sequence of values.
    open spec fn view(&self) -> Seq<i64> {
        self.root.inorder()
    }
}

impl Tree {
    /// The order invariant, threaded through every operation.
    pub open spec fn wf(self) -> bool {
        self.root.wf()
    }

    /// Whether `v` is stored in the tree.
    pub open spec fn has(self, v: i64) -> bool {
        self.root.has(v)
    }

    /// A tree with no values at all.
    pub fn empty() -> (r: Tree)
        ensures
            r.root.node is None,
            r@ == Seq::<i64>::empty(),
            forall|v: i64| !r.has(v),
            r.wf(),
    {
        Tree { root: Link::none() }
    }

    /// A tree seeded with a single value.
    pub fn new(t: i64) -> (r: Tree)
        ensures
            r@ == seq![t],
            forall|v: i64| r.has(v) <==> v == t,
            r.wf(),
    {
        Tree { root: Link::new(t) }
    }

    /// The number of values stored in the tree, recomputed by traversal.
    pub fn len(&self) -> (r: usize)
        requires
            self@.len() <= usize::MAX,
        ensures
            r == self@.len(),
    {
        self.root.len()
    }

    /// Whether the tree holds no values.
    pub fn is_empty(&self) -> (r: bool)
        ensures
            r == (self@.len() == 0),
    {
        self.root.is_none()
    }

    /// Insert `t` at the unique position the order invariant dictates;
    /// inserting a value that is already present leaves the tree
    /// completely unchanged, and nothing is ever moved or re-linked.
    pub fn insert(&mut self, t: i64)
        requires
            old(self).wf(),
        ensures
            final(self).wf(),
            inserted(old(self).root, t, final(self).root),
            forall|v: i64| final(self).has(v) <==> old(self).has(v) || v == t,
            old(self).has(t) ==> *final(self) == *old(self),
            !old(self).has(t) ==> final(self)@.len() == old(self)@.len() + 1,
    {
        self.root.insert(t);
    }

    /// Insert every value of `values`, first to last, applying the
    /// ordinary insert contract to each; duplicates are dropped.
    pub fn extend(&mut self, values: Vec<i64>)
        requires
            old(self).wf(),
        ensures
            final(self).wf(),
            extended(old(self).root, values@, final(self).root),
            forall|v: i64|
                final(self).has(v) <==> old(self).has(v) || values@.contains(v),
    {
        proof {
            assert(extended(old(self).root, values@.subrange(0, 0), self.root));
        }
        let mut i: usize = 0;
        while i < values.len()
            invariant
                self.wf(),
                i <= values.len(),
                extended(old(self).root, values@.subrange(0, i as int), self.root),
                forall|v: i64|
                    self.has(v) <==> old(self).has(v) || values@.subrange(0, i as int).contains(
                        v,
                    ),
            decreases values.len() - i,
        {
            let ghost prefix = values@.subrange(0, i as int);
            let ghost mid = self.root;
            self.insert(values[i]);
            proof {
                crate::order::lemma_concat_contains(prefix, seq![values@[i as int]]);
                assert(values@.subrange(0, i as int + 1) =~= prefix + seq![values@[i as int]]);
                assert(seq![values@[i as int]][0] == values@[i as int]);
                lemma_extended_snoc(old(self).root, prefix, mid, values@[i as int], self.root);
                assert(values@.subrange(0, i as int + 1) =~= prefix.push(values@[i as int]));
            }
            i += 1;
        }
        proof {
            assert(values@.subrange(0, values@.len() as int) =~= values@);
        }
    }

    /// Build a tree holding exactly the distinct values of `values`, in
    /// the one shape that inserting them first to last produces.
    pub fn from_iter(values: Vec<i64>) -> (r: Tree)
        ensures
            r.wf(),
            extended(Link { node: Option::None }, values@, r.root),
            forall|v: i64| r.has(v) <==> values@.contains(v),
    {
        let mut tree = Tree::empty();
        proof {
            assert(tree.root == Link { node: Option::None });
        }
        tree.extend(values);
        tree
    }

    /// Look `t` up; present values are found, absent ones never are, and
    /// what comes back is exactly the node the search walk stops at.
    pub fn contains(&self, t: &i64) -> (r: Option<&Node>)
        requires
            self.wf(),
        ensures
            match r {
                Option::Some(n) => self.has(*t) && n.data == *t && n.wf() && self.root.find(*t)
                    == Option::Some(*n),
                Option::None => !self.has(*t) && self.root.find(*t) is None,
            },
    {
        self.root.contains(t)
    }
}

} // verus!
