//! Facts about in-order sequences of well-formed trees: they ascend
//! strictly, hold no duplicates, and count exactly the distinct values.

use vstd::prelude::*;
use crate::tree::Link;
use crate::tree::Tree;

verus! {

/// A sequence that ascends strictly: each element is smaller than every
/// later one.
pub open spec fn strictly_ascending(s: Seq<i64>) -> bool {
    forall|i: int, j: int| 0 <= i < j < s.len() ==> s[i] < s[j]
}

/// A value occurs in a concatenation exactly when it occurs in one part.
pub proof fn lemma_concat_contains(a: Seq<i64>, b: Seq<i64>)
    ensures
        forall|v: i64| #[trigger] (a + b).contains(v) <==> a.contains(v) || b.contains(v),
{
    assert forall|v: i64| #[trigger] (a + b).contains(v) <==> a.contains(v) || b.contains(v) by {
        if (a + b).contains(v) {
            let i = choose|i: int| 0 <= i < (a + b).len() && (a + b)[i] == v;
            if i < a.len() {
                assert(a[i] == v);
            } else {
                assert(b[i - a.len()] == v);
            }
        }
        if a.contains(v) {
            let i = choose|i: int| 0 <= i < a.len() && a[i] == v;
            assert((a + b)[i] == v);
        }
        if b.contains(v) {
            let i = choose|i: int| 0 <= i < b.len() && b[i] == v;
            assert((a + b)[a.len() + i] == v);
        }
    }
}

/// Membership in a subtree agrees with membership in its in-order sequence.
pub proof fn lemma_has_iff_inorder_contains(l: Link)
    ensures
        forall|v: i64| l.has(v) <==> l.inorder().contains(v),
    decreases l,
{
    match l.node {
        Option::None => {
            assert forall|v: i64| l.has(v) <==> l.inorder().contains(v) by {
                assert(!l.has(v));
                assert(l.inorder().len() == 0);
            }
        },
        Option::Some(n) => {
            lemma_has_iff_inorder_contains(n.l);
            lemma_has_iff_inorder_contains(n.r);
            lemma_concat_contains(n.l.inorder(), seq![n.data]);
            lemma_concat_contains(n.l.inorder() + seq![n.data], n.r.inorder());
            assert forall|v: i64| l.has(v) <==> l.inorder().contains(v) by {
                assert(l.has(v) <==> (v == n.data || n.l.has(v) || n.r.has(v)));
                assert(l.inorder() == (n.l.inorder() + seq![n.data]) + n.r.inorder());
                assert(seq![n.data][0] == n.data);
                assert(seq![n.data].contains(v) <==> v == n.data);
            }
        },
    }
}

/// Splicing two strictly ascending runs around a middle value that is
/// larger than everything left and smaller than everything right keeps
/// the whole strictly ascending.
pub proof fn lemma_ascending_splice(a: Seq<i64>, x: i64, c: Seq<i64>)
    requires
        strictly_ascending(a),
        strictly_ascending(c),
        forall|v: i64| a.contains(v) ==> v < x,
        forall|v: i64| c.contains(v) ==> v > x,
    ensures
        strictly_ascending(a + seq![x] + c),
{
    let s = a + seq![x] + c;
    assert forall|i: int, j: int| 0 <= i < j < s.len() implies s[i] < s[j] by {
        if i < a.len() {
            assert(s[i] == a[i]);
            assert(a.contains(a[i]));
        } else if i == a.len() {
            assert(s[i] == x);
        } else {
            assert(s[i] == c[i - a.len() - 1]);
            assert(c.contains(c[i - a.len() - 1]));
        }
        if j < a.len() {
            assert(s[j] == a[j]);
        } else if j == a.len() {
            assert(s[j] == x);
            assert(a.contains(a[i]));
        } else {
            assert(s[j] == c[j - a.len() - 1]);
            assert(c.contains(c[j - a.len() - 1]));
        }
    }
}

/// The in-order sequence of a well-formed subtree ascends strictly.
pub proof fn lemma_wf_inorder_ascending(l: Link)
    requires
        l.wf(),
    ensures
        strictly_ascending(l.inorder()),
    decreases l,
{
    match l.node {
        Option::None => {},
        Option::Some(n) => {
            lemma_wf_inorder_ascending(n.l);
            lemma_wf_inorder_ascending(n.r);
            lemma_has_iff_inorder_contains(n.l);
            lemma_has_iff_inorder_contains(n.r);
            assert forall|v: i64| n.l.inorder().contains(v) implies v < n.data by {
                assert(n.l.has(v));
            }
            assert forall|v: i64| n.r.inorder().contains(v) implies v > n.data by {
                assert(n.r.has(v));
            }
            lemma_ascending_splice(n.l.inorder(), n.data, n.r.inorder());
            assert(l.inorder() == n.l.inorder() + seq![n.data] + n.r.inorder());
        },
    }
}

/// A strictly ascending sequence holds no duplicates, so turning it into
/// a set loses nothing of its length.
pub proof fn lemma_ascending_no_duplicates(s: Seq<i64>)
    requires
        strictly_ascending(s),
    ensures
        s.no_duplicates(),
        s.to_set().len() == s.len(),
{
    assert(s.no_duplicates());
    s.unique_seq_to_set();
}

/// The in-order traversal of a well-formed tree yields its values in
/// strictly ascending order, and therefore free of duplicates.
pub proof fn lemma_inorder_ascending(t: Tree)
    requires
        t.wf(),
    ensures
        strictly_ascending(t@),
        t@.no_duplicates(),
{
    lemma_wf_inorder_ascending(t.root);
    lemma_ascending_no_duplicates(t@);
}

/// A tree that holds exactly the values of `vals` -- as a tree does after
/// the values of `vals` were inserted into an empty tree in any order,
/// duplicates among them notwithstanding -- has exactly one node for each
/// distinct value of `vals`.
pub proof fn lemma_size_counts_distinct(t: Tree, vals: Seq<i64>)
    requires
        t.wf(),
        forall|v: i64| t.has(v) <==> vals.contains(v),
    ensures
        t@.len() == vals.to_set().len(),
{
    lemma_wf_inorder_ascending(t.root);
    lemma_ascending_no_duplicates(t@);
    lemma_has_iff_inorder_contains(t.root);
    assert(t@.to_set() =~= vals.to_set());
}

/// Two strictly ascending sequences over the same values are the same
/// sequence: a well-formed tree's in-order traversal is determined by
/// membership alone.
pub proof fn lemma_ascending_unique(a: Seq<i64>, b: Seq<i64>)
    requires
        strictly_ascending(a),
        strictly_ascending(b),
        forall|v: i64| a.contains(v) <==> b.contains(v),
    ensures
        a == b,
    decreases a.len(),
{
    if a.len() == 0 {
        if b.len() > 0 {
            assert(b.contains(b[0]));
            assert(a.contains(b[0]));
        }
        assert(a =~= b);
    } else if b.len() == 0 {
        assert(a.contains(a[0]));
        assert(b.contains(a[0]));
    } else {
        // The two heads are both the unique minimum, so they agree.
        assert(a.contains(a[0]));
        assert(b.contains(b[0]));
        if a[0] != b[0] {
            assert(b.contains(a[0]));
            assert(a.contains(b[0]));
            let i = choose|i: int| 0 <= i < b.len() && b[i] == a[0];
            let j = choose|j: int| 0 <= j < a.len() && a[j] == b[0];
            assert(i != 0);
            assert(j != 0);
            assert(b[0] < b[i]);
            assert(a[0] < a[j]);
            assert(false);
        }
        let a1 = a.drop_first();
        let b1 = b.drop_first();
        assert forall|v: i64| a1.contains(v) <==> b1.contains(v) by {
            if a1.contains(v) {
                let i = choose|i: int| 0 <= i < a1.len() && a1[i] == v;
                assert(a[i + 1] == v);
                assert(a.contains(v));
                assert(b.contains(v));
                let j = choose|j: int| 0 <= j < b.len() && b[j] == v;
                assert(a[0] < v);
                assert(j != 0);
                assert(b1[j - 1] == v);
            }
            if b1.contains(v) {
                let i = choose|i: int| 0 <= i < b1.len() && b1[i] == v;
                assert(b[i + 1] == v);
                assert(b.contains(v));
                assert(a.contains(v));
                let j = choose|j: int| 0 <= j < a.len() && a[j] == v;
                assert(b[0] < v);
                assert(j != 0);
                assert(a1[j - 1] == v);
            }
        }
        lemma_ascending_unique(a1, b1);
        assert forall|k: int| 0 <= k < a.len() implies a[k] == b[k] by {
            if k > 0 {
                assert(a1[k - 1] == b1[k - 1]);
            }
        }
        assert(a =~= b);
    }
}

} // verus!
