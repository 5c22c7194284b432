//! In-order iteration over a [`BPlusTree`](crate::BPlusTree).
//!
//! A `Cursor` is a position in the tree — a path of internal nodes from the
//! root down to a leaf, plus an index within that leaf. Stepping a cursor walks
//! the entries in key order: within a leaf it moves the index, and at a leaf
//! boundary it ascends the path to the next subtree and descends again. The
//! public [`Iter`] holds two cursors, one advancing from the front and one
//! retreating from the back, so it serves both forward and reverse scans; they
//! meet in the middle, at which point iteration is done. Two cursors stand on
//! the same entry exactly when they took the same child at every level and
//! stand at the same index of their leaf, and that is how an iterator tells
//! that one entry is left; no key is compared.

use vstd::prelude::*;
use crate::node::Node;
use crate::node::Leaf;
use crate::node::Internal;
use crate::node::entries;
use crate::node::leaf_entries;
use crate::node::seq_entries;
use crate::node::height_of;
use crate::node::lemma_seq_entries_split;
use crate::node::lemma_seq_entries_append;
use crate::node::lemma_seq_entries_single;
use crate::node::wf_node;
use crate::node::wf_root;
use crate::node::min_keys;
use crate::node::child_lo;
use crate::node::child_hi;
use crate::node::before;
use crate::node::lemma_route;
use crate::node::lemma_routes_within;
use crate::node::lemma_wf_nonempty;
use crate::order::lt;
use crate::order::within;
use crate::order::sorted;
use crate::order::lawful_key;
use crate::order::lemma_key_order;
use crate::order::search;
use crate::order::key_less;
use crate::model::sorted_entries;

verus! {

/// Every leaf below the root holds an entry and every internal node a child;
/// each leaf's keys and values line up.
pub open spec fn shaped<K, V>(n: Node<K, V>) -> bool
    decreases n,
{
    match n {
        Node::Leaf(l) => l.keys@.len() == l.vals@.len(),
        Node::Internal(x) => {
            &&& x.children@.len() > 0
            &&& forall|j: int|
                0 <= j < x.children@.len() ==> shaped(#[trigger] x.children@[j]) && entries(
                    x.children@[j],
                ).len() > 0
        },
    }
}

/// The child a path frame descends into.
pub open spec fn frame_child<K, V>(f: (&Internal<K, V>, usize)) -> Node<K, V> {
    f.0.children@[f.1 as int]
}

/// `path` is a descent from `root` to `target`: each frame is an internal node
/// with the index of the child taken, and each child taken is the next frame's
/// node, or, after the last frame, `target`.
pub open spec fn path_ok<K, V>(root: Node<K, V>, path: Seq<(&Internal<K, V>, usize)>, target: Node<K, V>) -> bool {
    &&& path.len() == 0 ==> root == target
    &&& path.len() > 0 ==> root == Node::Internal(*path[0].0)
    &&& forall|l: int| 0 <= l < path.len() ==> (#[trigger] path[l].1 as int) < path[l].0.children@.len()
    &&& forall|l: int| 0 <= l < path.len() - 1 ==> frame_child(#[trigger] path[l]) == Node::Internal(*path[l + 1].0)
    &&& path.len() > 0 ==> frame_child(path[path.len() - 1]) == target
}

/// How many entries of the tree lie left of the subtree a path descends to.
pub open spec fn path_offset<K, V>(path: Seq<(&Internal<K, V>, usize)>) -> int
    decreases path.len(),
{
    if path.len() == 0 {
        0
    } else {
        let f = path[path.len() - 1];
        path_offset(path.drop_last()) + seq_entries(f.0.children@.subrange(0, f.1 as int)).len()
    }
}

/// The subtree a path descends to holds the tree's entries from the path's
/// offset on.
pub proof fn lemma_path_entries<K, V>(root: Node<K, V>, path: Seq<(&Internal<K, V>, usize)>, target: Node<K, V>)
    requires
        path_ok(root, path, target),
    ensures
        0 <= path_offset(path),
        path_offset(path) + entries(target).len() <= entries(root).len(),
        entries(root).subrange(path_offset(path), path_offset(path) + entries(target).len()) == entries(target),
    decreases path.len(),
{
    if path.len() == 0 {
        assert(entries(root).subrange(0, entries(root).len() as int) =~= entries(root));
    } else {
        let p = path.drop_last();
        let f = path[path.len() - 1];
        let parent = Node::Internal(*f.0);
        assert(path_ok(root, p, parent)) by {
            if p.len() > 0 {
                assert(frame_child(p[p.len() - 1]) == Node::Internal(*path[p.len() as int].0));
            }
            assert forall|l: int| 0 <= l < p.len() implies (#[trigger] p[l].1 as int) < p[l].0.children@.len() by {
                assert(p[l] == path[l]);
            }
            assert forall|l: int| 0 <= l < p.len() - 1 implies frame_child(#[trigger] p[l]) == Node::Internal(*p[l + 1].0) by {
                assert(p[l] == path[l]);
                assert(p[l + 1] == path[l + 1]);
            }
        }
        lemma_path_entries(root, p, parent);
        let cs = f.0.children@;
        let ci = f.1 as int;
        lemma_seq_entries_split(cs, ci);
        let off = path_offset(p);
        let before = seq_entries(cs.subrange(0, ci));
        assert(entries(parent) == seq_entries(cs));
        assert(entries(root).subrange(off + before.len(), off + before.len() + entries(target).len()) =~= entries(target)) by {
            assert forall|t: int| 0 <= t < entries(target).len() implies entries(root)[off + before.len() + t] == #[trigger] entries(target)[t] by {
                assert(entries(root)[off + before.len() + t] == entries(parent)[before.len() + t]);
            }
        }
    }
}

/// A prefix of a descent is a descent to the node it reaches.
pub proof fn lemma_path_prefix<K, V>(root: Node<K, V>, path: Seq<(&Internal<K, V>, usize)>, target: Node<K, V>, k: int)
    requires
        path_ok(root, path, target),
        0 <= k < path.len(),
    ensures
        path_ok(root, path.subrange(0, k), Node::Internal(*path[k].0)),
{
    let p = path.subrange(0, k);
    if k > 0 {
        assert(frame_child(p[k - 1]) == frame_child(path[k - 1]));
    }
    assert forall|l: int| 0 <= l < p.len() implies (#[trigger] p[l].1 as int) < p[l].0.children@.len() by {
        assert(p[l] == path[l]);
    }
    assert forall|l: int| 0 <= l < p.len() - 1 implies frame_child(#[trigger] p[l]) == Node::Internal(*p[l + 1].0) by {
        assert(p[l] == path[l]);
        assert(p[l + 1] == path[l + 1]);
    }
}

/// Every node on a descent through a shaped tree is shaped, and every node
/// below the root holds an entry.
pub proof fn lemma_path_shaped<K, V>(root: Node<K, V>, path: Seq<(&Internal<K, V>, usize)>, target: Node<K, V>)
    requires
        path_ok(root, path, target),
        shaped(root),
    ensures
        shaped(target),
        path.len() > 0 ==> entries(target).len() > 0,
    decreases path.len(),
{
    if path.len() > 0 {
        let k = path.len() - 1;
        let f = path[k];
        if k > 0 {
            lemma_path_prefix(root, path, target, k);
            lemma_path_shaped(root, path.subrange(0, k), Node::Internal(*f.0));
        } else {
            assert(root == Node::Internal(*f.0));
        }
        assert(shaped(Node::Internal(*f.0)));
        assert(frame_child(f) == f.0.children@[f.1 as int]);
    }
}

/// Extending a descent by one more frame descends to the chosen child.
pub proof fn lemma_path_push<K, V>(
    root: Node<K, V>,
    path: Seq<(&Internal<K, V>, usize)>,
    x: &Internal<K, V>,
    ci: usize,
)
    requires
        path_ok(root, path, Node::Internal(*x)),
        (ci as int) < x.children@.len(),
    ensures
        path_ok(root, path.push((x, ci)), x.children@[ci as int]),
        path_offset(path.push((x, ci))) == path_offset(path) + seq_entries(x.children@.subrange(0, ci as int)).len(),
{
    let p = path.push((x, ci));
    assert(p.drop_last() =~= path);
    assert forall|l: int| 0 <= l < p.len() implies (#[trigger] p[l].1 as int) < p[l].0.children@.len() by {
        if l < path.len() {
            assert(p[l] == path[l]);
        }
    }
    assert forall|l: int| 0 <= l < p.len() - 1 implies frame_child(#[trigger] p[l]) == Node::Internal(*p[l + 1].0) by {
        assert(p[l] == path[l]);
        if l + 1 < path.len() {
            assert(p[l + 1] == path[l + 1]);
        }
    }
}

/// The entries of the children before `i + 1` are those before `i` and then
/// child `i`'s.
pub proof fn lemma_before_next<K, V>(cs: Seq<Node<K, V>>, i: int)
    requires
        0 <= i < cs.len(),
    ensures
        seq_entries(cs.subrange(0, i + 1)) == seq_entries(cs.subrange(0, i)) + entries(cs[i]),
{
    assert(cs.subrange(0, i + 1).subrange(0, i) =~= cs.subrange(0, i));
}

/// The entries of all children are those before the last, then the last's.
pub proof fn lemma_before_last<K, V>(cs: Seq<Node<K, V>>)
    requires
        cs.len() > 0,
    ensures
        seq_entries(cs) == seq_entries(cs.subrange(0, cs.len() - 1)) + entries(cs[cs.len() - 1]),
{
}

/// A descent nests inside each of its prefixes: the subtree a path reaches lies
/// within the subtree that the frame at `k` descends to.
pub proof fn lemma_path_nest<K, V>(root: Node<K, V>, path: Seq<(&Internal<K, V>, usize)>, t: Node<K, V>, k: int)
    requires
        path_ok(root, path, t),
        0 <= k < path.len(),
    ensures
        path_offset(path.subrange(0, k + 1)) <= path_offset(path),
        path_offset(path) + entries(t).len() <= path_offset(path.subrange(0, k + 1)) + entries(frame_child(path[k])).len(),
    decreases path.len(),
{
    let n = path.len();
    if n == k + 1 {
        assert(path.subrange(0, k + 1) =~= path);
    } else {
        let q = path.drop_last();
        let f = path[n - 1];
        let parent = Node::Internal(*f.0);
        lemma_path_prefix(root, path, t, n - 1);
        assert(path.subrange(0, n - 1) =~= q);
        lemma_path_nest(root, q, parent, k);
        assert(q.subrange(0, k + 1) =~= path.subrange(0, k + 1));
        assert(q[k] == path[k]);
        let cs = f.0.children@;
        let ci = f.1 as int;
        assert(ci < cs.len());
        lemma_seq_entries_split(cs, ci);
        assert(entries(t) == entries(cs[ci]));
    }
}

/// Two descents from one root that take the same child at every level of a
/// common prefix agree on that prefix.
pub proof fn lemma_same_prefix<K, V>(
    root: Node<K, V>,
    p: Seq<(&Internal<K, V>, usize)>,
    tp: Node<K, V>,
    q: Seq<(&Internal<K, V>, usize)>,
    tq: Node<K, V>,
    l: int,
)
    requires
        path_ok(root, p, tp),
        path_ok(root, q, tq),
        0 <= l <= p.len(),
        l <= q.len(),
        forall|i: int| 0 <= i < l ==> #[trigger] p[i].1 == q[i].1,
    ensures
        p.subrange(0, l) == q.subrange(0, l),
    decreases l,
{
    if l > 0 {
        lemma_same_prefix(root, p, tp, q, tq, l - 1);
        if l - 1 > 0 {
            assert(p.subrange(0, l - 1)[l - 2] == q.subrange(0, l - 1)[l - 2]);
            assert(p[l - 2] == q[l - 2]);
            assert(frame_child(p[l - 2]) == Node::Internal(*p[l - 1].0));
            assert(frame_child(q[l - 2]) == Node::Internal(*q[l - 1].0));
        }
        assert(p[l - 1] == q[l - 1]);
        assert(p.subrange(0, l) =~= q.subrange(0, l)) by {
            assert forall|i: int| 0 <= i < l implies p.subrange(0, l)[i] == q.subrange(0, l)[i] by {
                if i < l - 1 {
                    assert(p.subrange(0, l - 1)[i] == q.subrange(0, l - 1)[i]);
                }
            }
        }
    }
}

/// Children `a < b` of one node: the entries of the children before `a + 1`
/// are no more than those before `b`.
pub proof fn lemma_before_grows<K, V>(cs: Seq<Node<K, V>>, a: int, b: int)
    requires
        0 <= a < b <= cs.len(),
    ensures
        seq_entries(cs.subrange(0, a + 1)).len() <= seq_entries(cs.subrange(0, b)).len(),
{
    let x = cs.subrange(0, a + 1);
    let y = cs.subrange(a + 1, b);
    assert(cs.subrange(0, b) =~= x + y);
    lemma_seq_entries_append(x, y);
}

/// A position in the tree: the path of internal nodes descended from the root,
/// each paired with the child index taken, down to the current leaf and entry.
struct Cursor<'a, K, V> {
    path: Vec<(&'a Internal<K, V>, usize)>,
    leaf: &'a Leaf<K, V>,
    idx: usize,
}

impl<'a, K, V> Cursor<'a, K, V> {
    /// The cursor's index in the listing of the tree's entries.
    spec fn pos(&self) -> int {
        path_offset(self.path@) + self.idx
    }

    /// The cursor points at an entry of the tree rooted at `root`.
    spec fn valid(&self, root: Node<K, V>) -> bool {
        &&& path_ok(root, self.path@, Node::Leaf(*self.leaf))
        &&& shaped(root)
        &&& self.idx < self.leaf.keys@.len()
        &&& self.leaf.keys@.len() == self.leaf.vals@.len()
    }

    /// A valid cursor's position lies within the tree and names the entry it
    /// points at.
    proof fn lemma_valid(&self, root: Node<K, V>)
        requires
            self.valid(root),
        ensures
            0 <= self.pos() < entries(root).len(),
            entries(root)[self.pos()] == (self.leaf.keys@[self.idx as int], self.leaf.vals@[self.idx as int]),
    {
        lemma_path_entries(root, self.path@, Node::Leaf(*self.leaf));
        let off = path_offset(self.path@);
        assert(entries(root)[off + self.idx] == entries(root).subrange(off, off + self.leaf.keys@.len())[self.idx as int]);
    }

    /// Two valid cursors whose paths first take different children at level `l`
    /// stand at different positions: each lies within the subtree of the child
    /// it took, and those subtrees hold disjoint runs of the listing.
    #[verifier::spinoff_prover]
    proof fn lemma_diverge(&self, other: &Self, root: Node<K, V>, l: int)
        requires
            self.valid(root),
            other.valid(root),
            0 <= l < self.path@.len(),
            l < other.path@.len(),
            forall|i: int| 0 <= i < l ==> #[trigger] self.path@[i].1 == other.path@[i].1,
            self.path@[l].1 != other.path@[l].1,
        ensures
            self.pos() != other.pos(),
    {
        let p = self.path@;
        let q = other.path@;
        let tp = Node::Leaf(*self.leaf);
        let tq = Node::Leaf(*other.leaf);
        lemma_same_prefix(root, p, tp, q, tq, l);
        if l == 0 {
            assert(*p[0].0 == *q[0].0);
        } else {
            assert(p.subrange(0, l)[l - 1] == q.subrange(0, l)[l - 1]);
            assert(p[l - 1] == q[l - 1]);
            assert(frame_child(p[l - 1]) == Node::Internal(*p[l].0));
            assert(frame_child(q[l - 1]) == Node::Internal(*q[l].0));
        }
        let x = *p[l].0;
        let cs = x.children@;
        let ca = p[l].1 as int;
        let cb = q[l].1 as int;
        assert(ca < cs.len() && cb < cs.len());
        let off = path_offset(p.subrange(0, l));
        assert(p.subrange(0, l + 1).drop_last() =~= p.subrange(0, l));
        assert(q.subrange(0, l + 1).drop_last() =~= q.subrange(0, l));
        assert(path_offset(q.subrange(0, l)) == off);
        assert(path_offset(p.subrange(0, l + 1)) == off + seq_entries(cs.subrange(0, ca)).len());
        assert(path_offset(q.subrange(0, l + 1)) == off + seq_entries(cs.subrange(0, cb)).len());
        lemma_path_nest(root, p, tp, l);
        lemma_path_nest(root, q, tq, l);
        lemma_before_next(cs, ca);
        lemma_before_next(cs, cb);
        if ca < cb {
            lemma_before_grows(cs, ca, cb);
        } else {
            lemma_before_grows(cs, cb, ca);
        }
    }

    /// Whether two cursors on one tree point at the same entry: they took the
    /// same child at every level and stand at the same index of their leaf.
    #[verifier::spinoff_prover]
    fn same_position(&self, other: &Self, Ghost(root): Ghost<Node<K, V>>) -> (r: bool)
        requires
            self.valid(root),
            other.valid(root),
        ensures
            r == (self.pos() == other.pos()),
    {
        let na = self.path.len();
        let nb = other.path.len();
        let n = if na < nb { na } else { nb };
        let mut l: usize = 0;
        while l < n
            invariant
                self.valid(root),
                other.valid(root),
                n <= self.path@.len(),
                n <= other.path@.len(),
                0 <= l <= n,
                forall|i: int| 0 <= i < l ==> #[trigger] self.path@[i].1 == other.path@[i].1,
            decreases n - l,
        {
            if self.path[l].1 != other.path[l].1 {
                proof {
                    self.lemma_diverge(other, root, l as int);
                }
                return false;
            }
            l += 1;
        }
        let ghost p = self.path@;
        let ghost q = other.path@;
        proof {
            lemma_same_prefix(root, p, Node::Leaf(*self.leaf), q, Node::Leaf(*other.leaf), n as int);
        }
        if na != nb {
            proof {
                // One path ends at a leaf where the other continues through an
                // internal node: impossible, since they agree up to there.
                if n == 0 {
                    assert(p.len() == 0 || q.len() == 0);
                } else {
                    assert(p.subrange(0, n as int)[n - 1] == q.subrange(0, n as int)[n - 1]);
                    assert(p[n - 1] == q[n - 1]);
                    if na < nb {
                        assert(frame_child(q[n - 1]) == Node::Internal(*q[n as int].0));
                    } else {
                        assert(frame_child(p[n - 1]) == Node::Internal(*p[n as int].0));
                    }
                }
                assert(false);
            }
            return false;
        }
        proof {
            assert(p.subrange(0, n as int) =~= p);
            assert(q.subrange(0, n as int) =~= q);
            if n > 0 {
                assert(p[n - 1] == q[n - 1]);
            }
            assert(*self.leaf == *other.leaf);
        }
        self.idx == other.idx
    }

    /// The key/value at the current position.
    fn current(&self) -> (r: (&'a K, &'a V))
        requires
            self.idx < self.leaf.keys@.len(),
            self.leaf.keys@.len() == self.leaf.vals@.len(),
        ensures
            *r.0 == self.leaf.keys@[self.idx as int],
            *r.1 == self.leaf.vals@[self.idx as int],
    {
        (&self.leaf.keys[self.idx], &self.leaf.vals[self.idx])
    }

    /// The key at the current position.
    fn key(&self) -> (r: &'a K)
        requires
            self.idx < self.leaf.keys@.len(),
        ensures
            *r == self.leaf.keys@[self.idx as int],
    {
        &self.leaf.keys[self.idx]
    }
}

impl<'a, K, V> Cursor<'a, K, V> {
    /// A cursor at the first (smallest) entry, or `None` if the tree is empty.
    fn first(root: &'a Node<K, V>) -> (r: Option<Self>)
        requires
            shaped(*root),
        ensures
            r is None <==> entries(*root).len() == 0,
            r matches Some(c) ==> c.valid(*root) && c.pos() == 0,
    {
        let mut path: Vec<(&'a Internal<K, V>, usize)> = Vec::new();
        let mut node = root;
        loop
            invariant
                shaped(*root),
                path_ok(*root, path@, *node),
                path_offset(path@) == 0,
            decreases *node,
        {
            proof {
                lemma_path_shaped(*root, path@, *node);
            }
            match node {
                Node::Internal(internal) => {
                    proof {
                        lemma_path_push(*root, path@, internal, 0);
                        assert(internal.children@.subrange(0, 0) =~= Seq::<Node<K, V>>::empty());
                        assert(seq_entries(Seq::<Node<K, V>>::empty()).len() == 0);
                    }
                    path.push((internal, 0));
                    node = &internal.children[0];
                },
                Node::Leaf(leaf) => {
                    return if leaf.keys.len() == 0 {
                        None
                    } else {
                        Some(Cursor { path, leaf, idx: 0 })
                    };
                },
            }
        }
    }

    /// A cursor at the last (largest) entry, or `None` if the tree is empty.
    fn last(root: &'a Node<K, V>) -> (r: Option<Self>)
        requires
            shaped(*root),
        ensures
            r is None <==> entries(*root).len() == 0,
            r matches Some(c) ==> c.valid(*root) && c.pos() == entries(*root).len() - 1,
    {
        let mut path: Vec<(&'a Internal<K, V>, usize)> = Vec::new();
        let mut node = root;
        loop
            invariant
                shaped(*root),
                path_ok(*root, path@, *node),
                path_offset(path@) + entries(*node).len() == entries(*root).len(),
            decreases *node,
        {
            proof {
                lemma_path_shaped(*root, path@, *node);
            }
            match node {
                Node::Internal(internal) => {
                    let ci = internal.children.len() - 1;
                    proof {
                        lemma_path_push(*root, path@, internal, ci);
                        lemma_before_last(internal.children@);
                    }
                    path.push((internal, ci));
                    node = &internal.children[ci];
                },
                Node::Leaf(leaf) => {
                    return if leaf.keys.len() == 0 {
                        None
                    } else {
                        Some(Cursor { path, leaf, idx: leaf.keys.len() - 1 })
                    };
                },
            }
        }
    }

    /// Descend `node`'s leftmost path, pushing frames, and land on its first
    /// entry. `node` must belong to the tree this cursor walks.
    fn descend_leftmost(&mut self, node: &'a Node<K, V>, Ghost(root): Ghost<Node<K, V>>)
        requires
            shaped(root),
            path_ok(root, old(self).path@, *node),
            old(self).path@.len() > 0,
        ensures
            final(self).valid(root),
            final(self).pos() == path_offset(old(self).path@),
        decreases *node,
    {
        proof {
            lemma_path_shaped(root, self.path@, *node);
        }
        match node {
            Node::Internal(internal) => {
                proof {
                    lemma_path_push(root, self.path@, internal, 0);
                    assert(internal.children@.subrange(0, 0) =~= Seq::<Node<K, V>>::empty());
                    assert(seq_entries(Seq::<Node<K, V>>::empty()).len() == 0);
                }
                self.path.push((internal, 0));
                self.descend_leftmost(&internal.children[0], Ghost(root));
            },
            Node::Leaf(leaf) => {
                self.leaf = leaf;
                self.idx = 0;
            },
        }
    }

    /// Descend `node`'s rightmost path, pushing frames, and land on its last
    /// entry. `node` must belong to the tree this cursor walks.
    fn descend_rightmost(&mut self, node: &'a Node<K, V>, Ghost(root): Ghost<Node<K, V>>)
        requires
            shaped(root),
            path_ok(root, old(self).path@, *node),
            old(self).path@.len() > 0,
        ensures
            final(self).valid(root),
            final(self).pos() == path_offset(old(self).path@) + entries(*node).len() - 1,
        decreases *node,
    {
        proof {
            lemma_path_shaped(root, self.path@, *node);
        }
        match node {
            Node::Internal(internal) => {
                let ci = internal.children.len() - 1;
                proof {
                    lemma_path_push(root, self.path@, internal, ci);
                    lemma_before_last(internal.children@);
                }
                self.path.push((internal, ci));
                self.descend_rightmost(&internal.children[ci], Ghost(root));
            },
            Node::Leaf(leaf) => {
                self.leaf = leaf;
                self.idx = leaf.keys.len() - 1;
            },
        }
    }
}

impl<'a, K, V> Cursor<'a, K, V> {
    /// Advance to the next entry in key order. Returns `false` at the end.
    fn step_forward(&mut self, Ghost(root): Ghost<Node<K, V>>) -> (r: bool)
        requires
            old(self).valid(root),
        ensures
            r ==> final(self).valid(root) && final(self).pos() == old(self).pos() + 1,
            !r ==> old(self).pos() == entries(root).len() - 1,
    {
        proof {
            self.lemma_valid(root);
        }
        let len = self.leaf.keys.len();
        if self.idx + 1 < len {
            self.idx = self.idx + 1;
            return true;
        }
        self.next_subtree(Ghost(root), Ghost(Node::Leaf(*self.leaf)))
    }

    /// The cursor stands on the last entry of `t`, the subtree its path
    /// descends to. Move to the first entry after `t`: ascend to the nearest
    /// frame with a child to the right and descend that child's leftmost path.
    /// Returns `false` if `t` ends the tree.
    #[verifier::spinoff_prover]
    #[verifier::rlimit(40)]
    fn next_subtree(&mut self, Ghost(root): Ghost<Node<K, V>>, Ghost(t): Ghost<Node<K, V>>) -> (r: bool)
        requires
            shaped(root),
            path_ok(root, old(self).path@, t),
        ensures
            r ==> final(self).valid(root) && final(self).pos() == path_offset(old(self).path@) + entries(t).len(),
            !r ==> path_offset(old(self).path@) + entries(t).len() == entries(root).len(),
        decreases old(self).path@.len(),
    {
        let n = self.path.len();
        if n == 0 {
            return false;
        }
        let (parent, ci) = self.path[n - 1];
        let ghost path = self.path@;
        let ghost p = path.subrange(0, n - 1);
        let len = parent.children.len();
        proof {
            assert(path[n - 1].1 < path[n - 1].0.children@.len());
            if n > 1 {
                lemma_path_prefix(root, path, t, n - 1);
            } else {
                assert(root == Node::Internal(*parent));
            }
            assert(path_ok(root, p, Node::Internal(*parent)));
            assert(p =~= path.drop_last());
            lemma_before_next(parent.children@, ci as int);
        }
        if ci + 1 < len {
            self.path.set(n - 1, (parent, ci + 1));
            proof {
                lemma_path_push(root, p, parent, (ci + 1) as usize);
                assert(self.path@ =~= p.push((parent, (ci + 1) as usize)));
            }
            self.descend_leftmost(&parent.children[ci + 1], Ghost(root));
            return true;
        }
        let _popped = self.path.pop();
        proof {
            assert(self.path@ =~= p);
            assert(parent.children@.subrange(0, ci + 1) =~= parent.children@);
        }
        self.next_subtree(Ghost(root), Ghost(Node::Internal(*parent)))
    }

    /// Retreat to the previous entry in key order. Returns `false` at the start.
    fn step_backward(&mut self, Ghost(root): Ghost<Node<K, V>>) -> (r: bool)
        requires
            old(self).valid(root),
        ensures
            r ==> final(self).valid(root) && final(self).pos() == old(self).pos() - 1,
            !r ==> old(self).pos() == 0,
    {
        if self.idx > 0 {
            self.idx = self.idx - 1;
            return true;
        }
        self.prev_subtree(Ghost(root), Ghost(Node::Leaf(*self.leaf)))
    }

    /// The cursor stands on the first entry of `t`, the subtree its path
    /// descends to. Move to the last entry before `t`: ascend to the nearest
    /// frame with a child to the left and descend that child's rightmost path.
    /// Returns `false` if `t` starts the tree.
    #[verifier::spinoff_prover]
    #[verifier::rlimit(40)]
    fn prev_subtree(&mut self, Ghost(root): Ghost<Node<K, V>>, Ghost(t): Ghost<Node<K, V>>) -> (r: bool)
        requires
            shaped(root),
            path_ok(root, old(self).path@, t),
        ensures
            r ==> final(self).valid(root) && final(self).pos() == path_offset(old(self).path@) - 1,
            !r ==> path_offset(old(self).path@) == 0,
        decreases old(self).path@.len(),
    {
        let n = self.path.len();
        if n == 0 {
            return false;
        }
        let (parent, ci) = self.path[n - 1];
        let ghost path = self.path@;
        let ghost p = path.subrange(0, n - 1);
        proof {
            if n > 1 {
                lemma_path_prefix(root, path, t, n - 1);
            } else {
                assert(root == Node::Internal(*parent));
            }
            assert(path_ok(root, p, Node::Internal(*parent)));
            assert(p =~= path.drop_last());
        }
        if ci > 0 {
            self.path.set(n - 1, (parent, ci - 1));
            proof {
                lemma_path_push(root, p, parent, (ci - 1) as usize);
                assert(self.path@ =~= p.push((parent, (ci - 1) as usize)));
                lemma_before_next(parent.children@, ci - 1);
            }
            self.descend_rightmost(&parent.children[ci - 1], Ghost(root));
            return true;
        }
        let _popped = self.path.pop();
        proof {
            assert(self.path@ =~= p);
            assert(parent.children@.subrange(0, 0) =~= Seq::<Node<K, V>>::empty());
            assert(seq_entries(Seq::<Node<K, V>>::empty()).len() == 0);
        }
        self.prev_subtree(Ghost(root), Ghost(Node::Internal(*parent)))
    }
}

/// One end of a key range: a key the range includes, a key it stops just
/// short of, or no limit on that side.
pub enum Bound<T> {
    /// The range reaches this key and includes it.
    Included(T),
    /// The range reaches up to this key but leaves it out.
    Excluded(T),
    /// The range is unlimited on this side.
    Unbounded,
}

/// Key `k` lies on the inner side of the lower bound `b`.
pub open spec fn after_lower<K: PartialOrd>(k: K, b: Bound<&K>) -> bool {
    match b {
        Bound::Included(x) => !lt(k, *x),
        Bound::Excluded(x) => lt(*x, k),
        Bound::Unbounded => true,
    }
}

/// Key `k` lies on the inner side of the upper bound `b`.
pub open spec fn before_upper<K: PartialOrd>(k: K, b: Bound<&K>) -> bool {
    match b {
        Bound::Included(x) => !lt(*x, k),
        Bound::Excluded(x) => lt(k, *x),
        Bound::Unbounded => true,
    }
}

/// Key `k` lies in the range with lower bound `lower` and upper bound `upper`.
pub open spec fn in_bounds<K: PartialOrd>(k: K, lower: Bound<&K>, upper: Bound<&K>) -> bool {
    after_lower(k, lower) && before_upper(k, upper)
}

/// A well-formed subtree is shaped: every internal node has children and each
/// child holds an entry.
pub proof fn lemma_wf_shaped<K: PartialOrd, V>(
    n: Node<K, V>,
    h: nat,
    lo: Option<K>,
    hi: Option<K>,
    order: nat,
    top: nat,
)
    requires
        wf_node(n, h, lo, hi, order, top),
        order >= 3,
    ensures
        shaped(n),
    decreases n,
{
    match n {
        Node::Leaf(_) => {},
        Node::Internal(x) => {
            let cs = x.children@;
            assert forall|j: int| 0 <= j < cs.len() implies shaped(#[trigger] cs[j]) && entries(cs[j]).len() > 0 by {
                lemma_wf_shaped(cs[j], (h - 1) as nat, child_lo(x.keys@, j, lo), child_hi(x.keys@, j, hi), order, min_keys(order));
                lemma_wf_nonempty(cs[j], (h - 1) as nat, child_lo(x.keys@, j, lo), child_hi(x.keys@, j, hi), order, min_keys(order));
            }
        },
    }
}

/// Descend from `root` to the leaf whose key range covers `probe`, returning
/// the path taken and that leaf. Every entry left of the leaf sorts before
/// `probe`, and every entry right of it after.
#[verifier::spinoff_prover]
fn descend_to<'a, K: Ord + Clone, V>(root: &'a Node<K, V>, probe: &K, Ghost(order): Ghost<nat>) -> (r: (
    Vec<(&'a Internal<K, V>, usize)>,
    &'a Leaf<K, V>,
))
    requires
        lawful_key::<K>(),
        wf_root(*root, order),
    ensures
        path_ok(*root, r.0@, Node::Leaf(*r.1)),
        r.1.keys@.len() == r.1.vals@.len(),
        sorted(r.1.keys@),
        forall|i: int| 0 <= i < path_offset(r.0@) ==> lt(#[trigger] entries(*root)[i].0, *probe),
        forall|i: int|
            path_offset(r.0@) + r.1.keys@.len() <= i < entries(*root).len() ==> lt(*probe, #[trigger] entries(*root)[i].0),
{
    let mut path: Vec<(&'a Internal<K, V>, usize)> = Vec::new();
    let mut node = root;
    let ghost mut h = height_of(*root);
    let ghost mut lo: Option<K> = None;
    let ghost mut hi: Option<K> = None;
    let ghost mut top = crate::node::root_top(*root);
    loop
        invariant
            lawful_key::<K>(),
            order >= 3,
            wf_node(*node, h, lo, hi, order, top),
            within(*probe, lo, hi),
            path_ok(*root, path@, *node),
            forall|i: int| 0 <= i < path_offset(path@) ==> lt(#[trigger] entries(*root)[i].0, *probe),
            forall|i: int|
                path_offset(path@) + entries(*node).len() <= i < entries(*root).len() ==> lt(*probe, #[trigger] entries(*root)[i].0),
        decreases h,
    {
        match node {
            Node::Internal(internal) => {
                let ci = internal.child_index(probe);
                let ghost off = path_offset(path@);
                let ghost cs = internal.children@;
                proof {
                    lemma_routes_within(internal.keys@, *probe, ci as int, lo, hi);
                    lemma_route(*internal, h, lo, hi, order, top, ci as int, *probe);
                    lemma_path_entries(*root, path@, *node);
                    lemma_path_push(*root, path@, internal, ci);
                    let b = before(cs, ci as int);
                    let c = entries(cs[ci as int]);
                    let all = entries(*root);
                    let here = entries(*node);
                    assert(here.len() == b.len() + c.len() + crate::node::after(cs, ci as int).len());
                    assert forall|i: int| off <= i < off + b.len() implies lt(#[trigger] all[i].0, *probe) by {
                        assert(all[i] == all.subrange(off, off + here.len())[i - off]);
                        assert(here[i - off] == b[i - off]);
                    }
                    assert forall|i: int| off + b.len() + c.len() <= i < off + here.len() implies lt(*probe, #[trigger] all[i].0) by {
                        assert(all[i] == all.subrange(off, off + here.len())[i - off]);
                        let a = crate::node::after(cs, ci as int);
                        assert(here[i - off] == a[i - off - b.len() - c.len()]);
                    }
                    lo = child_lo(internal.keys@, ci as int, lo);
                    hi = child_hi(internal.keys@, ci as int, hi);
                    h = (h - 1) as nat;
                    top = min_keys(order);
                }
                path.push((internal, ci));
                node = &internal.children[ci];
            },
            Node::Leaf(leaf) => {
                return (path, leaf);
            },
        }
    }
}

impl<'a, K: Ord + Clone, V> Cursor<'a, K, V> {
    /// A cursor at the first entry on the inner side of the lower `bound`, or
    /// `None` if no entry is.
    #[verifier::spinoff_prover]
    fn lower_bound(root: &'a Node<K, V>, bound: Bound<&K>, Ghost(order): Ghost<nat>) -> (r: Option<Self>)
        requires
            lawful_key::<K>(),
            wf_root(*root, order),
        ensures
            r is None <==> forall|i: int| 0 <= i < entries(*root).len() ==> !after_lower(#[trigger] entries(*root)[i].0, bound),
            r matches Some(c) ==> {
                &&& c.valid(*root)
                &&& after_lower(entries(*root)[c.pos()].0, bound)
                &&& forall|i: int| 0 <= i < c.pos() ==> !after_lower(#[trigger] entries(*root)[i].0, bound)
            },
    {
        proof {
            lemma_key_order::<K>();
            lemma_wf_shaped(*root, height_of(*root), None, None, order, crate::node::root_top(*root));
        }
        let probe = match bound {
            Bound::Unbounded => {
                let r = Self::first(root);
                proof {
                    if let Some(c) = &r {
                        c.lemma_valid(*root);
                    }
                    if entries(*root).len() > 0 {
                        assert(after_lower(entries(*root)[0].0, bound));
                    }
                }
                return r;
            },
            Bound::Included(b) => b,
            Bound::Excluded(b) => b,
        };
        let (path, leaf) = descend_to(root, probe, Ghost(order));
        let ghost all = entries(*root);
        let ghost off = path_offset(path@);
        proof {
            lemma_path_entries(*root, path@, Node::Leaf(*leaf));
            lemma_path_shaped(*root, path@, Node::Leaf(*leaf));
            assert forall|j: int| 0 <= j < leaf.keys@.len() implies all[off + j].0 == #[trigger] leaf.keys@[j] by {
                assert(all[off + j] == all.subrange(off, off + leaf.keys@.len())[j]);
            }
        }
        if leaf.keys.len() == 0 {
            proof {
                if path@.len() > 0 {
                    assert(entries(Node::Leaf(*leaf)).len() > 0);
                }
                assert(all.len() == 0);
            }
            return None;
        }
        let idx = match search(&leaf.keys, probe) {
            Ok(i) => match bound {
                Bound::Excluded(_) => i + 1,
                _ => i,
            },
            Err(i) => i,
        };
        proof {
            let keys = leaf.keys@;
            assert forall|j: int| 0 <= j < idx implies !after_lower(#[trigger] keys[j], bound) by {
                if j + 1 < keys.len() {
                    assert(lt(keys[j], keys[j + 1]));
                }
                if j + 1 < idx {
                    assert(lt(keys[j], keys[idx - 1]));
                }
            }
            assert forall|j: int| idx <= j < keys.len() implies after_lower(#[trigger] keys[j], bound) by {
                if idx < j {
                    assert(lt(keys[idx as int], keys[j]));
                }
                if 0 < idx {
                    assert(lt(keys[idx - 1], keys[j]));
                }
            }
            assert forall|i: int| 0 <= i < off + idx implies !after_lower(#[trigger] all[i].0, bound) by {
                if i >= off {
                    assert(all[i].0 == leaf.keys@[i - off]);
                }
            }
            assert forall|i: int| off + leaf.keys@.len() <= i < all.len() implies after_lower(#[trigger] all[i].0, bound) by {
            }
        }
        let mut cursor = Cursor { path, leaf, idx: leaf.keys.len() - 1 };
        if idx < leaf.keys.len() {
            cursor.idx = idx;
            proof {
                assert(all[off + idx].0 == leaf.keys@[idx as int]);
            }
            Some(cursor)
        } else if cursor.step_forward(Ghost(*root)) {
            proof {
                cursor.lemma_valid(*root);
                assert(after_lower(all[cursor.pos()].0, bound));
            }
            Some(cursor)
        } else {
            proof {
                assert forall|i: int| 0 <= i < all.len() implies !after_lower(#[trigger] all[i].0, bound) by {
                }
            }
            None
        }
    }

    /// A cursor at the last entry on the inner side of the upper `bound`, or
    /// `None` if no entry is.
    #[verifier::spinoff_prover]
    fn upper_bound(root: &'a Node<K, V>, bound: Bound<&K>, Ghost(order): Ghost<nat>) -> (r: Option<Self>)
        requires
            lawful_key::<K>(),
            wf_root(*root, order),
        ensures
            r is None <==> forall|i: int| 0 <= i < entries(*root).len() ==> !before_upper(#[trigger] entries(*root)[i].0, bound),
            r matches Some(c) ==> {
                &&& c.valid(*root)
                &&& before_upper(entries(*root)[c.pos()].0, bound)
                &&& forall|i: int| c.pos() < i < entries(*root).len() ==> !before_upper(#[trigger] entries(*root)[i].0, bound)
            },
    {
        proof {
            lemma_key_order::<K>();
            lemma_wf_shaped(*root, height_of(*root), None, None, order, crate::node::root_top(*root));
        }
        let probe = match bound {
            Bound::Unbounded => {
                let r = Self::last(root);
                proof {
                    if let Some(c) = &r {
                        c.lemma_valid(*root);
                    }
                    if entries(*root).len() > 0 {
                        assert(before_upper(entries(*root)[0].0, bound));
                    }
                }
                return r;
            },
            Bound::Included(b) => b,
            Bound::Excluded(b) => b,
        };
        let (path, leaf) = descend_to(root, probe, Ghost(order));
        let ghost all = entries(*root);
        let ghost off = path_offset(path@);
        proof {
            lemma_path_entries(*root, path@, Node::Leaf(*leaf));
            lemma_path_shaped(*root, path@, Node::Leaf(*leaf));
            assert forall|j: int| 0 <= j < leaf.keys@.len() implies all[off + j].0 == #[trigger] leaf.keys@[j] by {
                assert(all[off + j] == all.subrange(off, off + leaf.keys@.len())[j]);
            }
        }
        if leaf.keys.len() == 0 {
            proof {
                if path@.len() > 0 {
                    assert(entries(Node::Leaf(*leaf)).len() > 0);
                }
                assert(all.len() == 0);
            }
            return None;
        }
        // The number of the leaf's keys on the inner side of the bound.
        let count = match search(&leaf.keys, probe) {
            Ok(i) => match bound {
                Bound::Excluded(_) => i,
                _ => i + 1,
            },
            Err(i) => i,
        };
        proof {
            let keys = leaf.keys@;
            assert forall|j: int| 0 <= j < count implies before_upper(#[trigger] keys[j], bound) by {
                if j + 1 < count {
                    assert(lt(keys[j], keys[count - 1]));
                }
                if count < keys.len() {
                    assert(lt(keys[j], keys[count as int]));
                }
            }
            assert forall|j: int| count <= j < keys.len() implies !before_upper(#[trigger] keys[j], bound) by {
                if count < j {
                    assert(lt(keys[count as int], keys[j]));
                }
                if 0 < count {
                    assert(lt(keys[count - 1], keys[j]));
                }
            }
            assert forall|i: int| off + count <= i < all.len() implies !before_upper(#[trigger] all[i].0, bound) by {
                if i < off + keys.len() {
                    assert(all[i].0 == keys[i - off]);
                }
            }
            assert forall|i: int| 0 <= i < off implies before_upper(#[trigger] all[i].0, bound) by {
            }
        }
        let mut cursor = Cursor { path, leaf, idx: 0 };
        if count > 0 {
            cursor.idx = count - 1;
            proof {
                assert(all[off + count - 1].0 == leaf.keys@[count - 1]);
            }
            Some(cursor)
        } else if cursor.step_backward(Ghost(*root)) {
            proof {
                cursor.lemma_valid(*root);
                assert(before_upper(all[cursor.pos()].0, bound));
            }
            Some(cursor)
        } else {
            proof {
                assert forall|i: int| 0 <= i < all.len() implies !before_upper(#[trigger] all[i].0, bound) by {
                }
            }
            None
        }
    }
}

/// Filtering a sequence by a predicate that holds exactly on the positions
/// `a..b` keeps exactly that run.
pub proof fn lemma_filter_run<A>(s: Seq<A>, pred: spec_fn(A) -> bool, a: int, b: int)
    requires
        0 <= a <= b <= s.len(),
        forall|i: int| 0 <= i < s.len() ==> (pred(#[trigger] s[i]) <==> a <= i < b),
    ensures
        s.filter(pred) == s.subrange(a, b),
    decreases s.len(),
{
    reveal(Seq::filter);
    if s.len() > 0 {
        let t = s.drop_last();
        let n = s.len() - 1;
        assert(pred(s[n]) <==> a <= n < b);
        assert forall|i: int| 0 <= i < t.len() implies (pred(#[trigger] t[i]) <==> a <= i < b) by {
            assert(t[i] == s[i]);
        }
        if b == s.len() && a < b {
            lemma_filter_run(t, pred, a, b - 1);
            assert(t.subrange(a, b - 1).push(s.last()) =~= s.subrange(a, b));
        } else if b == s.len() {
            lemma_filter_run(t, pred, n, n);
            assert(t.subrange(n, n) =~= s.subrange(a, b));
        } else {
            lemma_filter_run(t, pred, a, b);
            assert(t.subrange(a, b) =~= s.subrange(a, b));
        }
    }
}

/// Filtering a sequence with strictly ascending keys keeps them strictly
/// ascending.
pub proof fn lemma_filter_sorted<K: PartialOrd, V>(s: Seq<(K, V)>, pred: spec_fn((K, V)) -> bool)
    requires
        sorted_entries(s),
    ensures
        sorted_entries(s.filter(pred)),
    decreases s.len(),
{
    reveal(Seq::filter);
    if s.len() > 0 {
        let t = s.drop_last();
        let f = t.filter(pred);
        assert(sorted_entries(t)) by {
            assert forall|i: int, j: int| 0 <= i < j < t.len() implies lt(#[trigger] t[i].0, #[trigger] t[j].0) by {
                assert(t[i] == s[i] && t[j] == s[j]);
            }
        }
        lemma_filter_sorted(t, pred);
        if pred(s.last()) {
            assert forall|i: int| 0 <= i < f.len() implies lt(#[trigger] f[i].0, s.last().0) by {
                assert(f.contains(f[i]));
                t.lemma_filter_contains_rev(pred, f[i]);
                let j = choose|j: int| 0 <= j < t.len() && t[j] == f[i];
                assert(s[j] == t[j]);
            }
            let g = f.push(s.last());
            assert forall|i: int, j: int| 0 <= i < j < g.len() implies lt(#[trigger] g[i].0, #[trigger] g[j].0) by {
                if j < f.len() {
                    assert(g[i] == f[i] && g[j] == f[j]);
                } else {
                    assert(g[i] == f[i]);
                }
            }
        }
    }
}

/// A forward-and-reverse iterator over a [`BPlusTree`](crate::BPlusTree)'s
/// entries in ascending key order, yielding `(&K, &V)`.
///
/// Returned by [`BPlusTree::iter`](crate::BPlusTree::iter) and
/// [`BPlusTree::range`](crate::BPlusTree::range). [`next`](Iter::next) takes
/// entries from the front and [`next_back`](Iter::next_back) from the back, so
/// a range can be walked from either end; the two ends meet in the middle.
pub struct Iter<'a, K, V> {
    /// Cursors at the first and last entries not yet yielded, or `None` once
    /// every entry has been.
    span: Option<Span<'a, K, V>>,
    /// The tree the cursors walk.
    root: Ghost<Node<K, V>>,
    /// Every entry this iterator yields over its life, in ascending order.
    whole: Ghost<Seq<(K, V)>>,
    /// How many entries the front has yielded.
    taken_front: Ghost<nat>,
    /// How many entries the back has yielded.
    taken_back: Ghost<nat>,
}

/// The not-yet-yielded slice of an iteration: cursors at its first and last
/// remaining entries. Once they coincide, one element is left.
struct Span<'a, K, V> {
    front: Cursor<'a, K, V>,
    back: Cursor<'a, K, V>,
}

impl<'a, K, V> Iter<'a, K, V> {
    /// The entries not yet yielded, in the order the front yields them.
    pub closed spec fn remaining(&self) -> Seq<(K, V)> {
        match self.span {
            None => Seq::empty(),
            Some(s) => entries(self.root@).subrange(s.front.pos(), s.back.pos() + 1),
        }
    }

    /// Every entry the iterator yields over its life, in ascending order: what
    /// it held when it was created.
    pub closed spec fn walk(&self) -> Seq<(K, V)> {
        self.whole@
    }

    /// The entries the front has yielded so far, in the order it yielded them.
    pub closed spec fn yielded_front(&self) -> Seq<(K, V)> {
        self.whole@.subrange(0, self.taken_front@ as int)
    }

    /// The entries the back has yielded so far, in the order it yielded them.
    pub closed spec fn yielded_back(&self) -> Seq<(K, V)> {
        self.whole@.subrange(self.whole@.len() - self.taken_back@, self.whole@.len() as int).reverse()
    }

    /// The iterator's invariant: it walks a shaped tree, its front cursor
    /// stands at or before its back cursor, and what remains is what neither
    /// end has yielded.
    pub closed spec fn wf(&self) -> bool {
        &&& self.taken_front@ + self.taken_back@ <= self.whole@.len()
        &&& self.remaining() == self.whole@.subrange(
            self.taken_front@ as int,
            self.whole@.len() - self.taken_back@,
        )
        &&& shaped(self.root@)
        &&& self.span matches Some(s) ==> {
            &&& s.front.valid(self.root@)
            &&& s.back.valid(self.root@)
            &&& s.front.pos() <= s.back.pos()
        }
    }

    /// An iterator over every entry in the tree.
    pub(crate) fn full(root: &'a Node<K, V>) -> (r: Self)
        requires
            shaped(*root),
        ensures
            r.wf(),
            r.remaining() == entries(*root),
            r.walk() == entries(*root),
            r.yielded_front() == Seq::<(K, V)>::empty(),
            r.yielded_back() == Seq::<(K, V)>::empty(),
    {
        proof {
            assert(entries(*root).subrange(0, entries(*root).len() as int) =~= entries(*root));
        }
        match (Cursor::first(root), Cursor::last(root)) {
            (Some(front), Some(back)) => {
                proof {
                    assert(entries(*root).subrange(0, entries(*root).len() as int) =~= entries(*root));
                }
                Iter { span: Some(Span { front, back }), root: Ghost(*root), whole: Ghost(entries(*root)), taken_front: Ghost(0), taken_back: Ghost(0) }
            },
            _ => {
                proof {
                    assert(entries(*root) =~= Seq::<(K, V)>::empty());
                }
                Iter { span: None, root: Ghost(*root), whole: Ghost(entries(*root)), taken_front: Ghost(0), taken_back: Ghost(0) }
            },
        }
    }

    /// Yield the entry at the front, the smallest not yet yielded, or `None`
    /// once every entry has been yielded.
    #[verifier::spinoff_prover]
    pub fn next(&mut self) -> (r: Option<(&'a K, &'a V)>)
        requires
            old(self).wf(),
        ensures
            final(self).wf(),
            old(self).remaining().len() == 0 ==> r is None && final(self).remaining() == old(self).remaining(),
            old(self).remaining().len() > 0 ==> (r matches Some(kv) && (*kv.0, *kv.1) == old(self).remaining()[0]
                && final(self).remaining() == old(self).remaining().drop_first()
                && final(self).yielded_front() == old(self).yielded_front().push((*kv.0, *kv.1))),
            final(self).walk() == old(self).walk(),
            old(self).remaining().len() == 0 ==> final(self).yielded_front() == old(self).yielded_front(),
            final(self).yielded_back() == old(self).yielded_back(),
    {
        let ghost root = self.root@;
        let ghost rest = self.remaining();
        let mut span = match self.span.take() {
            None => return None,
            Some(span) => span,
        };
        proof {
            span.front.lemma_valid(root);
            span.back.lemma_valid(root);
        }
        let ghost a = span.front.pos();
        let ghost b = span.back.pos();
        let out = span.front.current();
        let ghost w = self.whole@;
        let ghost f = self.taken_front@;
        let ghost bk = self.taken_back@;
        self.taken_front = Ghost(f + 1);
        proof {
            assert(rest == w.subrange(f as int, w.len() - bk));
            assert(rest.len() == b - a + 1);
            assert(rest[0] == w[f as int]);
            assert(w.subrange(0, f + 1int) =~= w.subrange(0, f as int).push(w[f as int]));
        }
        if span.front.same_position(&span.back, Ghost(root)) {
            proof {
                assert(self.remaining() =~= rest.drop_first());
                assert(rest.drop_first() =~= w.subrange(f + 1int, w.len() - bk));
            }
        } else {
            let _advanced = span.front.step_forward(Ghost(root));
            self.span = Some(span);
            proof {
                assert(self.remaining() =~= rest.drop_first());
                assert(rest.drop_first() =~= w.subrange(f + 1int, w.len() - bk));
            }
        }
        Some(out)
    }

    /// Yield the entry at the back, the largest not yet yielded, or `None`
    /// once every entry has been yielded.
    #[verifier::spinoff_prover]
    pub fn next_back(&mut self) -> (r: Option<(&'a K, &'a V)>)
        requires
            old(self).wf(),
        ensures
            final(self).wf(),
            old(self).remaining().len() == 0 ==> r is None && final(self).remaining() == old(self).remaining(),
            old(self).remaining().len() > 0 ==> (r matches Some(kv) && (*kv.0, *kv.1) == old(self).remaining().last()
                && final(self).remaining() == old(self).remaining().drop_last()
                && final(self).yielded_back() == old(self).yielded_back().push((*kv.0, *kv.1))),
            final(self).walk() == old(self).walk(),
            old(self).remaining().len() == 0 ==> final(self).yielded_back() == old(self).yielded_back(),
            final(self).yielded_front() == old(self).yielded_front(),
    {
        let ghost root = self.root@;
        let ghost rest = self.remaining();
        let mut span = match self.span.take() {
            None => return None,
            Some(span) => span,
        };
        proof {
            span.front.lemma_valid(root);
            span.back.lemma_valid(root);
        }
        let ghost a = span.front.pos();
        let ghost b = span.back.pos();
        let out = span.back.current();
        let ghost w = self.whole@;
        let ghost f = self.taken_front@;
        let ghost bk = self.taken_back@;
        self.taken_back = Ghost(bk + 1);
        proof {
            assert(rest == w.subrange(f as int, w.len() - bk));
            assert(rest.len() == b - a + 1);
            assert(rest.last() == w[w.len() - bk - 1]);
            assert(w.subrange(w.len() - (bk + 1), w.len() as int).reverse() =~= w.subrange(
                w.len() - bk,
                w.len() as int,
            ).reverse().push(w[w.len() - bk - 1]));
        }
        if span.front.same_position(&span.back, Ghost(root)) {
            proof {
                assert(self.remaining() =~= rest.drop_last());
                assert(rest.drop_last() =~= w.subrange(f as int, w.len() - (bk + 1)));
            }
        } else {
            let _retreated = span.back.step_backward(Ghost(root));
            self.span = Some(span);
            proof {
                assert(self.remaining() =~= rest.drop_last());
                assert(rest.drop_last() =~= w.subrange(f as int, w.len() - (bk + 1)));
            }
        }
        Some(out)
    }
}

/// An iterator driven from both ends yields a prefix of its walk from the
/// front and, in reverse, a suffix from the back; what remains lies between,
/// so the two ends meet exactly when every entry has been yielded once.
pub proof fn law_ends_meet<K, V>(it: Iter<'_, K, V>)
    requires
        it.wf(),
    ensures
        it.yielded_front() + it.remaining() + it.yielded_back().reverse() == it.walk(),
{
    let w = it.whole@;
    let f = it.taken_front@ as int;
    let b = it.taken_back@ as int;
    assert(w.subrange(w.len() - b, w.len() as int).reverse().reverse() =~= w.subrange(w.len() - b, w.len() as int));
    assert(w.subrange(0, f) + w.subrange(f, w.len() - b) + w.subrange(w.len() - b, w.len() as int) =~= w);
}

impl<'a, K: Ord + Clone, V> Iter<'a, K, V> {
    /// An iterator over the entries whose keys fall within the range that
    /// `lower` and `upper` describe.
    #[verifier::spinoff_prover]
    pub(crate) fn range(root: &'a Node<K, V>, lower: Bound<&K>, upper: Bound<&K>, Ghost(order): Ghost<nat>) -> (r: Self)
        requires
            lawful_key::<K>(),
            wf_root(*root, order),
        ensures
            r.wf(),
            r.remaining() == entries(*root).filter(|e: (K, V)| in_bounds(e.0, lower, upper)),
            r.walk() == entries(*root).filter(|e: (K, V)| in_bounds(e.0, lower, upper)),
            r.yielded_front() == Seq::<(K, V)>::empty(),
            r.yielded_back() == Seq::<(K, V)>::empty(),
    {
        let ghost all = entries(*root);
        let ghost pred = |e: (K, V)| in_bounds(e.0, lower, upper);
        proof {
            assert(all.filter(pred).subrange(0, all.filter(pred).len() as int) =~= all.filter(pred));
            lemma_key_order::<K>();
            lemma_wf_shaped(*root, height_of(*root), None, None, order, crate::node::root_top(*root));
            crate::node::lemma_wf_sorted(*root, height_of(*root), None, None, order, crate::node::root_top(*root));
        }
        match (Cursor::lower_bound(root, lower, Ghost(order)), Cursor::upper_bound(root, upper, Ghost(order))) {
            (Some(front), Some(back)) => {
                let ghost a = front.pos();
                let ghost b = back.pos();
                proof {
                    front.lemma_valid(*root);
                    back.lemma_valid(*root);
                    assert forall|i: int| a <= i < all.len() implies after_lower(#[trigger] all[i].0, lower) by {
                        if a < i {
                            assert(lt(all[a].0, all[i].0));
                        }
                    }
                    assert forall|i: int| 0 <= i <= b implies before_upper(#[trigger] all[i].0, upper) by {
                        if i < b {
                            assert(lt(all[i].0, all[b].0));
                        }
                    }
                }
                if !key_less(back.key(), front.key()) {
                    proof {
                        if b < a {
                            assert(lt(all[b].0, all[a].0));
                        }
                        assert forall|i: int| 0 <= i < all.len() implies (pred(#[trigger] all[i]) <==> a <= i < b + 1) by {
                        }
                        lemma_filter_run(all, pred, a, b + 1);
                    }
                    {
                    let it = Iter { span: Some(Span { front, back }), root: Ghost(*root), whole: Ghost(all.filter(pred)), taken_front: Ghost(0), taken_back: Ghost(0) };
                    proof {
                        assert(it.remaining() =~= all.filter(pred));
                    }
                    it
                }
                } else {
                    proof {
                        if a <= b {
                            if a < b {
                                assert(lt(all[a].0, all[b].0));
                            }
                        }
                        assert forall|i: int| 0 <= i < all.len() implies (pred(#[trigger] all[i]) <==> 0 <= i < 0) by {
                        }
                        lemma_filter_run(all, pred, 0, 0);
                    }
                    {
                    let it = Iter { span: None, root: Ghost(*root), whole: Ghost(all.filter(pred)), taken_front: Ghost(0), taken_back: Ghost(0) };
                    proof {
                        assert(it.remaining() =~= all.filter(pred));
                    }
                    it
                }
                }
            },
            _ => {
                proof {
                    assert forall|i: int| 0 <= i < all.len() implies (pred(#[trigger] all[i]) <==> 0 <= i < 0) by {
                    }
                    lemma_filter_run(all, pred, 0, 0);
                }
                {
                    let it = Iter { span: None, root: Ghost(*root), whole: Ghost(all.filter(pred)), taken_front: Ghost(0), taken_back: Ghost(0) };
                    proof {
                        assert(it.remaining() =~= all.filter(pred));
                    }
                    it
                }
            },
        }
    }
}

} // verus!
