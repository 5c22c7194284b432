//! B+tree node representation and its invariant.
//!
//! A node is one of two shapes. A [`Leaf`] holds the key/value entries in two
//! parallel arrays, so a search touches only the keys. An [`Internal`] node holds
//! separator keys and its children: `n` separators fan out to `n + 1` children,
//! and the separators partition the key space so a lookup descends to exactly one
//! child at each level. A node owns its children.

use vstd::prelude::*;
use crate::order::lt;
use crate::order::sorted;
use crate::order::within;
use crate::order::above;
use crate::order::below;
use crate::order::lawful_key;
use crate::order::lemma_key_order;
use crate::order::search;
use crate::model::sorted_entries;
use crate::model::keys_of;
use crate::model::rank;
use crate::model::map_of;
use crate::model::lemma_rank_append;
use crate::model::lemma_rank_all_below;
use crate::model::lemma_rank_none_below;
use crate::model::lemma_rank_sorted;
use crate::model::lemma_contains_at_rank;

verus! {

/// A leaf node: sorted keys paired with their values in parallel arrays.
pub struct Leaf<K, V> {
    /// Entry keys, sorted ascending.
    pub keys: Vec<K>,
    /// Entry values, positionally aligned with `keys`.
    pub vals: Vec<V>,
}

/// An internal node: sorted separator keys and the children they partition.
pub struct Internal<K, V> {
    /// Separator keys, sorted ascending.
    pub keys: Vec<K>,
    /// Children, one more than the number of separators.
    pub children: Vec<Node<K, V>>,
}

/// A B+tree node: either a leaf carrying entries or an internal routing node.
pub enum Node<K, V> {
    /// A leaf holding key/value entries.
    Leaf(Leaf<K, V>),
    /// An internal node holding separators and children.
    Internal(Internal<K, V>),
}

/// The entries of a leaf, in order.
pub open spec fn leaf_entries<K, V>(l: Leaf<K, V>) -> Seq<(K, V)> {
    Seq::new(l.keys@.len(), |i: int| (l.keys@[i], l.vals@[i]))
}

/// The entries held in the subtree rooted at `n`, left to right.
pub open spec fn entries<K, V>(n: Node<K, V>) -> Seq<(K, V)>
    decreases n, 0nat,
{
    match n {
        Node::Leaf(l) => leaf_entries(l),
        Node::Internal(x) => seq_entries(x.children@),
    }
}

/// The entries of a row of subtrees, left to right.
pub open spec fn seq_entries<K, V>(cs: Seq<Node<K, V>>) -> Seq<(K, V)>
    decreases cs, 1nat,
{
    if cs.len() == 0 {
        Seq::empty()
    } else {
        seq_entries(cs.subrange(0, cs.len() - 1)) + entries(cs[cs.len() - 1])
    }
}

/// The fewest keys a node other than the root may hold for fan-out `order`: a
/// node is at least half full, so two under-full siblings always fit in one.
pub open spec fn min_keys(order: nat) -> nat {
    (order / 2 + order % 2 - 1) as nat
}

/// The lower key bound of child `j` of a node with separators `keys` and lower
/// bound `lo`.
pub open spec fn child_lo<K>(keys: Seq<K>, j: int, lo: Option<K>) -> Option<K> {
    if j == 0 {
        lo
    } else {
        Some(keys[j - 1])
    }
}

/// The upper key bound of child `j` of a node with separators `keys` and upper
/// bound `hi`.
pub open spec fn child_hi<K>(keys: Seq<K>, j: int, hi: Option<K>) -> Option<K> {
    if j == keys.len() {
        hi
    } else {
        Some(keys[j])
    }
}

/// Every key of `s` lies in `[lo, hi)`.
pub open spec fn keys_within<K: PartialOrd>(s: Seq<K>, lo: Option<K>, hi: Option<K>) -> bool {
    forall|i: int| 0 <= i < s.len() ==> within(#[trigger] s[i], lo, hi)
}

/// Every entry of `s` has its key in `[lo, hi)`.
pub open spec fn entries_within<K: PartialOrd, V>(s: Seq<(K, V)>, lo: Option<K>, hi: Option<K>) -> bool {
    forall|i: int| 0 <= i < s.len() ==> within(#[trigger] s[i].0, lo, hi)
}

/// The B+tree invariant of the subtree at `n`: it stands `h` levels above the
/// leaves (every leaf at the same depth), its keys are sorted and lie in
/// `[lo, hi)`, each internal node's separators route every key to the one child
/// whose interval holds it, and every node holds fewer than `order` keys and at
/// least `top` (this node) or `min_keys(order)` (every node below it).
pub open spec fn wf_node<K: PartialOrd, V>(
    n: Node<K, V>,
    h: nat,
    lo: Option<K>,
    hi: Option<K>,
    order: nat,
    top: nat,
) -> bool
    decreases n,
{
    match n {
        Node::Leaf(l) => {
            &&& h == 0
            &&& l.keys@.len() == l.vals@.len()
            &&& top <= l.keys@.len() < order
            &&& sorted(l.keys@)
            &&& keys_within(l.keys@, lo, hi)
        },
        Node::Internal(x) => {
            &&& h > 0
            &&& x.children@.len() == x.keys@.len() + 1
            &&& top <= x.keys@.len() < order
            &&& sorted(x.keys@)
            &&& keys_within(x.keys@, lo, hi)
            &&& forall|j: int|
                0 <= j < x.children@.len() ==> wf_node(
                    #[trigger] x.children@[j],
                    (h - 1) as nat,
                    child_lo(x.keys@, j, lo),
                    child_hi(x.keys@, j, hi),
                    order,
                    min_keys(order),
                )
        },
    }
}

/// Concatenating rows concatenates their entries.
pub proof fn lemma_seq_entries_append<K, V>(a: Seq<Node<K, V>>, b: Seq<Node<K, V>>)
    ensures
        seq_entries(a + b) == seq_entries(a) + seq_entries(b),
    decreases b.len(),
{
    if b.len() == 0 {
        assert(a + b =~= a);
        assert(seq_entries(b) =~= Seq::<(K, V)>::empty());
        assert(seq_entries(a) + seq_entries(b) =~= seq_entries(a));
    } else {
        let b0 = b.subrange(0, b.len() - 1);
        assert((a + b).subrange(0, (a + b).len() - 1) =~= a + b0);
        assert((a + b)[(a + b).len() - 1] == b[b.len() - 1]);
        lemma_seq_entries_append(a, b0);
        assert(seq_entries(a + b) =~= seq_entries(a) + seq_entries(b));
    }
}

/// The entries of a one-node row are that node's entries.
pub proof fn lemma_seq_entries_single<K, V>(n: Node<K, V>)
    ensures
        seq_entries(seq![n]) == entries(n),
{
    assert(seq![n].subrange(0, 0) =~= Seq::<Node<K, V>>::empty());
    assert(seq_entries(Seq::<Node<K, V>>::empty()) =~= Seq::<(K, V)>::empty());
    assert(seq_entries(seq![n]) =~= entries(n));
}

/// A row splits around any of its members.
pub proof fn lemma_seq_entries_split<K, V>(cs: Seq<Node<K, V>>, j: int)
    requires
        0 <= j < cs.len(),
    ensures
        seq_entries(cs) == seq_entries(cs.subrange(0, j)) + entries(cs[j]) + seq_entries(
            cs.subrange(j + 1, cs.len() as int),
        ),
{
    let a = cs.subrange(0, j);
    let c = cs.subrange(j + 1, cs.len() as int);
    assert(cs =~= a + seq![cs[j]] + c);
    lemma_seq_entries_append(a + seq![cs[j]], c);
    lemma_seq_entries_append(a, seq![cs[j]]);
    lemma_seq_entries_single(cs[j]);
}

/// The entries of a run `cs[a..m]` of well-formed children, bounded by
/// consecutive separators, are sorted and lie between the run's outer bounds.
pub proof fn lemma_row_sorted<K: Ord + Clone, V>(
    keys: Seq<K>,
    cs: Seq<Node<K, V>>,
    lo: Option<K>,
    hi: Option<K>,
    a: int,
    m: int,
)
    requires
        lawful_key::<K>(),
        cs.len() == keys.len() + 1,
        0 <= a <= m <= cs.len(),
        sorted(keys),
        keys_within(keys, lo, hi),
        forall|j: int| 0 <= j < cs.len() ==> sorted_entries(#[trigger] entries(cs[j])),
        forall|j: int|
            0 <= j < cs.len() ==> entries_within(
                #[trigger] entries(cs[j]),
                child_lo(keys, j, lo),
                child_hi(keys, j, hi),
            ),
    ensures
        sorted_entries(seq_entries(cs.subrange(a, m))),
        m > a ==> entries_within(
            seq_entries(cs.subrange(a, m)),
            child_lo(keys, a, lo),
            child_hi(keys, m - 1, hi),
        ),
    decreases m - a,
{
    lemma_key_order::<K>();
    let lo_a = child_lo(keys, a, lo);
    if m == a {
        assert(seq_entries(cs.subrange(a, a)) =~= Seq::<(K, V)>::empty());
    } else {
        let pre = cs.subrange(a, m - 1);
        assert(cs.subrange(a, m).subrange(0, m - 1 - a) =~= pre);
        assert(cs.subrange(a, m)[m - 1 - a] == cs[m - 1]);
        lemma_row_sorted(keys, cs, lo, hi, a, m - 1);
        let sa = seq_entries(pre);
        let b = entries(cs[m - 1]);
        assert(seq_entries(cs.subrange(a, m)) == sa + b);
        let s = sa + b;
        assert(entries_within(b, child_lo(keys, m - 1, lo), child_hi(keys, m - 1, hi)));
        assert(sorted_entries(b));
        // every key of b is at or above the run's lower bound
        assert forall|i: int| 0 <= i < b.len() implies above(#[trigger] b[i].0, lo_a) by {
            assert(within(b[i].0, child_lo(keys, m - 1, lo), child_hi(keys, m - 1, hi)));
            if m - 1 > a {
                let sep = keys[m - 2];
                assert(!lt(b[i].0, sep));
                if a == 0 {
                    assert(within(sep, lo, hi));
                    if let Some(l) = lo {
                        if lt(b[i].0, l) {
                            assert(!lt(sep, l));
                            assert(lt(b[i].0, sep) || b[i].0 == sep || lt(sep, b[i].0));
                        }
                    }
                } else {
                    let l = keys[a - 1];
                    if a - 1 < m - 2 {
                        assert(lt(l, sep));
                    }
                    if lt(b[i].0, l) {
                        assert(lt(b[i].0, sep) || b[i].0 == sep || lt(sep, b[i].0));
                    }
                }
            }
        }
        assert(sorted_entries(s)) by {
            assert forall|i: int, j: int| 0 <= i < j < s.len() implies lt(#[trigger] s[i].0, #[trigger] s[j].0) by {
                if j < sa.len() {
                } else if i >= sa.len() {
                    assert(s[i] == b[i - sa.len()]);
                    assert(s[j] == b[j - sa.len()]);
                } else {
                    assert(s[i] == sa[i]);
                    assert(s[j] == b[j - sa.len()]);
                    assert(within(sa[i].0, lo_a, child_hi(keys, m - 2, hi)));
                    assert(within(b[j - sa.len()].0, child_lo(keys, m - 1, lo), child_hi(keys, m - 1, hi)));
                    let sep = keys[m - 2];
                    assert(lt(sa[i].0, sep));
                    assert(!lt(b[j - sa.len()].0, sep));
                    assert(lt(b[j - sa.len()].0, sep) || b[j - sa.len()].0 == sep || lt(sep, b[j - sa.len()].0));
                }
            }
        }
        assert(entries_within(s, lo_a, child_hi(keys, m - 1, hi))) by {
            assert forall|i: int| 0 <= i < s.len() implies within(#[trigger] s[i].0, lo_a, child_hi(keys, m - 1, hi)) by {
                if i < sa.len() {
                    assert(s[i] == sa[i]);
                    assert(within(sa[i].0, lo_a, child_hi(keys, m - 2, hi)));
                    if m - 1 < keys.len() {
                        assert(lt(keys[m - 2], keys[m - 1]));
                    } else {
                        assert(within(keys[m - 2], lo, hi));
                    }
                } else {
                    assert(s[i] == b[i - sa.len()]);
                    assert(above(b[i - sa.len()].0, lo_a));
                }
            }
        }
    }
}

/// A well-formed subtree's entries are sorted and lie within its bounds.
pub proof fn lemma_wf_sorted<K: Ord + Clone, V>(
    n: Node<K, V>,
    h: nat,
    lo: Option<K>,
    hi: Option<K>,
    order: nat,
    top: nat,
)
    requires
        lawful_key::<K>(),
        wf_node(n, h, lo, hi, order, top),
    ensures
        sorted_entries(entries(n)),
        entries_within(entries(n), lo, hi),
    decreases n,
{
    match n {
        Node::Leaf(l) => {
            let s = leaf_entries(l);
            assert forall|i: int, j: int| 0 <= i < j < s.len() implies lt(#[trigger] s[i].0, #[trigger] s[j].0) by {
                assert(s[i].0 == l.keys@[i] && s[j].0 == l.keys@[j]);
            }
            assert forall|i: int| 0 <= i < s.len() implies within(#[trigger] s[i].0, lo, hi) by {
                assert(s[i].0 == l.keys@[i]);
            }
        },
        Node::Internal(x) => {
            let cs = x.children@;
            assert forall|j: int| 0 <= j < cs.len() implies sorted_entries(#[trigger] entries(cs[j]))
                && entries_within(entries(cs[j]), child_lo(x.keys@, j, lo), child_hi(x.keys@, j, hi)) by {
                lemma_wf_sorted(cs[j], (h - 1) as nat, child_lo(x.keys@, j, lo), child_hi(x.keys@, j, hi), order, min_keys(order));
            }
            lemma_row_sorted(x.keys@, cs, lo, hi, 0, cs.len() as int);
            assert(cs.subrange(0, cs.len() as int) =~= cs);
        },
    }
}

/// A well-formed subtree that holds at least one key, or is internal, below a
/// fan-out of at least three, holds at least one entry.
pub proof fn lemma_wf_nonempty<K: PartialOrd, V>(
    n: Node<K, V>,
    h: nat,
    lo: Option<K>,
    hi: Option<K>,
    order: nat,
    top: nat,
)
    requires
        wf_node(n, h, lo, hi, order, top),
        order >= 3,
        top >= 1 || n is Internal,
    ensures
        entries(n).len() > 0,
    decreases n,
{
    match n {
        Node::Leaf(l) => {},
        Node::Internal(x) => {
            let cs = x.children@;
            lemma_wf_nonempty(cs[0], (h - 1) as nat, child_lo(x.keys@, 0, lo), child_hi(x.keys@, 0, hi), order, min_keys(order));
            lemma_seq_entries_split(cs, 0);
        },
    }
}

impl<K, V> Node<K, V> {
    /// Build an empty leaf node, the shape of a tree with no entries.
    pub fn empty_leaf() -> (r: Self)
        ensures
            r is Leaf,
            entries(r) == Seq::<(K, V)>::empty(),
            r matches Node::Leaf(l) && l.keys@.len() == 0 && l.vals@.len() == 0,
    {
        let r = Node::Leaf(Leaf { keys: Vec::new(), vals: Vec::new() });
        assert(entries(r) =~= Seq::<(K, V)>::empty());
        r
    }

    /// The number of keys held in this node. For a leaf this is the entry count;
    /// for an internal node it is the separator count (one fewer than children).
    pub fn keys_len(&self) -> (r: usize)
        ensures
            r == match *self {
                Node::Leaf(l) => l.keys@.len(),
                Node::Internal(x) => x.keys@.len(),
            },
    {
        match self {
            Node::Leaf(leaf) => leaf.keys.len(),
            Node::Internal(internal) => internal.keys.len(),
        }
    }

    /// Borrow this node as a leaf, or `None` if it is internal.
    pub fn as_leaf(&self) -> (r: Option<&Leaf<K, V>>)
        ensures
            match *self {
                Node::Leaf(l) => r == Some(&l),
                Node::Internal(_) => r is None,
            },
    {
        match self {
            Node::Leaf(leaf) => Some(leaf),
            Node::Internal(_) => None,
        }
    }
}

/// The entries of the children left of child `j`.
pub open spec fn before<K, V>(cs: Seq<Node<K, V>>, j: int) -> Seq<(K, V)> {
    seq_entries(cs.subrange(0, j))
}

/// The entries of the children right of child `j`.
pub open spec fn after<K, V>(cs: Seq<Node<K, V>>, j: int) -> Seq<(K, V)> {
    seq_entries(cs.subrange(j + 1, cs.len() as int))
}

/// A key that falls in child `j`'s interval is found, or belongs, there: every
/// entry left of that child sorts before it and every entry right of it after.
pub proof fn lemma_route<K: Ord + Clone, V>(
    x: Internal<K, V>,
    h: nat,
    lo: Option<K>,
    hi: Option<K>,
    order: nat,
    top: nat,
    j: int,
    key: K,
)
    requires
        lawful_key::<K>(),
        wf_node(Node::Internal(x), h, lo, hi, order, top),
        0 <= j < x.children@.len(),
        within(key, child_lo(x.keys@, j, lo), child_hi(x.keys@, j, hi)),
    ensures
        entries(Node::Internal(x)) == before(x.children@, j) + entries(x.children@[j]) + after(x.children@, j),
        forall|i: int| 0 <= i < before(x.children@, j).len() ==> lt(#[trigger] before(x.children@, j)[i].0, key),
        forall|i: int| 0 <= i < after(x.children@, j).len() ==> lt(key, #[trigger] after(x.children@, j)[i].0),
        rank(entries(Node::Internal(x)), key) == before(x.children@, j).len() + rank(entries(x.children@[j]), key),
        keys_of(entries(Node::Internal(x))).contains(key) <==> keys_of(entries(x.children@[j])).contains(key),
        keys_of(entries(x.children@[j])).contains(key) ==> map_of(entries(Node::Internal(x)))[key] == map_of(entries(x.children@[j]))[key],
        sorted_entries(entries(Node::Internal(x))),
        sorted_entries(entries(x.children@[j])),
{
    lemma_key_order::<K>();
    let cs = x.children@;
    let keys = x.keys@;
    let n = Node::Internal(x);
    lemma_seq_entries_split(cs, j);
    lemma_wf_sorted(n, h, lo, hi, order, top);
    assert forall|i: int| 0 <= i < cs.len() implies sorted_entries(#[trigger] entries(cs[i]))
        && entries_within(entries(cs[i]), child_lo(keys, i, lo), child_hi(keys, i, hi)) by {
        lemma_wf_sorted(cs[i], (h - 1) as nat, child_lo(keys, i, lo), child_hi(keys, i, hi), order, min_keys(order));
    }
    let a = before(cs, j);
    let b = entries(cs[j]);
    let c = after(cs, j);
    lemma_row_sorted(keys, cs, lo, hi, 0, j);
    lemma_row_sorted(keys, cs, lo, hi, j + 1, cs.len() as int);
    assert forall|i: int| 0 <= i < a.len() implies lt(#[trigger] a[i].0, key) by {
        assert(within(a[i].0, lo, child_hi(keys, j - 1, hi)));
        assert(!lt(key, keys[j - 1]));
        assert(lt(a[i].0, keys[j - 1]));
        assert(lt(key, keys[j - 1]) || key == keys[j - 1] || lt(keys[j - 1], key));
    }
    assert forall|i: int| 0 <= i < c.len() implies lt(key, #[trigger] c[i].0) by {
        assert(within(c[i].0, child_lo(keys, j + 1, lo), hi));
        assert(lt(key, keys[j]));
        assert(!lt(c[i].0, keys[j]));
        assert(lt(c[i].0, keys[j]) || c[i].0 == keys[j] || lt(keys[j], c[i].0));
    }
    lemma_rank_append(a + b, c, key);
    lemma_rank_append(a, b, key);
    lemma_rank_all_below(a, key);
    assert forall|i: int| 0 <= i < c.len() implies !lt(#[trigger] c[i].0, key) by {
        assert(lt(key, c[i].0));
    }
    lemma_rank_none_below(c, key);
    let t = entries(n);
    lemma_contains_at_rank(t, key);
    lemma_contains_at_rank(b, key);
    lemma_rank_sorted(b, key);
    let rb = rank(b, key);
    if rb < b.len() {
        assert(t[a.len() + rb] == b[rb]);
    } else if rank(t, key) < t.len() {
        // the entry at key's rank in t lies in c, whose keys are all above key
        assert(t[a.len() + rb] == c[0]);
        assert(lt(key, c[0].0));
    }
}

/// The entries of a leaf with sorted keys are sorted.
pub proof fn lemma_leaf_sorted<K: PartialOrd, V>(l: Leaf<K, V>)
    requires
        sorted(l.keys@),
    ensures
        sorted_entries(leaf_entries(l)),
        keys_of(leaf_entries(l)) == l.keys@,
{
    let s = leaf_entries(l);
    assert forall|i: int, j: int| 0 <= i < j < s.len() implies lt(#[trigger] s[i].0, #[trigger] s[j].0) by {
        assert(s[i].0 == l.keys@[i] && s[j].0 == l.keys@[j]);
    }
    assert(keys_of(s) =~= l.keys@);
}

/// `r` is the child that key `key` routes to among separators `keys`: every
/// separator left of it is at or below the key, every one from it on above.
pub open spec fn routes<K: PartialOrd>(keys: Seq<K>, key: K, r: int) -> bool {
    &&& 0 <= r <= keys.len()
    &&& forall|j: int| 0 <= j < r ==> !lt(key, #[trigger] keys[j])
    &&& forall|j: int| r <= j < keys.len() ==> lt(key, #[trigger] keys[j])
}

/// A key routes to at most one child.
pub proof fn lemma_routes_unique<K: PartialOrd>(keys: Seq<K>, key: K, r1: int, r2: int)
    requires
        routes(keys, key, r1),
        routes(keys, key, r2),
    ensures
        r1 == r2,
{
    if r1 < r2 {
        assert(!lt(key, keys[r1]));
    } else if r2 < r1 {
        assert(!lt(key, keys[r2]));
    }
}

/// Every node on the route that `key` takes down the subtree at `n` is full,
/// holding `order - 1` keys, so one more key overflows each of them in turn.
pub open spec fn full_route<K: PartialOrd, V>(n: Node<K, V>, key: K, order: nat) -> bool
    decreases n,
{
    match n {
        Node::Leaf(l) => l.keys@.len() + 1 == order,
        Node::Internal(x) => {
            let r = choose|r: int| routes(x.keys@, key, r);
            &&& x.keys@.len() + 1 == order
            &&& routes(x.keys@, key, r)
            &&& 0 <= r < x.children@.len()
            &&& full_route(x.children@[r], key, order)
        },
    }
}

/// When `key` routes to child `r` of `x`, the route below `x` is full exactly
/// when `x` is full and the route below that child is.
pub proof fn lemma_full_route_step<K: PartialOrd, V>(x: Internal<K, V>, key: K, order: nat, r: int)
    requires
        routes(x.keys@, key, r),
        0 <= r < x.children@.len(),
    ensures
        full_route(Node::Internal(x), key, order) <==> (x.keys@.len() + 1 == order && full_route(
            x.children@[r],
            key,
            order,
        )),
{
    let c = choose|c: int| routes(x.keys@, key, c);
    assert(routes(x.keys@, key, c));
    lemma_routes_unique(x.keys@, key, c, r);
}

/// A key within a node's bounds lies within the bounds of the child it routes to.
pub proof fn lemma_routes_within<K: PartialOrd>(keys: Seq<K>, key: K, r: int, lo: Option<K>, hi: Option<K>)
    requires
        routes(keys, key, r),
        within(key, lo, hi),
    ensures
        within(key, child_lo(keys, r, lo), child_hi(keys, r, hi)),
{
}

impl<K: Ord + Clone, V> Leaf<K, V> {
    /// Look up `key` within this leaf by binary search over the sorted keys.
    pub fn get(&self, key: &K) -> (r: Option<&V>)
        requires
            lawful_key::<K>(),
            sorted(self.keys@),
            self.keys@.len() == self.vals@.len(),
        ensures
            r is Some <==> keys_of(leaf_entries(*self)).contains(*key),
            r is Some ==> *r->0 == map_of(leaf_entries(*self))[*key],
    {
        proof {
            lemma_leaf_sorted(*self);
            lemma_contains_at_rank(leaf_entries(*self), *key);
        }
        match search(&self.keys, key) {
            Ok(i) => {
                proof {
                    crate::model::lemma_rank_at(leaf_entries(*self), i as int);
                }
                Some(&self.vals[i])
            },
            Err(i) => {
                proof {
                    lemma_key_order::<K>();
                    if keys_of(leaf_entries(*self)).contains(*key) {
                        let j = choose|j: int| 0 <= j < self.keys@.len() && self.keys@[j] == *key;
                        if j < i {
                            assert(lt(self.keys@[j], *key));
                        } else {
                            assert(lt(*key, self.keys@[j]));
                        }
                    }
                }
                None
            },
        }
    }

    /// Remove `key`'s entry from this leaf, returning its value if present.
    pub fn remove(&mut self, key: &K) -> (r: Option<V>)
        requires
            lawful_key::<K>(),
            sorted(old(self).keys@),
            old(self).keys@.len() == old(self).vals@.len(),
        ensures
            final(self).keys@.len() == final(self).vals@.len(),
            r is Some <==> keys_of(leaf_entries(*old(self))).contains(*key),
            match r {
                Some(v) => {
                    &&& v == map_of(leaf_entries(*old(self)))[*key]
                    &&& final(self).keys@ == old(self).keys@.remove(rank(leaf_entries(*old(self)), *key))
                    &&& leaf_entries(*final(self)) == leaf_entries(*old(self)).remove(rank(leaf_entries(*old(self)), *key))
                },
                None => *final(self) == *old(self),
            },
    {
        proof {
            lemma_leaf_sorted(*self);
            lemma_contains_at_rank(leaf_entries(*self), *key);
        }
        let ghost e = leaf_entries(*self);
        match search(&self.keys, key) {
            Ok(i) => {
                proof {
                    crate::model::lemma_rank_at(leaf_entries(*self), i as int);
                }
                let _removed_key = self.keys.remove(i);
                let v = self.vals.remove(i);
                assert(leaf_entries(*self) =~= e.remove(i as int));
                Some(v)
            },
            Err(i) => {
                proof {
                    lemma_key_order::<K>();
                    if keys_of(leaf_entries(*self)).contains(*key) {
                        let j = choose|j: int| 0 <= j < keys_of(e).len() && keys_of(e)[j] == *key;
                        if j < i {
                            assert(lt(self.keys@[j], *key));
                        } else {
                            assert(lt(*key, self.keys@[j]));
                        }
                    }
                }
                None
            },
        }
    }
}

impl<K: Ord + Clone, V> Internal<K, V> {
    /// The index of the child that owns `key`'s key range.
    ///
    /// A key equal to `keys[i]` belongs to the right child of that separator
    /// (`i + 1`), since separators mark the lower bound of the right subtree.
    pub fn child_index(&self, key: &K) -> (r: usize)
        requires
            lawful_key::<K>(),
            sorted(self.keys@),
        ensures
            routes(self.keys@, *key, r as int),
    {
        proof {
            lemma_key_order::<K>();
        }
        match search(&self.keys, key) {
            Ok(i) => {
                assert(i < self.keys.len());
                assert forall|j: int| 0 <= j < i + 1 implies !lt(*key, #[trigger] self.keys@[j]) by {
                    if j < i {
                        assert(lt(self.keys@[j], self.keys@[i as int]));
                    }
                }
                assert forall|j: int| i + 1 <= j < self.keys@.len() implies lt(*key, #[trigger] self.keys@[j]) by {
                    assert(lt(self.keys@[i as int], self.keys@[j]));
                }
                i + 1
            },
            Err(i) => i,
        }
    }
}

/// The number of levels of internal nodes above the leaves, following first
/// children.
pub open spec fn height_of<K, V>(n: Node<K, V>) -> nat
    decreases n,
{
    match n {
        Node::Leaf(_) => 0,
        Node::Internal(x) => if x.children@.len() > 0 {
            1 + height_of(x.children@[0])
        } else {
            1
        },
    }
}

/// The fewest keys the root may hold: none for a leaf, one separator for an
/// internal node (so it has at least two children).
pub open spec fn root_top<K, V>(n: Node<K, V>) -> nat {
    match n {
        Node::Leaf(_) => 0,
        Node::Internal(_) => 1,
    }
}

/// The invariant of a whole tree rooted at `n` with fan-out `order`.
pub open spec fn wf_root<K: PartialOrd, V>(n: Node<K, V>, order: nat) -> bool {
    &&& order >= 3
    &&& wf_node(n, height_of(n), None, None, order, root_top(n))
}

/// A well-formed subtree's recorded height is its height.
pub proof fn lemma_wf_height<K: PartialOrd, V>(
    n: Node<K, V>,
    h: nat,
    lo: Option<K>,
    hi: Option<K>,
    order: nat,
    top: nat,
)
    requires
        wf_node(n, h, lo, hi, order, top),
    ensures
        height_of(n) == h,
    decreases n,
{
    if let Node::Internal(x) = n {
        lemma_wf_height(x.children@[0], (h - 1) as nat, child_lo(x.keys@, 0, lo), child_hi(x.keys@, 0, hi), order, min_keys(order));
    }
}

/// Inserting `k` where it splits `s` keeps `s` sorted.
pub proof fn lemma_sorted_insert<K: Ord + Clone>(s: Seq<K>, i: int, k: K)
    requires
        lawful_key::<K>(),
        sorted(s),
        0 <= i <= s.len(),
        forall|j: int| 0 <= j < i ==> lt(#[trigger] s[j], k),
        forall|j: int| i <= j < s.len() ==> lt(k, #[trigger] s[j]),
    ensures
        sorted(s.insert(i, k)),
{
    lemma_key_order::<K>();
    let t = s.insert(i, k);
    assert forall|a: int, b: int| 0 <= a < b < t.len() implies lt(#[trigger] t[a], #[trigger] t[b]) by {
        if b < i {
        } else if b == i {
        } else if a < i {
            assert(t[b] == s[b - 1]);
            assert(lt(s[a], k));
        } else if a == i {
            assert(t[b] == s[b - 1]);
        } else {
            assert(t[a] == s[a - 1] && t[b] == s[b - 1]);
        }
    }
}

/// `k` lies in `[lo, hi)` and strictly above `lo`.
pub open spec fn strictly_within<K: PartialOrd>(k: K, lo: Option<K>, hi: Option<K>) -> bool {
    &&& match lo {
        None => true,
        Some(l) => lt(l, k),
    }
    &&& below(k, hi)
}

/// An internal node is well-formed when its separators are, and each child is
/// well-formed within the interval its separators give it.
pub proof fn lemma_internal_wf<K: PartialOrd, V>(
    x: Internal<K, V>,
    h: nat,
    lo: Option<K>,
    hi: Option<K>,
    order: nat,
    top: nat,
)
    requires
        h > 0,
        x.children@.len() == x.keys@.len() + 1,
        top <= x.keys@.len() < order,
        sorted(x.keys@),
        keys_within(x.keys@, lo, hi),
        forall|j: int|
            0 <= j < x.children@.len() ==> wf_node(
                #[trigger] x.children@[j],
                (h - 1) as nat,
                child_lo(x.keys@, j, lo),
                child_hi(x.keys@, j, hi),
                order,
                min_keys(order),
            ),
    ensures
        wf_node(Node::Internal(x), h, lo, hi, order, top),
{
}

/// The invariant of an internal node's separators and children, apart from
/// its own occupancy: `cs` has one more member than `keys`, the separators are
/// sorted within `[lo, hi)`, and each child is well-formed, one level down,
/// within the interval its separators give it.
pub open spec fn wf_children<K: PartialOrd, V>(
    keys: Seq<K>,
    cs: Seq<Node<K, V>>,
    h: nat,
    lo: Option<K>,
    hi: Option<K>,
    order: nat,
) -> bool {
    &&& h > 0
    &&& cs.len() == keys.len() + 1
    &&& sorted(keys)
    &&& keys_within(keys, lo, hi)
    &&& forall|j: int|
        0 <= j < cs.len() ==> wf_node(
            #[trigger] cs[j],
            (h - 1) as nat,
            child_lo(keys, j, lo),
            child_hi(keys, j, hi),
            order,
            min_keys(order),
        )
}

/// An internal node is well-formed exactly when its separators and children
/// are and its key count lies in `[top, order)`.
pub proof fn lemma_wf_internal<K: PartialOrd, V>(
    x: Internal<K, V>,
    h: nat,
    lo: Option<K>,
    hi: Option<K>,
    order: nat,
    top: nat,
)
    ensures
        wf_node(Node::Internal(x), h, lo, hi, order, top) <==> (wf_children(
            x.keys@,
            x.children@,
            h,
            lo,
            hi,
            order,
        ) && top <= x.keys@.len() < order),
{
}

/// Below a fan-out of at least three every child holds an entry, so each
/// separator sits strictly above the lower bound of the child to its left.
pub proof fn lemma_wf_children_strict<K: Ord + Clone, V>(
    keys: Seq<K>,
    cs: Seq<Node<K, V>>,
    h: nat,
    lo: Option<K>,
    hi: Option<K>,
    order: nat,
)
    requires
        lawful_key::<K>(),
        order >= 3,
        wf_children(keys, cs, h, lo, hi, order),
    ensures
        forall|j: int| 0 <= j < keys.len() ==> strictly_within(#[trigger] keys[j], child_lo(keys, j, lo), hi),
{
    lemma_key_order::<K>();
    assert forall|j: int| 0 <= j < keys.len() implies strictly_within(#[trigger] keys[j], child_lo(keys, j, lo), hi) by {
        let c = cs[j];
        lemma_wf_nonempty(c, (h - 1) as nat, child_lo(keys, j, lo), child_hi(keys, j, hi), order, min_keys(order));
        lemma_wf_sorted(c, (h - 1) as nat, child_lo(keys, j, lo), child_hi(keys, j, hi), order, min_keys(order));
        let e0 = entries(c)[0].0;
        assert(within(e0, child_lo(keys, j, lo), child_hi(keys, j, hi)));
        assert(within(keys[j], lo, hi));
        if let Some(l) = child_lo(keys, j, lo) {
            assert(!lt(e0, l));
            assert(lt(e0, keys[j]));
            assert(lt(e0, l) || e0 == l || lt(l, e0));
        }
    }
}

/// Splitting a node's separators and children around separator `mid` leaves
/// two well-formed rows bounded by that separator.
pub proof fn lemma_split_children<K: Ord + Clone, V>(
    keys: Seq<K>,
    cs: Seq<Node<K, V>>,
    h: nat,
    lo: Option<K>,
    hi: Option<K>,
    order: nat,
    mid: int,
)
    requires
        lawful_key::<K>(),
        order >= 3,
        wf_children(keys, cs, h, lo, hi, order),
        0 <= mid < keys.len(),
    ensures
        wf_children(keys.subrange(0, mid), cs.subrange(0, mid + 1), h, lo, Some(keys[mid]), order),
        wf_children(
            keys.subrange(mid + 1, keys.len() as int),
            cs.subrange(mid + 1, cs.len() as int),
            h,
            Some(keys[mid]),
            hi,
            order,
        ),
        seq_entries(cs) == seq_entries(cs.subrange(0, mid + 1)) + seq_entries(
            cs.subrange(mid + 1, cs.len() as int),
        ),
        strictly_within(keys[mid], lo, hi),
{
    lemma_key_order::<K>();
    let k1 = keys.subrange(0, mid);
    let c1 = cs.subrange(0, mid + 1);
    let k2 = keys.subrange(mid + 1, keys.len() as int);
    let c2 = cs.subrange(mid + 1, cs.len() as int);
    let s = keys[mid];
    assert forall|j: int| 0 <= j < k1.len() implies within(#[trigger] k1[j], lo, Some(s)) by {
        assert(k1[j] == keys[j]);
        assert(lt(keys[j], keys[mid]));
    }
    assert forall|j: int| 0 <= j < k2.len() implies within(#[trigger] k2[j], Some(s), hi) by {
        assert(k2[j] == keys[mid + 1 + j]);
        assert(lt(keys[mid], keys[mid + 1 + j]));
    }
    assert forall|j: int| 0 <= j < c1.len() implies wf_node(
        #[trigger] c1[j], (h - 1) as nat, child_lo(k1, j, lo), child_hi(k1, j, Some(s)), order, min_keys(order)) by {
        assert(c1[j] == cs[j]);
        assert(child_lo(k1, j, lo) == child_lo(keys, j, lo));
        assert(child_hi(k1, j, Some(s)) == child_hi(keys, j, hi));
    }
    assert forall|j: int| 0 <= j < c2.len() implies wf_node(
        #[trigger] c2[j], (h - 1) as nat, child_lo(k2, j, Some(s)), child_hi(k2, j, hi), order, min_keys(order)) by {
        assert(c2[j] == cs[mid + 1 + j]);
        assert(child_lo(k2, j, Some(s)) == child_lo(keys, mid + 1 + j, lo));
        assert(child_hi(k2, j, hi) == child_hi(keys, mid + 1 + j, hi));
    }
    assert(cs =~= c1 + c2);
    lemma_seq_entries_append(c1, c2);
    lemma_wf_children_strict(keys, cs, h, lo, hi, order);
    assert(strictly_within(keys[0], lo, hi));
    if mid > 0 {
        assert(lt(keys[0], keys[mid]));
        if let Some(l) = lo {
            assert(lt(l, keys[0]));
        }
    }
    assert(within(keys[mid], lo, hi));
}

/// Two well-formed rows bounded by separator `s` join, around `s`, into one.
pub proof fn lemma_join_children<K: Ord + Clone, V>(
    k1: Seq<K>,
    c1: Seq<Node<K, V>>,
    s: K,
    k2: Seq<K>,
    c2: Seq<Node<K, V>>,
    h: nat,
    lo: Option<K>,
    hi: Option<K>,
    order: nat,
)
    requires
        lawful_key::<K>(),
        order >= 3,
        wf_children(k1, c1, h, lo, Some(s), order),
        wf_children(k2, c2, h, Some(s), hi, order),
        within(s, lo, hi),
    ensures
        wf_children(k1.push(s) + k2, c1 + c2, h, lo, hi, order),
        seq_entries(c1 + c2) == seq_entries(c1) + seq_entries(c2),
{
    lemma_key_order::<K>();
    let keys = k1.push(s) + k2;
    let cs = c1 + c2;
    let m = k1.len() as int;
    lemma_wf_children_strict(k2, c2, h, Some(s), hi, order);
    assert forall|i: int, j: int| 0 <= i < j < keys.len() implies lt(#[trigger] keys[i], #[trigger] keys[j]) by {
        if j < m {
            assert(keys[i] == k1[i] && keys[j] == k1[j]);
        } else if j == m {
            assert(keys[i] == k1[i]);
            assert(within(k1[i], lo, Some(s)));
        } else if i > m {
            assert(keys[i] == k2[i - m - 1] && keys[j] == k2[j - m - 1]);
        } else if i == m {
            assert(keys[j] == k2[j - m - 1]);
            assert(strictly_within(k2[0], Some(s), hi));
            if j - m - 1 > 0 {
                assert(lt(k2[0], k2[j - m - 1]));
            }
        } else {
            assert(keys[i] == k1[i]);
            assert(keys[j] == k2[j - m - 1]);
            assert(within(k1[i], lo, Some(s)));
            assert(within(k2[j - m - 1], Some(s), hi));
            assert(lt(k2[j - m - 1], s) || k2[j - m - 1] == s || lt(s, k2[j - m - 1]));
        }
    }
    assert forall|j: int| 0 <= j < keys.len() implies within(#[trigger] keys[j], lo, hi) by {
        if j < m {
            assert(keys[j] == k1[j]);
            assert(within(k1[j], lo, Some(s)));
            if let Some(u) = hi {
                assert(lt(s, u));
            }
        } else if j == m {
        } else {
            assert(keys[j] == k2[j - m - 1]);
            assert(within(k2[j - m - 1], Some(s), hi));
            if let Some(l) = lo {
                assert(!lt(s, l));
                assert(lt(k2[j - m - 1], l) || k2[j - m - 1] == l || lt(l, k2[j - m - 1]));
            }
        }
    }
    assert forall|j: int| 0 <= j < cs.len() implies wf_node(
        #[trigger] cs[j], (h - 1) as nat, child_lo(keys, j, lo), child_hi(keys, j, hi), order, min_keys(order)) by {
        if j <= m {
            assert(cs[j] == c1[j]);
            assert(child_lo(keys, j, lo) == child_lo(k1, j, lo));
            assert(child_hi(keys, j, hi) == child_hi(k1, j, Some(s)));
        } else {
            assert(cs[j] == c2[j - m - 1]);
            assert(child_lo(keys, j, lo) == child_lo(k2, j - m - 1, Some(s)));
            assert(child_hi(keys, j, hi) == child_hi(k2, j - m - 1, hi));
        }
    }
    lemma_seq_entries_append(c1, c2);
}

/// When child `idx` of a row has split at `sep` into itself and `right`,
/// inserting `sep` and `right` after it leaves a well-formed row.
pub proof fn lemma_absorb_children<K: Ord + Clone, V>(
    keys: Seq<K>,
    cs: Seq<Node<K, V>>,
    h: nat,
    lo: Option<K>,
    hi: Option<K>,
    order: nat,
    idx: int,
    sep: K,
    right: Node<K, V>,
)
    requires
        lawful_key::<K>(),
        order >= 3,
        h > 0,
        cs.len() == keys.len() + 1,
        sorted(keys),
        keys_within(keys, lo, hi),
        0 <= idx < cs.len(),
        forall|j: int|
            0 <= j < cs.len() && j != idx ==> wf_node(
                #[trigger] cs[j],
                (h - 1) as nat,
                child_lo(keys, j, lo),
                child_hi(keys, j, hi),
                order,
                min_keys(order),
            ),
        wf_node(cs[idx], (h - 1) as nat, child_lo(keys, idx, lo), Some(sep), order, min_keys(order)),
        wf_node(right, (h - 1) as nat, Some(sep), child_hi(keys, idx, hi), order, min_keys(order)),
        strictly_within(sep, child_lo(keys, idx, lo), child_hi(keys, idx, hi)),
    ensures
        wf_children(keys.insert(idx, sep), cs.insert(idx + 1, right), h, lo, hi, order),
        seq_entries(cs.insert(idx + 1, right)) == before(cs, idx) + entries(cs[idx]) + entries(right) + after(cs, idx),
{
    lemma_key_order::<K>();
    let nk = keys.insert(idx, sep);
    let nc = cs.insert(idx + 1, right);
    assert forall|j: int| 0 <= j < idx implies lt(#[trigger] keys[j], sep) by {
        assert(lt(keys[idx - 1], sep));
        if j < idx - 1 {
            assert(lt(keys[j], keys[idx - 1]));
        }
    }
    assert forall|j: int| idx <= j < keys.len() implies lt(sep, #[trigger] keys[j]) by {
        assert(lt(sep, keys[idx]));
        if j > idx {
            assert(lt(keys[idx], keys[j]));
        }
    }
    lemma_sorted_insert(keys, idx, sep);
    assert forall|j: int| 0 <= j < nk.len() implies within(#[trigger] nk[j], lo, hi) by {
        if j < idx {
            assert(nk[j] == keys[j]);
        } else if j > idx {
            assert(nk[j] == keys[j - 1]);
        } else {
            if idx > 0 {
                assert(within(keys[idx - 1], lo, hi));
                if let Some(l) = lo {
                    assert(lt(keys[idx - 1], sep));
                    assert(!lt(keys[idx - 1], l));
                    assert(lt(sep, l) || sep == l || lt(l, sep));
                }
            }
            if idx < keys.len() {
                assert(within(keys[idx], lo, hi));
            }
        }
    }
    assert forall|j: int| 0 <= j < nc.len() implies wf_node(
        #[trigger] nc[j], (h - 1) as nat, child_lo(nk, j, lo), child_hi(nk, j, hi), order, min_keys(order)) by {
        if j < idx {
            assert(nc[j] == cs[j]);
            assert(child_lo(nk, j, lo) == child_lo(keys, j, lo));
            assert(child_hi(nk, j, hi) == child_hi(keys, j, hi));
        } else if j == idx {
            assert(nc[j] == cs[j]);
            assert(child_lo(nk, j, lo) == child_lo(keys, j, lo));
            assert(child_hi(nk, j, hi) == Some(sep));
        } else if j == idx + 1 {
            assert(nc[j] == right);
            assert(child_lo(nk, j, lo) == Some(sep));
            assert(child_hi(nk, j, hi) == child_hi(keys, idx, hi));
        } else {
            assert(nc[j] == cs[j - 1]);
            assert(child_lo(nk, j, lo) == child_lo(keys, j - 1, lo));
            assert(child_hi(nk, j, hi) == child_hi(keys, j - 1, hi));
        }
    }
    let a = cs.subrange(0, idx);
    let c = cs.subrange(idx + 1, cs.len() as int);
    assert(nc =~= a + seq![cs[idx], right] + c);
    lemma_seq_entries_append(a + seq![cs[idx], right], c);
    lemma_seq_entries_append(a, seq![cs[idx], right]);
    assert(seq![cs[idx], right] =~= seq![cs[idx]] + seq![right]);
    lemma_seq_entries_append(seq![cs[idx]], seq![right]);
    lemma_seq_entries_single(cs[idx]);
    lemma_seq_entries_single(right);
}

/// A well-formed subtree `h` levels tall that holds a key holds more than `h`
/// entries: it cannot be taller than it is full.
pub proof fn lemma_wf_count_height<K: PartialOrd, V>(
    n: Node<K, V>,
    h: nat,
    lo: Option<K>,
    hi: Option<K>,
    order: nat,
    top: nat,
)
    requires
        wf_node(n, h, lo, hi, order, top),
        order >= 3,
        top >= 1,
    ensures
        entries(n).len() >= h + 1,
    decreases n,
{
    match n {
        Node::Leaf(l) => {},
        Node::Internal(x) => {
            let cs = x.children@;
            let m = min_keys(order);
            lemma_wf_count_height(cs[0], (h - 1) as nat, child_lo(x.keys@, 0, lo), child_hi(x.keys@, 0, hi), order, m);
            lemma_wf_count_height(cs[1], (h - 1) as nat, child_lo(x.keys@, 1, lo), child_hi(x.keys@, 1, hi), order, m);
            let a = cs.subrange(0, 1);
            let b = cs.subrange(1, 2);
            let c = cs.subrange(2, cs.len() as int);
            assert(cs =~= a + b + c);
            lemma_seq_entries_append(a + b, c);
            lemma_seq_entries_append(a, b);
            assert(a =~= seq![cs[0]]);
            assert(b =~= seq![cs[1]]);
            lemma_seq_entries_single(cs[0]);
            lemma_seq_entries_single(cs[1]);
        },
    }
}

/// The size of part `i` when `total` items are spread over `parts` parts as
/// evenly as possible, the leading parts taking the remainder one each.
pub open spec fn even_size(total: int, parts: int, i: int) -> int {
    total / parts + if i < total % parts {
        1int
    } else {
        0int
    }
}

/// The subtree at `n`, `h` levels tall over `total` entries, is packed level
/// by level: its leaves are the fewest that hold `total` entries at
/// `order - 1` per leaf, spread as evenly as possible with the leading leaves
/// taking one more; and each level above has the fewest nodes that hold the
/// level below at `order` children per node, the children spread the same way.
pub open spec fn packed<K, V>(n: Node<K, V>, h: nat, total: int, order: int) -> bool {
    &&& nodes_at(n, h).len() == (total - 1) / (order - 1) + 1
    &&& forall|i: int|
        0 <= i < nodes_at(n, h).len() ==> node_keys(#[trigger] nodes_at(n, h)[i]) == even_size(
            total,
            nodes_at(n, h).len() as int,
            i,
        )
    &&& forall|d: nat| d < h ==> #[trigger] nodes_at(n, d).len() == (nodes_at(n, d + 1).len() - 1) / order + 1
    &&& forall|d: nat, i: int|
        d < h && 0 <= i < nodes_at(n, d).len() ==> node_keys(#[trigger] nodes_at(n, d)[i]) + 1 == even_size(
            nodes_at(n, d + 1).len() as int,
            nodes_at(n, d).len() as int,
            i,
        )
}

/// The nodes `d` levels below `n`, left to right.
pub open spec fn nodes_at<K, V>(n: Node<K, V>, d: nat) -> Seq<Node<K, V>>
    decreases n, 0nat,
{
    if d == 0 {
        seq![n]
    } else {
        match n {
            Node::Leaf(_) => Seq::empty(),
            Node::Internal(x) => row_at(x.children@, (d - 1) as nat),
        }
    }
}

/// The nodes `d` levels below a row of subtrees, left to right.
pub open spec fn row_at<K, V>(cs: Seq<Node<K, V>>, d: nat) -> Seq<Node<K, V>>
    decreases cs, 1nat,
{
    if cs.len() == 0 {
        Seq::empty()
    } else {
        row_at(cs.subrange(0, cs.len() - 1), d) + nodes_at(cs[cs.len() - 1], d)
    }
}

/// Every node in `s` satisfies `p`.
pub open spec fn all_in<K, V>(s: Seq<Node<K, V>>, p: spec_fn(Node<K, V>) -> bool) -> bool {
    forall|i: int| 0 <= i < s.len() ==> p(#[trigger] s[i])
}

/// What holds of every node at a depth below each subtree of a row holds of
/// every node at that depth below the row.
pub proof fn lemma_row_at_all<K, V>(cs: Seq<Node<K, V>>, d: nat, p: spec_fn(Node<K, V>) -> bool)
    requires
        forall|j: int| 0 <= j < cs.len() ==> all_in(nodes_at(#[trigger] cs[j], d), p),
    ensures
        all_in(row_at(cs, d), p),
        cs.len() > 0 ==> row_at(cs, d).len() >= nodes_at(cs[cs.len() - 1], d).len(),
    decreases cs.len(),
{
    if cs.len() > 0 {
        let n = cs.len() - 1;
        let pre = cs.subrange(0, n);
        assert forall|j: int| 0 <= j < pre.len() implies all_in(nodes_at(#[trigger] pre[j], d), p) by {
            assert(pre[j] == cs[j]);
        }
        lemma_row_at_all(pre, d, p);
        let a = row_at(pre, d);
        let b = nodes_at(cs[n], d);
        assert(all_in(b, p));
        assert forall|i: int| 0 <= i < row_at(cs, d).len() implies p(#[trigger] row_at(cs, d)[i]) by {
            if i < a.len() {
                assert(row_at(cs, d)[i] == a[i]);
            } else {
                assert(row_at(cs, d)[i] == b[i - a.len()]);
            }
        }
    }
}

/// The levels of a well-formed subtree `h` tall: above depth `h` every node is
/// internal, at depth `h` every node is a leaf, below it there is nothing, and
/// each node holds fewer than `order` keys and, below the subtree's top (or at
/// it, when `top` asks as much), at least `min_keys(order)`.
pub proof fn lemma_wf_levels<K: PartialOrd, V>(
    n: Node<K, V>,
    h: nat,
    lo: Option<K>,
    hi: Option<K>,
    order: nat,
    top: nat,
    d: nat,
)
    requires
        wf_node(n, h, lo, hi, order, top),
        order >= 3,
    ensures
        d <= h ==> nodes_at(n, d).len() > 0,
        d < h ==> all_in(nodes_at(n, d), |x: Node<K, V>| x is Internal),
        d == h ==> all_in(nodes_at(n, d), |x: Node<K, V>| x is Leaf),
        d > h ==> nodes_at(n, d).len() == 0,
        all_in(nodes_at(n, d), |x: Node<K, V>| node_keys(x) < order),
        (d >= 1 || top >= min_keys(order)) ==> all_in(nodes_at(n, d), |x: Node<K, V>| min_keys(order) <= node_keys(x)),
    decreases n,
{
    if d > h {
        lemma_nodes_at_deep(n, h, lo, hi, order, top, d);
    }
    if d == 0 {
        assert(nodes_at(n, 0) == seq![n]);
    } else if let Node::Internal(x) = n {
        let cs = x.children@;
        let e = (d - 1) as nat;
        let m = min_keys(order);
        let pi = |y: Node<K, V>| y is Internal;
        let pl = |y: Node<K, V>| y is Leaf;
        let pu = |y: Node<K, V>| node_keys(y) < order;
        let pm = |y: Node<K, V>| m <= node_keys(y);
        assert forall|j: int| 0 <= j < cs.len() implies {
            &&& (e <= h - 1 ==> nodes_at(#[trigger] cs[j], e).len() > 0)
            &&& (e < h - 1 ==> all_in(nodes_at(cs[j], e), pi))
            &&& (e == h - 1 ==> all_in(nodes_at(cs[j], e), pl))
            &&& all_in(nodes_at(cs[j], e), pu)
            &&& all_in(nodes_at(cs[j], e), pm)
        } by {
            lemma_wf_levels(cs[j], (h - 1) as nat, child_lo(x.keys@, j, lo), child_hi(x.keys@, j, hi), order, m, e);
        }
        if e < h - 1 {
            lemma_row_at_all(cs, e, pi);
        }
        if e == h - 1 {
            lemma_row_at_all(cs, e, pl);
        }
        lemma_row_at_all(cs, e, pu);
        lemma_row_at_all(cs, e, pm);
        assert(nodes_at(n, d) == row_at(cs, e));
    }
}

/// The key counts of the nodes in `s` differ by at most one.
pub open spec fn even_row<K, V>(s: Seq<Node<K, V>>) -> bool {
    forall|i: int, j: int| 0 <= i < s.len() && 0 <= j < s.len() ==> node_keys(#[trigger] s[i]) <= node_keys(#[trigger] s[j]) + 1
}

/// At every depth of the subtree at `n`, the nodes' key counts differ by at
/// most one: the tree is filled evenly across each level.
pub open spec fn even_levels<K, V>(n: Node<K, V>) -> bool {
    forall|d: nat| even_row(#[trigger] nodes_at(n, d))
}

/// The nodes at a depth below a concatenated row are those below each part.
pub proof fn lemma_row_at_append<K, V>(a: Seq<Node<K, V>>, b: Seq<Node<K, V>>, d: nat)
    ensures
        row_at(a + b, d) == row_at(a, d) + row_at(b, d),
    decreases b.len(),
{
    if b.len() == 0 {
        assert(a + b =~= a);
        assert(row_at(a, d) + row_at(b, d) =~= row_at(a, d));
    } else {
        let b0 = b.subrange(0, b.len() - 1);
        assert((a + b).subrange(0, (a + b).len() - 1) =~= a + b0);
        assert((a + b)[(a + b).len() - 1] == b[b.len() - 1]);
        lemma_row_at_append(a, b0, d);
        assert(row_at(a + b, d) =~= row_at(a, d) + row_at(b, d));
    }
}

/// A row of one node: the nodes at a depth below it are that node's.
pub proof fn lemma_row_at_single<K, V>(n: Node<K, V>, d: nat)
    ensures
        row_at(seq![n], d) == nodes_at(n, d),
{
    assert(seq![n].subrange(0, 0) =~= Seq::<Node<K, V>>::empty());
    assert(row_at(Seq::<Node<K, V>>::empty(), d) + nodes_at(n, d) =~= nodes_at(n, d));
}

/// A row of nodes at depth zero is the row itself.
pub proof fn lemma_row_at_zero<K, V>(cs: Seq<Node<K, V>>)
    ensures
        row_at(cs, 0) == cs,
    decreases cs.len(),
{
    if cs.len() > 0 {
        lemma_row_at_zero(cs.subrange(0, cs.len() - 1));
        assert(nodes_at(cs[cs.len() - 1], 0) == seq![cs[cs.len() - 1]]);
        assert(cs.subrange(0, cs.len() - 1) + seq![cs[cs.len() - 1]] =~= cs);
    } else {
        assert(row_at(cs, 0) =~= cs);
    }
}

/// Below a well-formed subtree `h` levels tall there is nothing deeper than
/// `h`.
pub proof fn lemma_nodes_at_deep<K: PartialOrd, V>(
    n: Node<K, V>,
    h: nat,
    lo: Option<K>,
    hi: Option<K>,
    order: nat,
    top: nat,
    d: nat,
)
    requires
        wf_node(n, h, lo, hi, order, top),
        d > h,
    ensures
        nodes_at(n, d).len() == 0,
    decreases n,
{
    if let Node::Internal(x) = n {
        lemma_row_at_deep(x.keys@, x.children@, (h - 1) as nat, lo, hi, order, (d - 1) as nat, x.children@.len() as int);
        assert(x.children@.subrange(0, x.children@.len() as int) =~= x.children@);
    }
}

/// Below a row of the first `k` children of a well-formed node, each `h`
/// levels tall, there is nothing deeper than `h`.
pub proof fn lemma_row_at_deep<K: PartialOrd, V>(
    keys: Seq<K>,
    cs: Seq<Node<K, V>>,
    h: nat,
    lo: Option<K>,
    hi: Option<K>,
    order: nat,
    d: nat,
    k: int,
)
    requires
        0 <= k <= cs.len(),
        forall|j: int|
            0 <= j < cs.len() ==> wf_node(
                #[trigger] cs[j],
                h,
                child_lo(keys, j, lo),
                child_hi(keys, j, hi),
                order,
                min_keys(order),
            ),
        d > h,
    ensures
        row_at(cs.subrange(0, k), d).len() == 0,
    decreases cs, k,
{
    if k > 0 {
        let r = cs.subrange(0, k);
        assert(r.subrange(0, k - 1) =~= cs.subrange(0, k - 1));
        lemma_row_at_deep(keys, cs, h, lo, hi, order, d, k - 1);
        lemma_nodes_at_deep(cs[k - 1], h, child_lo(keys, k - 1, lo), child_hi(keys, k - 1, hi), order, min_keys(order), d);
    }
}

/// Every separator in the subtree at `n` is the least key of the subtree to
/// its right, the tightest separator that routes correctly.
pub open spec fn tight<K, V>(n: Node<K, V>) -> bool
    decreases n,
{
    match n {
        Node::Leaf(_) => true,
        Node::Internal(x) => {
            &&& forall|j: int|
                0 <= j < x.keys@.len() ==> entries(x.children@[j + 1]).len() > 0 && #[trigger] x.keys@[j] == entries(
                    x.children@[j + 1],
                )[0].0
            &&& forall|j: int| 0 <= j < x.children@.len() ==> tight(#[trigger] x.children@[j])
        },
    }
}

/// A row of subtrees that each hold at least `p` entries holds at least
/// `p` per subtree.
pub proof fn lemma_row_count<K, V>(cs: Seq<Node<K, V>>, p: nat)
    requires
        forall|j: int| 0 <= j < cs.len() ==> entries(#[trigger] cs[j]).len() >= p,
    ensures
        seq_entries(cs).len() >= cs.len() * p,
    decreases cs.len(),
{
    if cs.len() > 0 {
        let n = cs.len() - 1;
        let rest = cs.subrange(0, n);
        assert forall|j: int| 0 <= j < rest.len() implies entries(#[trigger] rest[j]).len() >= p by {
            assert(rest[j] == cs[j]);
        }
        lemma_row_count(rest, p);
        assert(entries(cs[n]).len() >= p);
        assert(n * p + p == cs.len() * p) by (nonlinear_arith)
            requires
                n + 1 == cs.len(),
        ;
    }
}

/// A row of subtrees that each hold at most `p` entries holds at most `p` per
/// subtree.
pub proof fn lemma_row_count_max<K, V>(cs: Seq<Node<K, V>>, p: nat)
    requires
        forall|j: int| 0 <= j < cs.len() ==> entries(#[trigger] cs[j]).len() <= p,
    ensures
        seq_entries(cs).len() <= cs.len() * p,
    decreases cs.len(),
{
    if cs.len() > 0 {
        let n = cs.len() - 1;
        let rest = cs.subrange(0, n);
        assert forall|j: int| 0 <= j < rest.len() implies entries(#[trigger] rest[j]).len() <= p by {
            assert(rest[j] == cs[j]);
        }
        lemma_row_count_max(rest, p);
        assert(entries(cs[n]).len() <= p);
        assert(n * p + p == cs.len() * p) by (nonlinear_arith)
            requires
                n + 1 == cs.len(),
        ;
    }
}

/// A well-formed subtree `h` levels tall, below the root, holds at least
/// `ceil(order / 2)^h * (ceil(order / 2) - 1)` entries: each of its internal
/// nodes has at least `ceil(order / 2)` children and each leaf at least
/// `ceil(order / 2) - 1` entries.
pub proof fn lemma_wf_count_pow<K: PartialOrd, V>(
    n: Node<K, V>,
    h: nat,
    lo: Option<K>,
    hi: Option<K>,
    order: nat,
    top: nat,
)
    requires
        wf_node(n, h, lo, hi, order, top),
        order >= 3,
        top >= min_keys(order),
    ensures
        entries(n).len() >= vstd::arithmetic::power::pow(((order + 1) / 2) as int, h) * (((order + 1) / 2) - 1),
    decreases n,
{
    let c = ((order + 1) / 2) as int;
    reveal(vstd::arithmetic::power::pow);
    match n {
        Node::Leaf(l) => {
            assert(vstd::arithmetic::power::pow(c, 0) == 1);
        },
        Node::Internal(x) => {
            let cs = x.children@;
            let p = vstd::arithmetic::power::pow(c, (h - 1) as nat);
            let below = p * (c - 1);
            vstd::arithmetic::power::lemma_pow_positive(c, (h - 1) as nat);
            assert(below >= 0) by (nonlinear_arith)
                requires
                    p > 0,
                    c >= 2,
                    below == p * (c - 1),
            ;
            assert forall|j: int| 0 <= j < cs.len() implies entries(#[trigger] cs[j]).len() >= below by {
                lemma_wf_count_pow(cs[j], (h - 1) as nat, child_lo(x.keys@, j, lo), child_hi(x.keys@, j, hi), order, min_keys(order));
            }
            lemma_row_count(cs, below as nat);
            assert(cs.len() >= c);
            assert(cs.len() * below >= c * below) by (nonlinear_arith)
                requires
                    cs.len() >= c,
                    below >= 0,
            ;
            assert(vstd::arithmetic::power::pow(c, h) == c * p);
            assert(c * below == (c * p) * (c - 1)) by (nonlinear_arith)
                requires
                    below == p * (c - 1),
            ;
        },
    }
}

/// A well-formed subtree `h` levels tall holds at most
/// `(order - 1) * order^h` entries: no node has more than `order` children
/// and no leaf more than `order - 1` entries.
pub proof fn lemma_wf_count_max<K: PartialOrd, V>(
    n: Node<K, V>,
    h: nat,
    lo: Option<K>,
    hi: Option<K>,
    order: nat,
    top: nat,
)
    requires
        wf_node(n, h, lo, hi, order, top),
        order >= 3,
    ensures
        entries(n).len() <= (order - 1) * vstd::arithmetic::power::pow(order as int, h),
    decreases n,
{
    let o = order as int;
    reveal(vstd::arithmetic::power::pow);
    match n {
        Node::Leaf(l) => {
            assert(vstd::arithmetic::power::pow(o, 0) == 1);
        },
        Node::Internal(x) => {
            let cs = x.children@;
            let p = vstd::arithmetic::power::pow(o, (h - 1) as nat);
            let up = (o - 1) * p;
            vstd::arithmetic::power::lemma_pow_positive(o, (h - 1) as nat);
            assert(up >= 0) by (nonlinear_arith)
                requires
                    p > 0,
                    o >= 3,
                    up == (o - 1) * p,
            ;
            assert forall|j: int| 0 <= j < cs.len() implies entries(#[trigger] cs[j]).len() <= up by {
                lemma_wf_count_max(cs[j], (h - 1) as nat, child_lo(x.keys@, j, lo), child_hi(x.keys@, j, hi), order, min_keys(order));
            }
            lemma_row_count_max(cs, up as nat);
            assert(cs.len() <= o);
            assert(cs.len() * up <= o * up) by (nonlinear_arith)
                requires
                    cs.len() <= o,
                    up >= 0,
            ;
            assert(vstd::arithmetic::power::pow(o, h) == o * p);
            assert(o * up == (o - 1) * (o * p)) by (nonlinear_arith)
                requires
                    up == (o - 1) * p,
            ;
        },
    }
}

/// The separators of a row after the separator `keys[j]` is replaced by `wk`.
pub open spec fn window_keys<K>(keys: Seq<K>, j: int, wk: Seq<K>) -> Seq<K> {
    keys.subrange(0, j) + wk + keys.subrange(j + 1, keys.len() as int)
}

/// The children of a row after children `j` and `j + 1` are replaced by `wc`.
pub open spec fn window_children<K, V>(cs: Seq<Node<K, V>>, j: int, wc: Seq<Node<K, V>>) -> Seq<Node<K, V>> {
    cs.subrange(0, j) + wc + cs.subrange(j + 2, cs.len() as int)
}

/// The premise shared by the window lemmas: children `j` and `j + 1` of the
/// row `(keys, cs)` are to be replaced by a well-formed run `(wk, wc)` over
/// their interval, and every other child is well-formed.
pub open spec fn window_ok<K: PartialOrd, V>(
    keys: Seq<K>,
    cs: Seq<Node<K, V>>,
    h: nat,
    lo: Option<K>,
    hi: Option<K>,
    order: nat,
    j: int,
    wk: Seq<K>,
    wc: Seq<Node<K, V>>,
) -> bool {
    &&& order >= 3
    &&& h > 0
    &&& cs.len() == keys.len() + 1
    &&& sorted(keys)
    &&& keys_within(keys, lo, hi)
    &&& 0 <= j
    &&& j + 1 < cs.len()
    &&& forall|i: int|
        0 <= i < cs.len() && i != j && i != j + 1 ==> wf_node(
            #[trigger] cs[i],
            (h - 1) as nat,
            child_lo(keys, i, lo),
            child_hi(keys, i, hi),
            order,
            min_keys(order),
        )
    &&& wf_children(wk, wc, h, child_lo(keys, j, lo), child_hi(keys, j + 1, hi), order)
}

proof fn lemma_window_index<K>(keys: Seq<K>, j: int, wk: Seq<K>)
    requires
        0 <= j < keys.len(),
    ensures
        window_keys(keys, j, wk).len() == keys.len() - 1 + wk.len(),
        forall|a: int| 0 <= a < window_keys(keys, j, wk).len() ==> #[trigger] window_keys(keys, j, wk)[a] == (if a < j {
            keys[a]
        } else if a < j + wk.len() {
            wk[a - j]
        } else {
            keys[a - wk.len() + 1]
        }),
{
}

proof fn lemma_window_strict<K: Ord + Clone, V>(
    keys: Seq<K>,
    cs: Seq<Node<K, V>>,
    h: nat,
    lo: Option<K>,
    hi: Option<K>,
    order: nat,
    j: int,
    wk: Seq<K>,
    wc: Seq<Node<K, V>>,
)
    requires
        lawful_key::<K>(),
        window_ok(keys, cs, h, lo, hi, order, j, wk, wc),
    ensures
        forall|b: int| 0 <= b < wk.len() ==> strictly_within(#[trigger] wk[b], child_lo(keys, j, lo), child_hi(keys, j + 1, hi)),
{
    lemma_key_order::<K>();
    let clo = child_lo(keys, j, lo);
    let chi = child_hi(keys, j + 1, hi);
    lemma_wf_children_strict(wk, wc, h, clo, chi, order);
    assert forall|b: int| 0 <= b < wk.len() implies strictly_within(#[trigger] wk[b], clo, chi) by {
        assert(strictly_within(wk[0], clo, chi));
        if b > 0 {
            assert(lt(wk[0], wk[b]));
        }
        assert(within(wk[b], clo, chi));
    }
}

proof fn lemma_window_sorted<K: Ord + Clone, V>(
    keys: Seq<K>,
    cs: Seq<Node<K, V>>,
    h: nat,
    lo: Option<K>,
    hi: Option<K>,
    order: nat,
    j: int,
    wk: Seq<K>,
    wc: Seq<Node<K, V>>,
)
    requires
        lawful_key::<K>(),
        window_ok(keys, cs, h, lo, hi, order, j, wk, wc),
    ensures
        sorted(window_keys(keys, j, wk)),
{
    lemma_key_order::<K>();
    lemma_window_strict(keys, cs, h, lo, hi, order, j, wk, wc);
    lemma_window_index(keys, j, wk);
    let nk = window_keys(keys, j, wk);
    let w = wk.len() as int;
    let clo = child_lo(keys, j, lo);
    let chi = child_hi(keys, j + 1, hi);
    assert forall|a: int, b: int| 0 <= a < b < nk.len() implies lt(#[trigger] nk[a], #[trigger] nk[b]) by {
        if b < j {
            assert(lt(keys[a], keys[b]));
        } else if a >= j + w {
            assert(lt(keys[a - w + 1], keys[b - w + 1]));
        } else if a >= j && b < j + w {
            assert(lt(wk[a - j], wk[b - j]));
        } else if a < j && b < j + w {
            assert(strictly_within(wk[b - j], clo, chi));
            if a < j - 1 {
                assert(lt(keys[a], keys[j - 1]));
            }
        } else if a < j {
            assert(lt(keys[a], keys[b - w + 1]));
        } else {
            assert(strictly_within(wk[a - j], clo, chi));
            if b - w + 1 > j + 1 {
                assert(lt(keys[j + 1], keys[b - w + 1]));
            }
        }
    }
}

proof fn lemma_window_within<K: Ord + Clone, V>(
    keys: Seq<K>,
    cs: Seq<Node<K, V>>,
    h: nat,
    lo: Option<K>,
    hi: Option<K>,
    order: nat,
    j: int,
    wk: Seq<K>,
    wc: Seq<Node<K, V>>,
)
    requires
        lawful_key::<K>(),
        window_ok(keys, cs, h, lo, hi, order, j, wk, wc),
    ensures
        keys_within(window_keys(keys, j, wk), lo, hi),
{
    lemma_key_order::<K>();
    lemma_window_strict(keys, cs, h, lo, hi, order, j, wk, wc);
    lemma_window_index(keys, j, wk);
    let nk = window_keys(keys, j, wk);
    let w = wk.len() as int;
    let clo = child_lo(keys, j, lo);
    let chi = child_hi(keys, j + 1, hi);
    assert forall|a: int| 0 <= a < nk.len() implies within(#[trigger] nk[a], lo, hi) by {
        if j <= a < j + w {
            let x = wk[a - j];
            assert(strictly_within(x, clo, chi));
            if let Some(l) = lo {
                if j > 0 {
                    assert(within(keys[j - 1], lo, hi));
                    assert(lt(x, l) || x == l || lt(l, x));
                }
            }
            if let Some(u) = hi {
                if j + 1 < keys.len() {
                    assert(within(keys[j + 1], lo, hi));
                }
            }
        } else if a < j {
            assert(within(keys[a], lo, hi));
        } else {
            assert(within(keys[a - w + 1], lo, hi));
        }
    }
}

proof fn lemma_window_kids<K: Ord + Clone, V>(
    keys: Seq<K>,
    cs: Seq<Node<K, V>>,
    h: nat,
    lo: Option<K>,
    hi: Option<K>,
    order: nat,
    j: int,
    wk: Seq<K>,
    wc: Seq<Node<K, V>>,
)
    requires
        window_ok(keys, cs, h, lo, hi, order, j, wk, wc),
    ensures
        forall|i: int|
            0 <= i < window_children(cs, j, wc).len() ==> wf_node(
                #[trigger] window_children(cs, j, wc)[i],
                (h - 1) as nat,
                child_lo(window_keys(keys, j, wk), i, lo),
                child_hi(window_keys(keys, j, wk), i, hi),
                order,
                min_keys(order),
            ),
{
    lemma_window_index(keys, j, wk);
    let nk = window_keys(keys, j, wk);
    let nc = window_children(cs, j, wc);
    let w = wk.len() as int;
    let clo = child_lo(keys, j, lo);
    let chi = child_hi(keys, j + 1, hi);
    assert forall|i: int| 0 <= i < nc.len() implies wf_node(
        #[trigger] nc[i], (h - 1) as nat, child_lo(nk, i, lo), child_hi(nk, i, hi), order, min_keys(order)) by {
        if i < j {
            assert(nc[i] == cs[i]);
            assert(child_lo(nk, i, lo) == child_lo(keys, i, lo));
            assert(child_hi(nk, i, hi) == child_hi(keys, i, hi));
        } else if i < j + w + 1 {
            assert(nc[i] == wc[i - j]);
            assert(child_lo(nk, i, lo) == child_lo(wk, i - j, clo));
            assert(child_hi(nk, i, hi) == child_hi(wk, i - j, chi));
        } else {
            assert(nc[i] == cs[i - w + 1]);
            assert(child_lo(nk, i, lo) == child_lo(keys, i - w + 1, lo));
            assert(child_hi(nk, i, hi) == child_hi(keys, i - w + 1, hi));
        }
    }
}

/// Replacing two neighbouring children `j` and `j + 1`, and the separator
/// between them, by a well-formed run over the same interval leaves a
/// well-formed row with the same entries around the run.
pub proof fn lemma_replace_window<K: Ord + Clone, V>(
    keys: Seq<K>,
    cs: Seq<Node<K, V>>,
    h: nat,
    lo: Option<K>,
    hi: Option<K>,
    order: nat,
    j: int,
    wk: Seq<K>,
    wc: Seq<Node<K, V>>,
)
    requires
        lawful_key::<K>(),
        window_ok(keys, cs, h, lo, hi, order, j, wk, wc),
    ensures
        wf_children(window_keys(keys, j, wk), window_children(cs, j, wc), h, lo, hi, order),
        seq_entries(window_children(cs, j, wc)) == seq_entries(cs.subrange(0, j)) + seq_entries(wc)
            + seq_entries(cs.subrange(j + 2, cs.len() as int)),
{
    lemma_window_sorted(keys, cs, h, lo, hi, order, j, wk, wc);
    lemma_window_within(keys, cs, h, lo, hi, order, j, wk, wc);
    lemma_window_kids(keys, cs, h, lo, hi, order, j, wk, wc);
    lemma_seq_entries_append(cs.subrange(0, j) + wc, cs.subrange(j + 2, cs.len() as int));
    lemma_seq_entries_append(cs.subrange(0, j), wc);
}

/// Replacing children `j` and `j + 1` of a row by `wc` replaces their entries
/// by those of `wc`.
pub proof fn lemma_window_entries<K, V>(cs: Seq<Node<K, V>>, j: int, wc: Seq<Node<K, V>>)
    requires
        0 <= j,
        j + 1 < cs.len(),
    ensures
        seq_entries(window_children(cs, j, wc)) == seq_entries(cs.subrange(0, j)) + seq_entries(wc)
            + seq_entries(cs.subrange(j + 2, cs.len() as int)),
        seq_entries(cs) == seq_entries(cs.subrange(0, j)) + (entries(cs[j]) + entries(cs[j + 1]))
            + seq_entries(cs.subrange(j + 2, cs.len() as int)),
{
    lemma_seq_entries_append(cs.subrange(0, j) + wc, cs.subrange(j + 2, cs.len() as int));
    lemma_seq_entries_append(cs.subrange(0, j), wc);
    let pair = seq![cs[j], cs[j + 1]];
    assert(cs =~= window_children(cs, j, pair));
    lemma_seq_entries_append(cs.subrange(0, j) + pair, cs.subrange(j + 2, cs.len() as int));
    lemma_seq_entries_append(cs.subrange(0, j), pair);
    assert(pair =~= seq![cs[j]] + seq![cs[j + 1]]);
    lemma_seq_entries_append(seq![cs[j]], seq![cs[j + 1]]);
    lemma_seq_entries_single(cs[j]);
    lemma_seq_entries_single(cs[j + 1]);
}

/// The number of keys held in a node.
pub open spec fn node_keys<K, V>(n: Node<K, V>) -> nat {
    match n {
        Node::Leaf(l) => l.keys@.len(),
        Node::Internal(x) => x.keys@.len(),
    }
}

/// Child `idx` of the internal node `x` has just lost a key and fallen one
/// below the minimum; everything else about `x` is well-formed.
pub open spec fn underfull_at<K: PartialOrd, V>(
    x: Internal<K, V>,
    idx: int,
    h: nat,
    lo: Option<K>,
    hi: Option<K>,
    order: nat,
) -> bool {
    let keys = x.keys@;
    let cs = x.children@;
    &&& order >= 3
    &&& h > 0
    &&& cs.len() == keys.len() + 1
    &&& keys.len() >= 1
    &&& sorted(keys)
    &&& keys_within(keys, lo, hi)
    &&& 0 <= idx < cs.len()
    &&& forall|i: int|
        0 <= i < cs.len() && i != idx ==> wf_node(
            #[trigger] cs[i],
            (h - 1) as nat,
            child_lo(keys, i, lo),
            child_hi(keys, i, hi),
            order,
            min_keys(order),
        )
    &&& wf_node(cs[idx], (h - 1) as nat, child_lo(keys, idx, lo), child_hi(keys, idx, hi), order, (min_keys(order) - 1) as nat)
    &&& node_keys(cs[idx]) + 1 == min_keys(order)
}

/// A subtree well-formed with one lower bound on its own key count is
/// well-formed with any lower bound it meets.
pub proof fn lemma_wf_top<K: PartialOrd, V>(
    n: Node<K, V>,
    h: nat,
    lo: Option<K>,
    hi: Option<K>,
    order: nat,
    top: nat,
    top2: nat,
)
    requires
        wf_node(n, h, lo, hi, order, top),
        top2 <= node_keys(n),
    ensures
        wf_node(n, h, lo, hi, order, top2),
{
}

/// Dropping either bound of a well-formed subtree keeps it well-formed.
pub proof fn lemma_wf_relax<K: PartialOrd, V>(
    n: Node<K, V>,
    h: nat,
    lo: Option<K>,
    hi: Option<K>,
    order: nat,
    top: nat,
    drop_lo: bool,
    drop_hi: bool,
)
    requires
        wf_node(n, h, lo, hi, order, top),
    ensures
        wf_node(n, h, if drop_lo { None } else { lo }, if drop_hi { None } else { hi }, order, top),
    decreases n,
{
    let lo2 = if drop_lo { None } else { lo };
    let hi2 = if drop_hi { None } else { hi };
    match n {
        Node::Leaf(l) => {
            assert forall|i: int| 0 <= i < l.keys@.len() implies within(#[trigger] l.keys@[i], lo2, hi2) by {
                assert(within(l.keys@[i], lo, hi));
            }
        },
        Node::Internal(x) => {
            let keys = x.keys@;
            let cs = x.children@;
            assert forall|i: int| 0 <= i < keys.len() implies within(#[trigger] keys[i], lo2, hi2) by {
                assert(within(keys[i], lo, hi));
            }
            assert forall|j: int| 0 <= j < cs.len() implies wf_node(
                #[trigger] cs[j], (h - 1) as nat, child_lo(keys, j, lo2), child_hi(keys, j, hi2), order, min_keys(order)) by {
                lemma_wf_relax(cs[j], (h - 1) as nat, child_lo(keys, j, lo), child_hi(keys, j, hi), order, min_keys(order),
                    drop_lo && j == 0, drop_hi && j == keys.len());
            }
        },
    }
}

} // verus!
