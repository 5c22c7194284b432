//! The B+tree algorithm: search, insert with node splits, delete with sibling
//! borrow and merge, and bottom-up bulk load.
//!
//! Each function works on a node and the nodes it owns. An operation that
//! touches two nodes (a node and its child, or two siblings) reaches the second
//! through the first.

use vstd::prelude::*;
use crate::order::lt;
use crate::order::sorted;
use crate::order::within;
use crate::order::above;
use crate::order::below;
use crate::order::lawful_key;
use crate::order::lemma_key_order;
use crate::order::search;
use crate::order::clone_key;
use crate::model::sorted_entries;
use crate::model::keys_of;
use crate::model::rank;
use crate::model::map_of;
use crate::model::lemma_rank_at;
use crate::model::lemma_rank_unique;
use crate::model::lemma_contains_at_rank;
use crate::node::Node;
use crate::node::Leaf;
use crate::node::Internal;
use crate::node::entries;
use crate::node::leaf_entries;
use crate::node::seq_entries;
use crate::node::before;
use crate::node::after;
use crate::node::wf_node;
use crate::node::wf_root;
use crate::node::min_keys;
use crate::node::child_lo;
use crate::node::child_hi;
use crate::node::keys_within;
use crate::node::strictly_within;
use crate::node::height_of;
use crate::node::root_top;
use crate::node::routes;
use crate::node::full_route;
use crate::node::lemma_full_route_step;
use crate::node::lemma_route;
use crate::node::lemma_routes_within;
use crate::node::lemma_leaf_sorted;
use crate::node::lemma_sorted_insert;
use crate::node::lemma_seq_entries_append;
use crate::node::lemma_seq_entries_split;
use crate::node::lemma_seq_entries_single;
use crate::node::lemma_internal_wf;
use crate::node::lemma_wf_height;
use crate::node::lemma_wf_sorted;
use crate::node::wf_children;
use crate::node::lemma_wf_internal;
use crate::node::lemma_split_children;
use crate::node::lemma_join_children;
use crate::node::lemma_absorb_children;
use crate::node::node_keys;
use crate::node::underfull_at;
use crate::node::window_ok;
use crate::node::window_keys;
use crate::node::window_children;
use crate::node::lemma_replace_window;
use crate::node::lemma_window_entries;
use crate::node::lemma_wf_top;
use crate::node::lemma_wf_nonempty;
use crate::node::lemma_wf_children_strict;
use crate::node::entries_within;
use crate::node::lemma_wf_relax;
use crate::node::tight;
use crate::node::nodes_at;
use crate::node::row_at;
use crate::node::even_row;
use crate::node::even_levels;
use crate::node::even_size;
use crate::node::packed;
use crate::node::lemma_row_at_append;
use crate::node::lemma_row_at_single;
use crate::node::lemma_row_at_zero;
use crate::node::lemma_nodes_at_deep;

verus! {

/// Look up `key`, descending children until the owning leaf is reached.
pub fn get<'a, K: Ord + Clone, V>(root: &'a Node<K, V>, key: &K, Ghost(order): Ghost<nat>) -> (r: Option<&'a V>)
    requires
        lawful_key::<K>(),
        wf_root(*root, order),
    ensures
        r is Some <==> map_of(entries(*root)).dom().contains(*key),
        r is Some ==> *r->0 == map_of(entries(*root))[*key],
{
    let mut node = root;
    let ghost mut h = height_of(*root);
    let ghost mut lo: Option<K> = None;
    let ghost mut hi: Option<K> = None;
    let ghost mut top = root_top(*root);
    loop
        invariant
            lawful_key::<K>(),
            wf_node(*node, h, lo, hi, order, top),
            within(*key, lo, hi),
            keys_of(entries(*root)).contains(*key) <==> keys_of(entries(*node)).contains(*key),
            keys_of(entries(*node)).contains(*key) ==> map_of(entries(*root))[*key] == map_of(entries(*node))[*key],
        decreases h,
    {
        match node {
            Node::Leaf(leaf) => {
                return leaf.get(key);
            },
            Node::Internal(internal) => {
                let idx = internal.child_index(key);
                proof {
                    lemma_routes_within(internal.keys@, *key, idx as int, lo, hi);
                    lemma_route(*internal, h, lo, hi, order, top, idx as int, *key);
                    lo = child_lo(internal.keys@, idx as int, lo);
                    hi = child_hi(internal.keys@, idx as int, hi);
                    h = (h - 1) as nat;
                    top = min_keys(order);
                }
                node = &internal.children[idx];
            },
        }
    }
}

/// Outcome of inserting into a subtree, reported to the caller one level up.
pub enum Insert<K, V> {
    /// The key already existed; this is the value it displaced.
    Replaced(V),
    /// A new entry was stored and the node still fits within `order`.
    Done,
    /// The node split; promote `sep` and link the new right node `right`.
    Split { sep: K, right: Node<K, V> },
}

/// What inserting `key`/`value` into the subtree `old_n` (of height `h`, within
/// `[lo, hi)`, holding at least `top` keys) left behind in `new_n`, given the
/// outcome `r`.
pub open spec fn inserted<K: PartialOrd, V>(
    old_n: Node<K, V>,
    new_n: Node<K, V>,
    r: Insert<K, V>,
    key: K,
    value: V,
    h: nat,
    lo: Option<K>,
    hi: Option<K>,
    order: nat,
    top: nat,
) -> bool {
    let e = entries(old_n);
    let p = rank(e, key);
    match r {
        Insert::Replaced(v) => {
            &&& keys_of(e).contains(key)
            &&& v == map_of(e)[key]
            &&& entries(new_n) == e.update(p, (key, value))
            &&& wf_node(new_n, h, lo, hi, order, top)
        },
        Insert::Done => {
            &&& !keys_of(e).contains(key)
            &&& !full_route(old_n, key, order)
            &&& entries(new_n) == e.insert(p, (key, value))
            &&& wf_node(new_n, h, lo, hi, order, top)
        },
        Insert::Split { sep, right } => {
            &&& !keys_of(e).contains(key)
            &&& full_route(old_n, key, order)
            &&& entries(new_n) + entries(right) == e.insert(p, (key, value))
            &&& wf_node(new_n, h, lo, Some(sep), order, min_keys(order))
            &&& wf_node(right, h, Some(sep), hi, order, min_keys(order))
            &&& strictly_within(sep, lo, hi)
        },
    }
}

/// Insert into a leaf, splitting it if the entry overflows `order`.
#[verifier::spinoff_prover]
fn insert_leaf<K: Ord + Clone, V>(
    leaf: &mut Leaf<K, V>,
    key: K,
    value: V,
    order: usize,
    Ghost(lo): Ghost<Option<K>>,
    Ghost(hi): Ghost<Option<K>>,
    Ghost(top): Ghost<nat>,
) -> (r: Insert<K, V>)
    requires
        lawful_key::<K>(),
        order >= 3,
        top <= min_keys(order as nat),
        wf_node(Node::Leaf(*old(leaf)), 0, lo, hi, order as nat, top),
        within(key, lo, hi),
    ensures
        inserted(Node::Leaf(*old(leaf)), Node::Leaf(*final(leaf)), r, key, value, 0, lo, hi, order as nat, top),
        r matches Insert::Split { sep, right } ==> {
            &&& final(leaf).keys@.len() == order / 2
            &&& right matches Node::Leaf(rl)
            &&& rl.keys@.len() > 0
            &&& sep == rl.keys@[0]
        },
{
    proof {
        lemma_key_order::<K>();
        lemma_leaf_sorted(*leaf);
        lemma_contains_at_rank(leaf_entries(*leaf), key);
    }
    let ghost e = leaf_entries(*leaf);
    let ghost old_keys = leaf.keys@;
    match search(&leaf.keys, &key) {
        Ok(i) => {
            proof {
                lemma_rank_at(e, i as int);
            }
            let mut v = value;
            core::mem::swap(&mut leaf.vals[i], &mut v);
            assert(leaf_entries(*leaf) =~= e.update(i as int, (key, value)));
            Insert::Replaced(v)
        },
        Err(i) => {
            proof {
                assert(keys_of(e) == old_keys);
                lemma_rank_unique(e, key, i as int);
                if keys_of(e).contains(key) {
                    let j = choose|j: int| 0 <= j < old_keys.len() && old_keys[j] == key;
                    if j < i {
                        assert(lt(old_keys[j], key));
                    } else {
                        assert(lt(key, old_keys[j]));
                    }
                }
                lemma_sorted_insert(old_keys, i as int, key);
            }
            leaf.keys.insert(i, key);
            leaf.vals.insert(i, value);
            let ghost ne = e.insert(i as int, (key, value));
            assert(leaf_entries(*leaf) =~= ne);
            assert(keys_within(leaf.keys@, lo, hi)) by {
                assert forall|j: int| 0 <= j < leaf.keys@.len() implies within(#[trigger] leaf.keys@[j], lo, hi) by {
                    if j < i {
                        assert(leaf.keys@[j] == old_keys[j]);
                    } else if j > i {
                        assert(leaf.keys@[j] == old_keys[j - 1]);
                    }
                }
            }
            if leaf.keys.len() < order {
                Insert::Done
            } else {
                // Copy the right half's first key up as the separator: the
                // entry it names stays in the leaf where lookups find it.
                let mid = leaf.keys.len() / 2;
                let ghost full = leaf.keys@;
                let keys = leaf.keys.split_off(mid);
                let vals = leaf.vals.split_off(mid);
                let sep = clone_key(&keys[0]);
                let right = Leaf { keys, vals };
                proof {
                    assert(full.len() == order);
                    assert(leaf.keys@ =~= full.subrange(0, mid as int));
                    assert(right.keys@ =~= full.subrange(mid as int, full.len() as int));
                    assert(sep == full[mid as int]);
                    assert(sorted(leaf.keys@));
                    assert(sorted(right.keys@));
                    assert forall|j: int| 0 <= j < leaf.keys@.len() implies within(#[trigger] leaf.keys@[j], lo, Some(sep)) by {
                        assert(within(full[j], lo, hi));
                        assert(lt(full[j], full[mid as int]));
                    }
                    assert forall|j: int| 0 <= j < right.keys@.len() implies within(#[trigger] right.keys@[j], Some(sep), hi) by {
                        assert(within(full[mid + j], lo, hi));
                        if j > 0 {
                            assert(lt(full[mid as int], full[mid + j]));
                        }
                    }
                    assert(within(full[0], lo, hi));
                    assert(lt(full[0], full[mid as int]));
                    if let Some(l) = lo {
                        assert(!lt(full[0], l));
                        assert(lt(full[0], l) || full[0] == l || lt(l, full[0]));
                    }
                    assert(leaf_entries(*leaf) + leaf_entries(right) =~= ne);
                }
                Insert::Split { sep, right: Node::Leaf(right) }
            }
        },
    }
}

/// Absorb a child's split into the internal node `x`: insert the promoted
/// separator at `idx` and the new child after it, splitting this node if that
/// overflows `order`.
#[verifier::spinoff_prover]
fn absorb_split<K: Ord + Clone, V>(
    x: &mut Internal<K, V>,
    idx: usize,
    sep: K,
    right: Node<K, V>,
    order: usize,
    Ghost(h): Ghost<nat>,
    Ghost(lo): Ghost<Option<K>>,
    Ghost(hi): Ghost<Option<K>>,
    Ghost(top): Ghost<nat>,
) -> (r: Insert<K, V>)
    requires
        lawful_key::<K>(),
        order >= 3,
        top <= min_keys(order as nat),
        h > 0,
        old(x).children@.len() == old(x).keys@.len() + 1,
        top <= old(x).keys@.len() < order,
        sorted(old(x).keys@),
        keys_within(old(x).keys@, lo, hi),
        idx < old(x).children@.len(),
        forall|j: int|
            0 <= j < old(x).children@.len() && j != idx ==> wf_node(
                #[trigger] old(x).children@[j],
                (h - 1) as nat,
                child_lo(old(x).keys@, j, lo),
                child_hi(old(x).keys@, j, hi),
                order as nat,
                min_keys(order as nat),
            ),
        wf_node(old(x).children@[idx as int], (h - 1) as nat, child_lo(old(x).keys@, idx as int, lo), Some(sep), order as nat, min_keys(order as nat)),
        wf_node(right, (h - 1) as nat, Some(sep), child_hi(old(x).keys@, idx as int, hi), order as nat, min_keys(order as nat)),
        strictly_within(sep, child_lo(old(x).keys@, idx as int, lo), child_hi(old(x).keys@, idx as int, hi)),
    ensures
        ({
            let cs = old(x).children@;
            let joined = before(cs, idx as int) + entries(cs[idx as int]) + entries(right) + after(cs, idx as int);
            match r {
                Insert::Done => {
                    &&& entries(Node::Internal(*final(x))) == joined
                    &&& wf_node(Node::Internal(*final(x)), h, lo, hi, order as nat, top)
                },
                Insert::Split { sep: s2, right: r2 } => {
                    &&& entries(Node::Internal(*final(x))) + entries(r2) == joined
                    &&& wf_node(Node::Internal(*final(x)), h, lo, Some(s2), order as nat, min_keys(order as nat))
                    &&& wf_node(r2, h, Some(s2), hi, order as nat, min_keys(order as nat))
                    &&& strictly_within(s2, lo, hi)
                },
                Insert::Replaced(_) => false,
            }
        }),
        (r is Split) == (old(x).keys@.len() + 1 == order),
        ({
            let fk = old(x).keys@.insert(idx as int, sep);
            let fc = old(x).children@.insert(idx + 1, right);
            let mid = (fk.len() / 2) as int;
            match r {
                Insert::Done => final(x).keys@ == fk && final(x).children@ == fc,
                Insert::Split { sep: s2, right: r2 } => {
                    &&& final(x).keys@ == fk.subrange(0, mid)
                    &&& final(x).children@ == fc.subrange(0, mid + 1)
                    &&& s2 == fk[mid]
                    &&& r2 matches Node::Internal(rx)
                    &&& rx.keys@ == fk.subrange(mid + 1, fk.len() as int)
                    &&& rx.children@ == fc.subrange(mid + 1, fc.len() as int)
                },
                Insert::Replaced(_) => false,
            }
        }),
{
    proof {
        lemma_absorb_children(x.keys@, x.children@, h, lo, hi, order as nat, idx as int, sep, right);
    }
    x.keys.insert(idx, sep);
    x.children.insert(idx + 1, right);
    proof {
        lemma_wf_internal(*x, h, lo, hi, order as nat, top);
    }
    if x.keys.len() < order {
        Insert::Done
    } else {
        // Move the median up: an internal separator routes only, so it need
        // not be kept in either half.
        let mid = x.keys.len() / 2;
        let ghost fk = x.keys@;
        let ghost fc = x.children@;
        proof {
            lemma_split_children(fk, fc, h, lo, hi, order as nat, mid as int);
        }
        let children = x.children.split_off(mid + 1);
        let keys = x.keys.split_off(mid + 1);
        let sep = x.keys.remove(mid);
        let right = Internal { keys, children };
        proof {
            assert(x.keys@ =~= fk.subrange(0, mid as int));
            assert(x.children@ =~= fc.subrange(0, mid + 1));
            assert(right.keys@ =~= fk.subrange(mid + 1, fk.len() as int));
            assert(right.children@ =~= fc.subrange(mid + 1, fc.len() as int));
            lemma_wf_internal(*x, h, lo, Some(sep), order as nat, min_keys(order as nat));
            lemma_wf_internal(right, h, Some(sep), hi, order as nat, min_keys(order as nat));
        }
        Insert::Split { sep, right: Node::Internal(right) }
    }
}

/// Insert into the subtree `node`, returning the outcome for the parent.
#[verifier::spinoff_prover]
#[verifier::rlimit(30)]
fn insert_into<K: Ord + Clone, V>(
    node: &mut Node<K, V>,
    key: K,
    value: V,
    order: usize,
    Ghost(h): Ghost<nat>,
    Ghost(lo): Ghost<Option<K>>,
    Ghost(hi): Ghost<Option<K>>,
    Ghost(top): Ghost<nat>,
) -> (r: Insert<K, V>)
    requires
        lawful_key::<K>(),
        order >= 3,
        top <= min_keys(order as nat),
        wf_node(*old(node), h, lo, hi, order as nat, top),
        within(key, lo, hi),
    ensures
        inserted(*old(node), *final(node), r, key, value, h, lo, hi, order as nat, top),
    decreases h,
{
    match node {
        Node::Leaf(leaf) => insert_leaf(leaf, key, value, order, Ghost(lo), Ghost(hi), Ghost(top)),
        Node::Internal(x) => {
            let ghost x0 = *x;
            let idx = x.child_index(&key);
            let ghost clo = child_lo(x0.keys@, idx as int, lo);
            let ghost chi = child_hi(x0.keys@, idx as int, hi);
            proof {
                lemma_routes_within(x0.keys@, key, idx as int, lo, hi);
                lemma_route(x0, h, lo, hi, order as nat, top, idx as int, key);
                lemma_key_order::<K>();
            }
            let r = insert_into(&mut x.children[idx], key, value, order, Ghost((h - 1) as nat), Ghost(clo), Ghost(chi), Ghost(min_keys(order as nat)));
            let ghost e = entries(Node::Internal(x0));
            let ghost ce = entries(x0.children@[idx as int]);
            let ghost a = before(x0.children@, idx as int);
            let ghost c = after(x0.children@, idx as int);
            proof {
                assert(x.keys@ == x0.keys@);
                assert(x.children@ == x0.children@.update(idx as int, x.children@[idx as int]));
                assert(x.children@.subrange(0, idx as int) =~= x0.children@.subrange(0, idx as int));
                assert(x.children@.subrange(idx + 1, x.children@.len() as int) =~= x0.children@.subrange(idx + 1, x0.children@.len() as int));
                lemma_seq_entries_split(x.children@, idx as int);
                crate::model::lemma_rank_sorted(ce, key);
            }
            match r {
                Insert::Split { sep, right } => {
                    let ghost left = x.children@[idx as int];
                    let out = absorb_split(x, idx, sep, right, order, Ghost(h), Ghost(lo), Ghost(hi), Ghost(top));
                    proof {
                        assert(x0.children@.update(idx as int, left).subrange(0, idx as int) =~= x0.children@.subrange(0, idx as int));
                        assert(x0.children@.update(idx as int, left).subrange(idx + 1, x0.children@.len() as int) =~= x0.children@.subrange(idx + 1, x0.children@.len() as int));
                        assert(a + entries(left) + entries(right) + c =~= a + (entries(left) + entries(right)) + c);
                        assert(a + ce.insert(rank(ce, key), (key, value)) + c =~= e.insert(rank(e, key), (key, value)));
                    }
                    out
                },
                Insert::Replaced(v) => {
                    proof {
                        assert(a + ce.update(rank(ce, key), (key, value)) + c =~= e.update(rank(e, key), (key, value)));
                        assert forall|j: int| 0 <= j < x.children@.len() implies wf_node(
                            #[trigger] x.children@[j], (h - 1) as nat, child_lo(x.keys@, j, lo), child_hi(x.keys@, j, hi), order as nat, min_keys(order as nat)) by {
                            if j != idx {
                                assert(x.children@[j] == x0.children@[j]);
                            }
                        }
                        lemma_wf_internal(*x, h, lo, hi, order as nat, top);
                    }
                    Insert::Replaced(v)
                },
                Insert::Done => {
                    proof {
                        assert(a + ce.insert(rank(ce, key), (key, value)) + c =~= e.insert(rank(e, key), (key, value)));
                        assert forall|j: int| 0 <= j < x.children@.len() implies wf_node(
                            #[trigger] x.children@[j], (h - 1) as nat, child_lo(x.keys@, j, lo), child_hi(x.keys@, j, hi), order as nat, min_keys(order as nat)) by {
                            if j != idx {
                                assert(x.children@[j] == x0.children@[j]);
                            }
                        }
                        lemma_wf_internal(*x, h, lo, hi, order as nat, top);
                    }
                    Insert::Done
                },
            }
        },
    }
}

/// Insert `key`/`value` into the tree rooted at `root`, returning the value it
/// displaced, if any. The root changes only when the tree grows a new level.
#[verifier::spinoff_prover]
pub fn insert<K: Ord + Clone, V>(root: &mut Node<K, V>, key: K, value: V, order: usize) -> (r: Option<V>)
    requires
        lawful_key::<K>(),
        wf_root(*old(root), order as nat),
    ensures
        wf_root(*final(root), order as nat),
        height_of(*final(root)) == height_of(*old(root)) || height_of(*final(root)) == height_of(*old(root)) + 1,
        r is Some ==> height_of(*final(root)) == height_of(*old(root)),
        height_of(*final(root)) == height_of(*old(root)) + 1 <==> (r is None && full_route(*old(root), key, order as nat)),
        height_of(*final(root)) == height_of(*old(root)) + 1 ==> {
            &&& r is None
            &&& *final(root) matches Node::Internal(nr)
            &&& nr.keys@.len() == 1
            &&& nr.children@.len() == 2
        },
        sorted_entries(entries(*old(root))),
        ({
            let e = entries(*old(root));
            match r {
                Some(v) => {
                    &&& keys_of(e).contains(key)
                    &&& v == map_of(e)[key]
                    &&& entries(*final(root)) == e.update(rank(e, key), (key, value))
                },
                None => {
                    &&& !keys_of(e).contains(key)
                    &&& entries(*final(root)) == e.insert(rank(e, key), (key, value))
                },
            }
        }),
{
    let ghost h = height_of(*root);
    let ghost top = root_top(*root);
    let ghost old_root = *root;
    proof {
        lemma_wf_sorted(*root, h, None, None, order as nat, top);
    }
    let r = insert_into(root, key, value, order, Ghost(h), Ghost(None), Ghost(None), Ghost(top));
    match r {
        Insert::Replaced(old) => {
            proof {
                lemma_wf_height(*root, h, None, None, order as nat, top);
            }
            Some(old)
        },
        Insert::Done => {
            proof {
                lemma_wf_height(*root, h, None, None, order as nat, top);
            }
            None
        },
        Insert::Split { sep, right } => {
            let mut left = Node::empty_leaf();
            core::mem::swap(root, &mut left);
            let mut keys = Vec::new();
            keys.push(sep);
            let mut children = Vec::new();
            children.push(left);
            children.push(right);
            let new_root = Internal { keys, children };
            proof {
                lemma_wf_height(left, h, None, Some(sep), order as nat, min_keys(order as nat));
                assert(new_root.children@[0] == left);
                assert(new_root.children@[1] == right);
                assert(child_lo(new_root.keys@, 0, None::<K>) == None::<K>);
                assert(child_hi(new_root.keys@, 0, None::<K>) == Some(sep));
                assert(child_lo(new_root.keys@, 1, None::<K>) == Some(sep));
                assert(child_hi(new_root.keys@, 1, None::<K>) == None::<K>);
                lemma_internal_wf(new_root, h + 1, None, None, order as nat, 1);
                assert(new_root.children@ =~= seq![left] + seq![right]);
                lemma_seq_entries_append(seq![left], seq![right]);
                lemma_seq_entries_single(left);
                lemma_seq_entries_single(right);
            }
            *root = Node::Internal(new_root);
            None
        },
    }
}

/// In `b`, one entry has moved from the end of child `j` of `a` to the front of
/// child `j + 1`, and the separator between them now names the key that moved
/// up; nothing else differs. Between leaves the entry itself moves; between
/// internal nodes the separator rotates down into the right child and the left
/// child's last separator rotates up, carrying its last child across.
pub open spec fn shifted_right<K, V>(a: Internal<K, V>, b: Internal<K, V>, j: int) -> bool {
    &&& b.keys@.len() == a.keys@.len()
    &&& b.children@.len() == a.children@.len()
    &&& forall|i: int| 0 <= i < a.keys@.len() && i != j ==> #[trigger] b.keys@[i] == a.keys@[i]
    &&& forall|i: int| 0 <= i < a.children@.len() && i != j && i != j + 1 ==> #[trigger] b.children@[i] == a.children@[i]
    &&& match (a.children@[j], a.children@[j + 1], b.children@[j], b.children@[j + 1]) {
        (Node::Leaf(l), Node::Leaf(c), Node::Leaf(l2), Node::Leaf(c2)) => {
            &&& l2.keys@ == l.keys@.drop_last()
            &&& l2.vals@ == l.vals@.drop_last()
            &&& c2.keys@ == c.keys@.insert(0, l.keys@.last())
            &&& c2.vals@ == c.vals@.insert(0, l.vals@.last())
            &&& b.keys@[j] == l.keys@.last()
        },
        (Node::Internal(l), Node::Internal(c), Node::Internal(l2), Node::Internal(c2)) => {
            &&& l2.keys@ == l.keys@.drop_last()
            &&& l2.children@ == l.children@.drop_last()
            &&& c2.keys@ == c.keys@.insert(0, a.keys@[j])
            &&& c2.children@ == c.children@.insert(0, l.children@.last())
            &&& b.keys@[j] == l.keys@.last()
        },
        _ => false,
    }
}

/// In `b`, one entry has moved from the front of child `j + 1` of `a` to the
/// end of child `j`; nothing else differs but the separator between them.
/// Between leaves the entry itself moves and the separator becomes the right
/// leaf's new first key; between internal nodes the separator rotates down into
/// the left child and the right child's first separator rotates up, carrying
/// its first child across.
pub open spec fn shifted_left<K, V>(a: Internal<K, V>, b: Internal<K, V>, j: int) -> bool {
    &&& b.keys@.len() == a.keys@.len()
    &&& b.children@.len() == a.children@.len()
    &&& forall|i: int| 0 <= i < a.keys@.len() && i != j ==> #[trigger] b.keys@[i] == a.keys@[i]
    &&& forall|i: int| 0 <= i < a.children@.len() && i != j && i != j + 1 ==> #[trigger] b.children@[i] == a.children@[i]
    &&& match (a.children@[j], a.children@[j + 1], b.children@[j], b.children@[j + 1]) {
        (Node::Leaf(c), Node::Leaf(r), Node::Leaf(c2), Node::Leaf(r2)) => {
            &&& c2.keys@ == c.keys@.push(r.keys@[0])
            &&& c2.vals@ == c.vals@.push(r.vals@[0])
            &&& r2.keys@ == r.keys@.remove(0)
            &&& r2.vals@ == r.vals@.remove(0)
            &&& r2.keys@.len() > 0
            &&& b.keys@[j] == r2.keys@[0]
        },
        (Node::Internal(c), Node::Internal(r), Node::Internal(c2), Node::Internal(r2)) => {
            &&& c2.keys@ == c.keys@.push(a.keys@[j])
            &&& c2.children@ == c.children@.push(r.children@[0])
            &&& r2.keys@ == r.keys@.remove(0)
            &&& r2.children@ == r.children@.remove(0)
            &&& b.keys@[j] == r.keys@[0]
        },
        _ => false,
    }
}

/// In `b`, child `j + 1` of `a` has been merged into child `j`: the separator
/// between them is gone from `b`'s keys, the merged child holds the left
/// child's content followed by the right's (with the separator pulled down
/// between them when they are internal), and every other child is as it was.
pub open spec fn merged_at<K, V>(a: Internal<K, V>, b: Internal<K, V>, j: int) -> bool {
    &&& b.keys@ == a.keys@.remove(j)
    &&& b.children@.len() + 1 == a.children@.len()
    &&& forall|i: int| 0 <= i < j ==> #[trigger] b.children@[i] == a.children@[i]
    &&& forall|i: int| j < i < b.children@.len() ==> #[trigger] b.children@[i] == a.children@[i + 1]
    &&& match (a.children@[j], a.children@[j + 1], b.children@[j]) {
        (Node::Leaf(l), Node::Leaf(r), Node::Leaf(m)) => {
            &&& m.keys@ == l.keys@ + r.keys@
            &&& m.vals@ == l.vals@ + r.vals@
        },
        (Node::Internal(l), Node::Internal(r), Node::Internal(m)) => {
            &&& m.keys@ == l.keys@.push(a.keys@[j]) + r.keys@
            &&& m.children@ == l.children@ + r.children@
        },
        _ => false,
    }
}

/// After a leaf borrows its left sibling's last entry, the two leaves and the
/// new separator between them form a well-formed window holding the same
/// entries.
proof fn lemma_borrow_left_leaves<K: Ord + Clone, V>(
    x: Internal<K, V>,
    idx: int,
    h: nat,
    lo: Option<K>,
    hi: Option<K>,
    order: nat,
    l: Leaf<K, V>,
    c: Leaf<K, V>,
    l2: Leaf<K, V>,
    c2: Leaf<K, V>,
)
    requires
        lawful_key::<K>(),
        underfull_at(x, idx, h, lo, hi, order),
        idx >= 1,
        x.children@[idx - 1] == Node::Leaf(l),
        x.children@[idx] == Node::Leaf(c),
        l.keys@.len() > min_keys(order),
        l2.keys@ == l.keys@.drop_last(),
        l2.vals@ == l.vals@.drop_last(),
        c2.keys@ == c.keys@.insert(0, l.keys@.last()),
        c2.vals@ == c.vals@.insert(0, l.vals@.last()),
    ensures
        window_ok(x.keys@, x.children@, h, lo, hi, order, idx - 1, seq![l.keys@.last()], seq![Node::Leaf(l2), Node::Leaf(c2)]),
        leaf_entries(l2) + leaf_entries(c2) == leaf_entries(l) + leaf_entries(c),
{
    lemma_key_order::<K>();
    let keys = x.keys@;
    let cs = x.children@;
    let m = min_keys(order);
    let n = l.keys@.len() - 1;
    let k = l.keys@[n];
    let lk = l2.keys@;
    let ck = c2.keys@;
    let clo = child_lo(keys, idx - 1, lo);
    let chi = child_hi(keys, idx, hi);
    let s = keys[idx - 1];
    assert(wf_node(cs[idx - 1], (h - 1) as nat, clo, Some(s), order, m));
    assert(h - 1 == 0);
    assert(within(k, clo, Some(s)));
    assert forall|i: int| 0 <= i < lk.len() implies within(#[trigger] lk[i], clo, Some(k)) by {
        assert(lk[i] == l.keys@[i]);
        assert(lt(l.keys@[i], l.keys@[n]));
    }
    assert(sorted(lk));
    assert(wf_node(Node::Leaf(l2), 0, clo, Some(k), order, m));
    assert(wf_node(cs[idx], 0, Some(s), chi, order, (m - 1) as nat));
    assert(lt(k, s));
    assert(below(s, chi)) by {
        if idx < keys.len() {
            assert(lt(s, keys[idx]));
        } else {
            assert(within(s, lo, hi));
        }
    }
    assert forall|i: int| 0 <= i < ck.len() implies within(#[trigger] ck[i], Some(k), chi) by {
        if i > 0 {
            assert(ck[i] == c.keys@[i - 1]);
            assert(within(c.keys@[i - 1], Some(s), chi));
            assert(lt(c.keys@[i - 1], s) || c.keys@[i - 1] == s || lt(s, c.keys@[i - 1]));
        }
    }
    assert forall|a: int, b: int| 0 <= a < b < ck.len() implies lt(#[trigger] ck[a], #[trigger] ck[b]) by {
        if a > 0 {
            assert(ck[a] == c.keys@[a - 1]);
            assert(ck[b] == c.keys@[b - 1]);
        } else {
            assert(ck[b] == c.keys@[b - 1]);
            assert(within(c.keys@[b - 1], Some(s), chi));
            assert(lt(c.keys@[b - 1], s) || c.keys@[b - 1] == s || lt(s, c.keys@[b - 1]));
        }
    }
    assert(wf_node(Node::Leaf(c2), 0, Some(k), chi, order, m));
    let wk = seq![k];
    let wc = seq![Node::Leaf(l2), Node::Leaf(c2)];
    assert(child_lo(wk, 0, clo) == clo);
    assert(child_hi(wk, 0, chi) == Some(k));
    assert(child_lo(wk, 1, clo) == Some(k));
    assert(child_hi(wk, 1, chi) == chi);
    assert(within(k, clo, chi));
    assert(leaf_entries(l2) + leaf_entries(c2) =~= leaf_entries(l) + leaf_entries(c));
}

/// After an internal node borrows its left sibling's last child, with the old
/// separator moving down and the sibling's last separator moving up, the two
/// nodes and the new separator form a well-formed window holding the same
/// entries.
proof fn lemma_borrow_left_internals<K: Ord + Clone, V>(
    x: Internal<K, V>,
    idx: int,
    h: nat,
    lo: Option<K>,
    hi: Option<K>,
    order: nat,
    l: Internal<K, V>,
    c: Internal<K, V>,
    l2: Internal<K, V>,
    c2: Internal<K, V>,
)
    requires
        lawful_key::<K>(),
        underfull_at(x, idx, h, lo, hi, order),
        idx >= 1,
        x.children@[idx - 1] == Node::Internal(l),
        x.children@[idx] == Node::Internal(c),
        l.keys@.len() > min_keys(order),
        l2.keys@ == l.keys@.drop_last(),
        l2.children@ == l.children@.drop_last(),
        c2.keys@ == c.keys@.insert(0, x.keys@[idx - 1]),
        c2.children@ == c.children@.insert(0, l.children@.last()),
    ensures
        window_ok(x.keys@, x.children@, h, lo, hi, order, idx - 1, seq![l.keys@.last()], seq![Node::Internal(l2), Node::Internal(c2)]),
        entries(Node::Internal(l2)) + entries(Node::Internal(c2)) == entries(Node::Internal(l)) + entries(Node::Internal(c)),
{
    lemma_key_order::<K>();
    let keys = x.keys@;
    let cs = x.children@;
    let m = min_keys(order);
    let n = l.keys@.len() - 1;
    let ns = l.keys@[n];
    let s = keys[idx - 1];
    let clo = child_lo(keys, idx - 1, lo);
    let chi = child_hi(keys, idx, hi);
    let hc = (h - 1) as nat;
    assert(wf_node(cs[idx - 1], hc, clo, Some(s), order, m));
    assert(wf_node(cs[idx], hc, Some(s), chi, order, (m - 1) as nat));
    lemma_wf_internal(l, hc, clo, Some(s), order, m);
    lemma_wf_internal(c, hc, Some(s), chi, order, (m - 1) as nat);
    lemma_split_children(l.keys@, l.children@, hc, clo, Some(s), order, n);
    let moved = l.children@.last();
    assert(l.keys@.subrange(0, n) =~= l2.keys@);
    assert(l.children@.subrange(0, n + 1) =~= l2.children@);
    assert(l.keys@.subrange(n + 1, l.keys@.len() as int) =~= Seq::<K>::empty());
    assert(l.children@.subrange(n + 1, l.children@.len() as int) =~= seq![moved]);
    assert(within(ns, clo, Some(s)));
    assert(below(s, chi)) by {
        if idx < keys.len() {
            assert(lt(s, keys[idx]));
        } else {
            assert(within(s, lo, hi));
        }
    }
    lemma_join_children(Seq::<K>::empty(), seq![moved], s, c.keys@, c.children@, hc, Some(ns), chi, order);
    assert(Seq::<K>::empty().push(s) + c.keys@ =~= c2.keys@);
    assert(seq![moved] + c.children@ =~= c2.children@);
    lemma_wf_internal(l2, hc, clo, Some(ns), order, m);
    lemma_wf_internal(c2, hc, Some(ns), chi, order, m);
    let wk = seq![ns];
    assert(child_lo(wk, 0, clo) == clo);
    assert(child_hi(wk, 0, chi) == Some(ns));
    assert(child_lo(wk, 1, clo) == Some(ns));
    assert(child_hi(wk, 1, chi) == chi);
    assert(within(ns, clo, chi)) by {
        if let Some(u) = chi {
            assert(lt(ns, s));
        }
    }
    lemma_seq_entries_single(moved);
    assert(entries(Node::Internal(l2)) + entries(Node::Internal(c2)) =~= entries(Node::Internal(l)) + entries(Node::Internal(c)));
}

/// Move one entry from the left sibling into the front of the under-full
/// child `idx`, updating the separator between them.
#[verifier::spinoff_prover]
fn borrow_from_left<K: Ord + Clone, V>(
    x: &mut Internal<K, V>,
    idx: usize,
    Ghost(h): Ghost<nat>,
    Ghost(lo): Ghost<Option<K>>,
    Ghost(hi): Ghost<Option<K>>,
    Ghost(order): Ghost<nat>,
)
    requires
        lawful_key::<K>(),
        underfull_at(*old(x), idx as int, h, lo, hi, order),
        idx >= 1,
        node_keys(old(x).children@[idx - 1]) > min_keys(order),
    ensures
        shifted_right(*old(x), *final(x), idx - 1),
        entries(Node::Internal(*final(x))) == entries(Node::Internal(*old(x))),
        wf_children(final(x).keys@, final(x).children@, h, lo, hi, order),
        final(x).keys@.len() == old(x).keys@.len(),
{
    let ghost x0 = *x;
    let ghost keys = x0.keys@;
    let ghost cs = x0.children@;
    let ghost m = min_keys(order);
    proof {
        assert(wf_node(cs[idx - 1], (h - 1) as nat, child_lo(keys, idx - 1, lo), child_hi(keys, idx - 1, hi), order, m));
        lemma_window_entries(cs, idx - 1, seq![cs[idx - 1], cs[idx as int]]);
    }
    if x.children[idx].as_leaf().is_some() {
        let ghost l = match cs[idx - 1] { Node::Leaf(l) => l, Node::Internal(_) => arbitrary() };
        let ghost c = match cs[idx as int] { Node::Leaf(c) => c, Node::Internal(_) => arbitrary() };
        let moved = match &mut x.children[idx - 1] {
            Node::Leaf(node) => match (node.keys.pop(), node.vals.pop()) {
                (Some(k), Some(v)) => Some((k, v)),
                _ => None,
            },
            Node::Internal(_) => None,
        };
        if let Some((k, v)) = moved {
            let ghost l2 = match x.children@[idx - 1] { Node::Leaf(l2) => l2, Node::Internal(_) => arbitrary() };
            if let Node::Leaf(node) = &mut x.children[idx] {
                node.keys.insert(0, clone_key(&k));
                node.vals.insert(0, v);
            }
            let ghost c2 = match x.children@[idx as int] { Node::Leaf(c2) => c2, Node::Internal(_) => arbitrary() };
            x.keys.set(idx - 1, k);
            proof {
                lemma_borrow_left_leaves(x0, idx as int, h, lo, hi, order, l, c, l2, c2);
                let wk = seq![k];
                let wc = seq![Node::Leaf(l2), Node::Leaf(c2)];
                lemma_replace_window(keys, cs, h, lo, hi, order, idx - 1, wk, wc);
                lemma_window_entries(cs, idx - 1, wc);
                assert(x.keys@ =~= window_keys(keys, idx - 1, wk));
                assert(x.children@ =~= window_children(cs, idx - 1, wc));
                lemma_seq_entries_append(seq![Node::Leaf(l2)], seq![Node::Leaf(c2)]);
                lemma_seq_entries_single(Node::Leaf(l2));
                lemma_seq_entries_single(Node::Leaf(c2));
                assert(seq![Node::Leaf(l2)] + seq![Node::Leaf(c2)] =~= wc);
            }
        } else {
            proof {
                assert(false);
            }
        }
    } else {
        let ghost l = match cs[idx - 1] { Node::Internal(l) => l, Node::Leaf(_) => arbitrary() };
        let ghost c = match cs[idx as int] { Node::Internal(c) => c, Node::Leaf(_) => arbitrary() };
        let sep = clone_key(&x.keys[idx - 1]);
        let (moved_child, new_sep) = match &mut x.children[idx - 1] {
            Node::Internal(node) => (node.children.pop(), node.keys.pop()),
            Node::Leaf(_) => (None, None),
        };
        let ghost l2 = match x.children@[idx - 1] { Node::Internal(l2) => l2, Node::Leaf(_) => arbitrary() };
        if let Node::Internal(node) = &mut x.children[idx] {
            node.keys.insert(0, sep);
            if let Some(moved) = moved_child {
                node.children.insert(0, moved);
            }
        }
        let ghost c2 = match x.children@[idx as int] { Node::Internal(c2) => c2, Node::Leaf(_) => arbitrary() };
        if let Some(ns) = new_sep {
            x.keys.set(idx - 1, ns);
            proof {
                lemma_borrow_left_internals(x0, idx as int, h, lo, hi, order, l, c, l2, c2);
                let wk = seq![ns];
                let wc = seq![Node::Internal(l2), Node::Internal(c2)];
                lemma_replace_window(keys, cs, h, lo, hi, order, idx - 1, wk, wc);
                lemma_window_entries(cs, idx - 1, wc);
                assert(x.keys@ =~= window_keys(keys, idx - 1, wk));
                assert(x.children@ =~= window_children(cs, idx - 1, wc));
                lemma_seq_entries_append(seq![Node::Internal(l2)], seq![Node::Internal(c2)]);
                lemma_seq_entries_single(Node::Internal(l2));
                lemma_seq_entries_single(Node::Internal(c2));
                assert(seq![Node::Internal(l2)] + seq![Node::Internal(c2)] =~= wc);
            }
        } else {
            proof {
                assert(false);
            }
        }
    }
}

/// After a leaf borrows its right sibling's first entry, the two leaves and
/// the new separator (the sibling's new first key) form a well-formed window
/// holding the same entries.
proof fn lemma_borrow_right_leaves<K: Ord + Clone, V>(
    x: Internal<K, V>,
    idx: int,
    h: nat,
    lo: Option<K>,
    hi: Option<K>,
    order: nat,
    c: Leaf<K, V>,
    r: Leaf<K, V>,
    c2: Leaf<K, V>,
    r2: Leaf<K, V>,
)
    requires
        lawful_key::<K>(),
        underfull_at(x, idx, h, lo, hi, order),
        idx + 1 < x.children@.len(),
        x.children@[idx] == Node::Leaf(c),
        x.children@[idx + 1] == Node::Leaf(r),
        r.keys@.len() > min_keys(order),
        c2.keys@ == c.keys@.push(r.keys@[0]),
        c2.vals@ == c.vals@.push(r.vals@[0]),
        r2.keys@ == r.keys@.remove(0),
        r2.vals@ == r.vals@.remove(0),
    ensures
        r2.keys@.len() > 0,
        window_ok(x.keys@, x.children@, h, lo, hi, order, idx, seq![r2.keys@[0]], seq![Node::Leaf(c2), Node::Leaf(r2)]),
        leaf_entries(c2) + leaf_entries(r2) == leaf_entries(c) + leaf_entries(r),
{
    lemma_key_order::<K>();
    let keys = x.keys@;
    let cs = x.children@;
    let m = min_keys(order);
    let s = keys[idx];
    let clo = child_lo(keys, idx, lo);
    let chi = child_hi(keys, idx + 1, hi);
    let r0 = r.keys@[0];
    let r1 = r.keys@[1];
    assert(wf_node(cs[idx + 1], (h - 1) as nat, Some(s), chi, order, m));
    assert(h - 1 == 0);
    assert(wf_node(cs[idx], 0, clo, Some(s), order, (m - 1) as nat));
    assert(lt(r0, r1));
    assert(within(r0, Some(s), chi));
    assert(within(r1, Some(s), chi));
    let ck = c2.keys@;
    let rk = r2.keys@;
    assert(rk[0] == r1);
    assert forall|i: int| 0 <= i < ck.len() implies within(#[trigger] ck[i], clo, Some(r1)) by {
        if i < c.keys@.len() {
            assert(ck[i] == c.keys@[i]);
            assert(within(c.keys@[i], clo, Some(s)));
            assert(lt(c.keys@[i], s));
            assert(lt(s, r0) || s == r0 || lt(r0, s));
        } else {
            assert(ck[i] == r0);
            if let Some(l) = clo {
                if idx > 0 {
                    assert(within(keys[idx - 1], lo, hi));
                    assert(lt(keys[idx - 1], s));
                } else {
                    assert(within(s, lo, hi));
                }
                assert(lt(s, r0) || s == r0 || lt(r0, s));
            }
        }
    }
    assert forall|a: int, b: int| 0 <= a < b < ck.len() implies lt(#[trigger] ck[a], #[trigger] ck[b]) by {
        if b < c.keys@.len() {
            assert(ck[a] == c.keys@[a] && ck[b] == c.keys@[b]);
        } else {
            assert(ck[a] == c.keys@[a]);
            assert(within(c.keys@[a], clo, Some(s)));
            assert(lt(s, r0) || s == r0 || lt(r0, s));
        }
    }
    assert(wf_node(Node::Leaf(c2), 0, clo, Some(r1), order, m));
    assert forall|i: int| 0 <= i < rk.len() implies within(#[trigger] rk[i], Some(r1), chi) by {
        assert(rk[i] == r.keys@[i + 1]);
        if i > 0 {
            assert(lt(r.keys@[1], r.keys@[i + 1]));
        }
    }
    assert forall|a: int, b: int| 0 <= a < b < rk.len() implies lt(#[trigger] rk[a], #[trigger] rk[b]) by {
        assert(rk[a] == r.keys@[a + 1] && rk[b] == r.keys@[b + 1]);
    }
    assert(wf_node(Node::Leaf(r2), 0, Some(r1), chi, order, m));
    let wk = seq![r1];
    assert(child_lo(wk, 0, clo) == clo);
    assert(child_hi(wk, 0, chi) == Some(r1));
    assert(child_lo(wk, 1, clo) == Some(r1));
    assert(child_hi(wk, 1, chi) == chi);
    assert(within(r1, clo, chi)) by {
        if let Some(l) = clo {
            if idx > 0 {
                assert(within(keys[idx - 1], lo, hi));
                assert(lt(keys[idx - 1], s));
            } else {
                assert(within(s, lo, hi));
            }
            assert(lt(s, r1) || s == r1 || lt(r1, s));
        }
    }
    assert(leaf_entries(c2) + leaf_entries(r2) =~= leaf_entries(c) + leaf_entries(r));
}

/// After an internal node borrows its right sibling's first child, with the
/// old separator moving down and the sibling's first separator moving up, the
/// two nodes and the new separator form a well-formed window holding the same
/// entries.
proof fn lemma_borrow_right_internals<K: Ord + Clone, V>(
    x: Internal<K, V>,
    idx: int,
    h: nat,
    lo: Option<K>,
    hi: Option<K>,
    order: nat,
    c: Internal<K, V>,
    r: Internal<K, V>,
    c2: Internal<K, V>,
    r2: Internal<K, V>,
)
    requires
        lawful_key::<K>(),
        underfull_at(x, idx, h, lo, hi, order),
        idx + 1 < x.children@.len(),
        x.children@[idx] == Node::Internal(c),
        x.children@[idx + 1] == Node::Internal(r),
        r.keys@.len() > min_keys(order),
        c2.keys@ == c.keys@.push(x.keys@[idx]),
        c2.children@ == c.children@.push(r.children@[0]),
        r2.keys@ == r.keys@.remove(0),
        r2.children@ == r.children@.remove(0),
    ensures
        window_ok(x.keys@, x.children@, h, lo, hi, order, idx, seq![r.keys@[0]], seq![Node::Internal(c2), Node::Internal(r2)]),
        entries(Node::Internal(c2)) + entries(Node::Internal(r2)) == entries(Node::Internal(c)) + entries(Node::Internal(r)),
{
    lemma_key_order::<K>();
    let keys = x.keys@;
    let cs = x.children@;
    let m = min_keys(order);
    let s = keys[idx];
    let ns = r.keys@[0];
    let clo = child_lo(keys, idx, lo);
    let chi = child_hi(keys, idx + 1, hi);
    let hc = (h - 1) as nat;
    assert(wf_node(cs[idx + 1], hc, Some(s), chi, order, m));
    assert(wf_node(cs[idx], hc, clo, Some(s), order, (m - 1) as nat));
    lemma_wf_internal(r, hc, Some(s), chi, order, m);
    lemma_wf_internal(c, hc, clo, Some(s), order, (m - 1) as nat);
    lemma_split_children(r.keys@, r.children@, hc, Some(s), chi, order, 0);
    let moved = r.children@[0];
    assert(r.keys@.subrange(0, 0) =~= Seq::<K>::empty());
    assert(r.children@.subrange(0, 1) =~= seq![moved]);
    assert(r.keys@.subrange(1, r.keys@.len() as int) =~= r2.keys@);
    assert(r.children@.subrange(1, r.children@.len() as int) =~= r2.children@);
    assert(strictly_within(ns, Some(s), chi));
    assert(within(s, clo, Some(ns))) by {
        if idx > 0 {
            assert(within(keys[idx - 1], lo, hi));
            assert(lt(keys[idx - 1], s));
        } else {
            assert(within(s, lo, hi));
        }
    }
    lemma_join_children(c.keys@, c.children@, s, Seq::<K>::empty(), seq![moved], hc, clo, Some(ns), order);
    assert(c.keys@.push(s) + Seq::<K>::empty() =~= c2.keys@);
    assert(c.children@ + seq![moved] =~= c2.children@);
    lemma_wf_internal(c2, hc, clo, Some(ns), order, m);
    lemma_wf_internal(r2, hc, Some(ns), chi, order, m);
    let wk = seq![ns];
    assert(child_lo(wk, 0, clo) == clo);
    assert(child_hi(wk, 0, chi) == Some(ns));
    assert(child_lo(wk, 1, clo) == Some(ns));
    assert(child_hi(wk, 1, chi) == chi);
    assert(within(ns, clo, chi)) by {
        if let Some(l) = clo {
            assert(!lt(s, l));
            assert(lt(s, ns));
            assert(lt(ns, l) || ns == l || lt(l, ns));
        }
    }
    lemma_seq_entries_single(moved);
    assert(r.children@ =~= seq![moved] + r2.children@);
    lemma_seq_entries_append(seq![moved], r2.children@);
    assert(entries(Node::Internal(c2)) + entries(Node::Internal(r2)) =~= entries(Node::Internal(c)) + entries(Node::Internal(r)));
}

/// Move one entry from the right sibling into the back of the under-full
/// child `idx`, updating the separator between them.
#[verifier::spinoff_prover]
fn borrow_from_right<K: Ord + Clone, V>(
    x: &mut Internal<K, V>,
    idx: usize,
    Ghost(h): Ghost<nat>,
    Ghost(lo): Ghost<Option<K>>,
    Ghost(hi): Ghost<Option<K>>,
    Ghost(order): Ghost<nat>,
)
    requires
        lawful_key::<K>(),
        underfull_at(*old(x), idx as int, h, lo, hi, order),
        idx + 1 < old(x).children@.len(),
        node_keys(old(x).children@[idx + 1]) > min_keys(order),
    ensures
        shifted_left(*old(x), *final(x), idx as int),
        entries(Node::Internal(*final(x))) == entries(Node::Internal(*old(x))),
        wf_children(final(x).keys@, final(x).children@, h, lo, hi, order),
        final(x).keys@.len() == old(x).keys@.len(),
{
    let ghost x0 = *x;
    let ghost keys = x0.keys@;
    let ghost cs = x0.children@;
    let ghost m = min_keys(order);
    proof {
        assert(wf_node(cs[idx + 1], (h - 1) as nat, child_lo(keys, idx + 1, lo), child_hi(keys, idx + 1, hi), order, m));
        lemma_window_entries(cs, idx as int, seq![cs[idx as int], cs[idx + 1]]);
        assert(idx + 1 < x.children.len());
    }
    if x.children[idx].as_leaf().is_some() {
        let ghost c = match cs[idx as int] { Node::Leaf(c) => c, Node::Internal(_) => arbitrary() };
        let ghost r = match cs[idx + 1] { Node::Leaf(r) => r, Node::Internal(_) => arbitrary() };
        let moved = match &mut x.children[idx + 1] {
            Node::Leaf(node) => if node.keys.len() == 0 {
                None
            } else {
                Some((node.keys.remove(0), node.vals.remove(0)))
            },
            Node::Internal(_) => None,
        };
        if let Some((k, v)) = moved {
            let ghost r2 = match x.children@[idx + 1] { Node::Leaf(r2) => r2, Node::Internal(_) => arbitrary() };
            if let Node::Leaf(node) = &mut x.children[idx] {
                node.keys.push(k);
                node.vals.push(v);
            }
            let ghost c2 = match x.children@[idx as int] { Node::Leaf(c2) => c2, Node::Internal(_) => arbitrary() };
            let new_sep = match &x.children[idx + 1] {
                Node::Leaf(node) => if node.keys.len() > 0 {
                    Some(clone_key(&node.keys[0]))
                } else {
                    None
                },
                Node::Internal(_) => None,
            };
            proof {
                lemma_borrow_right_leaves(x0, idx as int, h, lo, hi, order, c, r, c2, r2);
            }
            if let Some(ns) = new_sep {
                x.keys.set(idx, ns);
                proof {
                    let wk = seq![ns];
                    let wc = seq![Node::Leaf(c2), Node::Leaf(r2)];
                    lemma_replace_window(keys, cs, h, lo, hi, order, idx as int, wk, wc);
                    lemma_window_entries(cs, idx as int, wc);
                    assert(x.keys@ =~= window_keys(keys, idx as int, wk));
                    assert(x.children@ =~= window_children(cs, idx as int, wc));
                    lemma_seq_entries_append(seq![Node::Leaf(c2)], seq![Node::Leaf(r2)]);
                    lemma_seq_entries_single(Node::Leaf(c2));
                    lemma_seq_entries_single(Node::Leaf(r2));
                    assert(seq![Node::Leaf(c2)] + seq![Node::Leaf(r2)] =~= wc);
                }
            } else {
                proof {
                    assert(false);
                }
            }
        } else {
            proof {
                assert(false);
            }
        }
    } else {
        let ghost c = match cs[idx as int] { Node::Internal(c) => c, Node::Leaf(_) => arbitrary() };
        let ghost r = match cs[idx + 1] { Node::Internal(r) => r, Node::Leaf(_) => arbitrary() };
        let sep = clone_key(&x.keys[idx]);
        let moved_child = match &mut x.children[idx + 1] {
            Node::Internal(node) => if node.children.len() == 0 {
                None
            } else {
                Some(node.children.remove(0))
            },
            Node::Leaf(_) => None,
        };
        if let Node::Internal(node) = &mut x.children[idx] {
            node.keys.push(sep);
            if let Some(moved) = moved_child {
                node.children.push(moved);
            }
        }
        let ghost c2 = match x.children@[idx as int] { Node::Internal(c2) => c2, Node::Leaf(_) => arbitrary() };
        let new_sep = match &mut x.children[idx + 1] {
            Node::Internal(node) => if node.keys.len() == 0 {
                None
            } else {
                Some(node.keys.remove(0))
            },
            Node::Leaf(_) => None,
        };
        let ghost r2 = match x.children@[idx + 1] { Node::Internal(r2) => r2, Node::Leaf(_) => arbitrary() };
        if let Some(ns) = new_sep {
            x.keys.set(idx, ns);
            proof {
                lemma_borrow_right_internals(x0, idx as int, h, lo, hi, order, c, r, c2, r2);
                let wk = seq![ns];
                let wc = seq![Node::Internal(c2), Node::Internal(r2)];
                lemma_replace_window(keys, cs, h, lo, hi, order, idx as int, wk, wc);
                lemma_window_entries(cs, idx as int, wc);
                assert(x.keys@ =~= window_keys(keys, idx as int, wk));
                assert(x.children@ =~= window_children(cs, idx as int, wc));
                lemma_seq_entries_append(seq![Node::Internal(c2)], seq![Node::Internal(r2)]);
                lemma_seq_entries_single(Node::Internal(c2));
                lemma_seq_entries_single(Node::Internal(r2));
                assert(seq![Node::Internal(c2)] + seq![Node::Internal(r2)] =~= wc);
            }
        } else {
            proof {
                assert(false);
            }
        }
    }
}

/// Twice the minimum occupancy stays below the fan-out, so two siblings that
/// could not lend a key fit in one node.
proof fn lemma_min_keys_fit(order: nat)
    requires
        order >= 3,
    ensures
        1 <= min_keys(order),
        2 * min_keys(order) + 1 <= order,
        min_keys(order) <= order / 2,
        min_keys(order) + order / 2 + 1 == order,
{
}

/// Merging two neighbouring leaves, one under-full and the other unable to
/// lend, gives one well-formed leaf over both their intervals.
proof fn lemma_merge_leaves<K: Ord + Clone, V>(
    x: Internal<K, V>,
    idx: int,
    j: int,
    h: nat,
    lo: Option<K>,
    hi: Option<K>,
    order: nat,
    l: Leaf<K, V>,
    r: Leaf<K, V>,
    m2: Leaf<K, V>,
)
    requires
        lawful_key::<K>(),
        underfull_at(x, idx, h, lo, hi, order),
        j == idx - 1 || j == idx,
        0 <= j,
        j + 1 < x.children@.len(),
        x.children@[j] == Node::Leaf(l),
        x.children@[j + 1] == Node::Leaf(r),
        node_keys(x.children@[j]) + node_keys(x.children@[j + 1]) + 1 <= 2 * min_keys(order),
        m2.keys@ == l.keys@ + r.keys@,
        m2.vals@ == l.vals@ + r.vals@,
    ensures
        window_ok(x.keys@, x.children@, h, lo, hi, order, j, Seq::<K>::empty(), seq![Node::Leaf(m2)]),
        leaf_entries(m2) == leaf_entries(l) + leaf_entries(r),
{
    lemma_key_order::<K>();
    lemma_min_keys_fit(order);
    let keys = x.keys@;
    let cs = x.children@;
    let m = min_keys(order);
    let s = keys[j];
    let clo = child_lo(keys, j, lo);
    let chi = child_hi(keys, j + 1, hi);
    assert(wf_node(cs[j], (h - 1) as nat, clo, Some(s), order, (m - 1) as nat));
    assert(wf_node(cs[j + 1], (h - 1) as nat, Some(s), chi, order, (m - 1) as nat));
    assert(h - 1 == 0);
    let mk = m2.keys@;
    let nl = l.keys@.len() as int;
    assert(below(s, chi)) by {
        if j + 1 < keys.len() {
            assert(lt(s, keys[j + 1]));
        } else {
            assert(within(s, lo, hi));
        }
    }
    assert(above(s, clo)) by {
        if j > 0 {
            assert(lt(keys[j - 1], s));
        } else {
            assert(within(s, lo, hi));
        }
    }
    assert forall|i: int| 0 <= i < mk.len() implies within(#[trigger] mk[i], clo, chi) by {
        if i < nl {
            assert(mk[i] == l.keys@[i]);
            assert(within(l.keys@[i], clo, Some(s)));
        } else {
            assert(mk[i] == r.keys@[i - nl]);
            assert(within(r.keys@[i - nl], Some(s), chi));
            if let Some(lb) = clo {
                assert(lt(r.keys@[i - nl], lb) || r.keys@[i - nl] == lb || lt(lb, r.keys@[i - nl]));
            }
        }
    }
    assert forall|a: int, b: int| 0 <= a < b < mk.len() implies lt(#[trigger] mk[a], #[trigger] mk[b]) by {
        if b < nl {
            assert(mk[a] == l.keys@[a] && mk[b] == l.keys@[b]);
        } else if a >= nl {
            assert(mk[a] == r.keys@[a - nl] && mk[b] == r.keys@[b - nl]);
        } else {
            assert(mk[a] == l.keys@[a] && mk[b] == r.keys@[b - nl]);
            assert(within(l.keys@[a], clo, Some(s)));
            assert(within(r.keys@[b - nl], Some(s), chi));
            assert(lt(r.keys@[b - nl], s) || r.keys@[b - nl] == s || lt(s, r.keys@[b - nl]));
        }
    }
    assert(wf_node(Node::Leaf(m2), 0, clo, chi, order, m));
    let wk = Seq::<K>::empty();
    assert(child_lo(wk, 0, clo) == clo);
    assert(child_hi(wk, 0, chi) == chi);
    assert(leaf_entries(m2) =~= leaf_entries(l) + leaf_entries(r));
}

/// Merging two neighbouring internal nodes around the separator between
/// them, one under-full and the other unable to lend, gives one well-formed
/// node over both their intervals.
proof fn lemma_merge_internals<K: Ord + Clone, V>(
    x: Internal<K, V>,
    idx: int,
    j: int,
    h: nat,
    lo: Option<K>,
    hi: Option<K>,
    order: nat,
    l: Internal<K, V>,
    r: Internal<K, V>,
    m2: Internal<K, V>,
)
    requires
        lawful_key::<K>(),
        underfull_at(x, idx, h, lo, hi, order),
        j == idx - 1 || j == idx,
        0 <= j,
        j + 1 < x.children@.len(),
        x.children@[j] == Node::Internal(l),
        x.children@[j + 1] == Node::Internal(r),
        node_keys(x.children@[j]) + node_keys(x.children@[j + 1]) + 1 <= 2 * min_keys(order),
        m2.keys@ == l.keys@.push(x.keys@[j]) + r.keys@,
        m2.children@ == l.children@ + r.children@,
    ensures
        window_ok(x.keys@, x.children@, h, lo, hi, order, j, Seq::<K>::empty(), seq![Node::Internal(m2)]),
        entries(Node::Internal(m2)) == entries(Node::Internal(l)) + entries(Node::Internal(r)),
{
    lemma_key_order::<K>();
    lemma_min_keys_fit(order);
    let keys = x.keys@;
    let cs = x.children@;
    let m = min_keys(order);
    let s = keys[j];
    let clo = child_lo(keys, j, lo);
    let chi = child_hi(keys, j + 1, hi);
    let hc = (h - 1) as nat;
    assert(wf_node(cs[j], hc, clo, Some(s), order, (m - 1) as nat));
    assert(wf_node(cs[j + 1], hc, Some(s), chi, order, (m - 1) as nat));
    lemma_wf_internal(l, hc, clo, Some(s), order, (m - 1) as nat);
    lemma_wf_internal(r, hc, Some(s), chi, order, (m - 1) as nat);
    assert(within(s, clo, chi)) by {
        if j + 1 < keys.len() {
            assert(lt(s, keys[j + 1]));
        } else {
            assert(within(s, lo, hi));
        }
        if j > 0 {
            assert(lt(keys[j - 1], s));
        }
    }
    lemma_join_children(l.keys@, l.children@, s, r.keys@, r.children@, hc, clo, chi, order);
    lemma_wf_internal(m2, hc, clo, chi, order, m);
    let wk = Seq::<K>::empty();
    assert(child_lo(wk, 0, clo) == clo);
    assert(child_hi(wk, 0, chi) == chi);
}

/// Merge the child at `sep_idx + 1` into the child at `sep_idx`, consuming the
/// separator between them. This node loses one separator and one child.
#[verifier::spinoff_prover]
fn merge<K: Ord + Clone, V>(
    x: &mut Internal<K, V>,
    sep_idx: usize,
    Ghost(idx): Ghost<int>,
    Ghost(h): Ghost<nat>,
    Ghost(lo): Ghost<Option<K>>,
    Ghost(hi): Ghost<Option<K>>,
    Ghost(order): Ghost<nat>,
)
    requires
        lawful_key::<K>(),
        underfull_at(*old(x), idx, h, lo, hi, order),
        sep_idx == idx - 1 || sep_idx == idx,
        sep_idx + 1 < old(x).children@.len(),
        node_keys(old(x).children@[sep_idx as int]) + node_keys(old(x).children@[sep_idx + 1]) + 1 <= 2 * min_keys(order),
    ensures
        merged_at(*old(x), *final(x), sep_idx as int),
        entries(Node::Internal(*final(x))) == entries(Node::Internal(*old(x))),
        wf_children(final(x).keys@, final(x).children@, h, lo, hi, order),
        final(x).keys@.len() + 1 == old(x).keys@.len(),
{
    let ghost x0 = *x;
    let ghost keys = x0.keys@;
    let ghost cs = x0.children@;
    let j = sep_idx;
    proof {
        lemma_window_entries(cs, j as int, seq![cs[j as int], cs[j + 1]]);
        assert(j + 1 < x.children.len());
        assert(wf_node(cs[j as int], (h - 1) as nat, child_lo(keys, j as int, lo), child_hi(keys, j as int, hi), order, (min_keys(order) - 1) as nat));
        assert(wf_node(cs[j + 1], (h - 1) as nat, child_lo(keys, j + 1, lo), child_hi(keys, j + 1, hi), order, (min_keys(order) - 1) as nat));
    }
    let sep = x.keys.remove(sep_idx);
    let right = x.children.remove(sep_idx + 1);
    match right {
        Node::Leaf(mut r) => {
            let ghost r0 = r;
            let ghost l = match cs[j as int] { Node::Leaf(l) => l, Node::Internal(_) => arbitrary() };
            if let Node::Leaf(node) = &mut x.children[sep_idx] {
                node.keys.append(&mut r.keys);
                node.vals.append(&mut r.vals);
            }
            let ghost m2 = match x.children@[j as int] { Node::Leaf(m2) => m2, Node::Internal(_) => arbitrary() };
            proof {
                lemma_merge_leaves(x0, idx, j as int, h, lo, hi, order, l, r0, m2);
                let wc = seq![Node::Leaf(m2)];
                lemma_replace_window(keys, cs, h, lo, hi, order, j as int, Seq::<K>::empty(), wc);
                lemma_window_entries(cs, j as int, wc);
                assert(x.keys@ =~= window_keys(keys, j as int, Seq::<K>::empty()));
                assert(x.children@ =~= window_children(cs, j as int, wc));
                lemma_seq_entries_single(Node::Leaf(m2));
            }
        },
        Node::Internal(mut r) => {
            let ghost r0 = r;
            let ghost l = match cs[j as int] { Node::Internal(l) => l, Node::Leaf(_) => arbitrary() };
            if let Node::Internal(node) = &mut x.children[sep_idx] {
                node.keys.push(sep);
                node.keys.append(&mut r.keys);
                node.children.append(&mut r.children);
            }
            let ghost m2 = match x.children@[j as int] { Node::Internal(m2) => m2, Node::Leaf(_) => arbitrary() };
            proof {
                lemma_merge_internals(x0, idx, j as int, h, lo, hi, order, l, r0, m2);
                let wc = seq![Node::Internal(m2)];
                lemma_replace_window(keys, cs, h, lo, hi, order, j as int, Seq::<K>::empty(), wc);
                lemma_window_entries(cs, j as int, wc);
                assert(x.keys@ =~= window_keys(keys, j as int, Seq::<K>::empty()));
                assert(x.children@ =~= window_children(cs, j as int, wc));
                lemma_seq_entries_single(Node::Internal(m2));
            }
        },
    }
}

/// Restore the minimum occupancy of the under-full child `idx`: borrow from a
/// sibling with one to spare, else merge with a sibling.
#[verifier::spinoff_prover]
fn rebalance<K: Ord + Clone, V>(
    x: &mut Internal<K, V>,
    idx: usize,
    min: usize,
    Ghost(h): Ghost<nat>,
    Ghost(lo): Ghost<Option<K>>,
    Ghost(hi): Ghost<Option<K>>,
    Ghost(order): Ghost<nat>,
)
    requires
        lawful_key::<K>(),
        underfull_at(*old(x), idx as int, h, lo, hi, order),
        min == min_keys(order),
    ensures
        ({
            let cs = old(x).children@;
            if idx > 0 && node_keys(cs[idx - 1]) > min {
                shifted_right(*old(x), *final(x), idx - 1)
            } else if idx + 1 < cs.len() && node_keys(cs[idx + 1]) > min {
                shifted_left(*old(x), *final(x), idx as int)
            } else if idx > 0 {
                merged_at(*old(x), *final(x), idx - 1)
            } else {
                merged_at(*old(x), *final(x), idx as int)
            }
        }),
        entries(Node::Internal(*final(x))) == entries(Node::Internal(*old(x))),
        wf_children(final(x).keys@, final(x).children@, h, lo, hi, order),
        final(x).keys@.len() <= old(x).keys@.len() <= final(x).keys@.len() + 1,
{
    let n = x.children.len();
    let left = if idx > 0 {
        Some(idx - 1)
    } else {
        None
    };
    let right = if idx + 1 < n {
        Some(idx + 1)
    } else {
        None
    };
    if let Some(sibling) = left {
        if x.children[sibling].keys_len() > min {
            borrow_from_left(x, idx, Ghost(h), Ghost(lo), Ghost(hi), Ghost(order));
            return;
        }
    }
    if let Some(sibling) = right {
        if x.children[sibling].keys_len() > min {
            borrow_from_right(x, idx, Ghost(h), Ghost(lo), Ghost(hi), Ghost(order));
            return;
        }
    }
    if let Some(_sibling) = left {
        merge(x, idx - 1, Ghost(idx as int), Ghost(h), Ghost(lo), Ghost(hi), Ghost(order));
    } else if let Some(_sibling) = right {
        merge(x, idx, Ghost(idx as int), Ghost(h), Ghost(lo), Ghost(hi), Ghost(order));
    } else {
        proof {
            assert(false);
        }
    }
}

/// What removing `key` from the subtree `old_n` (of height `h`, within
/// `[lo, hi)`, holding at least `top` keys) left behind in `new_n`, given the
/// removed value `r`.
pub open spec fn removed<K: PartialOrd, V>(
    old_n: Node<K, V>,
    new_n: Node<K, V>,
    r: Option<V>,
    key: K,
    h: nat,
    lo: Option<K>,
    hi: Option<K>,
    order: nat,
    top: nat,
) -> bool {
    let e = entries(old_n);
    match r {
        None => {
            &&& !keys_of(e).contains(key)
            &&& height_of(new_n) == height_of(old_n)
            &&& entries(new_n) == e
            &&& wf_node(new_n, h, lo, hi, order, top)
            &&& node_keys(new_n) == node_keys(old_n)
        },
        Some(v) => {
            &&& keys_of(e).contains(key)
            &&& v == map_of(e)[key]
            &&& entries(new_n) == e.remove(rank(e, key))
            &&& wf_node(new_n, h, lo, hi, order, if top > 0 { (top - 1) as nat } else { 0 })
            &&& node_keys(new_n) <= node_keys(old_n) <= node_keys(new_n) + 1
        },
    }
}

/// Remove `key` from the subtree `node`, restoring an under-full child's
/// minimum occupancy on the way back up.
#[verifier::spinoff_prover]
fn remove_from<K: Ord + Clone, V>(
    node: &mut Node<K, V>,
    key: &K,
    min: usize,
    Ghost(h): Ghost<nat>,
    Ghost(lo): Ghost<Option<K>>,
    Ghost(hi): Ghost<Option<K>>,
    Ghost(order): Ghost<nat>,
    Ghost(top): Ghost<nat>,
) -> (r: Option<V>)
    requires
        lawful_key::<K>(),
        order >= 3,
        min == min_keys(order),
        top <= min,
        *old(node) is Internal ==> top >= 1,
        wf_node(*old(node), h, lo, hi, order, top),
        within(*key, lo, hi),
    ensures
        removed(*old(node), *final(node), r, *key, h, lo, hi, order, top),
    decreases h,
{
    match node {
        Node::Leaf(leaf) => {
            let ghost l0 = *leaf;
            let r = leaf.remove(key);
            proof {
                lemma_leaf_sorted(l0);
                if r is Some {
                    lemma_contains_at_rank(leaf_entries(l0), *key);
                    crate::model::lemma_rank_sorted(leaf_entries(l0), *key);
                    let p = rank(leaf_entries(l0), *key);
                    assert forall|i: int| 0 <= i < leaf.keys@.len() implies within(#[trigger] leaf.keys@[i], lo, hi) by {
                        if i < p {
                            assert(leaf.keys@[i] == l0.keys@[i]);
                        } else {
                            assert(leaf.keys@[i] == l0.keys@[i + 1]);
                        }
                    }
                    assert forall|a: int, b: int| 0 <= a < b < leaf.keys@.len() implies lt(#[trigger] leaf.keys@[a], #[trigger] leaf.keys@[b]) by {
                        let a2 = if a < p { a } else { a + 1 };
                        let b2 = if b < p { b } else { b + 1 };
                        assert(leaf.keys@[a] == l0.keys@[a2]);
                        assert(leaf.keys@[b] == l0.keys@[b2]);
                    }
                }
            }
            r
        },
        Node::Internal(x) => {
            let ghost x0 = *x;
            let idx = x.child_index(key);
            let ghost clo = child_lo(x0.keys@, idx as int, lo);
            let ghost chi = child_hi(x0.keys@, idx as int, hi);
            let ghost m = min_keys(order);
            proof {
                lemma_routes_within(x0.keys@, *key, idx as int, lo, hi);
                lemma_route(x0, h, lo, hi, order, top, idx as int, *key);
                lemma_key_order::<K>();
            }
            let ghost e = entries(Node::Internal(x0));
            let ghost ce = entries(x0.children@[idx as int]);
            let ghost a = before(x0.children@, idx as int);
            let ghost c = after(x0.children@, idx as int);
            let removed = remove_from(&mut x.children[idx], key, min, Ghost((h - 1) as nat), Ghost(clo), Ghost(chi), Ghost(order), Ghost(m));
            proof {
                assert(x.keys@ == x0.keys@);
                assert(x.children@ == x0.children@.update(idx as int, x.children@[idx as int]));
                assert(x.children@.subrange(0, idx as int) =~= x0.children@.subrange(0, idx as int));
                assert(x.children@.subrange(idx + 1, x.children@.len() as int) =~= x0.children@.subrange(idx + 1, x0.children@.len() as int));
                lemma_seq_entries_split(x.children@, idx as int);
                crate::model::lemma_rank_sorted(ce, *key);
                if removed is None {
                    assert(height_of(x.children@[0]) == height_of(x0.children@[0]));
                    assert(a + ce + c =~= e);
                    assert forall|i: int| 0 <= i < x.children@.len() implies wf_node(
                        #[trigger] x.children@[i], (h - 1) as nat, child_lo(x.keys@, i, lo), child_hi(x.keys@, i, hi), order, m) by {
                        if i != idx {
                            assert(x.children@[i] == x0.children@[i]);
                        }
                    }
                    lemma_wf_internal(*x, h, lo, hi, order, top);
                } else {
                    lemma_contains_at_rank(ce, *key);
                    assert(a + ce.remove(rank(ce, *key)) + c =~= e.remove(rank(e, *key)));
                }
            }
            if removed.is_some() && x.children[idx].keys_len() < min {
                proof {
                    assert forall|i: int| 0 <= i < x.children@.len() && i != idx implies wf_node(
                        #[trigger] x.children@[i], (h - 1) as nat, child_lo(x.keys@, i, lo), child_hi(x.keys@, i, hi), order, m) by {
                        assert(x.children@[i] == x0.children@[i]);
                    }
                    assert(underfull_at(*x, idx as int, h, lo, hi, order));
                }
                rebalance(x, idx, min, Ghost(h), Ghost(lo), Ghost(hi), Ghost(order));
                proof {
                    lemma_wf_internal(*x, h, lo, hi, order, if top > 0 { (top - 1) as nat } else { 0 });
                }
            } else {
                proof {
                    if removed is Some {
                        lemma_wf_top(x.children@[idx as int], (h - 1) as nat, clo, chi, order, (m - 1) as nat, m);
                        assert forall|i: int| 0 <= i < x.children@.len() implies wf_node(
                            #[trigger] x.children@[i], (h - 1) as nat, child_lo(x.keys@, i, lo), child_hi(x.keys@, i, hi), order, m) by {
                            if i != idx {
                                assert(x.children@[i] == x0.children@[i]);
                            }
                        }
                        lemma_wf_internal(*x, h, lo, hi, order, if top > 0 { (top - 1) as nat } else { 0 });
                    }
                }
            }
            removed
        },
    }
}

/// When the root is an internal node left with a single child, that child
/// becomes the new root and the tree loses a level.
fn collapse_root<K: Ord + Clone, V>(root: &mut Node<K, V>, Ghost(order): Ghost<nat>)
    requires
        order >= 3,
        wf_node(*old(root), height_of(*old(root)), None, None, order, 0),
    ensures
        wf_root(*final(root), order),
        entries(*final(root)) == entries(*old(root)),
        height_of(*final(root)) == height_of(*old(root)) || height_of(*final(root)) + 1 == height_of(*old(root)),
{
    let ghost r0 = *root;
    let ghost h = height_of(r0);
    let only_child = match root {
        Node::Internal(internal) => if internal.children.len() == 1 {
            internal.children.pop()
        } else {
            None
        },
        Node::Leaf(_) => None,
    };
    match only_child {
        Some(child) => {
            proof {
                let x0 = match r0 { Node::Internal(x0) => x0, Node::Leaf(_) => arbitrary() };
                assert(x0.children@ =~= seq![child]);
                assert(wf_node(child, (h - 1) as nat, child_lo(x0.keys@, 0, None), child_hi(x0.keys@, 0, None), order, min_keys(order)));
                assert(child_lo(x0.keys@, 0, None::<K>) == None::<K>);
                assert(child_hi(x0.keys@, 0, None::<K>) == None::<K>);
                lemma_wf_height(child, (h - 1) as nat, None, None, order, min_keys(order));
                lemma_wf_top(child, (h - 1) as nat, None, None, order, min_keys(order), root_top(child));
                lemma_seq_entries_single(child);
            }
            *root = child;
        },
        None => {},
    }
}

/// Remove `key` from the tree rooted at `root`, returning its value, if it was
/// present. The root changes only when the tree collapses a level.
#[verifier::spinoff_prover]
pub fn remove<K: Ord + Clone, V>(root: &mut Node<K, V>, key: &K, min: usize, Ghost(order): Ghost<nat>) -> (r: Option<V>)
    requires
        lawful_key::<K>(),
        wf_root(*old(root), order),
        min == min_keys(order),
    ensures
        wf_root(*final(root), order),
        height_of(*final(root)) == height_of(*old(root)) || height_of(*final(root)) + 1 == height_of(*old(root)),
        r is None ==> height_of(*final(root)) == height_of(*old(root)),
        sorted_entries(entries(*old(root))),
        ({
            let e = entries(*old(root));
            match r {
                Some(v) => {
                    &&& keys_of(e).contains(*key)
                    &&& v == map_of(e)[*key]
                    &&& entries(*final(root)) == e.remove(rank(e, *key))
                },
                None => {
                    &&& !keys_of(e).contains(*key)
                    &&& entries(*final(root)) == e
                },
            }
        }),
{
    let ghost h = height_of(*root);
    let ghost top = root_top(*root);
    proof {
        lemma_wf_sorted(*root, h, None, None, order, top);
        lemma_min_keys_fit(order);
    }
    let removed = remove_from(root, key, min, Ghost(h), Ghost(None), Ghost(None), Ghost(order), Ghost(top));
    if removed.is_some() {
        proof {
            lemma_wf_height(*root, h, None, None, order, 0);
        }
        collapse_root(root, Ghost(order));
    } else {
        proof {
            lemma_wf_height(*root, h, None, None, order, top);
        }
    }
    removed
}

/// The sum of `s[0..i]`.
pub open spec fn prefix_sum(s: Seq<usize>, i: int) -> int
    decreases i,
{
    if i <= 0 {
        0
    } else {
        prefix_sum(s, i - 1) + s[i - 1]
    }
}

/// Split `total` items into evenly sized chunks of at most `max` each: the
/// chunk count is the minimum needed, and the items are spread so no chunk falls
/// below the others by more than one. Returns each chunk's size.
fn even_chunks(total: usize, max: usize) -> (sizes: Vec<usize>)
    requires
        max >= 1,
    ensures
        total == 0 ==> sizes@.len() == 0,
        total > 0 ==> sizes@.len() == (total - 1) / (max as int) + 1,
        prefix_sum(sizes@, sizes@.len() as int) == total,
        forall|i: int| 0 <= i < sizes@.len() ==> 1 <= #[trigger] sizes@[i] <= max,
        forall|i: int| 0 <= i < sizes@.len() ==> total as int / (sizes@.len() as int) <= #[trigger] sizes@[i],
        forall|i: int|
            0 <= i < sizes@.len() ==> #[trigger] sizes@[i] == total as int / (sizes@.len() as int) + if i < total as int % (
            sizes@.len() as int) {
                1int
            } else {
                0int
            },
{
    if total == 0 {
        return Vec::new();
    }
    let chunks = (total - 1) / max + 1;
    proof {
        assert(chunks as int * max as int >= total) by (nonlinear_arith)
            requires
                chunks == (total - 1) / (max as int) + 1,
                max >= 1,
                total > 0,
        ;
        assert(chunks <= total) by (nonlinear_arith)
            requires
                chunks == (total - 1) / (max as int) + 1,
                max >= 1,
                total > 0,
        ;
    }
    let base = total / chunks;
    let remainder = total % chunks;
    proof {
        assert(base * chunks + remainder == total) by (nonlinear_arith)
            requires
                base == total / chunks,
                remainder == total % chunks,
                chunks > 0,
        ;
        assert(base >= 1) by (nonlinear_arith)
            requires
                base == total / chunks,
                chunks <= total,
                chunks > 0,
        ;
        assert(base <= max) by (nonlinear_arith)
            requires
                base * chunks + remainder == total,
                chunks * max >= total,
                remainder >= 0,
                chunks > 0,
        ;
        assert(remainder > 0 ==> base < max) by (nonlinear_arith)
            requires
                base * chunks + remainder == total,
                chunks * max >= total,
                chunks > 0,
        ;
    }
    let mut sizes: Vec<usize> = Vec::new();
    let mut i: usize = 0;
    while i < chunks
        invariant
            0 <= i <= chunks,
            sizes@.len() == i,
            chunks > 0,
            base >= 1,
            base <= max,
            remainder < chunks,
            remainder > 0 ==> base < max,
            base * chunks + remainder == total,
            base == total / chunks,
            forall|j: int| 0 <= j < i ==> #[trigger] sizes@[j] == if j < remainder { base + 1 } else { base as int },
            prefix_sum(sizes@, i as int) == i * base + if i < remainder { i as int } else { remainder as int },
        decreases chunks - i,
    {
        let size = if i < remainder {
            base + 1
        } else {
            base
        };
        let ghost before_push = sizes@;
        sizes.push(size);
        proof {
            lemma_prefix_sum_same(before_push, sizes@, i as int);
            lemma_prefix_sum_push(sizes@, i as int);
            assert((i + 1) * base == i * base + base) by (nonlinear_arith);
        }
        i += 1;
    }
    assert(chunks * base == base * chunks) by (nonlinear_arith);
    sizes
}

/// Prefix sums depend only on the prefix.
proof fn lemma_prefix_sum_same(s: Seq<usize>, t: Seq<usize>, i: int)
    requires
        0 <= i <= s.len(),
        i <= t.len(),
        forall|j: int| 0 <= j < i ==> s[j] == t[j],
    ensures
        prefix_sum(s, i) == prefix_sum(t, i),
    decreases i,
{
    if i > 0 {
        lemma_prefix_sum_same(s, t, i - 1);
    }
}

/// Extending a sequence leaves the sums of its old prefixes alone.
proof fn lemma_prefix_sum_push(s: Seq<usize>, i: int)
    requires
        0 <= i < s.len(),
    ensures
        prefix_sum(s, i + 1) == prefix_sum(s, i) + s[i],
{
}

/// When `total` items need at least two chunks of at most `max`, each chunk
/// gets at least `least` items whenever `least` is at most half of `max + 1`.
proof fn lemma_chunks_fill(total: int, max: int, least: int)
    requires
        total > 0,
        max >= 1,
        (total - 1) / max + 1 >= 2,
        least >= 0,
        2 * least <= max + 1,
    ensures
        least <= total / ((total - 1) / max + 1),
{
    let c = (total - 1) / max + 1;
    assert(total >= (c - 1) * max + 1) by (nonlinear_arith)
        requires
            c == (total - 1) / max + 1,
            max >= 1,
            total > 0,
    ;
    assert(least * c <= (c - 1) * max + 1) by (nonlinear_arith)
        requires
            c >= 2,
            max >= 1,
            least >= 0,
            2 * least <= max + 1,
    ;
    assert(least <= total / c) by (nonlinear_arith)
        requires
            least * c <= total,
            c > 0,
            least >= 0,
    ;
}

/// The items of `v`, last first.
pub fn reversed<T>(v: Vec<T>) -> (r: Vec<T>)
    ensures
        r@ == v@.reverse(),
{
    let mut v = v;
    let ghost v0 = v@;
    let mut r: Vec<T> = Vec::new();
    while v.len() > 0
        invariant
            v@.len() <= v0.len(),
            v@ == v0.subrange(0, v@.len() as int),
            r@ == v0.subrange(v@.len() as int, v0.len() as int).reverse(),
        decreases v@.len(),
    {
        let ghost n = v@.len();
        match v.pop() {
            Some(x) => {
                r.push(x);
                proof {
                    assert(r@ =~= v0.subrange(v@.len() as int, v0.len() as int).reverse());
                }
            },
            None => {},
        }
    }
    assert(v0.subrange(0, v0.len() as int) =~= v0);
    r
}

/// The subtrees of a level, left to right.
pub open spec fn level_nodes<K, V>(lv: Seq<(Node<K, V>, K)>) -> Seq<Node<K, V>> {
    lv.map_values(|p: (Node<K, V>, K)| p.0)
}

/// The least keys of a level's subtrees, left to right.
pub open spec fn level_mins<K, V>(lv: Seq<(Node<K, V>, K)>) -> Seq<K> {
    lv.map_values(|p: (Node<K, V>, K)| p.1)
}

/// The upper key bound of member `i` of a level: the next member's least key.
pub open spec fn level_hi<K, V>(lv: Seq<(Node<K, V>, K)>, i: int) -> Option<K> {
    if i + 1 < lv.len() {
        Some(lv[i + 1].1)
    } else {
        None
    }
}

/// The fewest keys member `i` of a level must hold: the minimum, unless it is
/// the only member and so the root.
pub open spec fn level_top<K, V>(lv: Seq<(Node<K, V>, K)>, i: int, order: nat) -> nat {
    if lv.len() > 1 {
        min_keys(order)
    } else {
        root_top(lv[i].0)
    }
}

/// A level of a tree being built bottom-up: subtrees of height `h`, each
/// paired with a key bounding it from below, with the keys ascending and each
/// subtree lying between its own key and the next.
pub open spec fn level_ok<K: PartialOrd, V>(lv: Seq<(Node<K, V>, K)>, h: nat, order: nat) -> bool {
    &&& lv.len() > 0
    &&& sorted(level_mins(lv))
    &&& forall|i: int|
        0 <= i < lv.len() ==> wf_node(
            #[trigger] lv[i].0,
            h,
            Some(lv[i].1),
            level_hi(lv, i),
            order,
            level_top(lv, i, order),
        )
}

/// The leaf `p` holds the entries `e[a..b]` and is paired with its least key.
pub open spec fn leaf_piece<K, V>(p: (Node<K, V>, K), e: Seq<(K, V)>, a: int, b: int) -> bool {
    &&& p.0 is Leaf
    &&& p.0->Leaf_0.keys@.len() == p.0->Leaf_0.vals@.len()
    &&& entries(p.0) == e.subrange(a, b)
    &&& p.1 == e[a].0
}

/// The internal node `p` has the subtrees `lv[a..b]` as children, their least
/// keys after the first as separators, and is paired with the first's key.
pub open spec fn group_piece<K, V>(p: (Node<K, V>, K), lv: Seq<(Node<K, V>, K)>, a: int, b: int) -> bool {
    &&& p.0 is Internal
    &&& p.0->Internal_0.children@ == level_nodes(lv.subrange(a, b))
    &&& p.0->Internal_0.keys@ == level_mins(lv.subrange(a + 1, b))
    &&& p.1 == lv[a].1
}

/// A subtree that holds an entry, is tight, and is paired with its least key.
pub open spec fn tight_piece<K, V>(p: (Node<K, V>, K)) -> bool {
    &&& entries(p.0).len() > 0
    &&& tight(p.0)
    &&& p.1 == entries(p.0)[0].0
}

/// A parent built over tight members paired with their least keys is itself
/// tight and paired with its least key.
proof fn lemma_group_tight<K, V>(p: (Node<K, V>, K), lv: Seq<(Node<K, V>, K)>, a: int, b: int)
    requires
        0 <= a < b <= lv.len(),
        group_piece(p, lv, a, b),
        forall|i: int| a <= i < b ==> tight_piece(#[trigger] lv[i]),
    ensures
        tight_piece(p),
{
    let x = p.0->Internal_0;
    let cs = x.children@;
    assert forall|j: int| 0 <= j < cs.len() implies cs[j] == lv[a + j].0 && tight(#[trigger] cs[j]) by {
        assert(tight_piece(lv[a + j]));
    }
    assert forall|j: int| 0 <= j < x.keys@.len() implies entries(cs[j + 1]).len() > 0 && #[trigger] x.keys@[j] == entries(
        cs[j + 1],
    )[0].0 by {
        assert(tight_piece(lv[a + 1 + j]));
        assert(cs[j + 1] == lv[a + 1 + j].0);
    }
    assert(tight(p.0));
    lemma_seq_entries_split(cs, 0);
    assert(cs.subrange(0, 0) =~= Seq::<Node<K, V>>::empty());
    assert(seq_entries(Seq::<Node<K, V>>::empty()).len() == 0);
    assert(tight_piece(lv[a]));
    assert(entries(p.0) == seq_entries(cs));
    assert(entries(p.0)[0] == entries(cs[0])[0]);
}

/// Sizes that `even_chunks` returns differ by at most one.
proof fn lemma_chunks_even(sizes: Seq<usize>, total: int)
    requires
        sizes.len() > 0,
        forall|i: int|
            0 <= i < sizes.len() ==> #[trigger] sizes[i] == total / (sizes.len() as int) + if i < total % (
            sizes.len() as int) {
                1int
            } else {
                0int
            },
    ensures
        forall|i: int, j: int| 0 <= i < sizes.len() && 0 <= j < sizes.len() ==> #[trigger] sizes[i] <= #[trigger] sizes[j] + 1,
{
}

/// Leaves cut to evenly spread sizes form an evenly filled row.
proof fn lemma_leaf_row_even<K, V>(lv: Seq<(Node<K, V>, K)>, e: Seq<(K, V)>, sizes: Seq<usize>)
    requires
        lv.len() == sizes.len(),
        forall|t: int| 0 <= t < sizes.len() ==> leaf_piece(#[trigger] lv[t], e, prefix_sum(sizes, t), prefix_sum(sizes, t + 1)),
        prefix_sum(sizes, sizes.len() as int) == e.len(),
        forall|t: int| 0 <= t < sizes.len() ==> 1 <= #[trigger] sizes[t],
        forall|i: int, j: int| 0 <= i < sizes.len() && 0 <= j < sizes.len() ==> #[trigger] sizes[i] <= #[trigger] sizes[j] + 1,
    ensures
        even_row(level_nodes(lv)),
        level_nodes(lv).len() == lv.len(),
        forall|t: int| 0 <= t < lv.len() ==> node_keys(#[trigger] level_nodes(lv)[t]) == sizes[t],
{
    assert forall|t: int| 0 <= t < lv.len() implies node_keys(#[trigger] level_nodes(lv)[t]) == sizes[t] by {
        assert(leaf_piece(lv[t], e, prefix_sum(sizes, t), prefix_sum(sizes, t + 1)));
        assert(prefix_sum(sizes, t + 1) == prefix_sum(sizes, t) + sizes[t]);
        lemma_prefix_sum_increasing(sizes, 0, t);
        lemma_prefix_sum_increasing(sizes, t + 1, sizes.len() as int);
        assert(entries(lv[t].0).len() == sizes[t]);
    }
    assert forall|i: int, j: int| 0 <= i < level_nodes(lv).len() && 0 <= j < level_nodes(lv).len() implies node_keys(
        #[trigger] level_nodes(lv)[i],
    ) <= node_keys(#[trigger] level_nodes(lv)[j]) + 1 by {
        assert(sizes[i] <= sizes[j] + 1);
    }
}

/// Parents built over runs of evenly spread sizes form an evenly filled row.
proof fn lemma_parent_row_even<K, V>(ps: Seq<(Node<K, V>, K)>, lv: Seq<(Node<K, V>, K)>, sizes: Seq<usize>)
    requires
        ps.len() == sizes.len(),
        forall|t: int| 0 <= t < ps.len() ==> group_piece(#[trigger] ps[t], lv, prefix_sum(sizes, t), prefix_sum(sizes, t + 1)),
        prefix_sum(sizes, sizes.len() as int) == lv.len(),
        forall|t: int| 0 <= t < sizes.len() ==> 1 <= #[trigger] sizes[t],
        forall|i: int, j: int| 0 <= i < sizes.len() && 0 <= j < sizes.len() ==> #[trigger] sizes[i] <= #[trigger] sizes[j] + 1,
    ensures
        even_row(level_nodes(ps)),
        level_nodes(ps).len() == ps.len(),
        forall|t: int| 0 <= t < ps.len() ==> node_keys(#[trigger] level_nodes(ps)[t]) + 1 == sizes[t],
{
    assert forall|t: int| 0 <= t < ps.len() implies node_keys(#[trigger] level_nodes(ps)[t]) + 1 == sizes[t] by {
        assert(group_piece(ps[t], lv, prefix_sum(sizes, t), prefix_sum(sizes, t + 1)));
        assert(prefix_sum(sizes, t + 1) == prefix_sum(sizes, t) + sizes[t]);
        lemma_prefix_sum_increasing(sizes, 0, t);
        lemma_prefix_sum_increasing(sizes, t + 1, sizes.len() as int);
    }
    assert forall|i: int, j: int| 0 <= i < level_nodes(ps).len() && 0 <= j < level_nodes(ps).len() implies node_keys(
        #[trigger] level_nodes(ps)[i],
    ) <= node_keys(#[trigger] level_nodes(ps)[j]) + 1 by {
        assert(sizes[i] <= sizes[j] + 1);
    }
}

/// The rows of a tree being built bottom-up, leaves first, are packed: the
/// leaves hold `n` entries spread evenly over the fewest leaves of at most
/// `o - 1` entries, and each row above spreads the row below evenly over the
/// fewest nodes of at most `o` children.
pub open spec fn laid_rows<K, V>(rows: Seq<Seq<Node<K, V>>>, n: int, o: int) -> bool {
    &&& rows.len() > 0
    &&& rows[0].len() == (n - 1) / (o - 1) + 1
    &&& forall|i: int| 0 <= i < rows[0].len() ==> node_keys(#[trigger] rows[0][i]) == even_size(n, rows[0].len() as int, i)
    &&& forall|k: int| 1 <= k < rows.len() ==> #[trigger] rows[k].len() == (rows[k - 1].len() - 1) / o + 1
    &&& forall|k: int, i: int|
        1 <= k < rows.len() && 0 <= i < rows[k].len() ==> node_keys(#[trigger] rows[k][i]) + 1 == even_size(
            rows[k - 1].len() as int,
            rows[k].len() as int,
            i,
        )
}

/// Recording a new level of parents over `lv`: the rows below the parents are
/// the rows below `lv`, one level further down, and the new level is even.
proof fn lemma_rows_step<K, V>(
    rows: Seq<Seq<Node<K, V>>>,
    lv: Seq<(Node<K, V>, K)>,
    ps: Seq<(Node<K, V>, K)>,
    h: nat,
    n: int,
    o: int,
) -> (out: Seq<Seq<Node<K, V>>>)
    requires
        rows.len() == h + 1,
        forall|k: int| 0 <= k <= h ==> even_row(#[trigger] rows[k]),
        forall|d: nat| d <= h ==> #[trigger] row_at(level_nodes(lv), d) == rows[h - d],
        forall|d: nat| #[trigger] row_at(level_nodes(lv), d) == row_at(level_nodes(ps), d + 1),
        even_row(level_nodes(ps)),
        laid_rows(rows, n, o),
        rows[h as int] == level_nodes(lv),
        level_nodes(ps).len() == (level_nodes(lv).len() - 1) / o + 1,
        forall|t: int|
            0 <= t < level_nodes(ps).len() ==> node_keys(#[trigger] level_nodes(ps)[t]) + 1 == even_size(
                level_nodes(lv).len() as int,
                level_nodes(ps).len() as int,
                t,
            ),
    ensures
        laid_rows(out, n, o),
        out.len() == h + 2,
        forall|k: int| 0 <= k <= h + 1 ==> even_row(#[trigger] out[k]),
        forall|d: nat| d <= h + 1 ==> #[trigger] row_at(level_nodes(ps), d) == out[h + 1 - d],
{
    let p = level_nodes(ps);
    let out = rows.push(p);
    lemma_row_at_zero(p);
    assert(out[0] == rows[0]);
    assert forall|k: int| 1 <= k < out.len() implies #[trigger] out[k].len() == (out[k - 1].len() - 1) / o + 1 by {
        if k < rows.len() {
            assert(out[k] == rows[k] && out[k - 1] == rows[k - 1]);
        }
    }
    assert forall|k: int, i: int| 1 <= k < out.len() && 0 <= i < out[k].len() implies node_keys(#[trigger] out[k][i]) + 1
        == even_size(out[k - 1].len() as int, out[k].len() as int, i) by {
        if k < rows.len() {
            assert(out[k] == rows[k] && out[k - 1] == rows[k - 1]);
        }
    }
    assert forall|k: int| 0 <= k <= h + 1 implies even_row(#[trigger] out[k]) by {
        if k <= h {
            assert(out[k] == rows[k]);
        }
    }
    assert forall|d: nat| d <= h + 1 implies #[trigger] row_at(p, d) == out[h + 1 - d] by {
        if d > 0 {
            let d0 = (d - 1) as nat;
            assert(row_at(level_nodes(lv), d0) == row_at(p, d0 + 1));
            assert(row_at(level_nodes(lv), d0) == rows[h - d0]);
        }
    }
    out
}

/// Appending a parent built over `lv[base..base + size]` extends the row two
/// levels down by those members' rows one level down.
proof fn lemma_parent_rows<K, V>(
    p0: Seq<(Node<K, V>, K)>,
    p: (Node<K, V>, K),
    lv: Seq<(Node<K, V>, K)>,
    base: int,
    size: int,
    d: nat,
)
    requires
        0 <= base,
        0 < size,
        base + size <= lv.len(),
        group_piece(p, lv, base, base + size),
        row_at(level_nodes(p0), d + 1) == row_at(level_nodes(lv.subrange(0, base)), d),
    ensures
        row_at(level_nodes(p0 + seq![p]), d + 1) == row_at(level_nodes(lv.subrange(0, base + size)), d),
{
    lemma_level_nodes_append(p0, seq![p]);
    assert(level_nodes(seq![p]) =~= seq![p.0]);
    lemma_row_at_append(level_nodes(p0), seq![p.0], d + 1);
    lemma_row_at_single(p.0, d + 1);
    assert(nodes_at(p.0, d + 1) == row_at(p.0->Internal_0.children@, d));
    assert(lv.subrange(0, base + size) =~= lv.subrange(0, base) + lv.subrange(base, base + size));
    lemma_level_nodes_append(lv.subrange(0, base), lv.subrange(base, base + size));
    lemma_row_at_append(level_nodes(lv.subrange(0, base)), level_nodes(lv.subrange(base, base + size)), d);
}

/// Prefix sums of positive sizes strictly increase.
proof fn lemma_prefix_sum_increasing(s: Seq<usize>, i: int, j: int)
    requires
        0 <= i <= j <= s.len(),
        forall|t: int| 0 <= t < s.len() ==> 1 <= #[trigger] s[t],
    ensures
        prefix_sum(s, i) + (j - i) <= prefix_sum(s, j),
    decreases j - i,
{
    if i < j {
        lemma_prefix_sum_increasing(s, i, j - 1);
    }
}

/// The entries of a level are those of its subtrees, in order.
proof fn lemma_level_nodes_append<K, V>(a: Seq<(Node<K, V>, K)>, b: Seq<(Node<K, V>, K)>)
    ensures
        level_nodes(a + b) == level_nodes(a) + level_nodes(b),
        seq_entries(level_nodes(a + b)) == seq_entries(level_nodes(a)) + seq_entries(level_nodes(b)),
{
    assert(level_nodes(a + b) =~= level_nodes(a) + level_nodes(b));
    lemma_seq_entries_append(level_nodes(a), level_nodes(b));
}

/// Leaves cut from consecutive slices of sorted entries form a level.
proof fn lemma_leaf_level<K: Ord + Clone, V>(lv: Seq<(Node<K, V>, K)>, e: Seq<(K, V)>, s: Seq<usize>, order: nat)
    requires
        lawful_key::<K>(),
        order >= 3,
        sorted_entries(e),
        e.len() > 0,
        lv.len() == s.len(),
        s.len() > 0,
        prefix_sum(s, s.len() as int) == e.len(),
        forall|t: int| 0 <= t < s.len() ==> 1 <= #[trigger] s[t] < order,
        s.len() > 1 ==> forall|t: int| 0 <= t < s.len() ==> min_keys(order) <= #[trigger] s[t],
        forall|t: int| 0 <= t < lv.len() ==> leaf_piece(#[trigger] lv[t], e, prefix_sum(s, t), prefix_sum(s, t + 1)),
    ensures
        level_ok(lv, 0, order),
        seq_entries(level_nodes(lv)) == e,
{
    lemma_key_order::<K>();
    let n = lv.len() as int;
    assert forall|t: int| 0 <= t < n implies 0 <= prefix_sum(s, t) && prefix_sum(s, t) + s[t] == #[trigger] prefix_sum(s, t + 1) && prefix_sum(s, t + 1) <= e.len() by {
        lemma_prefix_sum_increasing(s, 0, t);
        lemma_prefix_sum_increasing(s, t + 1, n);
    }
    assert forall|a: int, b: int| 0 <= a < b < n implies lt(#[trigger] level_mins(lv)[a], #[trigger] level_mins(lv)[b]) by {
        lemma_prefix_sum_increasing(s, a + 1, b);
        assert(prefix_sum(s, a) < prefix_sum(s, b));
        assert(prefix_sum(s, a + 1) == prefix_sum(s, a) + s[a]);
    }
    assert forall|i: int| 0 <= i < n implies wf_node(#[trigger] lv[i].0, 0, Some(lv[i].1), level_hi(lv, i), order, level_top(lv, i, order)) by {
        let a = prefix_sum(s, i);
        let b = prefix_sum(s, i + 1);
        assert(prefix_sum(s, i + 1) == prefix_sum(s, i) + s[i]);
        let l = lv[i].0->Leaf_0;
        assert(leaf_piece(lv[i], e, a, b));
        lemma_prefix_sum_increasing(s, 0, i);
        lemma_prefix_sum_increasing(s, i + 1, n);
        assert(lv[i].0 == Node::Leaf(l));
        assert(entries(lv[i].0) == leaf_entries(l));
        assert(prefix_sum(s, 0) == 0);
        assert(0 <= a <= b <= e.len());
        assert(e.subrange(a, b).len() == b - a);
        assert(leaf_entries(l).len() == l.keys@.len());
        assert(l.keys@.len() == b - a);
        assert forall|t: int| 0 <= t < l.keys@.len() implies l.keys@[t] == e[a + t].0 by {
            assert(entries(lv[i].0)[t] == e[a + t]);
            assert(leaf_entries(l)[t] == (l.keys@[t], l.vals@[t]));
        }
        assert forall|t: int, u: int| 0 <= t < u < l.keys@.len() implies lt(#[trigger] l.keys@[t], #[trigger] l.keys@[u]) by {
            assert(lt(e[a + t].0, e[a + u].0));
        }
        assert forall|t: int| 0 <= t < l.keys@.len() implies within(#[trigger] l.keys@[t], Some(lv[i].1), level_hi(lv, i)) by {
            if t > 0 {
                assert(lt(e[a].0, e[a + t].0));
            }
            if i + 1 < n {
                assert(prefix_sum(s, i + 2) == prefix_sum(s, i + 1) + s[i + 1]);
                assert(lv[i + 1].1 == e[b].0);
                assert(lt(e[a + t].0, e[b].0));
            }
        }
    }
    // the leaves' entries, in order, are all of e
    assert forall|m: int| 0 <= m <= n implies #[trigger] seq_entries(level_nodes(lv.subrange(0, m))) == e.subrange(0, prefix_sum(s, m)) by {
        lemma_leaf_prefix(lv, e, s, m);
    }
    assert(lv.subrange(0, n) =~= lv);
    assert(e.subrange(0, e.len() as int) =~= e);
}

proof fn lemma_leaf_prefix<K, V>(lv: Seq<(Node<K, V>, K)>, e: Seq<(K, V)>, s: Seq<usize>, m: int)
    requires
        lv.len() == s.len(),
        0 <= m <= lv.len(),
        prefix_sum(s, s.len() as int) == e.len(),
        forall|t: int| 0 <= t < s.len() ==> 1 <= #[trigger] s[t],
        forall|t: int| 0 <= t < lv.len() ==> leaf_piece(#[trigger] lv[t], e, prefix_sum(s, t), prefix_sum(s, t + 1)),
    ensures
        seq_entries(level_nodes(lv.subrange(0, m))) == e.subrange(0, prefix_sum(s, m)),
    decreases m,
{
    if m == 0 {
        assert(level_nodes(lv.subrange(0, 0)) =~= Seq::<Node<K, V>>::empty());
        assert(seq_entries(Seq::<Node<K, V>>::empty()) =~= Seq::<(K, V)>::empty());
        assert(e.subrange(0, 0) =~= Seq::<(K, V)>::empty());
    } else {
        lemma_leaf_prefix(lv, e, s, m - 1);
        lemma_prefix_sum_increasing(s, 0, m - 1);
        lemma_prefix_sum_increasing(s, m, s.len() as int);
        assert(lv.subrange(0, m) =~= lv.subrange(0, m - 1) + seq![lv[m - 1]]);
        lemma_level_nodes_append(lv.subrange(0, m - 1), seq![lv[m - 1]]);
        assert(level_nodes(seq![lv[m - 1]]) =~= seq![lv[m - 1].0]);
        lemma_seq_entries_single(lv[m - 1].0);
        assert(leaf_piece(lv[m - 1], e, prefix_sum(s, m - 1), prefix_sum(s, m)));
        assert(e.subrange(0, prefix_sum(s, m)) =~= e.subrange(0, prefix_sum(s, m - 1)) + e.subrange(prefix_sum(s, m - 1), prefix_sum(s, m)));
    }
}

/// A run `lv[a..b]` of a level, gathered under one internal node with their
/// least keys after the first as separators, is a well-formed subtree one level
/// taller over the run's interval.
proof fn lemma_group_wf<K: Ord + Clone, V>(
    lv: Seq<(Node<K, V>, K)>,
    h: nat,
    order: nat,
    a: int,
    b: int,
    x: Internal<K, V>,
    ptop: nat,
)
    requires
        lawful_key::<K>(),
        order >= 3,
        level_ok(lv, h, order),
        lv.len() > 1,
        0 <= a < b <= lv.len(),
        b - a <= order,
        ptop <= b - a - 1,
        x.children@ == level_nodes(lv.subrange(a, b)),
        x.keys@ == level_mins(lv.subrange(a + 1, b)),
    ensures
        wf_node(Node::Internal(x), h + 1, Some(lv[a].1), level_hi(lv, b - 1), order, ptop),
        entries(Node::Internal(x)) == seq_entries(level_nodes(lv.subrange(a, b))),
{
    lemma_key_order::<K>();
    let keys = x.keys@;
    let cs = x.children@;
    let lo = Some(lv[a].1);
    let hi = level_hi(lv, b - 1);
    assert forall|t: int| 0 <= t < keys.len() implies #[trigger] keys[t] == lv[a + 1 + t].1 by {}
    assert forall|t: int| 0 <= t < cs.len() implies #[trigger] cs[t] == lv[a + t].0 by {}
    assert forall|t: int, u: int| 0 <= t < u < keys.len() implies lt(#[trigger] keys[t], #[trigger] keys[u]) by {
        assert(level_mins(lv)[a + 1 + t] == keys[t]);
        assert(level_mins(lv)[a + 1 + u] == keys[u]);
    }
    assert forall|t: int| 0 <= t < keys.len() implies within(#[trigger] keys[t], lo, hi) by {
        assert(level_mins(lv)[a] == lv[a].1);
        assert(level_mins(lv)[a + 1 + t] == keys[t]);
        if b < lv.len() {
            assert(level_mins(lv)[b] == lv[b].1);
        }
    }
    assert forall|k: int| 0 <= k < cs.len() implies wf_node(
        #[trigger] cs[k], h, child_lo(keys, k, lo), child_hi(keys, k, hi), order, min_keys(order)) by {
        assert(wf_node(lv[a + k].0, h, Some(lv[a + k].1), level_hi(lv, a + k), order, level_top(lv, a + k, order)));
        assert(child_lo(keys, k, lo) == Some(lv[a + k].1));
        assert(child_hi(keys, k, hi) == level_hi(lv, a + k));
    }
    lemma_wf_internal(x, h + 1, lo, hi, order, ptop);
}

/// Build a balanced tree bottom-up from `entries`, which must be sorted strictly
/// ascending by key. Returns the root and the entry count.
///
/// Nodes are filled as evenly as the order allows, so every node lands within
/// the legal occupancy range and the result is a valid, balanced B+tree.
#[verifier::spinoff_prover]
#[verifier::rlimit(40)]
pub fn bulk_load<K: Ord + Clone, V>(entries: Vec<(K, V)>, order: usize) -> (r: (Node<K, V>, usize))
    requires
        lawful_key::<K>(),
        order >= 3,
        sorted_entries(entries@),
    ensures
        wf_root(r.0, order as nat),
        crate::node::entries(r.0) == entries@,
        r.1 == entries@.len(),
        height_of(r.0) > 0 ==> (order - 1) * vstd::arithmetic::power::pow(order as int, (height_of(r.0) - 1) as nat)
            < entries@.len(),
        tight(r.0),
        even_levels(r.0),
        entries@.len() > 0 ==> packed(r.0, height_of(r.0), entries@.len() as int, order as int),
{
    let len = entries.len();
    if len == 0 {
        let root = Node::empty_leaf();
        proof {
            assert(crate::node::entries(root) =~= entries@);
            assert forall|d: nat| even_row(#[trigger] nodes_at(root, d)) by {
                if d > 0 {
                    assert(nodes_at(root, d) =~= Seq::<Node<K, V>>::empty());
                }
            }
        }
        return (root, 0);
    }
    let ghost e = entries@;
    let ghost ord = order as nat;
    let ghost m = min_keys(ord);
    proof {
        lemma_key_order::<K>();
        lemma_min_keys_fit(ord);
    }

    // Build the leaf level: split entries into evenly sized leaves.
    let mut rest = reversed(entries);
    let sizes = even_chunks(len, order - 1);
    proof {
        if sizes@.len() > 1 {
            lemma_chunks_fill(len as int, order - 1, m as int);
        }
    }
    let mut level: Vec<(Node<K, V>, K)> = Vec::new();
    let mut i: usize = 0;
    while i < sizes.len()
        invariant
            lawful_key::<K>(),
            sorted_entries(e),
            len == e.len(),
            len > 0,
            order >= 3,
            ord == order,
            m == min_keys(ord),
            sizes@.len() == (len - 1) / ((order - 1) as int) + 1,
            prefix_sum(sizes@, sizes@.len() as int) == len,
            forall|t: int| 0 <= t < sizes@.len() ==> 1 <= #[trigger] sizes@[t] <= order - 1,
            sizes@.len() > 1 ==> forall|t: int| 0 <= t < sizes@.len() ==> m <= #[trigger] sizes@[t],
            0 <= i <= sizes@.len(),
            0 <= prefix_sum(sizes@, i as int) <= len,
            rest@ == e.subrange(prefix_sum(sizes@, i as int), len as int).reverse(),
            level@.len() == i,
            forall|t: int| 0 <= t < i ==> leaf_piece(#[trigger] level@[t], e, prefix_sum(sizes@, t), prefix_sum(sizes@, t + 1)),
            forall|t: int| 0 <= t < i ==> tight_piece(#[trigger] level@[t]),
        decreases sizes@.len() - i,
    {
        let size = sizes[i];
        let ghost base = prefix_sum(sizes@, i as int);
        proof {
            assert(forall|t: int| 0 <= t < sizes@.len() ==> m <= #[trigger] sizes@[t] || sizes@.len() <= 1);
            lemma_prefix_sum_increasing(sizes@, i + 1, sizes@.len() as int);
            assert(prefix_sum(sizes@, i + 1) == base + size);
        }
        let mut keys: Vec<K> = Vec::new();
        let mut vals: Vec<V> = Vec::new();
        let mut j: usize = 0;
        while j < size
            invariant
                0 <= j <= size,
                0 <= base,
                base + size <= len,
                len == e.len(),
                rest@ == e.subrange(base + j, len as int).reverse(),
                keys@.len() == j,
                vals@.len() == j,
                forall|t: int| 0 <= t < j ==> (#[trigger] keys@[t], vals@[t]) == e[base + t],
            decreases size - j,
        {
            let ghost r0 = rest@;
            if let Some((k, v)) = rest.pop() {
                proof {
                    assert(r0.last() == e[base + j]);
                    assert(rest@ =~= e.subrange(base + j + 1, len as int).reverse());
                }
                keys.push(k);
                vals.push(v);
            } else {
                proof {
                    assert(r0.len() > 0);
                }
            }
            j += 1;
        }
        let min = clone_key(&keys[0]);
        let leaf = Leaf { keys, vals };
        proof {
            assert(crate::node::entries(Node::Leaf(leaf)) =~= e.subrange(base, base + size));
            assert(tight_piece((Node::Leaf(leaf), min)));
        }
        level.push((Node::Leaf(leaf), min));
        i += 1;
    }
    proof {
        lemma_leaf_level(level@, e, sizes@, ord);
        lemma_chunks_even(sizes@, len as int);
        lemma_leaf_row_even(level@, e, sizes@);
        assert forall|t: int| 0 <= t < level_nodes(level@).len() implies node_keys(#[trigger] level_nodes(level@)[t])
            == even_size(len as int, level_nodes(level@).len() as int, t) by {
            assert(sizes@[t] == len as int / (sizes@.len() as int) + if t < len as int % (sizes@.len() as int) {
                1int
            } else {
                0int
            });
        }
    }
    let ghost mut rows: Seq<Seq<Node<K, V>>> = seq![level_nodes(level@)];
    proof {
        lemma_row_at_zero(level_nodes(level@));
        assert(rows[0] == level_nodes(level@));
    }

    // Build internal levels until a single root remains.
    let ghost mut h: nat = 0;
    proof {
        reveal(vstd::arithmetic::power::pow);
        assert((level@.len() - 1) * (order - 1) < len) by (nonlinear_arith)
            requires
                level@.len() == (len - 1) / ((order - 1) as int) + 1,
                order >= 3,
                len > 0,
        ;
        assert(vstd::arithmetic::power::pow(order as int, 0) == 1);
    }
    while level.len() > 1
        invariant
            lawful_key::<K>(),
            order >= 3,
            ord == order,
            m == min_keys(ord),
            level_ok(level@, h, ord),
            seq_entries(level_nodes(level@)) == e,
            len == e.len(),
            (level@.len() - 1) * ((order - 1) * vstd::arithmetic::power::pow(order as int, h)) < len,
            h > 0 ==> (order - 1) * vstd::arithmetic::power::pow(order as int, (h - 1) as nat) < len,
            forall|t: int| 0 <= t < level@.len() ==> tight_piece(#[trigger] level@[t]),
            rows.len() == h + 1,
            laid_rows(rows, len as int, order as int),
            forall|k: int| 0 <= k <= h ==> even_row(#[trigger] rows[k]),
            forall|d: nat| d <= h ==> #[trigger] row_at(level_nodes(level@), d) == rows[h - d],
        decreases level@.len(),
    {
        let count = level.len();
        let ghost big = (order - 1) * vstd::arithmetic::power::pow(order as int, h);
        proof {
            reveal(vstd::arithmetic::power::pow);
            vstd::arithmetic::power::lemma_pow_positive(order as int, h);
            assert(big > 0) by (nonlinear_arith)
                requires
                    big == (order - 1) * vstd::arithmetic::power::pow(order as int, h),
                    vstd::arithmetic::power::pow(order as int, h) > 0,
                    order >= 3,
            ;
            assert(big < len) by (nonlinear_arith)
                requires
                    (count - 1) * big < len,
                    count >= 2,
                    big > 0,
            ;
            assert(vstd::arithmetic::power::pow(order as int, h + 1) == order * vstd::arithmetic::power::pow(order as int, h));
        }
        let ghost lv = level@;
        let mut children = reversed(level);
        let sizes = even_chunks(count, order);
        proof {
            if sizes@.len() > 1 {
                lemma_chunks_fill(count as int, order as int, (m + 1) as int);
            }
            assert(sizes@.len() < count) by (nonlinear_arith)
                requires
                    sizes@.len() == (count - 1) / (order as int) + 1,
                    count >= 2,
                    order >= 3,
            ;
        }
        let ghost ptop: nat = if sizes@.len() > 1 { m } else { 1 };
        let mut parents: Vec<(Node<K, V>, K)> = Vec::new();
        proof {
            assert(lv.subrange(0, 0) =~= Seq::<(Node<K, V>, K)>::empty());
            assert(level_nodes(lv.subrange(0, 0)) =~= Seq::<Node<K, V>>::empty());
            assert(level_nodes(parents@) =~= Seq::<Node<K, V>>::empty());
        }
        let mut g: usize = 0;
        while g < sizes.len()
            invariant
                lawful_key::<K>(),
                order >= 3,
                ord == order,
                m == min_keys(ord),
                level_ok(lv, h, ord),
                lv.len() == count,
                count > 1,
                sizes@.len() == (count - 1) / (order as int) + 1,
                prefix_sum(sizes@, sizes@.len() as int) == count,
                forall|t: int| 0 <= t < sizes@.len() ==> 1 <= #[trigger] sizes@[t] <= order,
                sizes@.len() > 1 ==> forall|t: int| 0 <= t < sizes@.len() ==> m + 1 <= #[trigger] sizes@[t],
                ptop == if sizes@.len() > 1 { m } else { 1 },
                0 <= g <= sizes@.len(),
                0 <= prefix_sum(sizes@, g as int) <= count,
                children@ == lv.subrange(prefix_sum(sizes@, g as int), count as int).reverse(),
                parents@.len() == g,
                forall|t: int| 0 <= t < g ==> group_piece(#[trigger] parents@[t], lv, prefix_sum(sizes@, t), prefix_sum(sizes@, t + 1)),
                seq_entries(level_nodes(parents@)) == seq_entries(level_nodes(lv.subrange(0, prefix_sum(sizes@, g as int)))),
                forall|t: int| 0 <= t < lv.len() ==> tight_piece(#[trigger] lv[t]),
                forall|t: int| 0 <= t < g ==> tight_piece(#[trigger] parents@[t]),
                forall|d: nat|
                    #[trigger] row_at(level_nodes(lv.subrange(0, prefix_sum(sizes@, g as int))), d) == row_at(
                        level_nodes(parents@),
                        d + 1,
                    ),
            decreases sizes@.len() - g,
        {
            let size = sizes[g];
            let ghost base = prefix_sum(sizes@, g as int);
            proof {
                lemma_prefix_sum_increasing(sizes@, g + 1, sizes@.len() as int);
                assert(prefix_sum(sizes@, g + 1) == base + size);
            }
            let mut keys: Vec<K> = Vec::new();
            let mut ids: Vec<Node<K, V>> = Vec::new();
            let mut min: Option<K> = None;
            let mut j: usize = 0;
            while j < size
                invariant
                    0 <= j <= size,
                    0 <= base,
                    base + size <= count,
                    lv.len() == count,
                    children@ == lv.subrange(base + j, count as int).reverse(),
                    ids@ == level_nodes(lv.subrange(base, base + j)),
                    j == 0 ==> min is None && keys@.len() == 0,
                    j > 0 ==> min == Some(lv[base].1) && keys@ == level_mins(lv.subrange(base + 1, base + j)),
                decreases size - j,
            {
                let ghost c0 = children@;
                if let Some((id, child_min)) = children.pop() {
                    proof {
                        assert(c0.last() == lv[base + j]);
                        assert(children@ =~= lv.subrange(base + j + 1, count as int).reverse());
                    }
                    // The first child's subtree min becomes this node's min; each
                    // later child's min becomes the separator to its left.
                    if min.is_none() {
                        min = Some(child_min);
                    } else {
                        keys.push(child_min);
                    }
                    ids.push(id);
                    proof {
                        assert(ids@ =~= level_nodes(lv.subrange(base, base + j + 1)));
                        assert(keys@ =~= level_mins(lv.subrange(base + 1, base + j + 1)));
                    }
                } else {
                    proof {
                        assert(c0.len() > 0);
                    }
                }
                j += 1;
            }
            let parent = Internal { keys, children: ids };
            proof {
                lemma_group_wf(lv, h, ord, base, base + size, parent, ptop);
            }
            if let Some(min) = min {
                let ghost p0 = parents@;
                proof {
                    lemma_group_tight((Node::Internal(parent), min), lv, base, base + size);
                    assert forall|d: nat| #[trigger] row_at(level_nodes(lv.subrange(0, base + size)), d) == row_at(
                        level_nodes(p0 + seq![(Node::Internal(parent), min)]),
                        d + 1,
                    ) by {
                        assert(row_at(level_nodes(lv.subrange(0, base)), d) == row_at(level_nodes(p0), d + 1));
                        lemma_parent_rows(p0, (Node::Internal(parent), min), lv, base, size as int, d);
                    }
                }
                parents.push((Node::Internal(parent), min));
                proof {
                    assert(parents@ == p0 + seq![(Node::Internal(parent), min)]);
                    lemma_level_nodes_append(p0, seq![(Node::Internal(parent), min)]);
                    assert(level_nodes(seq![(Node::Internal(parent), min)]) =~= seq![Node::Internal(parent)]);
                    lemma_seq_entries_single(Node::Internal(parent));
                    assert(lv.subrange(0, base + size) =~= lv.subrange(0, base) + lv.subrange(base, base + size));
                    lemma_level_nodes_append(lv.subrange(0, base), lv.subrange(base, base + size));
                }
            }
            g += 1;
        }
        proof {
            lemma_parent_level(lv, parents@, sizes@, h, ord, ptop);
            assert(lv.subrange(0, count as int) =~= lv);
            assert forall|d: nat| #[trigger] row_at(level_nodes(lv), d) == row_at(level_nodes(parents@), d + 1) by {
                assert(row_at(level_nodes(lv.subrange(0, prefix_sum(sizes@, sizes@.len() as int))), d) == row_at(
                    level_nodes(parents@),
                    d + 1,
                ));
            }
            let p = vstd::arithmetic::power::pow(order as int, h);
            assert((parents@.len() - 1) * ((order - 1) * (order * p)) < len) by (nonlinear_arith)
                requires
                    parents@.len() == (count - 1) / (order as int) + 1,
                    (count - 1) * ((order - 1) * p) < len,
                    order >= 3,
                    p > 0,
                    count >= 2,
            ;
        }
        proof {
            lemma_chunks_even(sizes@, count as int);
            lemma_parent_row_even(parents@, lv, sizes@);
            lemma_row_at_zero(level_nodes(lv));
            assert(row_at(level_nodes(lv), 0) == rows[h - 0]);
            assert(level_nodes(lv).len() == count);
            assert forall|t: int| 0 <= t < level_nodes(parents@).len() implies node_keys(#[trigger] level_nodes(parents@)[t]) + 1
                == even_size(level_nodes(lv).len() as int, level_nodes(parents@).len() as int, t) by {
                assert(sizes@[t] == count as int / (sizes@.len() as int) + if t < count as int % (sizes@.len() as int) {
                    1int
                } else {
                    0int
                });
            }
            rows = lemma_rows_step(rows, lv, parents@, h, len as int, order as int);
        }
        level = parents;
        proof {
            h = h + 1;
        }
    }
    proof {
        assert(level@.len() == 1);
        let lv = level@;
        assert(wf_node(lv[0].0, h, Some(lv[0].1), None, ord, root_top(lv[0].0)));
        lemma_wf_relax(lv[0].0, h, Some(lv[0].1), None, ord, root_top(lv[0].0), true, false);
        lemma_wf_height(lv[0].0, h, None, None, ord, root_top(lv[0].0));
        assert(level_nodes(lv) =~= seq![lv[0].0]);
        lemma_seq_entries_single(lv[0].0);
        let root = lv[0].0;
        assert forall|d: nat| d <= h implies #[trigger] nodes_at(root, d) == rows[h - d] by {
            lemma_row_at_single(root, d);
            assert(row_at(level_nodes(lv), d) == rows[h - d]);
        }
        assert(nodes_at(root, h) == rows[0]);
        assert forall|d: nat| d < h implies #[trigger] nodes_at(root, d).len() == (nodes_at(root, d + 1).len() - 1) / (order as int) + 1 by {
            assert(nodes_at(root, d) == rows[h - d]);
            assert(nodes_at(root, d + 1) == rows[h - d - 1]);
            assert(rows[h - d].len() == (rows[h - d - 1].len() - 1) / (order as int) + 1);
        }
        assert forall|d: nat, i: int| d < h && 0 <= i < nodes_at(root, d).len() implies node_keys(#[trigger] nodes_at(root, d)[i]) + 1
            == even_size(nodes_at(root, d + 1).len() as int, nodes_at(root, d).len() as int, i) by {
            assert(nodes_at(root, d) == rows[h - d]);
            assert(nodes_at(root, d + 1) == rows[h - d - 1]);
            assert(node_keys(rows[h - d][i]) + 1 == even_size(rows[h - d - 1].len() as int, rows[h - d].len() as int, i));
        }
        assert(packed(root, h, len as int, order as int));
        assert forall|d: nat| even_row(#[trigger] nodes_at(root, d)) by {
            lemma_row_at_single(root, d);
            if d <= h {
                assert(row_at(level_nodes(lv), d) == rows[h - d]);
            } else {
                lemma_nodes_at_deep(root, h, None, None, ord, root_top(root), d);
            }
        }
    }
    let (root, _min) = level.pop().unwrap();
    (root, len)
}

/// Internal nodes gathered from consecutive runs of a level form the next
/// level up.
proof fn lemma_parent_level<K: Ord + Clone, V>(
    lv: Seq<(Node<K, V>, K)>,
    ps: Seq<(Node<K, V>, K)>,
    s: Seq<usize>,
    h: nat,
    order: nat,
    ptop: nat,
)
    requires
        lawful_key::<K>(),
        order >= 3,
        level_ok(lv, h, order),
        lv.len() > 1,
        ps.len() == s.len(),
        s.len() > 0,
        prefix_sum(s, s.len() as int) == lv.len(),
        forall|t: int| 0 <= t < s.len() ==> 1 <= #[trigger] s[t] <= order,
        s.len() > 1 ==> forall|t: int| 0 <= t < s.len() ==> min_keys(order) + 1 <= #[trigger] s[t],
        s.len() == 1 ==> s[0] == lv.len(),
        ptop == if s.len() > 1 { min_keys(order) } else { 1 },
        forall|t: int| 0 <= t < ps.len() ==> group_piece(#[trigger] ps[t], lv, prefix_sum(s, t), prefix_sum(s, t + 1)),
    ensures
        level_ok(ps, h + 1, order),
{
    lemma_key_order::<K>();
    let n = s.len() as int;
    assert forall|t: int| 0 <= t < n implies 0 <= prefix_sum(s, t) && prefix_sum(s, t) + s[t] == #[trigger] prefix_sum(s, t + 1) && prefix_sum(s, t + 1) <= lv.len() by {
        lemma_prefix_sum_increasing(s, 0, t);
        lemma_prefix_sum_increasing(s, t + 1, n);
    }
    assert forall|a: int, b: int| 0 <= a < b < n implies lt(#[trigger] level_mins(ps)[a], #[trigger] level_mins(ps)[b]) by {
        lemma_prefix_sum_increasing(s, a + 1, b);
        assert(prefix_sum(s, a + 1) == prefix_sum(s, a) + s[a]);
        assert(prefix_sum(s, b + 1) == prefix_sum(s, b) + s[b]);
        assert(level_mins(lv)[prefix_sum(s, a)] == lv[prefix_sum(s, a)].1);
        assert(level_mins(lv)[prefix_sum(s, b)] == lv[prefix_sum(s, b)].1);
    }
    assert forall|i: int| 0 <= i < n implies wf_node(#[trigger] ps[i].0, h + 1, Some(ps[i].1), level_hi(ps, i), order, level_top(ps, i, order)) by {
        let a = prefix_sum(s, i);
        let b = prefix_sum(s, i + 1);
        assert(b == a + s[i]);
        lemma_prefix_sum_increasing(s, 0, i);
        lemma_prefix_sum_increasing(s, i + 1, n);
        let x = ps[i].0->Internal_0;
        assert(ps[i].0 == Node::Internal(x));
        if n == 1 {
            assert(a == 0);
            assert(s[0] == lv.len());
        }
        lemma_group_wf(lv, h, order, a, b, x, ptop);
        if i + 1 < n {
            assert(prefix_sum(s, i + 2) == prefix_sum(s, i + 1) + s[i + 1]);
            assert(ps[i + 1].1 == lv[b].1);
        } else {
            assert(b == lv.len());
        }
        assert(level_hi(ps, i) == level_hi(lv, b - 1));
    }
}

} // verus!
