//! The [`BPlusTree`] public type: an ordered map laid out as a B+tree.

use vstd::prelude::*;
use crate::order::lawful_key;
use crate::order::lemma_key_order;
use crate::model::sorted_entries;
use crate::model::keys_of;
use crate::model::rank;
use crate::model::map_of;
use crate::model::lemma_map_len;
use crate::model::lemma_map_insert;
use crate::model::lemma_map_update;
use crate::model::lemma_map_remove;
use crate::model::lemma_contains_at_rank;
use crate::model::fold_inserts;
use crate::model::lemma_fold_sorted;
use crate::order::key_less;
use crate::order::lt;
use crate::node::Node;
use crate::node::entries;
use crate::node::wf_root;
use crate::node::wf_node;
use crate::node::height_of;
use crate::node::root_top;
use crate::node::min_keys;
use crate::node::child_lo;
use crate::node::child_hi;
use crate::node::lemma_wf_sorted;
use crate::node::lemma_wf_count_height;
use crate::ops;
use crate::iter::Iter;
use crate::iter::Bound;
use crate::iter::in_bounds;
use crate::iter::lemma_wf_shaped;

verus! {

/// Smallest fan-out a node may have. With fewer than three children a split
/// cannot leave both halves non-empty, so the tree could not stay balanced.
const MIN_ORDER: usize = 3;

/// Default fan-out: up to 64 children per node, so up to 63 keys. A binary
/// search over a node is then at most six comparisons, and a tree of a million
/// keys stands four levels tall.
const DEFAULT_ORDER: usize = 64;

/// An ordered map backed by a B+tree.
///
/// Keys are kept in sorted order across a tree of fixed-fan-out nodes. Point
/// operations — [`get`](BPlusTree::get), [`insert`](BPlusTree::insert),
/// [`contains_key`](BPlusTree::contains_key) — run in time logarithmic in the
/// number of entries: each level is one binary search over a node, and the
/// height grows with the logarithm of the entry count. Beyond point access it
/// supports ordered iteration and range scans, forward and in reverse.
///
/// The contracts speak of the tree as a map, `self@`. They hold for key types
/// whose `Ord` is a total order consistent with `==` and whose `Clone` yields an
/// equal key ([`lawful_key`](crate::lawful_key)).
pub struct BPlusTree<K, V> {
    /// The root node.
    root: Node<K, V>,
    /// Maximum fan-out: the most children an internal node may hold, and one
    /// more than the most keys any node may hold.
    order: usize,
    /// Number of entries in the tree.
    len: usize,
}

impl<K: Ord + Clone, V> View for BPlusTree<K, V> {
    type V = Map<K, V>;

    /// The map from keys to values the tree holds.
    closed spec fn view(&self) -> Map<K, V> {
        map_of(entries(self.root))
    }
}

impl<K: Ord + Clone, V> BPlusTree<K, V> {
    /// The tree's entries in ascending key order.
    pub closed spec fn listing(&self) -> Seq<(K, V)> {
        entries(self.root)
    }

    /// The tree's height in levels: one for a tree whose root is a leaf, one
    /// more for each level of internal nodes.
    pub closed spec fn levels(&self) -> nat {
        height_of(self.root) + 1
    }

    /// The tree's fan-out: the most children a node may have.
    pub closed spec fn fanout(&self) -> nat {
        self.order as nat
    }

    /// Every level of the tree is evenly filled: at each depth, the key counts
    /// of the nodes differ by at most one.
    pub closed spec fn evenly_filled(&self) -> bool {
        crate::node::even_levels(self.root)
    }

    /// The tree is packed level by level as a bulk load packs it: its leaves
    /// are the fewest that hold its entries at `fanout - 1` per leaf, the
    /// entries spread as evenly as possible with the leading leaves taking one
    /// more; each level above has the fewest nodes that hold the level below at
    /// `fanout` children per node, the children spread the same way.
    pub closed spec fn evenly_packed(&self) -> bool {
        crate::node::packed(self.root, height_of(self.root), self.len as int, self.order as int)
    }

    /// Depth `d` of the tree (the root at depth zero) holds nodes, all of them
    /// internal.
    pub closed spec fn internal_level(&self, d: nat) -> bool {
        &&& crate::node::nodes_at(self.root, d).len() > 0
        &&& crate::node::all_in(crate::node::nodes_at(self.root, d), |x: Node<K, V>| x is Internal)
    }

    /// Depth `d` of the tree holds nodes, all of them leaves.
    pub closed spec fn leaf_level(&self, d: nat) -> bool {
        &&& crate::node::nodes_at(self.root, d).len() > 0
        &&& crate::node::all_in(crate::node::nodes_at(self.root, d), |x: Node<K, V>| x is Leaf)
    }

    /// Depth `d` of the tree holds no node.
    pub closed spec fn empty_level(&self, d: nat) -> bool {
        crate::node::nodes_at(self.root, d).len() == 0
    }

    /// Every node at depth `d` holds between `lo` and `hi` keys (entries for a
    /// leaf, separators for an internal node).
    pub closed spec fn level_fill_within(&self, d: nat, lo: nat, hi: nat) -> bool {
        crate::node::all_in(
            crate::node::nodes_at(self.root, d),
            |x: Node<K, V>| lo <= crate::node::node_keys(x) <= hi,
        )
    }

    /// Every node on the route `key` takes from the root to a leaf is full,
    /// holding `fanout - 1` keys, so inserting `key` as a new entry overflows
    /// each of them in turn.
    pub closed spec fn full_route(&self, key: K) -> bool {
        crate::node::full_route(self.root, key, self.order as nat)
    }

    /// The fewest keys a node below the root may hold.
    pub closed spec fn min_fill(&self) -> nat {
        min_keys(self.order as nat)
    }

    /// Every separator in the tree is the least key of the subtree to its
    /// right.
    pub closed spec fn tight_separators(&self) -> bool {
        crate::node::tight(self.root)
    }

    /// The tree's invariant: a balanced B+tree of its fan-out whose entry count
    /// is recorded, and whose listing is the ascending listing of its map.
    pub closed spec fn wf(&self) -> bool {
        &&& wf_root(self.root, self.order as nat)
        &&& self.len == entries(self.root).len()
        &&& sorted_entries(entries(self.root))
        &&& map_of(entries(self.root)).dom().finite()
        &&& map_of(entries(self.root)).len() == self.len
    }

    /// Create an empty tree with the default node fan-out.
    pub fn new() -> (r: Self)
        ensures
            r.wf(),
            r@ == Map::<K, V>::empty(),
            r.listing() == Seq::<(K, V)>::empty(),
            r.levels() == 1,
            r.fanout() == 64,
    {
        Self::with_order(DEFAULT_ORDER)
    }

    /// Create an empty tree with an explicit node fan-out, raised to the
    /// minimum a balanced tree requires.
    pub fn with_order(order: usize) -> (r: Self)
        ensures
            r.wf(),
            r@ == Map::<K, V>::empty(),
            r.listing() == Seq::<(K, V)>::empty(),
            r.levels() == 1,
            r.fanout() == if order < 3 { 3 } else { order },
    {
        let root = Node::empty_leaf();
        let order = if order < MIN_ORDER { MIN_ORDER } else { order };
        let r = BPlusTree { root, order, len: 0 };
        proof {
            assert(map_of(entries(r.root)) =~= Map::<K, V>::empty());
        }
        r
    }

    /// The number of entries in the tree.
    pub fn len(&self) -> (r: usize)
        requires
            self.wf(),
        ensures
            r == self@.len(),
            r == self.listing().len(),
    {
        self.len
    }

    /// Whether the tree holds no entries.
    pub fn is_empty(&self) -> (r: bool)
        requires
            self.wf(),
        ensures
            r == (self@.len() == 0),
            r == (self@ == Map::<K, V>::empty()),
    {
        proof {
            if self@.len() == 0 {
                assert(self@.dom() =~= Set::<K>::empty());
                assert(self@ =~= Map::<K, V>::empty());
            }
        }
        self.len == 0
    }

    /// The height of the tree in levels: a tree whose root is a leaf has height
    /// one, and every level of internal nodes above the leaves adds one more.
    ///
    /// Because the tree is balanced, this is the number of nodes touched on any
    /// root-to-leaf path, and so the cost of a point lookup in node visits.
    pub fn height(&self) -> (r: usize)
        requires
            self.wf(),
        ensures
            r == self.levels(),
            r >= 1,
    {
        let ghost order = self.order as nat;
        let mut height: usize = 1;
        let mut node = &self.root;
        let ghost mut h = height_of(self.root);
        let ghost mut lo: Option<K> = None;
        let ghost mut hi: Option<K> = None;
        let ghost mut top = root_top(self.root);
        proof {
            if self.root is Internal {
                lemma_wf_count_height(self.root, h, None, None, order, top);
            }
        }
        loop
            invariant
                order >= 3,
                wf_node(*node, h, lo, hi, order, top),
                height_of(*node) == h,
                height as nat + h == height_of(self.root) + 1,
                height_of(self.root) == 0 || height_of(self.root) + 1 <= self.len,
                self.len <= usize::MAX,
            decreases h,
        {
            match node {
                Node::Leaf(_) => {
                    return height;
                },
                Node::Internal(internal) => {
                    proof {
                        crate::node::lemma_wf_height(internal.children@[0], (h - 1) as nat, child_lo(internal.keys@, 0, lo), child_hi(internal.keys@, 0, hi), order, min_keys(order));
                        lo = child_lo(internal.keys@, 0, lo);
                        hi = child_hi(internal.keys@, 0, hi);
                        h = (h - 1) as nat;
                        top = min_keys(order);
                    }
                    height += 1;
                    node = &internal.children[0];
                },
            }
        }
    }

    /// Remove every entry, returning the tree to its empty state.
    pub fn clear(&mut self)
        requires
            old(self).wf(),
        ensures
            final(self).wf(),
            final(self)@ == Map::<K, V>::empty(),
            final(self).listing() == Seq::<(K, V)>::empty(),
            final(self).levels() == 1,
            final(self).fanout() == old(self).fanout(),
    {
        self.root = Node::empty_leaf();
        self.len = 0;
        proof {
            assert(map_of(entries(self.root)) =~= Map::<K, V>::empty());
        }
    }

    /// An iterator over all entries in ascending key order.
    ///
    /// The iterator is double-ended: [`next_back`](Iter::next_back) walks it in
    /// descending order, and it can be driven from both ends at once.
    pub fn iter(&self) -> (r: Iter<'_, K, V>)
        requires
            self.wf(),
        ensures
            r.wf(),
            r.remaining() == self.listing(),
            r.walk() == self.listing(),
            r.yielded_front() == Seq::<(K, V)>::empty(),
            r.yielded_back() == Seq::<(K, V)>::empty(),
    {
        proof {
            lemma_wf_shaped(self.root, height_of(self.root), None, None, self.order as nat, root_top(self.root));
        }
        Iter::full(&self.root)
    }

    /// An iterator over the entries whose keys fall in the range from `lower`
    /// to `upper`, in ascending key order.
    ///
    /// Each bound includes its key, excludes it, or leaves that side open, so
    /// `a..b` is `(Included(&a), Excluded(&b))`, `a..=b` is
    /// `(Included(&a), Included(&b))`, and `..` is `(Unbounded, Unbounded)`.
    /// Like [`iter`](Self::iter) the result is double-ended.
    pub fn range(&self, lower: Bound<&K>, upper: Bound<&K>) -> (r: Iter<'_, K, V>)
        requires
            lawful_key::<K>(),
            self.wf(),
        ensures
            r.wf(),
            r.remaining() == self.listing().filter(|e: (K, V)| in_bounds(e.0, lower, upper)),
            r.walk() == self.listing().filter(|e: (K, V)| in_bounds(e.0, lower, upper)),
            r.yielded_front() == Seq::<(K, V)>::empty(),
            r.yielded_back() == Seq::<(K, V)>::empty(),
    {
        Iter::range(&self.root, lower, upper, Ghost(self.order as nat))
    }

    /// Look up the value stored under `key`, or `None` if the key is absent.
    pub fn get(&self, key: &K) -> (r: Option<&V>)
        requires
            lawful_key::<K>(),
            self.wf(),
        ensures
            r is Some <==> self@.contains_key(*key),
            r is Some ==> *r->0 == self@[*key],
    {
        ops::get(&self.root, key, Ghost(self.order as nat))
    }

    /// Whether the tree holds an entry for `key`.
    pub fn contains_key(&self, key: &K) -> (r: bool)
        requires
            lawful_key::<K>(),
            self.wf(),
        ensures
            r == self@.contains_key(*key),
    {
        self.get(key).is_some()
    }

    /// Insert `key` with `value`. If the key was already present its previous
    /// value is replaced and returned; otherwise the entry is added and `None`
    /// is returned.
    pub fn insert(&mut self, key: K, value: V) -> (r: Option<V>)
        requires
            lawful_key::<K>(),
            old(self).wf(),
            old(self)@.contains_key(key) || old(self)@.len() < usize::MAX,
        ensures
            final(self).wf(),
            final(self)@ == old(self)@.insert(key, value),
            r == if old(self)@.contains_key(key) { Some(old(self)@[key]) } else { None::<V> },
            final(self).fanout() == old(self).fanout(),
            final(self).levels() == old(self).levels() || final(self).levels() == old(self).levels() + 1,
            r is Some ==> final(self).levels() == old(self).levels(),
            final(self).levels() == old(self).levels() + 1 <==> (r is None && old(self).full_route(key)),
    {
        let ghost e = entries(self.root);
        let r = ops::insert(&mut self.root, key, value, self.order);
        proof {
            lemma_contains_at_rank(e, key);
            crate::model::lemma_rank_sorted(e, key);
            if keys_of(e).contains(key) {
                lemma_map_update(e, rank(e, key), value);
            } else {
                lemma_map_insert(e, key, value);
            }
            lemma_map_len(entries(self.root));
        }
        if r.is_none() {
            self.len = self.len + 1;
        }
        r
    }

    /// Remove `key`, returning its value if it was present, or `None` if the
    /// tree held no such key.
    ///
    /// Removing keeps the tree balanced: an under-full node borrows an entry
    /// from a sibling or merges with one, and when the root is left with a single
    /// child the tree collapses a level. Every leaf stays at the same depth.
    pub fn remove(&mut self, key: &K) -> (r: Option<V>)
        requires
            lawful_key::<K>(),
            old(self).wf(),
        ensures
            final(self).wf(),
            final(self)@ == old(self)@.remove(*key),
            r == if old(self)@.contains_key(*key) { Some(old(self)@[*key]) } else { None::<V> },
            final(self).fanout() == old(self).fanout(),
            final(self).levels() == old(self).levels() || final(self).levels() + 1 == old(self).levels(),
            r is None ==> final(self).levels() == old(self).levels() && final(self).listing() == old(self).listing(),
    {
        let min_keys = self.min_keys();
        let ghost e = entries(self.root);
        let r = ops::remove(&mut self.root, key, min_keys, Ghost(self.order as nat));
        proof {
            lemma_contains_at_rank(e, *key);
            crate::model::lemma_rank_sorted(e, *key);
            if keys_of(e).contains(*key) {
                lemma_map_remove(e, rank(e, *key));
            } else {
                assert(map_of(e).remove(*key) =~= map_of(e));
            }
            lemma_map_len(entries(self.root));
        }
        if r.is_some() {
            self.len = self.len - 1;
        }
        r
    }

    /// The minimum number of keys a non-root node must hold: a node is at least
    /// half full, so two under-full siblings always fit in one node on merge.
    fn min_keys(&self) -> (r: usize)
        requires
            self.wf(),
        ensures
            r == min_keys(self.order as nat),
    {
        self.order / 2 + self.order % 2 - 1
    }

    /// Build a tree in bulk from entries already sorted by key.
    ///
    /// When the input is sorted strictly ascending by key, the tree is built
    /// bottom-up — leaves packed and balanced in one pass — which is much faster
    /// than inserting one entry at a time. If the input is *not* strictly
    /// ascending (out of order or with duplicate keys), it falls back to ordinary
    /// insertion, so the result is always a correct tree; only the fast path
    /// requires sorted, unique keys. On the fallback path a later duplicate key
    /// overwrites an earlier one.
    pub fn from_sorted(entries: Vec<(K, V)>) -> (r: Self)
        requires
            lawful_key::<K>(),
        ensures
            r.wf(),
            r@ == fold_inserts(entries@),
            sorted_entries(entries@) ==> r.listing() == entries@,
            sorted_entries(entries@) ==> r.evenly_filled() && r.tight_separators(),
            sorted_entries(entries@) && entries@.len() > 0 ==> r.evenly_packed(),
            sorted_entries(entries@) && r.levels() >= 2 ==> (r.fanout() - 1) * vstd::arithmetic::power::pow(
                r.fanout() as int,
                (r.levels() - 2) as nat,
            ) < r@.len(),
            r.fanout() == 64,
    {
        Self::from_sorted_with_order(entries, DEFAULT_ORDER)
    }

    /// [`from_sorted`](Self::from_sorted) with an explicit fan-out, raised to
    /// the minimum a balanced tree requires.
    pub fn from_sorted_with_order(entries: Vec<(K, V)>, order: usize) -> (r: Self)
        requires
            lawful_key::<K>(),
        ensures
            r.wf(),
            r@ == fold_inserts(entries@),
            sorted_entries(entries@) ==> r.listing() == entries@,
            sorted_entries(entries@) ==> r.evenly_filled() && r.tight_separators(),
            sorted_entries(entries@) && entries@.len() > 0 ==> r.evenly_packed(),
            sorted_entries(entries@) && r.levels() >= 2 ==> (r.fanout() - 1) * vstd::arithmetic::power::pow(
                r.fanout() as int,
                (r.levels() - 2) as nat,
            ) < r@.len(),
            r.fanout() == if order < 3 { 3 } else { order },
    {
        let order = if order < MIN_ORDER { MIN_ORDER } else { order };
        let ghost e = entries@;
        let n = entries.len();
        let mut ascending = true;
        let mut i: usize = 1;
        while i < n
            invariant
                lawful_key::<K>(),
                n == e.len(),
                entries@ == e,
                1 <= i <= n || n == 0,
                ascending <==> forall|a: int, b: int| 0 <= a < b < i && b < n ==> lt(#[trigger] e[a].0, #[trigger] e[b].0),
            decreases n - i,
        {
            let ghost before = ascending;
            if !key_less(&entries[i - 1].0, &entries[i].0) {
                ascending = false;
            }
            proof {
                lemma_key_order::<K>();
                if ascending {
                    assert forall|a: int, b: int| 0 <= a < b < i + 1 && b < n implies lt(#[trigger] e[a].0, #[trigger] e[b].0) by {
                        if b == i && a < i - 1 {
                            assert(lt(e[a].0, e[i - 1].0));
                        }
                    }
                } else if before {
                    assert(!lt(e[i - 1].0, e[i as int].0));
                }
            }
            i += 1;
        }
        if ascending {
            proof {
                assert(sorted_entries(e));
                lemma_map_len(e);
                lemma_fold_sorted(e);
            }
            let (root, len) = ops::bulk_load(entries, order);
            BPlusTree { root, order, len }
        } else {
            let mut tree = Self::with_order(order);
            let mut rest = ops::reversed(entries);
            let mut done: usize = 0;
            while rest.len() > 0
                invariant
                    lawful_key::<K>(),
                    tree.wf(),
                    tree.fanout() == order,
                    n == e.len(),
                    done + rest@.len() == n,
                    rest@ == e.subrange(done as int, n as int).reverse(),
                    tree@ == fold_inserts(e.subrange(0, done as int)),
                    tree@.len() <= done,
                    !sorted_entries(e),
                decreases rest@.len(),
            {
                let ghost r0 = rest@;
                if let Some((key, value)) = rest.pop() {
                    proof {
                        assert(r0.last() == e[done as int]);
                        assert(rest@ =~= e.subrange(done + 1, n as int).reverse());
                        assert(e.subrange(0, done + 1).drop_last() =~= e.subrange(0, done as int));
                        broadcast use vstd::set::group_set_axioms;
                        assert(tree@.insert(key, value).dom() == tree@.dom().insert(key));
                    }
                    let _previous = tree.insert(key, value);
                    done += 1;
                }
            }
            proof {
                assert(e.subrange(0, n as int) =~= e);
            }
            tree
        }
    }
}

impl<K: Ord + Clone, V> Default for BPlusTree<K, V> {
    /// An empty tree with the default fan-out, the same as [`new`](BPlusTree::new).
    fn default() -> (r: Self)
        ensures
            r.wf(),
            r@ == Map::<K, V>::empty(),
            r.listing() == Seq::<(K, V)>::empty(),
            r.levels() == 1,
            r.fanout() == 64,
    {
        Self::new()
    }
}

/// Reading a key back after inserting it gives the value inserted, and every
/// other key reads as it did before.
pub proof fn law_read_after_insert<K: Ord + Clone, V>(
    before: BPlusTree<K, V>,
    after: BPlusTree<K, V>,
    key: K,
    value: V,
    other: K,
)
    requires
        after@ == before@.insert(key, value),
    ensures
        after@.contains_key(key),
        after@[key] == value,
        other != key ==> after@.contains_key(other) == before@.contains_key(other),
        other != key && before@.contains_key(other) ==> after@[other] == before@[other],
{
}

/// After a key is removed it is absent, and every other key reads as it did
/// before.
pub proof fn law_read_after_remove<K: Ord + Clone, V>(
    before: BPlusTree<K, V>,
    after: BPlusTree<K, V>,
    key: K,
    other: K,
)
    requires
        after@ == before@.remove(key),
    ensures
        !after@.contains_key(key),
        other != key ==> after@.contains_key(other) == before@.contains_key(other),
        other != key && before@.contains_key(other) ==> after@[other] == before@[other],
{
}

/// Inserting a new key adds one entry; replacing the value of a key already
/// present leaves the entry count as it was.
pub proof fn law_len_after_insert<K: Ord + Clone, V>(
    before: BPlusTree<K, V>,
    after: BPlusTree<K, V>,
    key: K,
    value: V,
)
    requires
        before.wf(),
        after@ == before@.insert(key, value),
    ensures
        after@.len() == before@.len() + if before@.contains_key(key) { 0int } else { 1int },
{
    broadcast use vstd::set::group_set_axioms;
    assert(after@.dom() == before@.dom().insert(key));
}

/// Removing a present key drops one entry; removing an absent key changes
/// nothing.
pub proof fn law_len_after_remove<K: Ord + Clone, V>(before: BPlusTree<K, V>, after: BPlusTree<K, V>, key: K)
    requires
        before.wf(),
        after@ == before@.remove(key),
    ensures
        after@.len() == before@.len() - if before@.contains_key(key) { 1int } else { 0int },
        !before@.contains_key(key) ==> after@ == before@,
{
    broadcast use vstd::set::group_set_axioms;
    assert(after@.dom() == before@.dom().remove(key));
    if !before@.contains_key(key) {
        assert(after@ =~= before@);
    }
}

/// Removing a key just inserted under a fresh key undoes the insertion; and
/// putting back the value a removal returned restores the map.
pub proof fn law_insert_remove_undo<K: Ord + Clone, V>(t: BPlusTree<K, V>, key: K, value: V)
    ensures
        !t@.contains_key(key) ==> t@.insert(key, value).remove(key) == t@,
        t@.contains_key(key) ==> t@.remove(key).insert(key, t@[key]) == t@,
{
    if !t@.contains_key(key) {
        assert(t@.insert(key, value).remove(key) =~= t@);
    } else {
        assert(t@.remove(key).insert(key, t@[key]) =~= t@);
    }
}

/// The listing — what iteration yields — holds every entry of the map exactly
/// once, with keys strictly ascending.
pub proof fn law_listing_is_sorted_map<K: Ord + Clone, V>(t: BPlusTree<K, V>)
    requires
        lawful_key::<K>(),
        t.wf(),
    ensures
        forall|i: int, j: int| 0 <= i < j < t.listing().len() ==> lt(#[trigger] t.listing()[i].0, #[trigger] t.listing()[j].0),
        t.listing().len() == t@.len(),
        forall|i: int|
            0 <= i < t.listing().len() ==> t@.contains_key(#[trigger] t.listing()[i].0) && t@[t.listing()[i].0] == t.listing()[i].1,
        forall|k: K| t@.contains_key(k) ==> exists|i: int| 0 <= i < t.listing().len() && #[trigger] t.listing()[i].0 == k,
{
    let s = entries(t.root);
    assert forall|i: int| 0 <= i < s.len() implies t@.contains_key(#[trigger] s[i].0) && t@[s[i].0] == s[i].1 by {
        assert(keys_of(s)[i] == s[i].0);
        crate::model::lemma_rank_at(s, i);
    }
    assert forall|k: K| t@.contains_key(k) implies exists|i: int| 0 <= i < t.listing().len() && #[trigger] t.listing()[i].0 == k by {
        let i = choose|i: int| 0 <= i < keys_of(s).len() && keys_of(s)[i] == k;
        assert(t.listing()[i].0 == k);
    }
}

/// Iteration depends only on what a tree holds, not on how it was built: two
/// trees that hold the same map list the same entries in the same order.
pub proof fn law_listing_determined_by_map<K: Ord + Clone, V>(a: BPlusTree<K, V>, b: BPlusTree<K, V>)
    requires
        lawful_key::<K>(),
        a.wf(),
        b.wf(),
        a@ == b@,
    ensures
        a.listing() == b.listing(),
{
    crate::model::lemma_sorted_unique(entries(a.root), entries(b.root));
}

/// A tree with no entries is a single leaf: one level tall.
pub proof fn law_empty_is_one_level<K: Ord + Clone, V>(t: BPlusTree<K, V>)
    requires
        t.wf(),
        t@.len() == 0,
    ensures
        t.levels() == 1,
        t.listing().len() == 0,
{
    if t.root is Internal {
        crate::node::lemma_wf_nonempty(t.root, height_of(t.root), None, None, t.order as nat, root_top(t.root));
    }
}

/// The tree's height is logarithmic in its size: with `m = ceil(fanout / 2)`,
/// a tree `levels >= 2` tall holds at least `2 * m^(levels - 2) * (m - 1)`
/// entries, since the root has two children, every other internal node at
/// least `m`, and every leaf below the root at least `m - 1` entries.
pub proof fn law_height_logarithmic<K: Ord + Clone, V>(t: BPlusTree<K, V>)
    requires
        t.wf(),
        t.levels() >= 2,
    ensures
        2 * vstd::arithmetic::power::pow(((t.fanout() + 1) / 2) as int, (t.levels() - 2) as nat) * (((t.fanout() + 1) / 2)
            - 1) <= t@.len(),
{
    let order = t.order as nat;
    let h = height_of(t.root);
    let c = ((order + 1) / 2) as int;
    if let Node::Internal(x) = t.root {
        let cs = x.children@;
        let p = vstd::arithmetic::power::pow(c, (h - 1) as nat);
        let below = p * (c - 1);
        vstd::arithmetic::power::lemma_pow_positive(c, (h - 1) as nat);
        assert(below >= 0) by (nonlinear_arith)
            requires
                p > 0,
                c >= 2,
                below == p * (c - 1),
        ;
        assert forall|j: int| 0 <= j < cs.len() implies entries(#[trigger] cs[j]).len() >= below by {
            crate::node::lemma_wf_count_pow(cs[j], (h - 1) as nat, child_lo(x.keys@, j, None), child_hi(x.keys@, j, None), order, min_keys(order));
        }
        crate::node::lemma_row_count(cs, below as nat);
        assert(cs.len() * below >= 2 * below) by (nonlinear_arith)
            requires
                cs.len() >= 2,
                below >= 0,
        ;
        assert(2 * p * (c - 1) == 2 * below) by (nonlinear_arith)
            requires
                below == p * (c - 1),
        ;
    }
}

/// A tree's capacity is bounded by its height: a tree `levels` tall holds at
/// most `(fanout - 1) * fanout^(levels - 1)` entries, since no node has more
/// than `fanout` children and no leaf more than `fanout - 1` entries. So a tree
/// holding more than that is taller.
pub proof fn law_height_capacity<K: Ord + Clone, V>(t: BPlusTree<K, V>)
    requires
        t.wf(),
    ensures
        t@.len() <= (t.fanout() - 1) * vstd::arithmetic::power::pow(t.fanout() as int, (t.levels() - 1) as nat),
{
    crate::node::lemma_wf_count_max(t.root, height_of(t.root), None, None, t.order as nat, root_top(t.root));
}

/// A range unbounded on both sides yields the whole listing, just as `iter`
/// does.
pub proof fn law_full_range<K: Ord + Clone, V>(t: BPlusTree<K, V>)
    ensures
        t.listing().filter(|e: (K, V)| in_bounds(e.0, Bound::Unbounded, Bound::Unbounded)) == t.listing(),
{
    let s = t.listing();
    crate::iter::lemma_filter_run(s, |e: (K, V)| in_bounds(e.0, Bound::Unbounded, Bound::Unbounded), 0, s.len() as int);
    assert(s.subrange(0, s.len() as int) =~= s);
}

/// A range yields exactly the tree's entries whose keys lie within its
/// bounds, each with the value the tree maps its key to, in strictly
/// ascending key order.
pub proof fn law_range_yields_in_bounds<K: Ord + Clone, V>(t: BPlusTree<K, V>, lower: Bound<&K>, upper: Bound<&K>)
    requires
        lawful_key::<K>(),
        t.wf(),
    ensures
        ({
            let f = t.listing().filter(|e: (K, V)| in_bounds(e.0, lower, upper));
            &&& forall|i: int, j: int| 0 <= i < j < f.len() ==> lt(#[trigger] f[i].0, #[trigger] f[j].0)
            &&& forall|i: int|
                0 <= i < f.len() ==> in_bounds(#[trigger] f[i].0, lower, upper) && t@.contains_key(f[i].0) && t@[f[i].0] == f[i].1
            &&& forall|k: K|
                t@.contains_key(k) && in_bounds(k, lower, upper) ==> exists|i: int| 0 <= i < f.len() && #[trigger] f[i].0 == k
        }),
{
    let s = t.listing();
    let pred = |e: (K, V)| in_bounds(e.0, lower, upper);
    let f = s.filter(pred);
    law_listing_is_sorted_map(t);
    crate::iter::lemma_filter_sorted(s, pred);
    assert forall|i: int| 0 <= i < f.len() implies in_bounds(#[trigger] f[i].0, lower, upper) && t@.contains_key(f[i].0)
        && t@[f[i].0] == f[i].1 by {
        assert(f.contains(f[i]));
        s.lemma_filter_contains_rev(pred, f[i]);
        s.lemma_filter_pred(pred, i);
        let j = choose|j: int| 0 <= j < s.len() && s[j] == f[i];
        assert(t@.contains_key(s[j].0));
    }
    assert forall|k: K| t@.contains_key(k) && in_bounds(k, lower, upper) implies exists|i: int|
        0 <= i < f.len() && #[trigger] f[i].0 == k by {
        let j = choose|j: int| 0 <= j < s.len() && #[trigger] s[j].0 == k;
        s.lemma_filter_contains(pred, j);
        let i = choose|i: int| 0 <= i < f.len() && f[i] == s[j];
        assert(f[i].0 == k);
    }
}

/// The tree is balanced and its nodes are within their fill: every level
/// above the last holds only internal nodes, the last level (depth
/// `levels() - 1`) only leaves, and nothing lies deeper, so every root-to-leaf
/// path visits exactly `levels()` nodes; a tree is one level tall exactly when
/// its root is a leaf. Every node holds at most `fanout - 1` keys and every
/// node below the root at least `min_fill = ceil(fanout / 2) - 1`, which is at
/// least one, and small enough that a node one short of it, a sibling at it and
/// their separator fit together in one node.
pub proof fn law_balanced<K: Ord + Clone, V>(t: BPlusTree<K, V>)
    requires
        t.wf(),
    ensures
        forall|d: nat| d + 1 < t.levels() ==> #[trigger] t.internal_level(d),
        t.leaf_level((t.levels() - 1) as nat),
        forall|d: nat| d >= t.levels() ==> #[trigger] t.empty_level(d),
        t.levels() == 1 <==> t.leaf_level(0),
        forall|d: nat| 1 <= d ==> #[trigger] t.level_fill_within(d, t.min_fill(), (t.fanout() - 1) as nat),
        t.level_fill_within(0, 0, (t.fanout() - 1) as nat),
        t.min_fill() == (t.fanout() + 1) / 2 - 1,
        t.min_fill() >= 1,
        (t.min_fill() - 1) + t.min_fill() + 1 <= t.fanout() - 1,
{
    let n = t.root;
    let h = height_of(n);
    let o = t.order as nat;
    let top = root_top(n);
    assert forall|d: nat| d + 1 < t.levels() implies #[trigger] t.internal_level(d) by {
        crate::node::lemma_wf_levels(n, h, None, None, o, top, d);
    }
    crate::node::lemma_wf_levels(n, h, None, None, o, top, h);
    assert forall|d: nat| d >= t.levels() implies #[trigger] t.empty_level(d) by {
        crate::node::lemma_wf_levels(n, h, None, None, o, top, d);
    }
    crate::node::lemma_wf_levels(n, h, None, None, o, top, 0);
    assert(crate::node::nodes_at(n, 0) == seq![n]);
    assert(crate::node::nodes_at(n, 0)[0] == n);
    assert forall|d: nat| 1 <= d implies #[trigger] t.level_fill_within(d, t.min_fill(), (t.fanout() - 1) as nat) by {
        crate::node::lemma_wf_levels(n, h, None, None, o, top, d);
        let s0 = crate::node::nodes_at(n, d);
        assert forall|i: int| 0 <= i < s0.len() implies (|x: Node<K, V>| min_keys(o) <= crate::node::node_keys(x) <= (o
            - 1) as nat)(#[trigger] s0[i]) by {
            assert((|x: Node<K, V>| crate::node::node_keys(x) < o)(s0[i]));
            assert((|x: Node<K, V>| min_keys(o) <= crate::node::node_keys(x))(s0[i]));
        }
    }
    let s0 = crate::node::nodes_at(n, 0);
    assert forall|i: int| 0 <= i < s0.len() implies (|x: Node<K, V>| 0 <= crate::node::node_keys(x) <= (o - 1) as nat)(
        #[trigger] s0[i],
    ) by {
        assert((|x: Node<K, V>| crate::node::node_keys(x) < o)(s0[i]));
    }
}

/// An insert adds a level only when every node on the key's route is full, so
/// only when the root is full; in a tree that is a single leaf, that is exactly
/// when the leaf already holds `fanout - 1` entries.
pub proof fn law_full_route<K: Ord + Clone, V>(t: BPlusTree<K, V>, key: K)
    requires
        t.wf(),
    ensures
        t.full_route(key) ==> t.level_fill_within(0, (t.fanout() - 1) as nat, (t.fanout() - 1) as nat),
        t.levels() == 1 ==> (t.full_route(key) <==> t@.len() + 1 == t.fanout()),
{
    let n = t.root;
    assert(crate::node::nodes_at(n, 0) == seq![n]);
    if t.full_route(key) {
        let s0 = crate::node::nodes_at(n, 0);
        let f = (t.order - 1) as nat;
        assert forall|i: int| 0 <= i < s0.len() implies (|x: Node<K, V>| f <= crate::node::node_keys(x) <= f)(
            #[trigger] s0[i],
        ) by {
            assert(s0[i] == n);
        }
    }
}

/// Inserting into a tree that is a single leaf holding fewer than
/// `fanout - 1` entries leaves it a single leaf: a leaf splits only when it
/// overflows. Here `after` and `r` are the tree and result of
/// `before.insert(key, _)`, as `insert` states them.
pub proof fn law_short_leaf_does_not_split<K: Ord + Clone, V>(
    before: BPlusTree<K, V>,
    after: BPlusTree<K, V>,
    key: K,
    r: Option<V>,
)
    requires
        before.wf(),
        before.levels() == 1,
        before@.len() + 1 < before.fanout(),
        after.levels() == before.levels() || after.levels() == before.levels() + 1,
        after.levels() == before.levels() + 1 <==> (r is None && before.full_route(key)),
    ensures
        after.levels() == 1,
{
    law_full_route(before, key);
}

} // verus!
