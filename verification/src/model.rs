//! The mathematical model of a tree's contents: a sequence of entries in
//! strictly ascending key order, and the map it denotes.

use vstd::prelude::*;
use crate::order::lt;
use crate::order::lawful_key;
use crate::order::lemma_key_order;

verus! {

/// Entries in strictly ascending key order (so no key occurs twice).
pub open spec fn sorted_entries<K: PartialOrd, V>(s: Seq<(K, V)>) -> bool {
    forall|i: int, j: int| 0 <= i < j < s.len() ==> lt(#[trigger] s[i].0, #[trigger] s[j].0)
}

/// The keys of a sequence of entries, in order.
pub open spec fn keys_of<K, V>(s: Seq<(K, V)>) -> Seq<K> {
    s.map_values(|e: (K, V)| e.0)
}

/// The number of entries whose key sorts strictly before `k`: where `k` is, or
/// would go, in a sorted sequence.
pub open spec fn rank<K: PartialOrd, V>(s: Seq<(K, V)>, k: K) -> int
    decreases s.len(),
{
    if s.len() == 0 {
        0
    } else {
        rank(s.drop_last(), k) + if lt(s.last().0, k) { 1int } else { 0int }
    }
}

/// The map a sequence of entries denotes.
pub open spec fn map_of<K: PartialOrd, V>(s: Seq<(K, V)>) -> Map<K, V> {
    Map::new(|k: K| keys_of(s).contains(k), |k: K| s[rank(s, k)].1)
}

/// Rank distributes over concatenation.
pub proof fn lemma_rank_append<K: PartialOrd, V>(a: Seq<(K, V)>, b: Seq<(K, V)>, k: K)
    ensures
        rank(a + b, k) == rank(a, k) + rank(b, k),
    decreases b.len(),
{
    if b.len() == 0 {
        assert(a + b =~= a);
    } else {
        assert((a + b).drop_last() =~= a + b.drop_last());
        lemma_rank_append(a, b.drop_last(), k);
    }
}

/// In a sorted sequence the rank of `k` splits it into the entries below `k`
/// and those at or above it.
pub proof fn lemma_rank_sorted<K: Ord + Clone, V>(s: Seq<(K, V)>, k: K)
    requires
        lawful_key::<K>(),
        sorted_entries(s),
    ensures
        0 <= rank(s, k) <= s.len(),
        forall|j: int| 0 <= j < rank(s, k) ==> lt(#[trigger] s[j].0, k),
        forall|j: int| rank(s, k) <= j < s.len() ==> !lt(#[trigger] s[j].0, k),
    decreases s.len(),
{
    lemma_key_order::<K>();
    if s.len() > 0 {
        let t = s.drop_last();
        assert(sorted_entries(t));
        lemma_rank_sorted(t, k);
        if lt(s.last().0, k) {
            assert forall|j: int| 0 <= j < s.len() - 1 implies lt(#[trigger] s[j].0, k) by {
                assert(lt(s[j].0, s[s.len() - 1].0));
                assert(t[j] == s[j]);
            }
            if rank(t, k) < t.len() {
                assert(t[rank(t, k)] == s[rank(t, k)]);
            }
        }
        assert forall|j: int| 0 <= j < rank(s, k) implies lt(#[trigger] s[j].0, k) by {
            if j < t.len() {
                assert(t[j] == s[j]);
            }
        }
        assert forall|j: int| rank(s, k) <= j < s.len() implies !lt(#[trigger] s[j].0, k) by {
            if j < t.len() {
                assert(t[j] == s[j]);
            }
        }
    }
}

/// The rank of a key present in a sorted sequence is its index.
pub proof fn lemma_rank_at<K: Ord + Clone, V>(s: Seq<(K, V)>, i: int)
    requires
        lawful_key::<K>(),
        sorted_entries(s),
        0 <= i < s.len(),
    ensures
        rank(s, s[i].0) == i,
{
    lemma_key_order::<K>();
    lemma_rank_sorted(s, s[i].0);
    let r = rank(s, s[i].0);
    if r < i {
        assert(lt(s[r].0, s[i].0));
    }
    if r > i {
        assert(lt(s[i].0, s[i].0));
    }
}

/// Any index splitting a sorted sequence into keys below `k` and keys not
/// below it is the rank of `k`.
pub proof fn lemma_rank_unique<K: Ord + Clone, V>(s: Seq<(K, V)>, k: K, i: int)
    requires
        lawful_key::<K>(),
        sorted_entries(s),
        0 <= i <= s.len(),
        forall|j: int| 0 <= j < i ==> lt(#[trigger] s[j].0, k),
        forall|j: int| i <= j < s.len() ==> !lt(#[trigger] s[j].0, k),
    ensures
        rank(s, k) == i,
{
    lemma_rank_sorted(s, k);
    let r = rank(s, k);
    if r < i {
        assert(lt(s[r].0, k));
    }
    if r > i {
        assert(!lt(s[i].0, k));
    }
}

/// A sorted sequence holds `k` exactly when the entry at `k`'s rank has it.
pub proof fn lemma_contains_at_rank<K: Ord + Clone, V>(s: Seq<(K, V)>, k: K)
    requires
        lawful_key::<K>(),
        sorted_entries(s),
    ensures
        keys_of(s).contains(k) <==> (rank(s, k) < s.len() && s[rank(s, k)].0 == k),
        keys_of(s).contains(k) ==> map_of(s)[k] == s[rank(s, k)].1,
{
    lemma_rank_sorted(s, k);
    if keys_of(s).contains(k) {
        let i = choose|i: int| 0 <= i < keys_of(s).len() && keys_of(s)[i] == k;
        lemma_rank_at(s, i);
    }
    if rank(s, k) < s.len() && s[rank(s, k)].0 == k {
        assert(keys_of(s)[rank(s, k)] == k);
    }
}

/// The map of a sorted sequence is finite, with one key per entry.
pub proof fn lemma_map_len<K: Ord + Clone, V>(s: Seq<(K, V)>)
    requires
        lawful_key::<K>(),
        sorted_entries(s),
    ensures
        map_of(s).dom().finite(),
        map_of(s).len() == s.len(),
{
    lemma_key_order::<K>();
    let ks = keys_of(s);
    assert(map_of(s).dom() =~= ks.to_set());
    assert(ks.no_duplicates()) by {
        assert forall|i: int, j: int| 0 <= i < ks.len() && 0 <= j < ks.len() && i != j
            implies ks[i] != ks[j] by {
            if i < j {
                assert(lt(s[i].0, s[j].0));
            } else {
                assert(lt(s[j].0, s[i].0));
            }
        }
    }
    ks.unique_seq_to_set();
    vstd::seq_lib::seq_to_set_is_finite(ks);
}

/// Inserting a new key at its rank keeps the sequence sorted and inserts it
/// into the map.
pub proof fn lemma_map_insert<K: Ord + Clone, V>(s: Seq<(K, V)>, k: K, v: V)
    requires
        lawful_key::<K>(),
        sorted_entries(s),
        !keys_of(s).contains(k),
    ensures
        sorted_entries(s.insert(rank(s, k), (k, v))),
        map_of(s.insert(rank(s, k), (k, v))) == map_of(s).insert(k, v),
{
    lemma_key_order::<K>();
    lemma_rank_sorted(s, k);
    let r = rank(s, k);
    let t = s.insert(r, (k, v));
    assert forall|j: int| r < j < t.len() implies lt(k, #[trigger] t[j].0) by {
        assert(t[j] == s[j - 1]);
        assert(!lt(s[j - 1].0, k));
        assert(keys_of(s)[j - 1] == s[j - 1].0);
    }
    assert(sorted_entries(t)) by {
        assert forall|i: int, j: int| 0 <= i < j < t.len() implies lt(#[trigger] t[i].0, #[trigger] t[j].0) by {
            if j < r {
            } else if j == r {
            } else if i < r {
                assert(lt(t[i].0, k));
                assert(lt(k, t[j].0));
            } else if i == r {
            } else {
                assert(t[i] == s[i - 1]);
                assert(t[j] == s[j - 1]);
            }
        }
    }
    assert(keys_of(t) =~= keys_of(s).insert(r, k));
    assert forall|x: K| #[trigger] keys_of(t).contains(x) implies map_of(t)[x] == map_of(s).insert(k, v)[x] by {
        lemma_contains_at_rank(t, x);
        lemma_rank_sorted(t, x);
        let rt = rank(t, x);
        if x == k {
            lemma_rank_at(t, r);
        } else {
            if rt < r {
                assert(t[rt] == s[rt]);
                assert(keys_of(s)[rt] == x);
            } else {
                assert(t[rt] == s[rt - 1]);
                assert(keys_of(s)[rt - 1] == x);
            }
            lemma_contains_at_rank(s, x);
            lemma_rank_sorted(s, x);
            let rs = rank(s, x);
            if rt < r {
                lemma_rank_at(s, rt);
            } else {
                lemma_rank_at(s, rt - 1);
            }
        }
    }
    assert forall|x: K| #[trigger] keys_of(t).contains(x) <==> map_of(s).insert(k, v).dom().contains(x) by {
        if keys_of(s).contains(x) {
            let i = choose|i: int| 0 <= i < keys_of(s).len() && keys_of(s)[i] == x;
            if i < r {
                assert(keys_of(t)[i] == x);
            } else {
                assert(keys_of(t)[i + 1] == x);
            }
        }
        if x == k {
            assert(keys_of(t)[r] == k);
        }
        if keys_of(t).contains(x) {
            let i = choose|i: int| 0 <= i < keys_of(t).len() && keys_of(t)[i] == x;
            if i < r {
                assert(keys_of(s)[i] == x);
            } else if i > r {
                assert(keys_of(s)[i - 1] == x);
            }
        }
    }
    assert(map_of(t) =~= map_of(s).insert(k, v));
}

/// Replacing the value of a present key keeps the sequence sorted and updates
/// the map at that key.
pub proof fn lemma_map_update<K: Ord + Clone, V>(s: Seq<(K, V)>, i: int, v: V)
    requires
        lawful_key::<K>(),
        sorted_entries(s),
        0 <= i < s.len(),
    ensures
        sorted_entries(s.update(i, (s[i].0, v))),
        map_of(s.update(i, (s[i].0, v))) == map_of(s).insert(s[i].0, v),
{
    let k = s[i].0;
    let t = s.update(i, (k, v));
    assert(keys_of(t) =~= keys_of(s));
    assert(sorted_entries(t)) by {
        assert forall|a: int, b: int| 0 <= a < b < t.len() implies lt(#[trigger] t[a].0, #[trigger] t[b].0) by {
            assert(t[a].0 == s[a].0 && t[b].0 == s[b].0);
        }
    }
    assert(keys_of(s)[i] == k);
    assert forall|x: K| #[trigger] keys_of(t).contains(x) implies map_of(t)[x] == map_of(s).insert(k, v)[x] by {
        lemma_contains_at_rank(t, x);
        lemma_rank_sorted(t, x);
        let r = rank(t, x);
        lemma_rank_at(t, r);
        lemma_rank_at(s, r);
        if x == k {
            lemma_rank_at(s, i);
        }
    }
    assert(map_of(t) =~= map_of(s).insert(k, v));
}

/// Removing an entry keeps the sequence sorted and removes its key from the map.
pub proof fn lemma_map_remove<K: Ord + Clone, V>(s: Seq<(K, V)>, i: int)
    requires
        lawful_key::<K>(),
        sorted_entries(s),
        0 <= i < s.len(),
    ensures
        sorted_entries(s.remove(i)),
        map_of(s.remove(i)) == map_of(s).remove(s[i].0),
{
    lemma_key_order::<K>();
    let k = s[i].0;
    let t = s.remove(i);
    assert(sorted_entries(t)) by {
        assert forall|a: int, b: int| 0 <= a < b < t.len() implies lt(#[trigger] t[a].0, #[trigger] t[b].0) by {
            let a2 = if a < i { a } else { a + 1 };
            let b2 = if b < i { b } else { b + 1 };
            assert(t[a] == s[a2] && t[b] == s[b2]);
        }
    }
    assert(keys_of(t) =~= keys_of(s).remove(i));
    assert forall|x: K| #[trigger] keys_of(t).contains(x) <==> map_of(s).remove(k).dom().contains(x) by {
        if keys_of(t).contains(x) {
            let j = choose|j: int| 0 <= j < keys_of(t).len() && keys_of(t)[j] == x;
            let j2 = if j < i { j } else { j + 1 };
            assert(keys_of(s)[j2] == x);
            assert(j2 != i);
            if x == k {
                if j2 < i {
                    assert(lt(s[j2].0, s[i].0));
                } else {
                    assert(lt(s[i].0, s[j2].0));
                }
            }
        }
        if map_of(s).remove(k).dom().contains(x) {
            let j = choose|j: int| 0 <= j < keys_of(s).len() && keys_of(s)[j] == x;
            assert(j != i);
            if j < i {
                assert(keys_of(t)[j] == x);
            } else {
                assert(keys_of(t)[j - 1] == x);
            }
        }
    }
    assert forall|x: K| #[trigger] keys_of(t).contains(x) implies map_of(t)[x] == map_of(s).remove(k)[x] by {
        lemma_contains_at_rank(t, x);
        lemma_rank_sorted(t, x);
        let r = rank(t, x);
        if r < i {
            lemma_rank_at(s, r);
        } else {
            lemma_rank_at(s, r + 1);
        }
    }
    assert(map_of(t) =~= map_of(s).remove(k));
}

/// Two sorted sequences that denote the same map are the same sequence: a map
/// has exactly one ascending listing.
pub proof fn lemma_sorted_unique<K: Ord + Clone, V>(s: Seq<(K, V)>, t: Seq<(K, V)>)
    requires
        lawful_key::<K>(),
        sorted_entries(s),
        sorted_entries(t),
        map_of(s) == map_of(t),
    ensures
        s == t,
    decreases s.len(),
{
    lemma_key_order::<K>();
    lemma_map_len(s);
    lemma_map_len(t);
    assert(s.len() == t.len());
    assert forall|i: int| 0 <= i < s.len() implies s[i] == t[i] by {
        let k = s[i].0;
        assert(keys_of(s)[i] == k);
        assert(map_of(s).dom().contains(k));
        assert(map_of(t).dom().contains(k));
        lemma_contains_at_rank(t, k);
        lemma_contains_at_rank(s, k);
        lemma_rank_at(s, i);
        let j = rank(t, k);
        // the entries below k in s and in t are the same keys
        lemma_rank_sorted(t, k);
        if j < i {
            // t has only j keys below k, s has i of them; one of s's is missing from t
            lemma_count_below(s, t, k, i, j);
        } else if j > i {
            lemma_count_below(t, s, k, j, i);
        }
    }
    assert(s =~= t);
}

/// Helper for [`lemma_sorted_unique`]: when `s` and `t` have the same keys,
/// the `i` keys of `s` below `k` all sit among the first `j` entries of `t`,
/// so `i <= j`.
proof fn lemma_count_below<K: Ord + Clone, V>(s: Seq<(K, V)>, t: Seq<(K, V)>, k: K, i: int, j: int)
    requires
        lawful_key::<K>(),
        sorted_entries(s),
        sorted_entries(t),
        0 <= i <= s.len(),
        0 <= j <= t.len(),
        forall|a: int| 0 <= a < i ==> lt(#[trigger] s[a].0, k),
        forall|b: int| j <= b < t.len() ==> !lt(#[trigger] t[b].0, k),
        map_of(s).dom() == map_of(t).dom(),
    ensures
        i <= j,
{
    lemma_key_order::<K>();
    // every key of s below k appears in t below index j: an injection of i keys into j slots
    let f = |a: int| rank(t, s[a].0);
    assert forall|a: int| 0 <= a < i implies 0 <= #[trigger] f(a) < j by {
        let x = s[a].0;
        assert(keys_of(s)[a] == x);
        assert(map_of(s).dom().contains(x));
        lemma_contains_at_rank(t, x);
        lemma_rank_sorted(t, x);
        let r = rank(t, x);
        if r >= j {
            assert(!lt(t[r].0, k));
        }
    }
    assert forall|a: int, b: int| 0 <= a < b < i implies #[trigger] f(a) < #[trigger] f(b) by {
        let x = s[a].0;
        let y = s[b].0;
        assert(lt(x, y));
        assert(keys_of(s)[a] == x);
        assert(keys_of(s)[b] == y);
        assert(map_of(s).dom().contains(x));
        assert(map_of(s).dom().contains(y));
        lemma_contains_at_rank(t, x);
        lemma_contains_at_rank(t, y);
        lemma_rank_sorted(t, x);
        lemma_rank_sorted(t, y);
        if f(a) >= f(b) {
            if f(a) == f(b) {
            } else {
                assert(lt(t[f(b)].0, t[f(a)].0));
            }
        }
    }
    lemma_strict_increase_bound(f, i, j);
}

/// A strictly increasing map from `0..n` into `0..m` needs `n <= m`.
proof fn lemma_strict_increase_bound(f: spec_fn(int) -> int, n: int, m: int)
    requires
        0 <= n,
        0 <= m,
        forall|a: int| 0 <= a < n ==> 0 <= #[trigger] f(a) < m,
        forall|a: int, b: int| 0 <= a < b < n ==> #[trigger] f(a) < #[trigger] f(b),
    ensures
        n <= m,
    decreases n,
{
    if n > 0 {
        assert forall|a: int| 0 <= a < n - 1 implies 0 <= #[trigger] f(a) < f(n - 1) by {}
        assert(0 <= f(n - 1) < m);
        lemma_strict_increase_bound(f, n - 1, f(n - 1));
    }
}

/// When every key sorts before `k`, its rank is the whole sequence.
pub proof fn lemma_rank_all_below<K: PartialOrd, V>(s: Seq<(K, V)>, k: K)
    requires
        forall|i: int| 0 <= i < s.len() ==> lt(#[trigger] s[i].0, k),
    ensures
        rank(s, k) == s.len(),
    decreases s.len(),
{
    if s.len() > 0 {
        let t = s.drop_last();
        assert forall|i: int| 0 <= i < t.len() implies lt(#[trigger] t[i].0, k) by {
            assert(t[i] == s[i]);
        }
        lemma_rank_all_below(t, k);
    }
}

/// When no key sorts before `k`, its rank is zero.
pub proof fn lemma_rank_none_below<K: PartialOrd, V>(s: Seq<(K, V)>, k: K)
    requires
        forall|i: int| 0 <= i < s.len() ==> !lt(#[trigger] s[i].0, k),
    ensures
        rank(s, k) == 0,
    decreases s.len(),
{
    if s.len() > 0 {
        let t = s.drop_last();
        assert forall|i: int| 0 <= i < t.len() implies !lt(#[trigger] t[i].0, k) by {
            assert(t[i] == s[i]);
        }
        lemma_rank_none_below(t, k);
    }
}

/// The map left by inserting the entries of `s` one after another into an
/// empty map: a later entry for a key overwrites an earlier one.
pub open spec fn fold_inserts<K, V>(s: Seq<(K, V)>) -> Map<K, V>
    decreases s.len(),
{
    if s.len() == 0 {
        Map::empty()
    } else {
        fold_inserts(s.drop_last()).insert(s.last().0, s.last().1)
    }
}

/// Inserting strictly ascending entries one by one gives the map they denote.
pub proof fn lemma_fold_sorted<K: Ord + Clone, V>(s: Seq<(K, V)>)
    requires
        lawful_key::<K>(),
        sorted_entries(s),
    ensures
        fold_inserts(s) == map_of(s),
    decreases s.len(),
{
    lemma_key_order::<K>();
    if s.len() == 0 {
        assert(map_of(s) =~= Map::<K, V>::empty());
    } else {
        let t = s.drop_last();
        let (k, v) = s.last();
        assert(sorted_entries(t));
        lemma_fold_sorted(t);
        assert forall|i: int| 0 <= i < t.len() implies lt(#[trigger] t[i].0, k) by {
            assert(t[i] == s[i]);
            assert(lt(s[i].0, s[s.len() - 1].0));
        }
        lemma_rank_all_below(t, k);
        assert(!keys_of(t).contains(k)) by {
            if keys_of(t).contains(k) {
                let i = choose|i: int| 0 <= i < keys_of(t).len() && keys_of(t)[i] == k;
                assert(lt(t[i].0, k));
            }
        }
        lemma_map_insert(t, k, v);
        assert(t.insert(t.len() as int, (k, v)) =~= s);
    }
}

} // verus!
