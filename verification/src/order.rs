//! The key order the tree is built on.
//!
//! The tree is generic over any `K: Ord + Clone`. What it proves rests on the
//! key type keeping the promises `Ord` and `Clone` make in their documentation:
//! `cmp` is a total order consistent with `==`, and a clone is equal to its
//! source. [`lawful_key`] names exactly those promises in the terms vstd gives
//! std's comparison traits, and the integer types meet it.

use vstd::prelude::*;
use core::cmp::Ordering;
use vstd::laws_cmp::obeys_cmp;
use vstd::laws_eq::obeys_concrete_eq;
use vstd::std_specs::cmp::PartialOrdSpec;
use vstd::std_specs::cmp::PartialEqSpec;
use vstd::std_specs::cmp::OrdSpec;

verus! {

/// `a` sorts strictly before `b`.
pub open spec fn lt<K: PartialOrd>(a: K, b: K) -> bool {
    a.partial_cmp_spec(&b) == Some(Ordering::Less)
}

/// The key type's comparison is a total order consistent with equality, and
/// cloning a key yields an equal key.
///
/// Verified code can establish this only for key types whose ordering vstd
/// specifies, such as the primitive integers
/// ([`lemma_integer_keys_lawful`]); vstd specifies no ordering for `String`.
pub open spec fn lawful_key<K: Ord + Clone>() -> bool {
    &&& obeys_cmp::<K>()
    &&& obeys_concrete_eq::<K>()
    &&& forall|a: K, b: K| #[trigger] vstd::pervasive::strictly_cloned(a, b) ==> a == b
}

/// The primitive integer types are lawful keys.
pub proof fn lemma_integer_keys_lawful()
    ensures
        lawful_key::<u8>(),
        lawful_key::<u16>(),
        lawful_key::<u32>(),
        lawful_key::<u64>(),
        lawful_key::<u128>(),
        lawful_key::<usize>(),
        lawful_key::<i8>(),
        lawful_key::<i16>(),
        lawful_key::<i32>(),
        lawful_key::<i64>(),
        lawful_key::<i128>(),
        lawful_key::<isize>(),
{
    broadcast use vstd::laws_cmp::group_laws_cmp;
    broadcast use vstd::laws_eq::group_laws_eq;
}

/// What the tree's proofs use of a lawful key type: `lt` is a strict total order.
pub proof fn lemma_key_order<K: Ord + Clone>()
    requires
        lawful_key::<K>(),
    ensures
        K::obeys_partial_cmp_spec(),
        K::obeys_eq_spec(),
        forall|a: K, b: K| #[trigger] a.eq_spec(&b) <==> a == b,
        forall|a: K| !#[trigger] lt(a, a),
        forall|a: K, b: K, c: K| #[trigger] lt(a, b) && #[trigger] lt(b, c) ==> lt(a, c),
        forall|a: K, b: K| #[trigger] lt(a, b) ==> !lt(b, a),
        forall|a: K, b: K| #![trigger lt(a, b)] lt(a, b) || a == b || lt(b, a),
{
    reveal(vstd::laws_cmp::obeys_cmp_partial_ord);
    reveal(vstd::laws_cmp::obeys_cmp_ord);
    reveal(vstd::laws_cmp::obeys_partial_cmp_spec_properties);
    reveal(vstd::laws_eq::obeys_concrete_eq);
    reveal(vstd::laws_eq::obeys_eq_spec_properties);
    assert forall|a: K, b: K| #![trigger lt(a, b)] lt(a, b) || a == b || lt(b, a) by {
        assert(a.partial_cmp_spec(&b) == Some(a.cmp_spec(&b)));
        assert(b.partial_cmp_spec(&a) == Some(b.cmp_spec(&a)));
    }
    assert forall|a: K| !#[trigger] lt(a, a) by {
        assert(a.eq_spec(&a));
    }
}

/// Keys strictly ascending.
pub open spec fn sorted<K: PartialOrd>(s: Seq<K>) -> bool {
    forall|i: int, j: int| 0 <= i < j < s.len() ==> lt(#[trigger] s[i], #[trigger] s[j])
}

/// `k` is at or above the lower bound `lo` (no bound when `None`).
pub open spec fn above<K: PartialOrd>(k: K, lo: Option<K>) -> bool {
    match lo {
        None => true,
        Some(l) => !lt(k, l),
    }
}

/// `k` is strictly below the upper bound `hi` (no bound when `None`).
pub open spec fn below<K: PartialOrd>(k: K, hi: Option<K>) -> bool {
    match hi {
        None => true,
        Some(h) => lt(k, h),
    }
}

/// `k` lies in the half-open key interval `[lo, hi)`.
pub open spec fn within<K: PartialOrd>(k: K, lo: Option<K>, hi: Option<K>) -> bool {
    above(k, lo) && below(k, hi)
}

/// A copy of `k`, equal to it.
pub fn clone_key<K: Ord + Clone>(k: &K) -> (r: K)
    requires
        lawful_key::<K>(),
    ensures
        r == *k,
{
    let r = k.clone();
    assert(vstd::pervasive::strictly_cloned(*k, r));
    r
}

/// Whether `a` sorts strictly before `b`.
pub fn key_less<K: Ord + Clone>(a: &K, b: &K) -> (r: bool)
    requires
        lawful_key::<K>(),
    ensures
        r == lt(*a, *b),
{
    proof {
        lemma_key_order::<K>();
    }
    *a < *b
}

/// Binary search for `key` over strictly ascending `keys`: `Ok(i)` where
/// `keys[i] == key`, or `Err(i)` where `i` is the position at which `key`
/// would be inserted to keep the keys sorted.
pub fn search<K: Ord + Clone>(keys: &Vec<K>, key: &K) -> (r: Result<usize, usize>)
    requires
        lawful_key::<K>(),
        sorted(keys@),
    ensures
        match r {
            Ok(i) => i < keys@.len() && keys@[i as int] == *key,
            Err(i) => {
                &&& i <= keys@.len()
                &&& forall|j: int| 0 <= j < i ==> lt(#[trigger] keys@[j], *key)
                &&& forall|j: int| i <= j < keys@.len() ==> lt(*key, #[trigger] keys@[j])
            },
        },
{
    proof {
        lemma_key_order::<K>();
    }
    let mut lo: usize = 0;
    let mut hi: usize = keys.len();
    while lo < hi
        invariant
            lawful_key::<K>(),
            sorted(keys@),
            0 <= lo <= hi <= keys@.len(),
            forall|j: int| 0 <= j < lo ==> lt(#[trigger] keys@[j], *key),
            forall|j: int| hi <= j < keys@.len() ==> lt(*key, #[trigger] keys@[j]),
        decreases hi - lo,
    {
        proof {
            lemma_key_order::<K>();
        }
        let mid = lo + (hi - lo) / 2;
        if key_less(&keys[mid], key) {
            assert forall|j: int| 0 <= j <= mid implies lt(#[trigger] keys@[j], *key) by {
                if j < mid {
                    assert(lt(keys@[j], keys@[mid as int]));
                }
            }
            lo = mid + 1;
        } else if key_less(key, &keys[mid]) {
            assert forall|j: int| mid <= j < keys@.len() implies lt(*key, #[trigger] keys@[j]) by {
                if j > mid {
                    assert(lt(keys@[mid as int], keys@[j]));
                }
            }
            hi = mid;
        } else {
            assert(lt(keys@[mid as int], *key) || keys@[mid as int] == *key || lt(*key, keys@[mid as int]));
            return Ok(mid);
        }
    }
    Err(lo)
}

} // verus!
