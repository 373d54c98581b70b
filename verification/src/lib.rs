//! A bidirectional map: a one-to-one association between keys and values with
//! amortized constant-time lookup in both directions.
//!
//! The container keeps two hash indexes — forward (key to value) and reverse
//! (value to key) — as exact mirror images of each other. Most operations come
//! in `_fwd` and `_rev` variants: the `_fwd` variant acts on the value given
//! the key, and `_rev` is the opposite.
//!
//! Each pair is physically stored twice, so keys and values should be cheap to
//! clone; wrap large values in `Rc` to make them so.

use vstd::prelude::*;
use vstd::std_specs::hash::{
    builds_valid_hashers, contains_borrowed_key, maps_borrowed_key_to_value, obeys_key_model,
};
use std::borrow::Borrow;
use std::collections::hash_map::RandomState;
use std::collections::HashMap;
use std::hash::{BuildHasher, Hash};
use vstd::seq_lib::seq_to_set_is_finite;
use vstd::set_lib::lemma_set_subset_finite;
use vstd::std_specs::iter::IteratorSpec;

verus! {

broadcast use vstd::std_specs::hash::group_hash_axioms;

/// Holds when every possible result of `T::clone` is equal to the value that
/// was cloned. The container stores each key and each value in both of its
/// indexes, so its contracts relate the two copies only for types whose
/// `Clone` behaves this way (integers and other types that clone by copying
/// the value).
pub open spec fn clone_faithful<T: Clone>() -> bool {
    forall|a: T, b: T| #[trigger] cloned::<T>(a, b) ==> b == a
}

/// The assumptions under which the underlying hash indexes are fully
/// described by their mathematical `Map` views: keys on both sides hash
/// deterministically, the hasher builder is valid, and cloning a key or a
/// value yields an equal one.
pub open spec fn obeys_bimap_model<K: Clone, V: Clone, S>() -> bool {
    &&& obeys_key_model::<K>()
    &&& obeys_key_model::<V>()
    &&& builds_valid_hashers::<S>()
    &&& clone_faithful::<K>()
    &&& clone_faithful::<V>()
}

/// Holds when `f` and `r` encode the same set of pairs, viewed from opposite
/// sides: `f` maps `k` to `v` exactly when `r` maps `v` back to `k`.
pub open spec fn mirrors<K, V>(f: Map<K, V>, r: Map<V, K>) -> bool {
    &&& forall|k: K| #[trigger] f.contains_key(k) ==> r.contains_key(f[k]) && r[f[k]] == k
    &&& forall|v: V| #[trigger] r.contains_key(v) ==> f.contains_key(r[v]) && f[r[v]] == v
}

/// Adding a fresh pair to both sides of a pair of mirrored maps keeps them
/// mirrored.
proof fn lemma_mirrors_insert<K, V>(f: Map<K, V>, r: Map<V, K>, k: K, v: V)
    requires
        mirrors(f, r),
        !f.contains_key(k),
        !r.contains_key(v),
    ensures
        mirrors(f.insert(k, v), r.insert(v, k)),
{
    let f2 = f.insert(k, v);
    let r2 = r.insert(v, k);
    assert forall|k2: K| #[trigger] f2.contains_key(k2) implies r2.contains_key(f2[k2])
        && r2[f2[k2]] == k2 by {
        if k2 != k {
            assert(f.contains_key(k2));
            assert(f[k2] != v);
        }
    }
    assert forall|v2: V| #[trigger] r2.contains_key(v2) implies f2.contains_key(r2[v2])
        && f2[r2[v2]] == v2 by {
        if v2 != v {
            assert(r.contains_key(v2));
            assert(r[v2] != k);
        }
    }
}

/// Relies on std's `HashMap::with_hasher`: it creates an empty map that will
/// use the given hash builder.
#[verifier::external_body]
fn hash_map_with_hasher<K, V, S>(hash_builder: S) -> (m: HashMap<K, V, S>)
    ensures
        m@ == (Map::<K, V>::empty()),
{
    HashMap::with_hasher(hash_builder)
}

/// A reverse map built by inverting every pair of a value-unique forward map
/// mirrors it; listing every pair also pins the forward domain finite.
proof fn lemma_covering_inversion_mirrors<K, V>(f: Map<K, V>, r: Map<V, K>, s: Seq<(&K, &V)>)
    requires
        f.is_injective(),
        forall|k: K| #[trigger] f.contains_key(k) ==> s.contains((&k, &f[k])),
        forall|i: int|
            #![trigger s[i]]
            0 <= i < s.len() ==> r.contains_key(*s[i].1) && r[*s[i].1] == *s[i].0,
        forall|v: V| #[trigger] r.contains_key(v) ==> f.contains_key(r[v]) && f[r[v]] == v,
    ensures
        mirrors(f, r),
        f.dom().finite(),
{
    assert forall|k: K| #[trigger] f.contains_key(k) implies r.contains_key(f[k]) && r[f[k]]
        == k by {
        assert(s.contains((&k, &f[k])));
        let i = choose|i: int| 0 <= i < s.len() && s[i] == (&k, &f[k]);
        assert(*s[i].1 == f[k] && *s[i].0 == k);
    }
    let keys = Seq::new(s.len(), |i: int| *s[i].0);
    seq_to_set_is_finite(keys);
    assert forall|k: K| f.dom().contains(k) implies keys.to_set().contains(k) by {
        assert(s.contains((&k, &f[k])));
        let i = choose|i: int| 0 <= i < s.len() && s[i] == (&k, &f[k]);
        assert(keys[i] == k);
        assert(keys.contains(k));
    }
    lemma_set_subset_finite(keys.to_set(), f.dom());
}

/// Removing a pair from both sides of a pair of mirrored maps keeps them
/// mirrored.
proof fn lemma_mirrors_remove<K, V>(f: Map<K, V>, r: Map<V, K>, k: K)
    requires
        mirrors(f, r),
        f.contains_key(k),
    ensures
        mirrors(f.remove(k), r.remove(f[k])),
{
    let v = f[k];
    let f2 = f.remove(k);
    let r2 = r.remove(v);
    assert forall|k2: K| #[trigger] f2.contains_key(k2) implies r2.contains_key(f2[k2])
        && r2[f2[k2]] == k2 by {
        assert(f.contains_key(k2));
        assert(r.contains_key(f[k2]));
        if f[k2] == v {
            assert(r[v] == k2 && r[v] == k);
        }
    }
    assert forall|v2: V| #[trigger] r2.contains_key(v2) implies f2.contains_key(r2[v2])
        && f2[r2[v2]] == v2 by {
        assert(r.contains_key(v2));
        assert(f.contains_key(r[v2]));
        if r[v2] == k {
            assert(f[k] == v2);
        }
    }
}

/// A bidirectional map with keys of type `K` and values of type `V`, hashed
/// by hashers built from `S`.
#[derive(Clone)]
#[verifier::reject_recursive_types(S)]
pub struct Bimap<K, V, S = RandomState> {
    fwd: HashMap<K, V, S>,
    rev: HashMap<V, K, S>,
}

impl<K, V, S> View for Bimap<K, V, S> {
    type V = Map<K, V>;

    /// A bimap is abstractly the forward mapping; the reverse index carries
    /// no further information (see `inv`).
    closed spec fn view(&self) -> Map<K, V> {
        self.fwd@
    }
}

impl<K, V, S> Bimap<K, V, S> {
    /// The reverse mapping, from values back to keys.
    pub closed spec fn rev_view(self) -> Map<V, K> {
        self.rev@
    }

    /// The bijection invariant: the forward and reverse indexes hold finitely
    /// many pairs and mirror each other exactly. Every operation of the
    /// container preserves it.
    pub open spec fn inv(self) -> bool {
        &&& self@.dom().finite()
        &&& self.rev_view().dom().finite()
        &&& mirrors(self@, self.rev_view())
    }
}

impl<K, V> Bimap<K, V, RandomState> where K: Eq + Hash + Clone, V: Eq + Hash + Clone {
    /// Creates an empty bimap with the default hashing strategy.
    pub fn new() -> (r: Self)
        ensures
            r@ == Map::<K, V>::empty(),
            r.rev_view() == Map::<V, K>::empty(),
            r.inv(),
    {
        Self { fwd: HashMap::new(), rev: HashMap::new() }
    }
}

impl<K, V, S> Bimap<K, V, S> where
    K: Eq + Hash + Clone,
    V: Eq + Hash + Clone,
    S: BuildHasher + Clone + Default,
 {
    /// Creates an empty bimap that hashes with the given hash builder,
    /// applied identically to both internal indexes.
    pub fn with_hasher(hash_builder: S) -> (r: Self)
        ensures
            r@ == Map::<K, V>::empty(),
            r.rev_view() == Map::<V, K>::empty(),
            r.inv(),
    {
        let rev_builder = hash_builder.clone();
        Self {
            fwd: hash_map_with_hasher(hash_builder),
            rev: hash_map_with_hasher(rev_builder),
        }
    }

    /// Inserts the pair if neither the key nor the value is already present,
    /// and reports whether it did; the checked variant of `insert`. The map
    /// is mutated only when both sides are free, so a rejected insertion
    /// leaves it unchanged.
    pub fn try_insert(&mut self, k: K, v: V) -> (inserted: bool)
        requires
            obeys_bimap_model::<K, V, S>(),
            old(self).inv(),
        ensures
            final(self).inv(),
            inserted == (!old(self)@.contains_key(k) && !old(self).rev_view().contains_key(v)),
            inserted ==> final(self)@ == old(self)@.insert(k, v) && final(self).rev_view()
                == old(self).rev_view().insert(v, k),
            !inserted ==> final(self)@ == old(self)@ && final(self).rev_view()
                == old(self).rev_view(),
    {
        if self.fwd.contains_key(&k) || self.rev.contains_key(&v) {
            false
        } else {
            self.insert(k, v);
            true
        }
    }

    /// Removes the pair with the given key if one is present, returning its
    /// value; the checked variant of `remove_fwd`. Returns `None`, leaving
    /// the map unchanged, exactly when the key is absent.
    pub fn try_remove_fwd(&mut self, k: &K) -> (r: Option<V>)
        requires
            obeys_bimap_model::<K, V, S>(),
            old(self).inv(),
        ensures
            final(self).inv(),
            match r {
                Some(v) => old(self)@.contains_key(*k) && v == old(self)@[*k] && final(self)@
                    == old(self)@.remove(*k) && final(self).rev_view()
                    == old(self).rev_view().remove(v),
                None => !old(self)@.contains_key(*k) && final(self)@ == old(self)@
                    && final(self).rev_view() == old(self).rev_view(),
            },
    {
        if self.fwd.contains_key(k) {
            Some(self.remove_fwd(k))
        } else {
            None
        }
    }

    /// Removes the pair with the given value if one is present, returning its
    /// key; the checked variant of `remove_rev`. Returns `None`, leaving the
    /// map unchanged, exactly when the value is absent.
    pub fn try_remove_rev(&mut self, v: &V) -> (r: Option<K>)
        requires
            obeys_bimap_model::<K, V, S>(),
            old(self).inv(),
        ensures
            final(self).inv(),
            match r {
                Some(k) => old(self).rev_view().contains_key(*v) && k == old(self).rev_view()[*v]
                    && final(self)@ == old(self)@.remove(k) && final(self).rev_view()
                    == old(self).rev_view().remove(*v),
                None => !old(self).rev_view().contains_key(*v) && final(self)@ == old(self)@
                    && final(self).rev_view() == old(self).rev_view(),
            },
    {
        if self.rev.contains_key(v) {
            Some(self.remove_rev(v))
        } else {
            None
        }
    }

    /// Returns the number of (key, value) pairs in the bimap.
    pub fn len(&self) -> (n: usize)
        requires
            obeys_bimap_model::<K, V, S>(),
        ensures
            n == self@.len(),
    {
        self.fwd.len()
    }

    /// Returns whether the bimap is empty.
    pub fn is_empty(&self) -> (r: bool)
        ensures
            r == self@.is_empty(),
    {
        self.fwd.is_empty()
    }

    /// Builds a bimap from an existing one-directional hash map, deriving the
    /// reverse index by inverting every pair. The given mapping must be
    /// value-unique (no two keys map to the same value); the derived reverse
    /// index then mirrors it exactly.
    pub fn from_hash_map(fwd: HashMap<K, V, S>) -> (r: Self)
        requires
            obeys_bimap_model::<K, V, S>(),
            fwd@.is_injective(),
        ensures
            r@ == fwd@,
            r.inv(),
    {
        let mut rev: HashMap<V, K, S> = Default::default();
        let ghost s = vstd::std_specs::hash::spec_hash_map_iter(&fwd).remaining();
        let ghost mut n: int = 0;
        for kv in it: fwd.iter()
            invariant
                obeys_bimap_model::<K, V, S>(),
                fwd@.is_injective(),
                it.seq() == s,
                n == it.index(),
                forall|i: int|
                    #![trigger s[i]]
                    0 <= i < s.len() ==> fwd@.contains_key(*s[i].0) && fwd@[*s[i].0] == *s[i].1,
                rev@.dom().finite(),
                forall|i: int|
                    #![trigger s[i]]
                    0 <= i < n ==> rev@.contains_key(*s[i].1) && rev@[*s[i].1] == *s[i].0,
                forall|v: V| #[trigger]
                    rev@.contains_key(v) ==> fwd@.contains_key(rev@[v]) && fwd@[rev@[v]] == v,
        {
            let v2 = kv.1.clone();
            let k2 = kv.0.clone();
            proof {
                assert(cloned(*kv.1, v2));
                assert(cloned(*kv.0, k2));
                assert(kv == s[n]);
            }
            rev.insert(v2, k2);
            proof {
                n = n + 1;
                assert forall|i: int|
                    #![trigger s[i]]
                    0 <= i < n implies rev@.contains_key(*s[i].1) && rev@[*s[i].1]
                    == *s[i].0 by {
                    if i < n - 1 && *s[i].1 == v2 {
                        assert(fwd@[*s[i].0] == fwd@[k2]);
                        assert(*s[i].0 == k2);
                    }
                }
            }
        }
        proof {
            assert(n == s.len());
            lemma_covering_inversion_mirrors(fwd@, rev@, s);
        }
        Self { fwd, rev }
    }

    /// Inserts a (key, value) pair into the bimap. The key must not already
    /// be present in the forward index, nor the value in the reverse index;
    /// to change a key or value, call `remove_fwd` or `remove_rev` before
    /// inserting the new pair. `try_insert` is the checked variant.
    pub fn insert(&mut self, k: K, v: V)
        requires
            obeys_bimap_model::<K, V, S>(),
            old(self).inv(),
            !old(self)@.contains_key(k),
            !old(self).rev_view().contains_key(v),
        ensures
            final(self).inv(),
            final(self)@ == old(self)@.insert(k, v),
            final(self).rev_view() == old(self).rev_view().insert(v, k),
    {
        let k2 = k.clone();
        let v2 = v.clone();
        proof {
            assert(cloned(k, k2));
            assert(cloned(v, v2));
        }
        self.fwd.insert(k2, v2);
        self.rev.insert(v, k);
        proof {
            lemma_mirrors_insert(old(self)@, old(self).rev_view(), k, v);
        }
    }

    /// Gets the value corresponding to a key. The lookup key may be any
    /// borrowed form of `K` (for instance a `&str` for a `String` key);
    /// `vstd`'s borrowed-key model ties the result to the view whenever the
    /// lookup type is `K` itself.
    pub fn get_fwd<'a, KeyBorrow: ?Sized>(&'a self, k: &KeyBorrow) -> (r: Option<&'a V>) where
        K: Borrow<KeyBorrow>,
        KeyBorrow: Hash + Eq,

        requires
            obeys_bimap_model::<K, V, S>(),
        ensures
            match r {
                Some(v) => maps_borrowed_key_to_value(self@, k, *v),
                None => !contains_borrowed_key(self@, k),
            },
    {
        self.fwd.get(k)
    }

    /// Gets the key corresponding to a value; the mirror image of `get_fwd`.
    pub fn get_rev<'a, ValBorrow: ?Sized>(&'a self, v: &ValBorrow) -> (r: Option<&'a K>) where
        V: Borrow<ValBorrow>,
        ValBorrow: Hash + Eq,

        requires
            obeys_bimap_model::<K, V, S>(),
        ensures
            match r {
                Some(k) => maps_borrowed_key_to_value(self.rev_view(), v, *k),
                None => !contains_borrowed_key(self.rev_view(), v),
            },
    {
        self.rev.get(v)
    }

    /// Returns whether the bimap contains a pair with the given key.
    pub fn contains_fwd<KeyBorrow: ?Sized>(&self, k: &KeyBorrow) -> (r: bool) where
        K: Borrow<KeyBorrow>,
        KeyBorrow: Hash + Eq,

        requires
            obeys_bimap_model::<K, V, S>(),
        ensures
            r == contains_borrowed_key(self@, k),
    {
        self.fwd.contains_key(k)
    }

    /// Returns whether the bimap contains a pair with the given value.
    pub fn contains_rev<ValBorrow: ?Sized>(&self, v: &ValBorrow) -> (r: bool) where
        V: Borrow<ValBorrow>,
        ValBorrow: Hash + Eq,

        requires
            obeys_bimap_model::<K, V, S>(),
        ensures
            r == contains_borrowed_key(self.rev_view(), v),
    {
        self.rev.contains_key(v)
    }

    /// Removes the pair with the given key and returns its value. The key
    /// must be present; `try_remove_fwd` is the checked variant.
    pub fn remove_fwd(&mut self, k: &K) -> (v: V)
        requires
            obeys_bimap_model::<K, V, S>(),
            old(self).inv(),
            old(self)@.contains_key(*k),
        ensures
            final(self).inv(),
            v == old(self)@[*k],
            final(self)@ == old(self)@.remove(*k),
            final(self).rev_view() == old(self).rev_view().remove(v),
            !final(self)@.contains_key(*k),
            !final(self).rev_view().contains_key(v),
            final(self)@.len() == old(self)@.len() - 1,
            final(self).rev_view().len() == old(self).rev_view().len() - 1,
    {
        let v = self.fwd.remove(k).unwrap();
        self.rev.remove(&v);
        proof {
            lemma_mirrors_remove(old(self)@, old(self).rev_view(), *k);
            old(self)@.lemma_remove_key_len(*k);
            old(self).rev_view().lemma_remove_key_len(v);
        }
        v
    }

    /// Removes the pair with the given value and returns its key; the mirror
    /// image of `remove_fwd`. The value must be present; `try_remove_rev` is
    /// the checked variant.
    pub fn remove_rev(&mut self, v: &V) -> (k: K)
        requires
            obeys_bimap_model::<K, V, S>(),
            old(self).inv(),
            old(self).rev_view().contains_key(*v),
        ensures
            final(self).inv(),
            k == old(self).rev_view()[*v],
            final(self)@ == old(self)@.remove(k),
            final(self).rev_view() == old(self).rev_view().remove(*v),
            !final(self)@.contains_key(k),
            !final(self).rev_view().contains_key(*v),
            final(self)@.len() == old(self)@.len() - 1,
            final(self).rev_view().len() == old(self).rev_view().len() - 1,
    {
        let k = self.rev.remove(v).unwrap();
        self.fwd.remove(&k);
        proof {
            lemma_mirrors_remove(old(self)@, old(self).rev_view(), k);
            old(self)@.lemma_remove_key_len(k);
            old(self).rev_view().lemma_remove_key_len(*v);
        }
        k
    }

    /// Iterates over all (key, value) pairs of the bimap, as borrowed pairs
    /// in the forward index's internal (unspecified) order. The traversal is
    /// finite, covers exactly the pairs of the map, and yields no pair twice.
    pub fn iter<'a>(&'a self) -> (it: std::collections::hash_map::Iter<'a, K, V>)
        requires
            obeys_bimap_model::<K, V, S>(),
        ensures
            it.remaining().no_duplicates(),
            it.remaining().len() == self@.len(),
            forall|i: int|
                #![trigger it.remaining()[i]]
                0 <= i < it.remaining().len() ==> self@.contains_key(*it.remaining()[i].0)
                    && self@[*it.remaining()[i].0] == *it.remaining()[i].1,
            forall|k: K| #[trigger]
                self@.contains_key(k) ==> it.remaining().contains((&k, &self@[k])),
            IteratorSpec::decrease(&it) is Some,
            IteratorSpec::initial_value_relation(&it, &it),
    {
        self.fwd.iter()
    }

    /// Removes all pairs from the bimap.
    pub fn clear(&mut self)
        ensures
            final(self)@ == Map::<K, V>::empty(),
            final(self).rev_view() == Map::<V, K>::empty(),
            final(self).inv(),
    {
        self.fwd.clear();
        self.rev.clear();
    }
}

/// The bijection law: a well-formed bimap associates `k` with `v` in the
/// forward direction exactly when it associates `v` with `k` in the reverse
/// direction. Every operation of the container preserves `inv`, so this holds
/// at every point of any sequence of operations.
pub proof fn lemma_bijection<K, V, S>(m: Bimap<K, V, S>, k: K, v: V)
    requires
        m.inv(),
    ensures
        m@.contains_key(k) && m@[k] == v <==> m.rev_view().contains_key(v) && m.rev_view()[v]
            == k,
{
}

/// The count-consistency law: the forward and reverse indexes of a
/// well-formed bimap always hold the same number of pairs.
pub proof fn lemma_count_consistency<K, V, S>(m: Bimap<K, V, S>)
    requires
        m.inv(),
    ensures
        m@.len() == m.rev_view().len(),
{
    let f = m@;
    let r = m.rev_view();
    assert(f.is_injective()) by {
        assert forall|x: K, y: K|
            x != y && f.dom().contains(x) && f.dom().contains(y) implies #[trigger] f[x]
            != #[trigger] f[y] by {
            if f[x] == f[y] {
                assert(r[f[x]] == x);
                assert(r[f[y]] == y);
            }
        }
    }
    f.lemma_injective_values_len();
    assert(f.values() =~= r.dom()) by {
        assert forall|v: V| #[trigger] f.values().contains(v) implies r.dom().contains(v) by {
            let k = choose|k: K| #[trigger] f.dom().contains(k) && f[k] == v;
            assert(f.contains_key(k));
        }
        assert forall|v: V| #[trigger] r.dom().contains(v) implies f.values().contains(v) by {
            assert(f.dom().contains(r[v]) && f[r[v]] == v);
            assert(f.contains_value(v));
        }
    }
}

/// The round-trip law: an insertion of the pair `(k, v)` takes the forward
/// view to `pre@.insert(k, v)` and the reverse view to
/// `pre.rev_view().insert(v, k)` (the ensures of `insert`); in the map that
/// results, a forward lookup of `k` finds `v` and a reverse lookup of `v`
/// finds `k`.
pub proof fn lemma_insert_round_trip<K, V, S>(
    pre: Bimap<K, V, S>,
    post: Bimap<K, V, S>,
    k: K,
    v: V,
)
    requires
        post@ == pre@.insert(k, v),
        post.rev_view() == pre.rev_view().insert(v, k),
    ensures
        post@.contains_key(k) && post@[k] == v,
        post.rev_view().contains_key(v) && post.rev_view()[v] == k,
{
}

impl<K, V, S> Default for Bimap<K, V, S> where
    K: Eq + Hash + Clone,
    V: Eq + Hash + Clone,
    S: BuildHasher + Clone + Default,
 {
    /// Creates an empty bimap whose hash builder is `S::default()`.
    fn default() -> (r: Self)
        ensures
            r@ == (Map::<K, V>::empty()),
            r.rev_view() == (Map::<V, K>::empty()),
            r.inv(),
    {
        Bimap::with_hasher(Default::default())
    }
}

} // verus!
