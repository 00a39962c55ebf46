//! A bidirectional hashmap: a structure storing a 1:1 relation between two
//! key sets, with constant-expected-time lookup from either side.
//!
//! Unlike a regular hashmap, which looks "values" up by "keys", the map here
//! looks right keys up by left keys and left keys up by right keys. Each side
//! is backed by a hopscotch-hashed array, so a key is never displaced more
//! than a fixed number of slots from the bucket it hashes to, and the two
//! arrays are kept cross-referenced slot by slot.

use vstd::prelude::*;

pub mod bitfield;
pub mod bucket;
mod builder;
mod iterator;
pub mod keys;
pub mod laws;
pub mod model;

pub use builder::BiMapBuilder;
pub use iterator::{IntoIter, Iter};

use crate::bitfield::{BitField, DefaultBitField};
use crate::bucket::Bucket;
use crate::keys::MapKey;
use crate::model::{
    as_map, carried, cross_wf, distinct_models, lemma_as_map_inverse, map_after_insert,
    lemma_evict_both, lemma_evict_left_only, lemma_evict_right_only, lemma_evict_same_pair, has_model, ideal_at, key_model, lemma_carried_refl,
    lemma_move_slot_wf, lemma_offset_roundtrip, lemma_place_compose, lemma_place_slot_wf,
    lemma_relocation_step,
    occ, occ_count,
    same_but_pairs,
    lemma_as_map_after_link, lemma_as_map_after_remove, lemma_as_map_congruence, lemma_as_map_same,
    lemma_occ_count_pos, lemma_offset_of_step, lemma_remove_slot_wf, lemma_rev_determined,
    lemma_wf_same_but_pairs,
    one_sided_wf, pair_at,
    orphan_pairs_kept, partners_preserved, proper_partner, slot_at, slot_with, spec_ideal, offset_of, wf_slot,
};

verus! {

/// The capacity used when none is requested.
pub const DEFAULT_HASH_MAP_SIZE: usize = 32;

/// How much larger each resize makes the arrays.
pub const RESIZE_GROWTH_FACTOR: usize = 2;

/// The maximum load factor is the fraction 11/10: the arrays are one tenth
/// larger than the advertised capacity, so the neighbourhood invariant can
/// usually be satisfied without a resize. Kept as a numerator/denominator
/// pair so no floating point arithmetic is needed.
pub const MAX_LOAD_FACTOR_NUMERATOR: usize = 11;

/// See `MAX_LOAD_FACTOR_NUMERATOR`.
pub const MAX_LOAD_FACTOR_DENOMINATOR: usize = 10;

/// A bound on the bucket arrays' length keeping every load-factor product
/// within `usize`.
pub const MAX_ARRAY_LEN: usize = usize::MAX / 11;

/// The largest capacity a builder may request; it keeps the provisioned
/// array length under `MAX_ARRAY_LEN`.
pub const MAX_REQUESTED_CAPACITY: usize = usize::MAX / 13;


/// The two way hashmap itself. Uses hopscotch hashing internally.
///
/// `L` and `R` are the left and right key types being mapped to each other;
/// `B` is the unsigned integer type whose bits store neighbourhoods.
pub struct BiMap<L, R, B = DefaultBitField> {
    /// The number of pairs inside the map.
    len: usize,
    /// All of the left keys, with the locations of their pairs within `right_data`.
    left_data: Vec<Bucket<L, usize, B>>,
    /// All of the right keys, with the locations of their pairs within `left_data`.
    right_data: Vec<Bucket<R, usize, B>>,
    /// Seed for hashing the left keys.
    left_seed: u64,
    /// Seed for hashing the right keys.
    right_seed: u64,
}

impl<L: MapKey, R: MapKey, B: BitField> View for BiMap<L, R, B> {
    type V = Map<L::M, R::M>;

    /// The relation stored in the map, read from the left: each left key
    /// model maps to the model of the right key it is paired with.
    closed spec fn view(&self) -> Map<L::M, R::M> {
        as_map(self.left_data@, self.right_data@)
    }
}

impl<L: MapKey, R: MapKey, B: BitField> BiMap<L, R, B> {
    /// The same relation read from the right: each right key model maps to
    /// the model of its left partner.
    pub closed spec fn rview(self) -> Map<R::M, L::M> {
        as_map(self.right_data@, self.left_data@)
    }

    /// The advertised capacity: the array length scaled down by the maximum
    /// load factor.
    pub closed spec fn spec_capacity(self) -> int {
        self.left_data@.len() * MAX_LOAD_FACTOR_DENOMINATOR as int
            / MAX_LOAD_FACTOR_NUMERATOR as int
    }

    /// Whether the arrays have grown as far as they may: only then can an
    /// insert be forced to leave a pair out.
    pub closed spec fn at_growth_limit(self) -> bool {
        self.left_data@.len() > MAX_ARRAY_LEN as int / RESIZE_GROWTH_FACTOR as int
    }

    /// The internal invariant: both arrays have the same length, each is a
    /// well-formed hopscotch array, the two are cross-referenced slot by
    /// slot, and the stored pair count matches the occupied slots.
    pub closed spec fn wf(self) -> bool {
        &&& self.left_data@.len() == self.right_data@.len()
        &&& 1 <= self.left_data@.len() <= MAX_ARRAY_LEN
        &&& one_sided_wf(self.left_data@, self.left_seed)
        &&& one_sided_wf(self.right_data@, self.right_seed)
        &&& cross_wf(self.left_data@, self.right_data@)
        &&& cross_wf(self.right_data@, self.left_data@)
        &&& self.len == occ_count(self.left_data@)
        &&& self.len == occ_count(self.right_data@)
        &&& self.len * MAX_LOAD_FACTOR_NUMERATOR as int <= self.left_data@.len()
            * MAX_LOAD_FACTOR_DENOMINATOR as int
    }
}

impl<L: MapKey, R: MapKey, B: BitField> BiMap<L, R, B> {
    /// Builds a map directly from well-formed parts.
    pub(crate) fn assemble(
        left_data: Vec<Bucket<L, usize, B>>,
        right_data: Vec<Bucket<R, usize, B>>,
        left_seed: u64,
        right_seed: u64,
        len: usize,
    ) -> (m: Self)
        requires
            left_data@.len() == right_data@.len(),
            1 <= left_data@.len() <= MAX_ARRAY_LEN,
            one_sided_wf(left_data@, left_seed),
            one_sided_wf(right_data@, right_seed),
            cross_wf(left_data@, right_data@),
            cross_wf(right_data@, left_data@),
            len == occ_count(left_data@),
            len == occ_count(right_data@),
            len * MAX_LOAD_FACTOR_NUMERATOR as int <= left_data@.len()
                * MAX_LOAD_FACTOR_DENOMINATOR as int,
        ensures
            m.wf(),
            m@ == as_map(left_data@, right_data@),
            m.rview() == as_map(right_data@, left_data@),
            m.spec_capacity() == left_data@.len() * MAX_LOAD_FACTOR_DENOMINATOR as int
                / MAX_LOAD_FACTOR_NUMERATOR as int,
    {
        BiMap { len, left_data, right_data, left_seed, right_seed }
    }
}

impl<L: MapKey, R: MapKey> BiMap<L, R> {
    /// Creates a new empty `BiMap` with the default capacity.
    pub fn new() -> (m: Self)
        ensures
            m.wf(),
            m@ == Map::<L::M, R::M>::empty(),
            m.rview() == Map::<R::M, L::M>::empty(),
            m.spec_capacity() == DEFAULT_HASH_MAP_SIZE,
    {
        let m = BiMapBuilder::new().finish();
        proof {
            assert(crate::builder::provisioned_len(DEFAULT_HASH_MAP_SIZE as int) == 36);
            assert(m.spec_capacity() == 32);
        }
        m
    }
}

impl<L: MapKey, R: MapKey, B: BitField> BiMap<L, R, B> {
    /// The two readings of the relation are mutual inverses: whatever pair
    /// can be looked up from the left can be looked up from the right, and
    /// the other way round.
    pub proof fn lemma_views_mutually_inverse(self)
        requires
            self.wf(),
        ensures
            forall|x: L::M|
                #[trigger] self@.contains_key(x) ==> self.rview().contains_key(self@[x])
                    && self.rview()[self@[x]] == x,
            forall|y: R::M|
                #[trigger] self.rview().contains_key(y) ==> self@.contains_key(self.rview()[y])
                    && self@[self.rview()[y]] == y,
    {
        lemma_as_map_inverse(self.left_data@, self.right_data@);
        lemma_as_map_inverse(self.right_data@, self.left_data@);
    }

    /// Returns a lower bound on the number of pairs this map can hold
    /// without needing to be resized.
    pub fn capacity(&self) -> (c: usize)
        requires
            self.wf(),
        ensures
            c == self.spec_capacity(),
    {
        proof {
            assert(self.left_data@.len() * 10 <= usize::MAX) by (nonlinear_arith)
                requires
                    self.left_data@.len() <= usize::MAX / 11,
            ;
        }
        (self.left_data.len() * MAX_LOAD_FACTOR_DENOMINATOR) / MAX_LOAD_FACTOR_NUMERATOR
    }

    /// Returns the number of pairs inside this map.
    pub fn len(&self) -> (n: usize)
        requires
            self.wf(),
        ensures
            n == self@.dom().len(),
            n == self.rview().dom().len(),
            self@.dom().finite(),
            self.rview().dom().finite(),
            n <= self.spec_capacity(),
    {
        proof {
            crate::model::lemma_as_map_dom_len(self.left_data@, self.right_data@);
            crate::model::lemma_as_map_dom_len(self.right_data@, self.left_data@);
            assert(self.len as int <= self.spec_capacity()) by (nonlinear_arith)
                requires
                    self.len * 11int <= self.left_data@.len() * 10,
                    self.spec_capacity() == self.left_data@.len() * 10int / 11,
            ;
        }
        self.len
    }

    /// Returns true if the map contains no pairs.
    pub fn is_empty(&self) -> (e: bool)
        requires
            self.wf(),
        ensures
            e == (self@ == Map::<L::M, R::M>::empty()),
            e == (self.rview() == Map::<R::M, L::M>::empty()),
    {
        proof {
            crate::model::lemma_as_map_dom_len(self.left_data@, self.right_data@);
            crate::model::lemma_as_map_dom_len(self.right_data@, self.left_data@);
            if self.len == 0 {
                assert(self@ =~= Map::<L::M, R::M>::empty());
                assert(self.rview() =~= Map::<R::M, L::M>::empty());
            } else {
                assert(self@.dom().len() != 0);
                assert(!(self@ =~= Map::<L::M, R::M>::empty()));
                assert(self@ != Map::<L::M, R::M>::empty());
                assert(self.rview().dom().len() != 0);
                assert(!(self.rview() =~= Map::<R::M, L::M>::empty()));
                assert(self.rview() != Map::<R::M, L::M>::empty());
            }
        }
        self.len == 0
    }
}

impl<L: MapKey, R: MapKey, B: BitField> BiMap<L, R, B> {
    /// Finds the ideal position of a key within an array of length `len`.
    fn find_ideal_index<K: MapKey>(key: &K, seed: u64, len: usize) -> (i: usize)
        requires
            len >= 1,
        ensures
            i < len,
            i as int == spec_ideal(seed, K::hash_of(key.model()), len as int),
    {
        let h = key.key_hash();
        ((seed ^ h) % (len as u64)) as usize
    }

    /// Marks, in the bit field of the bucket at `ideal_index`, the slot at
    /// `actual_index` as belonging to that bucket's neighbourhood.
    fn mark_as_full<K>(ideal_index: usize, actual_index: usize, data: &mut Vec<Bucket<K, usize, B>>)
        requires
            ideal_index < old(data)@.len(),
            actual_index < old(data)@.len(),
            offset_of(old(data)@.len() as int, ideal_index as int, actual_index as int)
                < B::spec_size() as int,
        ensures
            final(data)@.len() == old(data)@.len(),
            forall|j: int|
                0 <= j < old(data)@.len() && j != ideal_index ==> final(data)@[j] == old(data)@[j],
            final(data)@[ideal_index as int].data == old(data)@[ideal_index as int].data,
            forall|o: usize|
                o < B::spec_size() ==> (final(data)@[ideal_index as int].neighbourhood.bit(o) <==> (
                old(data)@[ideal_index as int].neighbourhood.bit(o) || o as int == offset_of(
                    old(data)@.len() as int,
                    ideal_index as int,
                    actual_index as int,
                ))),
    {
        let len = data.len();
        let offset = if actual_index >= ideal_index {
            actual_index - ideal_index
        } else {
            actual_index + (len - ideal_index)
        };
        proof {
            lemma_offset_roundtrip(len as int, ideal_index as int, actual_index as int);
            assert(offset as int == offset_of(len as int, ideal_index as int, actual_index as int));
        }
        let nb = data[ideal_index].neighbourhood;
        data[ideal_index].neighbourhood = nb.union_with(B::one_at(offset));
    }

    /// Clears, in the bit field of the bucket at `ideal_index`, the mark for
    /// the slot at `actual_index`.
    fn mark_as_empty<K>(
        ideal_index: usize,
        actual_index: usize,
        data: &mut Vec<Bucket<K, usize, B>>,
    )
        requires
            ideal_index < old(data)@.len(),
            actual_index < old(data)@.len(),
            offset_of(old(data)@.len() as int, ideal_index as int, actual_index as int)
                < B::spec_size() as int,
        ensures
            final(data)@.len() == old(data)@.len(),
            forall|j: int|
                0 <= j < old(data)@.len() && j != ideal_index ==> final(data)@[j] == old(data)@[j],
            final(data)@[ideal_index as int].data == old(data)@[ideal_index as int].data,
            forall|o: usize|
                o < B::spec_size() ==> (final(data)@[ideal_index as int].neighbourhood.bit(o) <==> (
                old(data)@[ideal_index as int].neighbourhood.bit(o) && o as int != offset_of(
                    old(data)@.len() as int,
                    ideal_index as int,
                    actual_index as int,
                ))),
    {
        let len = data.len();
        let offset = if actual_index >= ideal_index {
            actual_index - ideal_index
        } else {
            actual_index + (len - ideal_index)
        };
        proof {
            lemma_offset_roundtrip(len as int, ideal_index as int, actual_index as int);
            assert(offset as int == offset_of(len as int, ideal_index as int, actual_index as int));
        }
        let nb = data[ideal_index].neighbourhood;
        data[ideal_index].neighbourhood = nb.intersect(B::zero_at(offset));
    }


    /// Scans the neighbourhood bits of a key's ideal bucket for the slot
    /// that holds it.
    #[verifier::loop_isolation(false)]
    fn find_slot<K: MapKey>(key: &K, key_data: &Vec<Bucket<K, usize, B>>, seed: u64) -> (r: Option<
        usize,
    >)
        requires
            1 <= key_data@.len() <= MAX_ARRAY_LEN,
            one_sided_wf(key_data@, seed),
        ensures
            match r {
                Some(pos) => pos < key_data@.len() && occ(key_data@, pos as int) && key_model(
                    key_data@,
                    pos as int,
                ) == key.model(),
                None => !has_model(key_data@, key.model()),
            },
    {
        let ghost m = key.model();
        let n = key_data.len();
        let ideal = Self::find_ideal_index(key, seed, n);
        let nb = key_data[ideal].neighbourhood;
        let width = B::size();
        let mut o: usize = 0;
        while o < width
            invariant
                o <= width,
                forall|o2: usize|
                    o2 < o && #[trigger] nb.bit(o2) ==> key_model(
                        key_data@,
                        (ideal + o2 as int) % n as int,
                    ) != m,
            decreases width - o,
        {
            if nb.test(o) {
                let pos = (ideal + o) % n;
                proof {
                    assert(occ(key_data@, pos as int));
                }
                match &key_data[pos].data {
                    Some(t) => {
                        if t.0.key_eq(key) {
                            return Some(pos);
                        }
                    },
                    None => {
                        proof {
                            assert(false);
                        }
                    },
                }
            }
            o = o + 1;
        }
        proof {
            if has_model(key_data@, m) {
                let i = choose|i: int|
                    0 <= i < key_data@.len() && #[trigger] occ(key_data@, i) && key_model(
                        key_data@,
                        i,
                    ) == m;
                assert(wf_slot(key_data@, seed, i));
                let d = ideal_at(key_data@, i);
                let off = offset_of(n as int, d, i);
                lemma_offset_roundtrip(n as int, d, i);
                assert(nb.bit(off as usize));
                assert(key_model(key_data@, (ideal + off) % n as int) != m);
                assert(false);
            }
        }
        None
    }

    /// Looks a key up in the key side of a pair of arrays and, if it is
    /// present, returns the value its partner slot holds on the other side.
    fn get<'a, K: MapKey, V: MapKey>(
        key: &K,
        key_data: &Vec<Bucket<K, usize, B>>,
        value_data: &'a Vec<Bucket<V, usize, B>>,
        seed: u64,
    ) -> (r: Option<&'a V>)
        requires
            key_data@.len() == value_data@.len(),
            1 <= key_data@.len() <= MAX_ARRAY_LEN,
            one_sided_wf(key_data@, seed),
            cross_wf(key_data@, value_data@),
        ensures
            match r {
                Some(v) => as_map(key_data@, value_data@).contains_key(key.model()) && v.model()
                    == as_map(key_data@, value_data@)[key.model()],
                None => !as_map(key_data@, value_data@).contains_key(key.model()),
            },
    {
        let ghost m = key.model();
        match Self::find_slot(key, key_data, seed) {
            Some(pos) => {
                proof {
                    assert(wf_slot(key_data@, seed, pos as int));
                    assert(proper_partner(key_data@, value_data@, pos as int));
                    assert(has_model(key_data@, m));
                    let w = slot_with(key_data@, m);
                    assert(occ(key_data@, w) && key_model(key_data@, w) == m);
                    assert(w == pos as int);
                }
                match &key_data[pos].data {
                    Some(t) => {
                        let p = t.1;
                        match &value_data[p].data {
                            Some(tv) => Some(&tv.0),
                            None => {
                                proof {
                                    assert(false);
                                }
                                None
                            },
                        }
                    },
                    None => {
                        proof {
                            assert(false);
                        }
                        None
                    },
                }
            },
            None => None,
        }
    }

    /// Removes a key from the key side of a pair of arrays, clearing its
    /// slot and its partner's slot, and returns the key and value taken.
    #[verifier::rlimit(100)]
    #[verifier::spinoff_prover]
    fn remove<K: MapKey, V: MapKey>(
        key: &K,
        key_data: &mut Vec<Bucket<K, usize, B>>,
        value_data: &mut Vec<Bucket<V, usize, B>>,
        key_seed: u64,
        value_seed: u64,
        map_len: &mut usize,
    ) -> (r: Option<(K, V)>)
        requires
            old(key_data)@.len() == old(value_data)@.len(),
            old(key_data)@.len() <= MAX_ARRAY_LEN,
            one_sided_wf(old(key_data)@, key_seed),
            one_sided_wf(old(value_data)@, value_seed),
            cross_wf(old(key_data)@, old(value_data)@),
            cross_wf(old(value_data)@, old(key_data)@),
            *old(map_len) == occ_count(old(key_data)@),
            *old(map_len) == occ_count(old(value_data)@),
        ensures
            final(key_data)@.len() == old(key_data)@.len(),
            final(value_data)@.len() == old(value_data)@.len(),
            one_sided_wf(final(key_data)@, key_seed),
            one_sided_wf(final(value_data)@, value_seed),
            cross_wf(final(key_data)@, final(value_data)@),
            cross_wf(final(value_data)@, final(key_data)@),
            *final(map_len) == occ_count(final(key_data)@),
            *final(map_len) == occ_count(final(value_data)@),
            match r {
                None => {
                    &&& final(key_data)@ == old(key_data)@
                    &&& final(value_data)@ == old(value_data)@
                    &&& *final(map_len) == *old(map_len)
                    &&& !as_map(old(key_data)@, old(value_data)@).contains_key(key.model())
                },
                Some(kv) => {
                    &&& kv.0.model() == key.model()
                    &&& as_map(old(key_data)@, old(value_data)@).contains_key(key.model())
                    &&& kv.1.model() == as_map(old(key_data)@, old(value_data)@)[key.model()]
                    &&& as_map(final(key_data)@, final(value_data)@) == as_map(
                        old(key_data)@,
                        old(value_data)@,
                    ).remove(key.model())
                    &&& as_map(final(value_data)@, final(key_data)@) == as_map(
                        old(value_data)@,
                        old(key_data)@,
                    ).remove(kv.1.model())
                    &&& *final(map_len) + 1 == *old(map_len)
                },
            },
    {
        let ghost m = key.model();
        let ghost oks = old(key_data)@;
        let ghost ovs = old(value_data)@;
        let n = key_data.len();
        match Self::find_slot(key, key_data, key_seed) {
            None => {
                None
            },
            Some(pos) => {
                proof {
                    assert(wf_slot(oks, key_seed, pos as int));
                }
                let ideal = match &key_data[pos].data {
                    Some(t) => t.2,
                    None => {
                        proof {
                            assert(false);
                        }
                        0
                    },
                };
                proof {
                    assert(ideal as int == ideal_at(oks, pos as int));
                    assert(0 <= ideal as int && (ideal as int) < n as int);
                    assert(offset_of(n as int, ideal as int, pos as int) < B::spec_size() as int);
                }
                Self::mark_as_empty(ideal, pos, key_data);
                let t = key_data[pos].data.take();
                let ghost ks1 = key_data@;
                match t {
                    Some(tk) => {
                        let (k, value_index, _stored) = tk;
                        proof {
                            assert(proper_partner(oks, ovs, pos as int));
                            lemma_remove_slot_wf(oks, key_seed, pos as int, ks1);
                        }
                        let tv = value_data[value_index].data.take();
                        let ghost vs1 = value_data@;
                        match tv {
                            Some(tvv) => {
                                let (v, _back, _vstored) = tvv;
                                proof {
                                    assert(wf_slot(ovs, value_seed, value_index as int));
                                    assert(v.model() == key_model(ovs, value_index as int));
                                }
                                let v_ideal = Self::find_ideal_index(&v, value_seed, n);
                                proof {
                                    assert(v_ideal as int == ideal_at(ovs, value_index as int));
                                    assert(offset_of(
                                        n as int,
                                        v_ideal as int,
                                        value_index as int,
                                    ) < B::spec_size() as int);
                                }
                                Self::mark_as_empty(v_ideal, value_index, value_data);
                                let ghost vs2 = value_data@;
                                proof {
                                    assert(vs2[value_index as int].data is None);
                                    lemma_remove_slot_wf(ovs, value_seed, value_index as int, vs2);
                                    lemma_occ_count_pos(oks, pos as int);
                                }
                                *map_len = *map_len - 1;
                                proof {
                                    let mv = key_model(ovs, value_index as int);
                                    // cross-references survive on both sides
                                    assert forall|j: int|
                                        0 <= j < n as int && #[trigger] occ(ks1, j) implies proper_partner(
                                        ks1,
                                        vs2,
                                        j,
                                    ) by {
                                        assert(j != pos as int);
                                        assert(occ(oks, j));
                                        assert(proper_partner(oks, ovs, j));
                                        let p = pair_at(oks, j);
                                        if p == value_index as int {
                                            assert(pair_at(ovs, p) == j);
                                            assert(pair_at(ovs, p) == pos as int);
                                            assert(false);
                                        }
                                        assert(vs2[p].data == ovs[p].data);
                                    }
                                    assert forall|j: int|
                                        0 <= j < n as int && #[trigger] occ(vs2, j) implies proper_partner(
                                        vs2,
                                        ks1,
                                        j,
                                    ) by {
                                        assert(j != value_index as int);
                                        assert(occ(ovs, j));
                                        assert(proper_partner(ovs, oks, j));
                                        let p = pair_at(ovs, j);
                                        if p == pos as int {
                                            assert(false);
                                        }
                                        assert(ks1[p].data == oks[p].data);
                                    }
                                    lemma_as_map_after_remove(
                                        oks,
                                        ovs,
                                        ks1,
                                        vs2,
                                        pos as int,
                                        value_index as int,
                                    );
                                    lemma_as_map_after_remove(
                                        ovs,
                                        oks,
                                        vs2,
                                        ks1,
                                        value_index as int,
                                        pos as int,
                                    );
                                    assert(v.model() == mv);
                                    assert(k.model() == m);
                                }
                                Some((k, v))
                            },
                            None => {
                                proof {
                                    assert(false);
                                }
                                None
                            },
                        }
                    },
                    None => {
                        proof {
                            assert(false);
                        }
                        None
                    },
                }
            },
        }
    }


    /// Scans forward from a bucket for the first free slot, circularly.
    #[verifier::loop_isolation(false)]
    fn find_free_offset<K>(key_data: &Vec<Bucket<K, usize, B>>, ideal: usize) -> (r: Option<usize>)
        requires
            ideal < key_data@.len(),
            key_data@.len() <= MAX_ARRAY_LEN,
        ensures
            match r {
                Some(f) => {
                    &&& f < key_data@.len()
                    &&& !occ(key_data@, (ideal + f as int) % key_data@.len() as int)
                    &&& forall|o2: int|
                        0 <= o2 < f ==> occ(
                            key_data@,
                            #[trigger] slot_at(key_data@.len() as int, ideal as int, o2),
                        )
                },
                None => forall|o2: int|
                    0 <= o2 < key_data@.len() ==> occ(
                        key_data@,
                        #[trigger] slot_at(key_data@.len() as int, ideal as int, o2),
                    ),
            },
    {
        let n = key_data.len();
        let mut off: usize = 0;
        while off < n
            invariant
                off <= n,
                forall|o2: int|
                    0 <= o2 < off ==> occ(key_data@, #[trigger] slot_at(n as int, ideal as int, o2)),
            decreases n - off,
        {
            if key_data[(ideal + off) % n].data.is_none() {
                return Some(off);
            }
            off = off + 1;
        }
        None
    }

    /// Searches the window before a distant free slot for an occupant that
    /// may legally move into it: one whose own ideal bucket lies within a
    /// neighbourhood of the free slot.
    #[verifier::loop_isolation(false)]
    fn find_candidate<K: MapKey>(
        key_data: &Vec<Bucket<K, usize, B>>,
        ideal: usize,
        free_off: usize,
        seed: u64,
    ) -> (r: Option<usize>)
        requires
            ideal < key_data@.len(),
            key_data@.len() <= MAX_ARRAY_LEN,
            one_sided_wf(key_data@, seed),
            B::spec_size() <= free_off < key_data@.len(),
            forall|o2: int|
                0 <= o2 < free_off ==> occ(
                    key_data@,
                    #[trigger] slot_at(key_data@.len() as int, ideal as int, o2),
                ),
        ensures
            match r {
                Some(j) => {
                    &&& 0 < j < free_off
                    &&& free_off - B::spec_size() < j
                    &&& occ(key_data@, (ideal + j as int) % key_data@.len() as int)
                    &&& offset_of(
                        key_data@.len() as int,
                        ideal_at(key_data@, (ideal + j as int) % key_data@.len() as int),
                        (ideal + free_off as int) % key_data@.len() as int,
                    ) < B::spec_size() as int
                },
                None => true,
            },
    {
        let n = key_data.len();
        proof {
            B::size_properties();
        }
        let width = B::size();
        let t = (ideal + free_off) % n;
        let start = free_off - (width - 1);
        let mut j = start;
        while j < free_off
            invariant
                start <= j <= free_off,
            decreases free_off - j,
        {
            let q = (ideal + j) % n;
            proof {
                assert(q as int == slot_at(n as int, ideal as int, j as int));
                assert(occ(key_data@, q as int));
                assert(wf_slot(key_data@, seed, q as int));
            }
            match &key_data[q].data {
                Some(tr) => {
                    let dq = tr.2;
                    let off_t = if t >= dq {
                        t - dq
                    } else {
                        t + (n - dq)
                    };
                    proof {
                        lemma_offset_roundtrip(n as int, dq as int, t as int);
                    }
                    if off_t < width {
                        return Some(j);
                    }
                },
                None => {
                    proof {
                        assert(false);
                    }
                },
            }
            j = j + 1;
        }
        None
    }


    /// One relocation: finds an occupant of the window before the free slot
    /// that may move into it, moves it, and reports the new free offset.
    #[verifier::rlimit(100)]
    #[verifier::spinoff_prover]
    fn relocate_step<K: MapKey, V: MapKey>(
        key_data: &mut Vec<Bucket<K, usize, B>>,
        value_data: &mut Vec<Bucket<V, usize, B>>,
        seed: u64,
        ideal: usize,
        free_off: usize,
        Ghost(oks): Ghost<Seq<Bucket<K, usize, B>>>,
        Ghost(ovs): Ghost<Seq<Bucket<V, usize, B>>>,
        Ghost(n): Ghost<usize>,
    ) -> (r: Result<usize, ()>)
        requires
            oks.len() == n,
            ovs.len() == n,
            1 <= n <= MAX_ARRAY_LEN,
            ideal < n,
            old(key_data)@.len() == n,
            old(value_data)@.len() == n,
            cross_wf(oks, ovs),
            B::spec_size() <= free_off < n,
            one_sided_wf(old(key_data)@, seed),
            cross_wf(old(key_data)@, old(value_data)@),
            same_but_pairs(ovs, old(value_data)@),
            partners_preserved(oks, ovs, old(key_data)@, old(value_data)@),
            carried(oks, old(key_data)@, -1, -1),
            carried(old(key_data)@, oks, -1, -1),
            occ_count(old(key_data)@) == occ_count(oks),
            orphan_pairs_kept(oks, ovs, old(value_data)@),
            !occ(old(key_data)@, (ideal + free_off as int) % n as int),
            forall|o2: int|
                0 <= o2 < free_off ==> occ(
                    old(key_data)@,
                    #[trigger] slot_at(n as int, ideal as int, o2),
                ),
        ensures
            final(key_data)@.len() == n,
            final(value_data)@.len() == n,
            one_sided_wf(final(key_data)@, seed),
            cross_wf(final(key_data)@, final(value_data)@),
            same_but_pairs(ovs, final(value_data)@),
            partners_preserved(oks, ovs, final(key_data)@, final(value_data)@),
            carried(oks, final(key_data)@, -1, -1),
            carried(final(key_data)@, oks, -1, -1),
            occ_count(final(key_data)@) == occ_count(oks),
            orphan_pairs_kept(oks, ovs, final(value_data)@),
            forall|m2: K::M|
                has_model(final(key_data)@, m2) == has_model(old(key_data)@, m2),
            match r {
                Ok(j) => {
                    &&& j < free_off
                    &&& !occ(final(key_data)@, (ideal + j as int) % n as int)
                    &&& forall|o2: int|
                        0 <= o2 < j ==> occ(
                            final(key_data)@,
                            #[trigger] slot_at(n as int, ideal as int, o2),
                        )
                },
                Err(u) => {
                    &&& final(key_data)@ == old(key_data)@
                    &&& final(value_data)@ == old(value_data)@
                },
            },
    {
        let nn = key_data.len();
        let ghost ks_pre = key_data@;
        let ghost vs_pre = value_data@;
        match Self::find_candidate(key_data, ideal, free_off, seed) {
            None => Err(()),
            Some(j) => {
                let q = (ideal + j) % nn;
                let t = (ideal + free_off) % nn;
                proof {
                    assert(occ(ks_pre, q as int));
                    assert(wf_slot(ks_pre, seed, q as int));
                    assert(q != t) by {
                        if q == t {
                            lemma_offset_of_step(nn as int, ideal as int, j as int);
                            lemma_offset_of_step(nn as int, ideal as int, free_off as int);
                        }
                    }
                }
                let tr = key_data[q].data.take();
                match tr {
                    Some(triple) => {
                        let (k2, p2, d2) = triple;
                        proof {
                            assert(d2 as int == ideal_at(ks_pre, q as int));
                            assert(proper_partner(ks_pre, vs_pre, q as int));
                        }
                        key_data[t].data = Some((k2, p2, d2));
                        Self::mark_as_empty(d2, q, key_data);
                        Self::mark_as_full(d2, t, key_data);
                        proof {
                            lemma_move_slot_wf(ks_pre, seed, q as int, t as int, key_data@);
                        }
                        match &mut value_data[p2].data {
                            Some(vt) => {
                                vt.1 = t;
                            },
                            None => {
                                proof {
                                    assert(false);
                                }
                            },
                        }
                        proof {
                            let ks_new = key_data@;
                            let vs_new = value_data@;
                            assert(vs_new[p2 as int].data.unwrap().1 == t);
                            assert(forall|x: int|
                                0 <= x < nn as int && x != p2 ==> vs_new[x] == vs_pre[x]);
                            lemma_relocation_step(
                                oks,
                                ovs,
                                ks_pre,
                                vs_pre,
                                ks_new,
                                vs_new,
                                q as int,
                                t as int,
                            );
                            // the hole has moved closer to the ideal bucket
                            assert forall|o2: int| 0 <= o2 < j implies occ(
                                key_data@,
                                #[trigger] slot_at(nn as int, ideal as int, o2),
                            ) by {
                                let w = slot_at(nn as int, ideal as int, o2);
                                assert(occ(ks_pre, w));
                                if w == q as int {
                                    lemma_offset_of_step(nn as int, ideal as int, o2);
                                    lemma_offset_of_step(nn as int, ideal as int, j as int);
                                    assert(false);
                                }
                            }
                            assert(!occ(key_data@, (ideal + j as int) % nn as int));
                        }
                        Ok(j)
                    },
                    None => {
                        proof {
                            assert(false);
                        }
                        Err(())
                    },
                }
            },
        }
    }

    /// Walks the free slot backward toward the ideal bucket by relocating
    /// occupants of the window before it, until it lies within a
    /// neighbourhood of the ideal bucket or no occupant may legally move.
    #[verifier::rlimit(100)]
    #[verifier::spinoff_prover]
    fn make_room<K: MapKey, V: MapKey>(
        key_data: &mut Vec<Bucket<K, usize, B>>,
        value_data: &mut Vec<Bucket<V, usize, B>>,
        seed: u64,
        ideal: usize,
        f0: usize,
    ) -> (r: Result<usize, ()>)
        requires
            old(key_data)@.len() == old(value_data)@.len(),
            1 <= old(key_data)@.len() <= MAX_ARRAY_LEN,
            one_sided_wf(old(key_data)@, seed),
            cross_wf(old(key_data)@, old(value_data)@),
            ideal < old(key_data)@.len(),
            f0 < old(key_data)@.len(),
            !occ(old(key_data)@, (ideal + f0 as int) % old(key_data)@.len() as int),
            forall|o2: int|
                0 <= o2 < f0 ==> occ(
                    old(key_data)@,
                    #[trigger] slot_at(old(key_data)@.len() as int, ideal as int, o2),
                ),
        ensures
            final(key_data)@.len() == old(key_data)@.len(),
            final(value_data)@.len() == old(value_data)@.len(),
            one_sided_wf(final(key_data)@, seed),
            cross_wf(final(key_data)@, final(value_data)@),
            same_but_pairs(old(value_data)@, final(value_data)@),
            partners_preserved(
                old(key_data)@,
                old(value_data)@,
                final(key_data)@,
                final(value_data)@,
            ),
            carried(old(key_data)@, final(key_data)@, -1, -1),
            carried(final(key_data)@, old(key_data)@, -1, -1),
            occ_count(final(key_data)@) == occ_count(old(key_data)@),
            orphan_pairs_kept(old(key_data)@, old(value_data)@, final(value_data)@),
            forall|m2: K::M| has_model(final(key_data)@, m2) == has_model(old(key_data)@, m2),
            match r {
                Ok(f) => {
                    &&& f < B::spec_size()
                    &&& f < old(key_data)@.len()
                    &&& !occ(
                        final(key_data)@,
                        (ideal + f as int) % old(key_data)@.len() as int,
                    )
                    &&& ideal < old(key_data)@.len()
                },
                Err(u) => occ_count(old(key_data)@) >= B::spec_size(),
            },
    {
        let ghost oks = old(key_data)@;
        let ghost ovs = old(value_data)@;
        let n = key_data.len();
        let width = B::size();
        proof {
            lemma_carried_refl(oks);
            lemma_carried_refl(ovs);
        }
        let mut free_off = f0;
        while free_off >= width
            invariant
                oks == old(key_data)@,
                ovs == old(value_data)@,
                n == oks.len(),
                n == ovs.len(),
                1 <= n <= MAX_ARRAY_LEN,
                ideal < n,
                width == B::spec_size(),
                cross_wf(oks, ovs),
                free_off < n,
                one_sided_wf(key_data@, seed),
                key_data@.len() == n,
                value_data@.len() == n,
                cross_wf(key_data@, value_data@),
                same_but_pairs(ovs, value_data@),
                partners_preserved(oks, ovs, key_data@, value_data@),
                carried(oks, key_data@, -1, -1),
                carried(key_data@, oks, -1, -1),
                occ_count(key_data@) == occ_count(oks),
                orphan_pairs_kept(oks, ovs, value_data@),
                forall|m2: K::M| has_model(key_data@, m2) == has_model(oks, m2),
                !occ(key_data@, (ideal + free_off as int) % n as int),
                forall|o2: int|
                    0 <= o2 < free_off ==> occ(
                        key_data@,
                        #[trigger] slot_at(n as int, ideal as int, o2),
                    ),
            decreases free_off,
        {
            let step = Self::relocate_step(
                key_data,
                value_data,
                seed,
                ideal,
                free_off,
                Ghost(oks),
                Ghost(ovs),
                Ghost(n),
            );
            match step {
                Ok(j) => {
                    free_off = j;
                },
                Err(u) => {
                    proof {
                        assert forall|o: int| 0 <= o < width implies occ(
                            key_data@,
                            #[trigger] slot_at(key_data@.len() as int, ideal as int, o),
                        ) by {
                            assert(occ(key_data@, slot_at(n as int, ideal as int, o)));
                        }
                        crate::model::lemma_occ_count_ge_window(
                            key_data@,
                            ideal as int,
                            width as int,
                        );
                    }
                    return Err(());
                },
            }
        }
        Ok(free_off)
    }

    /// Inserts a key into its side of the arrays, relocating occupants of
    /// its neighbourhood as needed. On success the key sits at the returned
    /// index with its cross-table index left unset; the caller links it.
    /// On failure the key is handed back and the arrays still hold exactly
    /// the keys they held, though possibly rearranged.
    #[verifier::rlimit(100)]
    #[verifier::spinoff_prover]
    fn insert_one_sided<K: MapKey, V: MapKey>(
        key: K,
        key_data: &mut Vec<Bucket<K, usize, B>>,
        value_data: &mut Vec<Bucket<V, usize, B>>,
        seed: u64,
    ) -> (r: Result<usize, K>)
        requires
            old(key_data)@.len() == old(value_data)@.len(),
            1 <= old(key_data)@.len() <= MAX_ARRAY_LEN,
            one_sided_wf(old(key_data)@, seed),
            !has_model(old(key_data)@, key.model()),
            cross_wf(old(key_data)@, old(value_data)@),
        ensures
            final(key_data)@.len() == old(key_data)@.len(),
            final(value_data)@.len() == old(value_data)@.len(),
            one_sided_wf(final(key_data)@, seed),
            same_but_pairs(old(value_data)@, final(value_data)@),
            partners_preserved(
                old(key_data)@,
                old(value_data)@,
                final(key_data)@,
                final(value_data)@,
            ),
            orphan_pairs_kept(old(key_data)@, old(value_data)@, final(value_data)@),
            match r {
                Ok(idx) => {
                    &&& idx < old(key_data)@.len()
                    &&& occ(final(key_data)@, idx as int)
                    &&& final(key_data)@[idx as int].data.unwrap().0 == key
                    &&& pair_at(final(key_data)@, idx as int) == usize::MAX as int
                    &&& carried(old(key_data)@, final(key_data)@, -1, idx as int)
                    &&& carried(final(key_data)@, old(key_data)@, idx as int, -1)
                    &&& occ_count(final(key_data)@) == occ_count(old(key_data)@) + 1
                    &&& forall|i: int|
                        0 <= i < final(key_data)@.len() && i != idx && #[trigger] occ(
                            final(key_data)@,
                            i,
                        ) ==> proper_partner(final(key_data)@, final(value_data)@, i)
                },
                Err(k2) => {
                    &&& k2 == key
                    &&& carried(old(key_data)@, final(key_data)@, -1, -1)
                    &&& carried(final(key_data)@, old(key_data)@, -1, -1)
                    &&& occ_count(final(key_data)@) == occ_count(old(key_data)@)
                    &&& cross_wf(final(key_data)@, final(value_data)@)
                    &&& (occ_count(old(key_data)@) >= B::spec_size() || occ_count(old(key_data)@)
                        == old(key_data)@.len())
                },
            },
    {
        let ghost oks = old(key_data)@;
        let ghost ovs = old(value_data)@;
        let n = key_data.len();
        let ideal = Self::find_ideal_index(&key, seed, n);
        proof {
            lemma_carried_refl(oks);
            lemma_carried_refl(ovs);
        }
        if key_data[ideal].neighbourhood.full() {
            proof {
                B::size_properties();
                let width = B::spec_size();
                assert((width as int) <= n as int) by {
                    if (width as int) > n as int {
                        assert(oks[ideal as int].neighbourhood.bit(n));
                        assert((n as int) < n as int);
                    }
                }
                assert forall|o: int| 0 <= o < width as int implies occ(
                    oks,
                    #[trigger] slot_at(oks.len() as int, ideal as int, o),
                ) by {
                    assert(oks[ideal as int].neighbourhood.bit(o as usize));
                }
                crate::model::lemma_occ_count_ge_window(oks, ideal as int, width as int);
            }
            return Err(key);
        }
        match Self::find_free_offset(key_data, ideal) {
            None => {
                proof {
                    assert forall|o: int| 0 <= o < n as int implies occ(
                        oks,
                        #[trigger] slot_at(oks.len() as int, ideal as int, o),
                    ) by {}
                    crate::model::lemma_occ_count_ge_window(oks, ideal as int, n as int);
                    crate::model::lemma_occ_count_le_len(oks);
                }
                Err(key)
            },
            Some(f0) => {
                match Self::make_room(key_data, value_data, seed, ideal, f0) {
                    Err(u) => {
                        proof {
                            assert(!has_model(key_data@, key.model()));
                        }
                        Err(key)
                    },
                    Ok(free_off) => {
                        let ghost ks_cur = key_data@;
                        let pos = (ideal + free_off) % n;
                        proof {
                            lemma_offset_of_step(n as int, ideal as int, free_off as int);
                        }
                        key_data[pos].data = Some((key, usize::MAX, ideal));
                        Self::mark_as_full(ideal, pos, key_data);
                        proof {
                            assert(!has_model(ks_cur, key.model()));
                            lemma_place_slot_wf(ks_cur, seed, pos as int, key_data@);
                            lemma_place_compose(oks, ks_cur, key_data@, value_data@, pos as int);
                        }
                        Ok(pos)
                    },
                }
            },
        }
    }



    /// Overwrites the cross-table index stored in an occupied slot.
    fn set_pair_index<K>(data: &mut Vec<Bucket<K, usize, B>>, i: usize, p: usize)
        requires
            i < old(data)@.len(),
            occ(old(data)@, i as int),
        ensures
            final(data)@.len() == old(data)@.len(),
            forall|j: int| 0 <= j < old(data)@.len() && j != i ==> final(data)@[j] == old(data)@[j],
            occ(final(data)@, i as int),
            final(data)@[i as int].data.unwrap().0 == old(data)@[i as int].data.unwrap().0,
            final(data)@[i as int].data.unwrap().2 == old(data)@[i as int].data.unwrap().2,
            final(data)@[i as int].neighbourhood == old(data)@[i as int].neighbourhood,
            pair_at(final(data)@, i as int) == p as int,
    {
        match &mut data[i].data {
            Some(t) => {
                t.1 = p;
            },
            None => {
                proof {
                    assert(false);
                }
            },
        }
    }


    /// Takes a freshly placed key back out of its slot, clearing its
    /// announcement bit.
    #[verifier::rlimit(100)]
    #[verifier::spinoff_prover]
    fn undo_placement<K: MapKey>(key_data: &mut Vec<Bucket<K, usize, B>>, li: usize, seed: u64) -> (k:
        K)
        requires
            one_sided_wf(old(key_data)@, seed),
            li < old(key_data)@.len(),
            occ(old(key_data)@, li as int),
        ensures
            final(key_data)@.len() == old(key_data)@.len(),
            one_sided_wf(final(key_data)@, seed),
            !occ(final(key_data)@, li as int),
            forall|j: int|
                0 <= j < old(key_data)@.len() && j != li ==> final(key_data)@[j].data == old(
                    key_data,
                )@[j].data,
            occ_count(final(key_data)@) + 1 == occ_count(old(key_data)@),
            k == old(key_data)@[li as int].data.unwrap().0,
    {
        let ghost ks0 = old(key_data)@;
        proof {
            assert(wf_slot(ks0, seed, li as int));
        }
        let ideal_l = match &key_data[li].data {
            Some(t) => t.2,
            None => {
                proof {
                    assert(false);
                }
                0
            },
        };
        proof {
            assert(ideal_l as int == ideal_at(ks0, li as int));
            assert(0 <= ideal_l as int && (ideal_l as int) < ks0.len() as int);
            assert(offset_of(ks0.len() as int, ideal_l as int, li as int) < B::spec_size() as int);
        }
        Self::mark_as_empty(ideal_l, li, key_data);
        let t_l = key_data[li].data.take();
        proof {
            lemma_remove_slot_wf(ks0, seed, li as int, key_data@);
        }
        match t_l {
            Some(lt) => lt.0,
            None => {
                proof {
                    assert(false);
                }
                vstd::pervasive::unreached()
            },
        }
    }

    /// Places a fresh pair into both arrays and links the two slots.
    /// On failure nothing observable has changed and the pair is returned.
    #[verifier::rlimit(100)]
    #[verifier::spinoff_prover]
    fn insert_pair(
        left: L,
        right: R,
        left_data: &mut Vec<Bucket<L, usize, B>>,
        right_data: &mut Vec<Bucket<R, usize, B>>,
        left_seed: u64,
        right_seed: u64,
        map_len: &mut usize,
    ) -> (r: Result<(), (L, R)>)
        requires
            old(left_data)@.len() == old(right_data)@.len(),
            1 <= old(left_data)@.len() <= MAX_ARRAY_LEN,
            one_sided_wf(old(left_data)@, left_seed),
            one_sided_wf(old(right_data)@, right_seed),
            cross_wf(old(left_data)@, old(right_data)@),
            cross_wf(old(right_data)@, old(left_data)@),
            *old(map_len) == occ_count(old(left_data)@),
            *old(map_len) == occ_count(old(right_data)@),
            !has_model(old(left_data)@, left.model()),
            !has_model(old(right_data)@, right.model()),
        ensures
            final(left_data)@.len() == old(left_data)@.len(),
            final(right_data)@.len() == old(right_data)@.len(),
            one_sided_wf(final(left_data)@, left_seed),
            one_sided_wf(final(right_data)@, right_seed),
            cross_wf(final(left_data)@, final(right_data)@),
            cross_wf(final(right_data)@, final(left_data)@),
            *final(map_len) == occ_count(final(left_data)@),
            *final(map_len) == occ_count(final(right_data)@),
            match r {
                Ok(u) => {
                    &&& as_map(final(left_data)@, final(right_data)@) == as_map(
                        old(left_data)@,
                        old(right_data)@,
                    ).insert(left.model(), right.model())
                    &&& as_map(final(right_data)@, final(left_data)@) == as_map(
                        old(right_data)@,
                        old(left_data)@,
                    ).insert(right.model(), left.model())
                    &&& *final(map_len) == *old(map_len) + 1
                },
                Err(pair) => {
                    &&& pair.0 == left
                    &&& pair.1 == right
                    &&& as_map(final(left_data)@, final(right_data)@) == as_map(
                        old(left_data)@,
                        old(right_data)@,
                    )
                    &&& as_map(final(right_data)@, final(left_data)@) == as_map(
                        old(right_data)@,
                        old(left_data)@,
                    )
                    &&& *final(map_len) == *old(map_len)
                    &&& (*old(map_len) >= B::spec_size() || *old(map_len) == old(
                        left_data,
                    )@.len())
                },
            },
    {
        let ghost l0 = old(left_data)@;
        let ghost r0 = old(right_data)@;
        let ghost lm = left.model();
        let ghost rm = right.model();
        let n = left_data.len();
        proof {
            crate::model::lemma_occ_count_le_len(l0);
        }
        match Self::insert_one_sided(left, left_data, right_data, left_seed) {
            Err(l_back) => {
                proof {
                    let l1 = left_data@;
                    let r1 = right_data@;
                    lemma_wf_same_but_pairs(r0, r1, right_seed);
                    assert forall|j: int|
                        0 <= j < n as int && #[trigger] occ(r1, j) implies proper_partner(
                        r1,
                        l1,
                        j,
                    ) by {
                        assert(occ(r0, j));
                        assert(proper_partner(r0, l0, j));
                    }
                    lemma_as_map_congruence(l0, r0, l1, r1);
                    lemma_rev_determined(l0, r0, l1, r1);
                }
                Err((l_back, right))
            },
            Ok(li) => {
                let ghost l1 = left_data@;
                let ghost r1 = right_data@;
                proof {
                    lemma_wf_same_but_pairs(r0, r1, right_seed);
                    assert forall|j: int|
                        0 <= j < n as int && #[trigger] occ(r1, j) implies proper_partner(
                        r1,
                        l1,
                        j,
                    ) by {
                        assert(occ(r0, j));
                        assert(proper_partner(r0, l0, j));
                    }
                    assert(!has_model(r1, rm));
                    assert(key_model(l1, li as int) == lm);
                }
                match Self::insert_one_sided(right, right_data, left_data, right_seed) {
                    Err(r_back) => {
                        let ghost l2 = left_data@;
                        let ghost r2 = right_data@;
                        proof {
                            lemma_wf_same_but_pairs(l1, l2, left_seed);
                            assert(occ(l2, li as int));
                        }
                        let l_back = Self::undo_placement(left_data, li, left_seed);
                        let ghost l3 = left_data@;
                        proof {
                            assert(l_back == left) by {
                                assert(l2[li as int].data.unwrap().0 == l1[li as int].data.unwrap().0);
                            }
                            Self::undo_path_views(
                                l0,
                                r0,
                                l1,
                                r1,
                                l2,
                                r2,
                                l3,
                                li as int,
                                left_seed,
                                right_seed,
                            );
                            crate::model::lemma_occ_count_le_len(l2);
                        }
                        Err((l_back, r_back))
                    },
                    Ok(ri) => {
                        let ghost l2 = left_data@;
                        let ghost r2 = right_data@;
                        // link the two fresh slots
                        Self::set_pair_index(left_data, li, ri);
                        Self::set_pair_index(right_data, ri, li);
                        let ghost l3 = left_data@;
                        let ghost r3 = right_data@;
                        proof {
                            crate::model::lemma_occ_count_le_len(l2);
                            Self::link_path_views(
                                l0,
                                r0,
                                l1,
                                r1,
                                l2,
                                r2,
                                l3,
                                r3,
                                li as int,
                                ri as int,
                                left_seed,
                                right_seed,
                            );
                        }
                        *map_len = *map_len + 1;
                        Ok(())
                    },
                }
            },
        }
    }


    /// After a failed right-side placement and the undoing of the left
    /// placement, both readings of the relation are what they were.
    #[verifier::rlimit(100)]
    #[verifier::spinoff_prover]
    proof fn undo_path_views(
        l0: Seq<Bucket<L, usize, B>>,
        r0: Seq<Bucket<R, usize, B>>,
        l1: Seq<Bucket<L, usize, B>>,
        r1: Seq<Bucket<R, usize, B>>,
        l2: Seq<Bucket<L, usize, B>>,
        r2: Seq<Bucket<R, usize, B>>,
        l3: Seq<Bucket<L, usize, B>>,
        li: int,
        left_seed: u64,
        right_seed: u64,
    )
        requires
            l0.len() == r0.len(),
            l1.len() == l0.len(),
            r1.len() == r0.len(),
            l2.len() == l0.len(),
            r2.len() == r0.len(),
            l3.len() == l0.len(),
            1 <= l0.len() <= MAX_ARRAY_LEN,
            one_sided_wf(l0, left_seed),
            one_sided_wf(r0, right_seed),
            cross_wf(l0, r0),
            cross_wf(r0, l0),
            0 <= li < l0.len(),
            occ(l1, li),
            pair_at(l1, li) == usize::MAX as int,
            !has_model(l0, key_model(l1, li)),
            carried(l0, l1, -1, li),
            carried(l1, l0, li, -1),
            one_sided_wf(l1, left_seed),
            same_but_pairs(r0, r1),
            partners_preserved(l0, r0, l1, r1),
            forall|i: int|
                0 <= i < l1.len() && i != li && #[trigger] occ(l1, i) ==> proper_partner(
                    l1,
                    r1,
                    i,
                ),
            one_sided_wf(r2, right_seed),
            same_but_pairs(l1, l2),
            partners_preserved(r1, l1, r2, l2),
            orphan_pairs_kept(r1, l1, l2),
            carried(r1, r2, -1, -1),
            carried(r2, r1, -1, -1),
            occ_count(r2) == occ_count(r1),
            occ_count(l1) == occ_count(l0) + 1,
            cross_wf(r2, l2),
            one_sided_wf(l3, left_seed),
            !occ(l3, li),
            forall|j: int| 0 <= j < l0.len() && j != li ==> l3[j].data == l2[j].data,
            occ_count(l3) + 1 == occ_count(l2),
        ensures
            cross_wf(l3, r2),
            cross_wf(r2, l3),
            as_map(l3, r2) == as_map(l0, r0),
            as_map(r2, l3) == as_map(r0, l0),
            occ_count(l3) == occ_count(l0),
            occ_count(r2) == occ_count(r0),
    {
        let n = l0.len() as int;
        lemma_wf_same_but_pairs(r0, r1, right_seed);
        lemma_wf_same_but_pairs(l1, l2, left_seed);
        // the sentinel slot kept its unset cross index
        assert(!proper_partner(l1, r1, li));
        assert(pair_at(l2, li) == usize::MAX as int);
        // both directions of cross-referencing hold
        assert forall|i: int| 0 <= i < n && #[trigger] occ(l3, i) implies proper_partner(
            l3,
            r2,
            i,
        ) by {
            assert(i != li);
            assert(l3[i].data == l2[i].data);
            assert(occ(l2, i));
            assert(occ(l1, i));
            assert(proper_partner(l1, r1, i));
            assert(proper_partner(l2, r2, i));
        }
        assert forall|j: int| 0 <= j < n && #[trigger] occ(r2, j) implies proper_partner(
            r2,
            l3,
            j,
        ) by {
            assert(proper_partner(r2, l2, j));
            let pj = pair_at(r2, j);
            if pj == li {
                assert(pair_at(l2, li) == j);
                assert(false);
            }
            assert(l3[pj].data == l2[pj].data);
        }
        // the forward reading is unchanged
        assert forall|i: int| 0 <= i < n && #[trigger] occ(l3, i) implies exists|i0: int|
            0 <= i0 < l0.len() && #[trigger] occ(l0, i0) && key_model(l0, i0) == key_model(l3, i)
                && key_model(r2, pair_at(l3, i)) == key_model(r0, pair_at(l0, i0)) by {
            assert(i != li);
            assert(l3[i].data == l2[i].data);
            assert(occ(l1, i));
            let i0 = choose|i0: int|
                0 <= i0 < n && i0 != -1 && #[trigger] occ(l0, i0) && l0[i0].data.unwrap().0
                    == l1[i].data.unwrap().0 && pair_at(l0, i0) == pair_at(l1, i);
            let p = pair_at(l1, i);
            assert(proper_partner(l1, r1, i));
            assert(proper_partner(l2, r2, i) && r2[pair_at(l2, i)].data.unwrap().0 == r1[p].data.unwrap().0);
            assert(key_model(r1, p) == key_model(r0, p)) by {
                assert(occ(r1, p));
                assert(r1[p].data.unwrap().0 == r0[p].data.unwrap().0);
            }
            assert(key_model(l3, i) == key_model(l0, i0));
            assert(key_model(r2, pair_at(l3, i)) == key_model(r0, pair_at(l0, i0)));
        }
        assert forall|i0: int| 0 <= i0 < n && #[trigger] occ(l0, i0) implies has_model(
            l3,
            key_model(l0, i0),
        ) by {
            let i1 = choose|i1: int|
                0 <= i1 < n && i1 != li && #[trigger] occ(l1, i1) && l1[i1].data.unwrap().0
                    == l0[i0].data.unwrap().0 && pair_at(l1, i1) == pair_at(l0, i0);
            assert(occ(l2, i1) && key_model(l2, i1) == key_model(l0, i0));
            assert(l3[i1].data == l2[i1].data);
            assert(occ(l3, i1) && key_model(l3, i1) == key_model(l0, i0));
        }
        lemma_as_map_same(l0, r0, l3, r2);
        lemma_rev_determined(l0, r0, l3, r2);
    }


    /// The two final arrays differ from the placed ones only in the pair
    /// fields of the two linked slots.
    #[verifier::rlimit(60)]
    #[verifier::spinoff_prover]
    proof fn link_path_pairs_only(
        l2: Seq<Bucket<L, usize, B>>,
        r2: Seq<Bucket<R, usize, B>>,
        l3: Seq<Bucket<L, usize, B>>,
        r3: Seq<Bucket<R, usize, B>>,
        li: int,
        ri: int,
    )
        requires
            l3.len() == l2.len(),
            r3.len() == r2.len(),
            0 <= li < l2.len(),
            0 <= ri < r2.len(),
            occ(l3, li),
            occ(l2, li),
            occ(r3, ri),
            occ(r2, ri),
            forall|j: int| 0 <= j < l2.len() && j != li ==> l3[j] == l2[j],
            l3[li].data.unwrap().0 == l2[li].data.unwrap().0,
            l3[li].data.unwrap().2 == l2[li].data.unwrap().2,
            l3[li].neighbourhood == l2[li].neighbourhood,
            forall|j: int| 0 <= j < r2.len() && j != ri ==> r3[j] == r2[j],
            r3[ri].data.unwrap().0 == r2[ri].data.unwrap().0,
            r3[ri].data.unwrap().2 == r2[ri].data.unwrap().2,
            r3[ri].neighbourhood == r2[ri].neighbourhood,
        ensures
            same_but_pairs(l2, l3),
            same_but_pairs(r2, r3),
    {
        assert forall|j: int| 0 <= j < l2.len() implies {
            &&& (#[trigger] l3[j]).neighbourhood == l2[j].neighbourhood
            &&& (l3[j].data is Some <==> l2[j].data is Some)
            &&& (l2[j].data is Some ==> l3[j].data.unwrap().0 == l2[j].data.unwrap().0
                && l3[j].data.unwrap().2 == l2[j].data.unwrap().2)
        } by {
            if j != li {
                assert(l3[j] == l2[j]);
            }
        }
        assert forall|j: int| 0 <= j < r2.len() implies {
            &&& (#[trigger] r3[j]).neighbourhood == r2[j].neighbourhood
            &&& (r3[j].data is Some <==> r2[j].data is Some)
            &&& (r2[j].data is Some ==> r3[j].data.unwrap().0 == r2[j].data.unwrap().0
                && r3[j].data.unwrap().2 == r2[j].data.unwrap().2)
        } by {
            if j != ri {
                assert(r3[j] == r2[j]);
            }
        }
    }

    /// Every slot of the linked left array has a proper partner.
    #[verifier::rlimit(100)]
    #[verifier::spinoff_prover]
    proof fn link_cross_lr(
        l1: Seq<Bucket<L, usize, B>>,
        r1: Seq<Bucket<R, usize, B>>,
        l2: Seq<Bucket<L, usize, B>>,
        r2: Seq<Bucket<R, usize, B>>,
        l3: Seq<Bucket<L, usize, B>>,
        r3: Seq<Bucket<R, usize, B>>,
        li: int,
        ri: int,
    )
        requires
            l1.len() == r1.len(),
            l2.len() == l1.len(),
            r2.len() == r1.len(),
            l3.len() == l1.len(),
            r3.len() == r1.len(),
            0 <= li < l1.len(),
            0 <= ri < r1.len(),
            same_but_pairs(l1, l2),
            partners_preserved(r1, l1, r2, l2),
            forall|i: int|
                0 <= i < l1.len() && i != li && #[trigger] occ(l1, i) ==> proper_partner(
                    l1,
                    r1,
                    i,
                ),
            pair_at(r2, ri) == usize::MAX as int,
            occ(r2, ri),
            forall|j: int| 0 <= j < l1.len() && j != li ==> l3[j] == l2[j],
            occ(l3, li),
            pair_at(l3, li) == ri,
            forall|j: int| 0 <= j < r1.len() && j != ri ==> r3[j] == r2[j],
            occ(r3, ri),
            pair_at(r3, ri) == li,
            usize::MAX as int >= l1.len(),
        ensures
            cross_wf(l3, r3),
    {
        let n = l1.len() as int;
        assert forall|i: int| 0 <= i < n && #[trigger] occ(l3, i) implies proper_partner(
            l3,
            r3,
            i,
        ) by {
            if i == li {
                assert(pair_at(l3, li) == ri && occ(r3, ri) && pair_at(r3, ri) == li);
            } else {
                assert(l3[i] == l2[i]);
                assert(occ(l1, i));
                assert(proper_partner(l1, r1, i));
                assert(proper_partner(l2, r2, i));
                let p = pair_at(l2, i);
                if p == ri {
                    assert(pair_at(r2, ri) == i);
                    assert(false);
                }
                assert(r3[p] == r2[p]);
            }
        }
    }

    /// Every slot of the linked right array has a proper partner.
    #[verifier::rlimit(100)]
    #[verifier::spinoff_prover]
    proof fn link_cross_rl(
        l1: Seq<Bucket<L, usize, B>>,
        l2: Seq<Bucket<L, usize, B>>,
        r2: Seq<Bucket<R, usize, B>>,
        l3: Seq<Bucket<L, usize, B>>,
        r3: Seq<Bucket<R, usize, B>>,
        li: int,
        ri: int,
    )
        requires
            l2.len() == l1.len(),
            r2.len() == l1.len(),
            l3.len() == l1.len(),
            r3.len() == l1.len(),
            0 <= li < l1.len(),
            0 <= ri < l1.len(),
            occ(l1, li),
            pair_at(l1, li) == usize::MAX as int,
            same_but_pairs(l1, l2),
            forall|j: int|
                0 <= j < r2.len() && j != ri && #[trigger] occ(r2, j) ==> proper_partner(
                    r2,
                    l2,
                    j,
                ),
            forall|j: int| 0 <= j < l1.len() && j != li ==> l3[j] == l2[j],
            occ(l3, li),
            pair_at(l3, li) == ri,
            forall|j: int| 0 <= j < l1.len() && j != ri ==> r3[j] == r2[j],
            occ(r3, ri),
            pair_at(r3, ri) == li,
            pair_at(l2, li) == usize::MAX as int,
            usize::MAX as int >= l1.len(),
        ensures
            cross_wf(r3, l3),
    {
        let n = l1.len() as int;
        assert forall|j: int| 0 <= j < n && #[trigger] occ(r3, j) implies proper_partner(
            r3,
            l3,
            j,
        ) by {
            if j == ri {
                assert(pair_at(r3, ri) == li && occ(l3, li) && pair_at(l3, li) == ri);
            } else {
                assert(r3[j] == r2[j]);
                assert(occ(r2, j));
                assert(proper_partner(r2, l2, j));
                let pj = pair_at(r2, j);
                if pj == li {
                    assert(pair_at(l2, li) == j);
                    assert(false);
                }
                assert(l3[pj] == l2[pj]);
            }
        }
    }

    /// Structural half of the linking argument: well-formedness, mutual
    /// cross-references and counts after both placements are linked.
    #[verifier::rlimit(100)]
    #[verifier::spinoff_prover]
    proof fn link_path_structure(
        l0: Seq<Bucket<L, usize, B>>,
        r0: Seq<Bucket<R, usize, B>>,
        l1: Seq<Bucket<L, usize, B>>,
        r1: Seq<Bucket<R, usize, B>>,
        l2: Seq<Bucket<L, usize, B>>,
        r2: Seq<Bucket<R, usize, B>>,
        l3: Seq<Bucket<L, usize, B>>,
        r3: Seq<Bucket<R, usize, B>>,
        li: int,
        ri: int,
        left_seed: u64,
        right_seed: u64,
    )
        requires
            l0.len() == r0.len(),
            l1.len() == l0.len(),
            r1.len() == r0.len(),
            l2.len() == l0.len(),
            r2.len() == r0.len(),
            l3.len() == l0.len(),
            r3.len() == r0.len(),
            1 <= l0.len() <= MAX_ARRAY_LEN,
            one_sided_wf(r0, right_seed),
            one_sided_wf(l1, left_seed),
            one_sided_wf(r2, right_seed),
            occ_count(l1) == occ_count(l0) + 1,
            occ_count(r2) == occ_count(r1) + 1,
            0 <= li < l0.len(),
            0 <= ri < r0.len(),
            occ(l1, li),
            pair_at(l1, li) == usize::MAX as int,
            same_but_pairs(r0, r1),
            forall|i: int|
                0 <= i < l1.len() && i != li && #[trigger] occ(l1, i) ==> proper_partner(
                    l1,
                    r1,
                    i,
                ),
            occ(r2, ri),
            pair_at(r2, ri) == usize::MAX as int,
            same_but_pairs(l1, l2),
            partners_preserved(r1, l1, r2, l2),
            orphan_pairs_kept(r1, l1, l2),
            forall|j: int|
                0 <= j < r2.len() && j != ri && #[trigger] occ(r2, j) ==> proper_partner(
                    r2,
                    l2,
                    j,
                ),
            forall|j: int| 0 <= j < l0.len() && j != li ==> l3[j] == l2[j],
            occ(l3, li),
            l3[li].data.unwrap().0 == l2[li].data.unwrap().0,
            l3[li].data.unwrap().2 == l2[li].data.unwrap().2,
            l3[li].neighbourhood == l2[li].neighbourhood,
            pair_at(l3, li) == ri,
            forall|j: int| 0 <= j < r0.len() && j != ri ==> r3[j] == r2[j],
            occ(r3, ri),
            r3[ri].data.unwrap().0 == r2[ri].data.unwrap().0,
            r3[ri].data.unwrap().2 == r2[ri].data.unwrap().2,
            r3[ri].neighbourhood == r2[ri].neighbourhood,
            pair_at(r3, ri) == li,
        ensures
            one_sided_wf(l3, left_seed),
            one_sided_wf(r3, right_seed),
            cross_wf(l3, r3),
            cross_wf(r3, l3),
            occ_count(l3) == occ_count(l0) + 1,
            occ_count(r3) == occ_count(r0) + 1,
            pair_at(l2, li) == usize::MAX as int,
            key_model(l3, li) == key_model(l1, li),
            key_model(r3, ri) == key_model(r2, ri),
    {
        let n = l0.len() as int;
        lemma_wf_same_but_pairs(r0, r1, right_seed);
        lemma_wf_same_but_pairs(l1, l2, left_seed);
        Self::link_path_pairs_only(l2, r2, l3, r3, li, ri);
        lemma_wf_same_but_pairs(l2, l3, left_seed);
        lemma_wf_same_but_pairs(r2, r3, right_seed);
        assert(!proper_partner(l1, r1, li));
        assert(pair_at(l2, li) == usize::MAX as int);
        Self::link_cross_lr(l1, r1, l2, r2, l3, r3, li, ri);
        Self::link_cross_rl(l1, l2, r2, l3, r3, li, ri);
    }

    /// Forward half of the linking argument: the left-to-right reading
    /// gains exactly the new pair.
    #[verifier::rlimit(100)]
    #[verifier::spinoff_prover]
    proof fn link_path_forward(

        l0: Seq<Bucket<L, usize, B>>,
        r0: Seq<Bucket<R, usize, B>>,
        l1: Seq<Bucket<L, usize, B>>,
        r1: Seq<Bucket<R, usize, B>>,
        l2: Seq<Bucket<L, usize, B>>,
        r2: Seq<Bucket<R, usize, B>>,
        l3: Seq<Bucket<L, usize, B>>,
        r3: Seq<Bucket<R, usize, B>>,
        li: int,
        ri: int,
        left_seed: u64,
        right_seed: u64,
    )
        requires
            l0.len() == r0.len(),
            l1.len() == l0.len(),
            r1.len() == r0.len(),
            l2.len() == l0.len(),
            r2.len() == r0.len(),
            l3.len() == l0.len(),
            r3.len() == r0.len(),
            1 <= l0.len() <= MAX_ARRAY_LEN,
            one_sided_wf(l0, left_seed),
            one_sided_wf(r0, right_seed),
            cross_wf(l0, r0),
            cross_wf(r0, l0),
            0 <= li < l0.len(),
            0 <= ri < r0.len(),
            occ(l1, li),
            pair_at(l1, li) == usize::MAX as int,
            !has_model(l0, key_model(l1, li)),
            carried(l0, l1, -1, li),
            carried(l1, l0, li, -1),
            one_sided_wf(l1, left_seed),
            same_but_pairs(r0, r1),
            partners_preserved(l0, r0, l1, r1),
            forall|i: int|
                0 <= i < l1.len() && i != li && #[trigger] occ(l1, i) ==> proper_partner(
                    l1,
                    r1,
                    i,
                ),
            occ_count(l1) == occ_count(l0) + 1,
            !has_model(r1, key_model(r2, ri)),
            occ(r2, ri),
            pair_at(r2, ri) == usize::MAX as int,
            carried(r1, r2, -1, ri),
            carried(r2, r1, ri, -1),
            one_sided_wf(r2, right_seed),
            same_but_pairs(l1, l2),
            partners_preserved(r1, l1, r2, l2),
            orphan_pairs_kept(r1, l1, l2),
            forall|j: int|
                0 <= j < r2.len() && j != ri && #[trigger] occ(r2, j) ==> proper_partner(
                    r2,
                    l2,
                    j,
                ),
            occ_count(r2) == occ_count(r1) + 1,
            forall|j: int| 0 <= j < l0.len() && j != li ==> l3[j] == l2[j],
            occ(l3, li),
            l3[li].data.unwrap().0 == l2[li].data.unwrap().0,
            l3[li].data.unwrap().2 == l2[li].data.unwrap().2,
            l3[li].neighbourhood == l2[li].neighbourhood,
            pair_at(l3, li) == ri,
            forall|j: int| 0 <= j < r0.len() && j != ri ==> r3[j] == r2[j],
            occ(r3, ri),
            r3[ri].data.unwrap().0 == r2[ri].data.unwrap().0,
            r3[ri].data.unwrap().2 == r2[ri].data.unwrap().2,
            r3[ri].neighbourhood == r2[ri].neighbourhood,
            pair_at(r3, ri) == li,
        ensures
            as_map(l3, r3) == as_map(l0, r0).insert(key_model(l1, li), key_model(r2, ri)),
    {
        let n = l0.len() as int;
        lemma_wf_same_but_pairs(r0, r1, right_seed);
        lemma_wf_same_but_pairs(l1, l2, left_seed);
        Self::link_path_structure(l0, r0, l1, r1, l2, r2, l3, r3, li, ri, left_seed, right_seed);
        assert forall|i: int|
            0 <= i < n && i != li && #[trigger] occ(l3, i) implies exists|i0: int|
            0 <= i0 < l0.len() && #[trigger] occ(l0, i0) && key_model(l0, i0) == key_model(l3, i)
                && key_model(r3, pair_at(l3, i)) == key_model(r0, pair_at(l0, i0)) by {
            assert(l3[i] == l2[i]);
            assert(occ(l1, i));
            let i0 = choose|i0: int|
                0 <= i0 < n && i0 != -1 && #[trigger] occ(l0, i0) && l0[i0].data.unwrap().0
                    == l1[i].data.unwrap().0 && pair_at(l0, i0) == pair_at(l1, i);
            let p = pair_at(l1, i);
            assert(proper_partner(l1, r1, i));
            assert(proper_partner(l2, r2, i) && r2[pair_at(l2, i)].data.unwrap().0 == r1[p].data.unwrap().0);
            assert(key_model(r1, p) == key_model(r0, p)) by {
                assert(occ(r1, p));
                assert(r1[p].data.unwrap().0 == r0[p].data.unwrap().0);
            }
            let p2 = pair_at(l2, i);
            if p2 == ri {
                assert(pair_at(r2, ri) == i);
                assert(false);
            }
            assert(r3[p2] == r2[p2]);
            assert(key_model(l3, i) == key_model(l0, i0));
            assert(key_model(r3, pair_at(l3, i)) == key_model(r0, pair_at(l0, i0)));
        }
        assert forall|i0: int| 0 <= i0 < n && #[trigger] occ(l0, i0) implies has_model(
            l3,
            key_model(l0, i0),
        ) by {
            let i1 = choose|i1: int|
                0 <= i1 < n && i1 != li && #[trigger] occ(l1, i1) && l1[i1].data.unwrap().0
                    == l0[i0].data.unwrap().0 && pair_at(l1, i1) == pair_at(l0, i0);
            assert(occ(l2, i1) && key_model(l2, i1) == key_model(l0, i0));
            assert(l3[i1] == l2[i1]);
            assert(occ(l3, i1) && key_model(l3, i1) == key_model(l0, i0));
        }
        lemma_as_map_after_link(l0, r0, l3, r3, li, ri);
    }

    /// Backward half of the linking argument: the right-to-left reading
    /// gains exactly the mirrored pair.
    #[verifier::rlimit(100)]
    #[verifier::spinoff_prover]
    proof fn link_path_backward(
        l0: Seq<Bucket<L, usize, B>>,
        r0: Seq<Bucket<R, usize, B>>,
        l1: Seq<Bucket<L, usize, B>>,
        r1: Seq<Bucket<R, usize, B>>,
        l2: Seq<Bucket<L, usize, B>>,
        r2: Seq<Bucket<R, usize, B>>,
        l3: Seq<Bucket<L, usize, B>>,
        r3: Seq<Bucket<R, usize, B>>,
        li: int,
        ri: int,
    )
        requires
            l0.len() == r0.len(),
            l1.len() == l0.len(),
            r1.len() == r0.len(),
            l2.len() == l0.len(),
            r2.len() == r0.len(),
            l3.len() == l0.len(),
            r3.len() == r0.len(),
            1 <= l0.len(),
            usize::MAX as int >= l0.len(),
            0 <= li < l0.len(),
            0 <= ri < r0.len(),
            distinct_models(r0),
            distinct_models(r3),
            cross_wf(r0, l0),
            partners_preserved(l0, r0, l1, r1),
            same_but_pairs(r0, r1),
            same_but_pairs(l1, l2),
            carried(r1, r2, -1, ri),
            carried(r2, r1, ri, -1),
            occ(l1, li),
            pair_at(l1, li) == usize::MAX as int,
            occ(r2, ri),
            !has_model(r0, key_model(r2, ri)),
            forall|j: int| 0 <= j < l0.len() && j != li ==> l3[j] == l2[j],
            occ(l3, li),
            l3[li].data.unwrap().0 == l2[li].data.unwrap().0,
            forall|j: int| 0 <= j < r0.len() && j != ri ==> r3[j] == r2[j],
            occ(r3, ri),
            r3[ri].data.unwrap().0 == r2[ri].data.unwrap().0,
            pair_at(r3, ri) == li,
        ensures
            as_map(r3, l3) == as_map(r0, l0).insert(key_model(r2, ri), key_model(l1, li)),
    {
        let n = l0.len() as int;
        assert forall|j: int|
            0 <= j < n && j != ri && #[trigger] occ(r3, j) implies exists|j0: int|
            0 <= j0 < r0.len() && #[trigger] occ(r0, j0) && key_model(r0, j0) == key_model(r3, j)
                && key_model(l3, pair_at(r3, j)) == key_model(l0, pair_at(r0, j0)) by {
            assert(r3[j] == r2[j]);
            assert(occ(r2, j));
            let j1 = choose|j1: int|
                0 <= j1 < n && j1 != -1 && #[trigger] occ(r1, j1) && r1[j1].data.unwrap().0
                    == r2[j].data.unwrap().0 && pair_at(r1, j1) == pair_at(r2, j);
            let pj = pair_at(r1, j1);
            assert(occ(r0, j1) && r0[j1].data.unwrap().0 == r1[j1].data.unwrap().0);
            assert(proper_partner(r0, l0, j1));
            assert(proper_partner(r1, l1, j1) && l1[pair_at(r1, j1)].data.unwrap().0 == l0[pair_at(
                r0,
                j1,
            )].data.unwrap().0);
            if pj == li {
                assert(pair_at(l1, li) == j1);
                assert(false);
            }
            assert(l3[pj] == l2[pj]);
            assert(key_model(l2, pj) == key_model(l1, pj)) by {
                assert(occ(l1, pj));
                assert(l2[pj].data.unwrap().0 == l1[pj].data.unwrap().0);
            }
            assert(key_model(r3, j) == key_model(r0, j1));
            assert(key_model(l3, pair_at(r3, j)) == key_model(l0, pair_at(r0, j1)));
        }
        assert forall|j0: int| 0 <= j0 < n && #[trigger] occ(r0, j0) implies has_model(
            r3,
            key_model(r0, j0),
        ) by {
            assert(occ(r1, j0) && key_model(r1, j0) == key_model(r0, j0));
            let j2 = choose|j2: int|
                0 <= j2 < n && j2 != ri && #[trigger] occ(r2, j2) && r2[j2].data.unwrap().0
                    == r1[j0].data.unwrap().0 && pair_at(r2, j2) == pair_at(r1, j0);
            assert(r3[j2] == r2[j2]);
            assert(occ(r3, j2) && key_model(r3, j2) == key_model(r0, j0));
        }
        assert(key_model(r3, ri) == key_model(r2, ri));
        assert(key_model(l3, li) == key_model(l1, li)) by {
            assert(occ(l1, li));
            assert(l2[li].data.unwrap().0 == l1[li].data.unwrap().0);
        }
        lemma_as_map_after_link(r0, l0, r3, l3, ri, li);
    }

    /// After both placements succeed and the two fresh slots are linked,
    /// both readings of the relation have gained exactly the new pair.
    proof fn link_path_views(

        l0: Seq<Bucket<L, usize, B>>,
        r0: Seq<Bucket<R, usize, B>>,
        l1: Seq<Bucket<L, usize, B>>,
        r1: Seq<Bucket<R, usize, B>>,
        l2: Seq<Bucket<L, usize, B>>,
        r2: Seq<Bucket<R, usize, B>>,
        l3: Seq<Bucket<L, usize, B>>,
        r3: Seq<Bucket<R, usize, B>>,
        li: int,
        ri: int,
        left_seed: u64,
        right_seed: u64,
    )
        requires
            l0.len() == r0.len(),
            l1.len() == l0.len(),
            r1.len() == r0.len(),
            l2.len() == l0.len(),
            r2.len() == r0.len(),
            l3.len() == l0.len(),
            r3.len() == r0.len(),
            1 <= l0.len() <= MAX_ARRAY_LEN,
            one_sided_wf(l0, left_seed),
            one_sided_wf(r0, right_seed),
            cross_wf(l0, r0),
            cross_wf(r0, l0),
            0 <= li < l0.len(),
            0 <= ri < r0.len(),
            occ(l1, li),
            pair_at(l1, li) == usize::MAX as int,
            !has_model(l0, key_model(l1, li)),
            carried(l0, l1, -1, li),
            carried(l1, l0, li, -1),
            one_sided_wf(l1, left_seed),
            same_but_pairs(r0, r1),
            partners_preserved(l0, r0, l1, r1),
            forall|i: int|
                0 <= i < l1.len() && i != li && #[trigger] occ(l1, i) ==> proper_partner(
                    l1,
                    r1,
                    i,
                ),
            occ_count(l1) == occ_count(l0) + 1,
            !has_model(r1, key_model(r2, ri)),
            occ(r2, ri),
            pair_at(r2, ri) == usize::MAX as int,
            carried(r1, r2, -1, ri),
            carried(r2, r1, ri, -1),
            one_sided_wf(r2, right_seed),
            same_but_pairs(l1, l2),
            partners_preserved(r1, l1, r2, l2),
            orphan_pairs_kept(r1, l1, l2),
            forall|j: int|
                0 <= j < r2.len() && j != ri && #[trigger] occ(r2, j) ==> proper_partner(
                    r2,
                    l2,
                    j,
                ),
            occ_count(r2) == occ_count(r1) + 1,
            forall|j: int| 0 <= j < l0.len() && j != li ==> l3[j] == l2[j],
            occ(l3, li),
            l3[li].data.unwrap().0 == l2[li].data.unwrap().0,
            l3[li].data.unwrap().2 == l2[li].data.unwrap().2,
            l3[li].neighbourhood == l2[li].neighbourhood,
            pair_at(l3, li) == ri,
            forall|j: int| 0 <= j < r0.len() && j != ri ==> r3[j] == r2[j],
            occ(r3, ri),
            r3[ri].data.unwrap().0 == r2[ri].data.unwrap().0,
            r3[ri].data.unwrap().2 == r2[ri].data.unwrap().2,
            r3[ri].neighbourhood == r2[ri].neighbourhood,
            pair_at(r3, ri) == li,
        ensures
            one_sided_wf(l3, left_seed),
            one_sided_wf(r3, right_seed),
            cross_wf(l3, r3),
            cross_wf(r3, l3),
            as_map(l3, r3) == as_map(l0, r0).insert(key_model(l1, li), key_model(r2, ri)),
            as_map(r3, l3) == as_map(r0, l0).insert(key_model(r2, ri), key_model(l1, li)),
            occ_count(l3) == occ_count(l0) + 1,
            occ_count(r3) == occ_count(r0) + 1,
    {
        Self::link_path_structure(l0, r0, l1, r1, l2, r2, l3, r3, li, ri, left_seed, right_seed);
        Self::link_path_forward(l0, r0, l1, r1, l2, r2, l3, r3, li, ri, left_seed, right_seed);
        lemma_wf_same_but_pairs(r0, r1, right_seed);
        assert(!has_model(r0, key_model(r2, ri)));
        Self::link_path_backward(l0, r0, l1, r1, l2, r2, l3, r3, li, ri);
    }


    /// Takes every pair out of a discarded pair of arrays, appending each
    /// to the stash exactly once.
    #[verifier::rlimit(100)]
    #[verifier::spinoff_prover]
    #[verifier::loop_isolation(false)]
    fn drain_into(
        old_left: &mut Vec<Bucket<L, usize, B>>,
        old_right: &mut Vec<Bucket<R, usize, B>>,
        stash: &mut Vec<(L, R)>,
    )
        requires
            old(old_left)@.len() == old(old_right)@.len(),
            distinct_models(old(old_left)@),
            distinct_models(old(old_right)@),
            cross_wf(old(old_left)@, old(old_right)@),
            cross_wf(old(old_right)@, old(old_left)@),
        ensures
            final(stash)@.len() >= old(stash)@.len(),
            forall|i: int| 0 <= i < old(stash)@.len() ==> final(stash)@[i] == old(stash)@[i],
            forall|i: int|
                old(stash)@.len() <= i < final(stash)@.len() ==> {
                    let lm = (#[trigger] final(stash)@[i]).0.model();
                    let rm = final(stash)@[i].1.model();
                    &&& as_map(old(old_left)@, old(old_right)@).contains_key(lm)
                    &&& as_map(old(old_left)@, old(old_right)@)[lm] == rm
                    &&& as_map(old(old_right)@, old(old_left)@).contains_key(rm)
                    &&& as_map(old(old_right)@, old(old_left)@)[rm] == lm
                },
            forall|m: L::M|
                as_map(old(old_left)@, old(old_right)@).contains_key(m) ==> exists|i: int|
                    old(stash)@.len() <= i < final(stash)@.len()
                        && (#[trigger] final(stash)@[i]).0.model() == m,
            forall|i: int, j: int|
                old(stash)@.len() <= i < final(stash)@.len() && old(stash)@.len() <= j
                    < final(stash)@.len() && i != j ==> (#[trigger] final(stash)@[i]).0.model()
                    != (#[trigger] final(stash)@[j]).0.model() && final(stash)@[i].1.model()
                    != final(stash)@[j].1.model(),
    {
        let ghost ol0 = old(old_left)@;
        let ghost or0 = old(old_right)@;
        let ghost base = old(stash)@.len() as int;
        let ghost m0 = as_map(ol0, or0);
        let ghost r0 = as_map(or0, ol0);
        let n = old_left.len();
        let mut i: usize = 0;
        while i < n
            invariant
                i <= n,
                old_left@.len() == n,
                old_right@.len() == n,
                distinct_models(old_left@),
                distinct_models(old_right@),
                cross_wf(old_left@, old_right@),
                cross_wf(old_right@, old_left@),
                stash@.len() >= base,
                forall|k: int| 0 <= k < base ==> stash@[k] == old(stash)@[k],
                forall|j: int| 0 <= j < i ==> !occ(old_left@, j),
                forall|k: int|
                    base <= k < stash@.len() ==> {
                        let lm = (#[trigger] stash@[k]).0.model();
                        let rm = stash@[k].1.model();
                        &&& m0.contains_key(lm)
                        &&& m0[lm] == rm
                        &&& r0.contains_key(rm)
                        &&& r0[rm] == lm
                        &&& !as_map(old_left@, old_right@).contains_key(lm)
                    },
                forall|m: L::M|
                    m0.contains_key(m) ==> as_map(old_left@, old_right@).contains_key(m)
                        || exists|k: int|
                        base <= k < stash@.len() && (#[trigger] stash@[k]).0.model() == m,
                forall|m: L::M|
                    #[trigger] as_map(old_left@, old_right@).contains_key(m) ==> m0.contains_key(m)
                        && as_map(old_left@, old_right@)[m] == m0[m],
                forall|m: R::M|
                    #[trigger] as_map(old_right@, old_left@).contains_key(m) ==> r0.contains_key(m)
                        && as_map(old_right@, old_left@)[m] == r0[m],
                forall|k: int, k2: int|
                    base <= k < stash@.len() && base <= k2 < stash@.len() && k != k2
                        ==> (#[trigger] stash@[k]).0.model() != (#[trigger] stash@[k2]).0.model()
                        && stash@[k].1.model() != stash@[k2].1.model(),
            decreases n - i,
        {
            let ghost ol_pre = old_left@;
            let ghost or_pre = old_right@;
            let taken = old_left[i].data.take();
            match taken {
                Some(t) => {
                    let (l, p, _d) = t;
                    proof {
                        assert(occ(ol_pre, i as int));
                        assert(proper_partner(ol_pre, or_pre, i as int));
                    }
                    let tv = old_right[p].data.take();
                    match tv {
                        Some(t2) => {
                            let (r, _b, _d2) = t2;
                            proof {
                                let ol1 = old_left@;
                                let or1 = old_right@;
                                lemma_as_map_after_remove(
                                    ol_pre,
                                    or_pre,
                                    ol1,
                                    or1,
                                    i as int,
                                    p as int,
                                );
                                lemma_as_map_after_remove(
                                    or_pre,
                                    ol_pre,
                                    or1,
                                    ol1,
                                    p as int,
                                    i as int,
                                );
                                assert forall|j: int|
                                    0 <= j < n as int && #[trigger] occ(ol1, j) implies proper_partner(
                                    ol1,
                                    or1,
                                    j,
                                ) by {
                                    assert(j != i as int);
                                    assert(occ(ol_pre, j));
                                    assert(proper_partner(ol_pre, or_pre, j));
                                    if pair_at(ol_pre, j) == p as int {
                                        assert(pair_at(or_pre, p as int) == j);
                                        assert(pair_at(or_pre, p as int) == i as int);
                                        assert(false);
                                    }
                                }
                                assert forall|j: int|
                                    0 <= j < n as int && #[trigger] occ(or1, j) implies proper_partner(
                                    or1,
                                    ol1,
                                    j,
                                ) by {
                                    assert(j != p as int);
                                    assert(occ(or_pre, j));
                                    assert(proper_partner(or_pre, ol_pre, j));
                                    if pair_at(or_pre, j) == i as int {
                                        assert(false);
                                    }
                                }
                                assert(l.model() == key_model(ol_pre, i as int));
                                assert(r.model() == key_model(or_pre, p as int));
                                assert(distinct_models(ol1)) by {
                                    assert forall|a: int, b: int|
                                        0 <= a < ol1.len() && 0 <= b < ol1.len() && a != b && occ(
                                            ol1,
                                            a,
                                        ) && occ(ol1, b) implies #[trigger] key_model(ol1, a)
                                        != #[trigger] key_model(ol1, b) by {
                                        assert(occ(ol_pre, a) && occ(ol_pre, b));
                                        assert(key_model(ol_pre, a) != key_model(ol_pre, b));
                                    }
                                }
                                assert(distinct_models(or1)) by {
                                    assert forall|a: int, b: int|
                                        0 <= a < or1.len() && 0 <= b < or1.len() && a != b && occ(
                                            or1,
                                            a,
                                        ) && occ(or1, b) implies #[trigger] key_model(or1, a)
                                        != #[trigger] key_model(or1, b) by {
                                        assert(occ(or_pre, a) && occ(or_pre, b));
                                        assert(key_model(or_pre, a) != key_model(or_pre, b));
                                    }
                                }
                            }
                            let ghost st_pre = stash@;
                            stash.push((l, r));
                            proof {
                                let ol1 = old_left@;
                                let or1 = old_right@;
                                let lm = key_model(ol_pre, i as int);
                                assert(stash@ == st_pre.push((l, r)));
                                assert(stash@[stash@.len() - 1] == (l, r));
                                assert forall|j: int| 0 <= j < i + 1 implies !occ(
                                    old_left@,
                                    j,
                                ) by {
                                    if j < i as int {
                                        assert(ol1[j].data == ol_pre[j].data);
                                        assert(!occ(ol_pre, j));
                                    }
                                }
                                assert forall|m: L::M| m0.contains_key(m) implies as_map(
                                    ol1,
                                    or1,
                                ).contains_key(m) || exists|k: int|
                                    base <= k < stash@.len() && (#[trigger] stash@[k]).0.model()
                                        == m by {
                                    if as_map(ol_pre, or_pre).contains_key(m) {
                                        if m == lm {
                                            assert((#[trigger] stash@[stash@.len() - 1]).0.model()
                                                == m);
                                        } else {
                                            assert(as_map(ol1, or1).contains_key(m));
                                        }
                                    } else {
                                        let k = choose|k: int|
                                            base <= k < st_pre.len() && (#[trigger] st_pre[k]).0.model()
                                                == m;
                                        assert(stash@[k] == st_pre[k]);
                                        assert((#[trigger] stash@[k]).0.model() == m);
                                    }
                                }
                            }
                        },
                        None => {
                            proof {
                                assert(false);
                            }
                        },
                    }
                },
                None => {
                    proof {
                        assert(old_left@ =~= ol_pre);
                    }
                },
            }
            i = i + 1;
        }
        proof {
            assert forall|m: L::M| !(#[trigger] as_map(old_left@, old_right@).contains_key(m)) by {
                if has_model(old_left@, m) {
                    let j = choose|j: int|
                        0 <= j < old_left@.len() && #[trigger] occ(old_left@, j) && key_model(
                            old_left@,
                            j,
                        ) == m;
                    assert(!occ(old_left@, j));
                }
            }
        }
    }


    /// Replaces the arrays by empty ones twice the size, moving every
    /// stored pair into the stash.
    #[verifier::rlimit(100)]
    #[verifier::spinoff_prover]
    fn grow_arrays(&mut self, stash: &mut Vec<(L, R)>)
        requires
            old(self).wf(),
            old(self).left_data@.len() <= MAX_ARRAY_LEN / RESIZE_GROWTH_FACTOR,
        ensures
            final(self).wf(),
            final(self)@ == Map::<L::M, R::M>::empty(),
            final(self).rview() == Map::<R::M, L::M>::empty(),
            final(self).left_data@.len() == RESIZE_GROWTH_FACTOR * old(self).left_data@.len(),
            final(self).left_seed == old(self).left_seed,
            final(self).right_seed == old(self).right_seed,
            final(stash)@.len() >= old(stash)@.len(),
            forall|i: int| 0 <= i < old(stash)@.len() ==> final(stash)@[i] == old(stash)@[i],
            forall|i: int|
                old(stash)@.len() <= i < final(stash)@.len() ==> {
                    let lm = (#[trigger] final(stash)@[i]).0.model();
                    let rm = final(stash)@[i].1.model();
                    &&& old(self)@.contains_key(lm)
                    &&& old(self)@[lm] == rm
                    &&& old(self).rview().contains_key(rm)
                    &&& old(self).rview()[rm] == lm
                },
            forall|m: L::M|
                old(self)@.contains_key(m) ==> exists|i: int|
                    old(stash)@.len() <= i < final(stash)@.len()
                        && (#[trigger] final(stash)@[i]).0.model() == m,
            forall|m: R::M|
                old(self).rview().contains_key(m) ==> exists|i: int|
                    old(stash)@.len() <= i < final(stash)@.len()
                        && (#[trigger] final(stash)@[i]).1.model() == m,
            forall|i: int, j: int|
                old(stash)@.len() <= i < final(stash)@.len() && old(stash)@.len() <= j
                    < final(stash)@.len() && i != j ==> (#[trigger] final(stash)@[i]).0.model()
                    != (#[trigger] final(stash)@[j]).0.model() && final(stash)@[i].1.model()
                    != final(stash)@[j].1.model(),
    {
        let n = self.left_data.len();
        let new_len = n * RESIZE_GROWTH_FACTOR;
        let mut old_l: Vec<Bucket<L, usize, B>> = Bucket::empty_vec(new_len);
        let mut old_r: Vec<Bucket<R, usize, B>> = Bucket::empty_vec(new_len);
        core::mem::swap(&mut self.left_data, &mut old_l);
        core::mem::swap(&mut self.right_data, &mut old_r);
        self.len = 0;
        proof {
            let ls = self.left_data@;
            let rs = self.right_data@;
            crate::model::lemma_occ_count_empty(ls);
            crate::model::lemma_occ_count_empty(rs);
            assert(one_sided_wf(ls, self.left_seed));
            assert(one_sided_wf(rs, self.right_seed));
            assert(self@ =~= Map::<L::M, R::M>::empty());
            assert(self.rview() =~= Map::<R::M, L::M>::empty());
            lemma_as_map_inverse(old_l@, old_r@);
            lemma_as_map_inverse(old_r@, old_l@);
        }
        let ghost olp = old_l@;
        let ghost orp = old_r@;
        let ghost ov = as_map(olp, orp);
        let ghost orv = as_map(orp, olp);
        let ghost base = old(stash)@.len() as int;
        Self::drain_into(&mut old_l, &mut old_r, stash);
        proof {
            assert forall|m: R::M| orv.contains_key(m) implies exists|i: int|
                base <= i < stash@.len() && (#[trigger] stash@[i]).1.model() == m by {
                assert(has_model(orp, m));
                let lm2 = orv[m];
                assert(has_model(olp, lm2) && ov[lm2] == m);
                assert(ov.contains_key(lm2));
                let i = choose|i: int|
                    base <= i < stash@.len() && (#[trigger] stash@[i]).0.model() == lm2;
                assert((#[trigger] stash@[i]).1.model() == m);
            }
        }
    }



    /// Evicts whatever pair either key belongs to, returning the evicted
    /// counterparts.
    #[verifier::rlimit(100)]
    #[verifier::spinoff_prover]
    fn evict_existing(&mut self, left: &L, right: &R) -> (r: (Option<R>, Option<L>))
        requires
            old(self).wf(),
        ensures
            final(self).wf(),
            (r.0 is Some <==> old(self)@.contains_key(left.model())),
            (r.0 is Some ==> r.0.unwrap().model() == old(self)@[left.model()]),
            (r.1 is Some <==> old(self).rview().contains_key(right.model())),
            (r.1 is Some ==> r.1.unwrap().model() == old(self).rview()[right.model()]),
            final(self)@ == map_after_insert(
                old(self)@,
                old(self).rview(),
                left.model(),
                right.model(),
            ).remove(left.model()),
            final(self).rview() == map_after_insert(
                old(self).rview(),
                old(self)@,
                right.model(),
                left.model(),
            ).remove(right.model()),
            final(self).left_seed == old(self).left_seed,
            final(self).right_seed == old(self).right_seed,
            final(self).left_data@.len() == old(self).left_data@.len(),
    {
        let ghost m0 = old(self)@;
        let ghost rv0 = old(self).rview();
        let ghost lm = left.model();
        let ghost rm = right.model();
        let ghost tv = map_after_insert(m0, rv0, lm, rm);
        let ghost tr = map_after_insert(rv0, m0, rm, lm);
        proof {
            lemma_as_map_inverse(old(self).left_data@, old(self).right_data@);
            lemma_as_map_inverse(old(self).right_data@, old(self).left_data@);
        }
        let removed_left = Self::remove(
            left,
            &mut self.left_data,
            &mut self.right_data,
            self.left_seed,
            self.right_seed,
            &mut self.len,
        );
        let out: (Option<R>, Option<L>) = match removed_left {
            Some((old_l, old_r)) => {
                if old_r.key_eq(right) {
                    proof {
                        lemma_evict_same_pair(m0, rv0, lm, rm);
                    }
                    (Some(old_r), Some(old_l))
                } else {
                    let ghost b0 = old_r.model();
                    let ghost v1 = self@;
                    let ghost rv1 = self.rview();
                    match Self::remove(
                        right,
                        &mut self.right_data,
                        &mut self.left_data,
                        self.right_seed,
                        self.left_seed,
                        &mut self.len,
                    ) {
                        Some((_rk, old_l2)) => {
                            proof {
                                let a0 = old_l2.model();
                                assert(rv1 == rv0.remove(b0));
                                assert(rv1.contains_key(rm) && rv1[rm] == a0);
                                assert(rv0.contains_key(rm) && rv0[rm] == a0);
                                lemma_evict_both(m0, rv0, lm, rm, b0, a0);
                            }
                            (Some(old_r), Some(old_l2))
                        },
                        None => {
                            proof {
                                assert(!rv1.contains_key(rm));
                                assert(!rv0.contains_key(rm));
                                lemma_evict_left_only(m0, rv0, lm, rm, b0);
                            }
                            (Some(old_r), None)
                        },
                    }
                }
            },
            None => {
                match Self::remove(
                    right,
                    &mut self.right_data,
                    &mut self.left_data,
                    self.right_seed,
                    self.left_seed,
                    &mut self.len,
                ) {
                    Some((_rk, old_l2)) => {
                        proof {
                            let a0 = old_l2.model();
                            lemma_evict_right_only(m0, rv0, lm, rm, a0);
                        }
                        (None, Some(old_l2))
                    },
                    None => {
                        proof {
                            lemma_evict_right_only(m0, rv0, lm, rm, lm);
                        }
                        (None, None)
                    },
                }
            },
        };
        out
    }

    /// Pushes the pending pair onto the stash, replaces the arrays by
    /// empty ones twice the size, and moves every stored pair onto the
    /// stash as well, keeping the stash's bookkeeping intact.
    #[verifier::rlimit(100)]
    #[verifier::spinoff_prover]
    fn grow_and_restash(
        &mut self,
        pair: (L, R),
        stash: &mut Vec<(L, R)>,
        Ghost(tv): Ghost<Map<L::M, R::M>>,
        Ghost(tr): Ghost<Map<R::M, L::M>>,
    )
        requires
            old(self).wf(),
            old(self).left_data@.len() <= MAX_ARRAY_LEN / RESIZE_GROWTH_FACTOR,
            old(self)@.submap_of(tv),
            old(self).rview().submap_of(tr),
            tv.contains_key(pair.0.model()),
            tv[pair.0.model()] == pair.1.model(),
            tr.contains_key(pair.1.model()),
            tr[pair.1.model()] == pair.0.model(),
            !old(self)@.contains_key(pair.0.model()),
            !old(self).rview().contains_key(pair.1.model()),
            forall|k: int|
                0 <= k < old(stash)@.len() ==> {
                    let a = (#[trigger] old(stash)@[k]).0.model();
                    let b = old(stash)@[k].1.model();
                    &&& tv.contains_key(a)
                    &&& tv[a] == b
                    &&& tr.contains_key(b)
                    &&& tr[b] == a
                    &&& !old(self)@.contains_key(a)
                    &&& !old(self).rview().contains_key(b)
                },
            forall|k: int, k2: int|
                0 <= k < old(stash)@.len() && 0 <= k2 < old(stash)@.len() && k != k2
                    ==> (#[trigger] old(stash)@[k]).0.model()
                    != (#[trigger] old(stash)@[k2]).0.model() && old(stash)@[k].1.model()
                    != old(stash)@[k2].1.model(),
            forall|k: int|
                0 <= k < old(stash)@.len() ==> (#[trigger] old(stash)@[k]).0.model()
                    != pair.0.model() && old(stash)@[k].1.model() != pair.1.model(),
        ensures
            final(self).wf(),
            final(self)@.submap_of(tv),
            final(self).rview().submap_of(tr),
            final(self).left_data@.len() == RESIZE_GROWTH_FACTOR * old(self).left_data@.len(),
            final(self).spec_capacity() >= old(self).spec_capacity(),
            forall|k: int|
                0 <= k < final(stash)@.len() ==> {
                    let a = (#[trigger] final(stash)@[k]).0.model();
                    let b = final(stash)@[k].1.model();
                    &&& tv.contains_key(a)
                    &&& tv[a] == b
                    &&& tr.contains_key(b)
                    &&& tr[b] == a
                    &&& !final(self)@.contains_key(a)
                    &&& !final(self).rview().contains_key(b)
                },
            forall|k: int, k2: int|
                0 <= k < final(stash)@.len() && 0 <= k2 < final(stash)@.len() && k != k2
                    ==> (#[trigger] final(stash)@[k]).0.model()
                    != (#[trigger] final(stash)@[k2]).0.model() && final(stash)@[k].1.model()
                    != final(stash)@[k2].1.model(),
            (forall|m: L::M|
                tv.contains_key(m) ==> old(self)@.contains_key(m) || exists|k: int|
                    0 <= k < old(stash)@.push(pair).len() && (#[trigger] old(stash)@.push(
                        pair,
                    )[k]).0.model() == m) ==> (forall|m: L::M|
                tv.contains_key(m) ==> final(self)@.contains_key(m) || exists|k: int|
                    0 <= k < final(stash)@.len() && (#[trigger] final(stash)@[k]).0.model() == m),
            (forall|m: R::M|
                tr.contains_key(m) ==> old(self).rview().contains_key(m) || exists|k: int|
                    0 <= k < old(stash)@.push(pair).len() && (#[trigger] old(stash)@.push(
                        pair,
                    )[k]).1.model() == m) ==> (forall|m: R::M|
                tr.contains_key(m) ==> final(self).rview().contains_key(m) || exists|k: int|
                    0 <= k < final(stash)@.len() && (#[trigger] final(stash)@[k]).1.model() == m),
    {
        let ghost v_pre = self@;
        let ghost rv_pre = self.rview();
        let ghost st0 = old(stash)@;
        stash.push(pair);
        let ghost st_push = stash@;
        let ghost n0 = self.left_data@.len();
        let ghost cap_pre = old(self).spec_capacity();
        self.grow_arrays(stash);
        proof {
            let cap_now = self.spec_capacity();
            let n2 = self.left_data@.len();
            assert(cap_now >= cap_pre) by (nonlinear_arith)
                requires
                    cap_now == n2 * 10int / 11,
                    cap_pre == n0 * 10int / 11,
                    n2 == 2 * n0,
                    n0 >= 1,
            ;
            let nl = st_push.len() as int;
            assert forall|k: int| 0 <= k < stash@.len() implies {
                let a = (#[trigger] stash@[k]).0.model();
                let b = stash@[k].1.model();
                &&& tv.contains_key(a)
                &&& tv[a] == b
                &&& tr.contains_key(b)
                &&& tr[b] == a
                &&& !self@.contains_key(a)
                &&& !self.rview().contains_key(b)
            } by {
                if k < nl {
                    assert(stash@[k] == st_push[k]);
                    if k < nl - 1 {
                        assert(st_push[k] == st0[k]);
                    } else {
                        assert(st_push[k] == pair);
                    }
                } else {
                    assert(v_pre.contains_key((#[trigger] stash@[k]).0.model()));
                    assert(v_pre.submap_of(tv));
                    assert(rv_pre.submap_of(tr));
                }
            }
            assert forall|k: int, k2: int|
                0 <= k < stash@.len() && 0 <= k2 < stash@.len() && k != k2 implies (
            #[trigger] stash@[k]).0.model() != (#[trigger] stash@[k2]).0.model()
                && stash@[k].1.model() != stash@[k2].1.model() by {
                if k < nl && k2 < nl {
                    assert(stash@[k] == st_push[k] && stash@[k2] == st_push[k2]);
                } else if k < nl && k2 >= nl {
                    assert(stash@[k] == st_push[k]);
                    assert(!v_pre.contains_key((#[trigger] st_push[k]).0.model()));
                    assert(v_pre.contains_key((#[trigger] stash@[k2]).0.model()));
                    assert(!rv_pre.contains_key(st_push[k].1.model()));
                    assert(rv_pre.contains_key(stash@[k2].1.model()));
                } else if k >= nl && k2 < nl {
                    assert(stash@[k2] == st_push[k2]);
                    assert(!v_pre.contains_key((#[trigger] st_push[k2]).0.model()));
                    assert(v_pre.contains_key((#[trigger] stash@[k]).0.model()));
                    assert(!rv_pre.contains_key(st_push[k2].1.model()));
                    assert(rv_pre.contains_key(stash@[k].1.model()));
                }
            }
            assert(st_push == st0.push(pair));
            if forall|m: L::M|
                tv.contains_key(m) ==> v_pre.contains_key(m) || exists|k: int|
                    0 <= k < st0.push(pair).len() && (#[trigger] st0.push(pair)[k]).0.model()
                        == m {
                assert forall|m: L::M| tv.contains_key(m) implies self@.contains_key(m) || exists|k: int|
                    0 <= k < stash@.len() && (#[trigger] stash@[k]).0.model() == m by {
                    if v_pre.contains_key(m) {
                        let k = choose|k: int|
                            nl <= k < stash@.len() && (#[trigger] stash@[k]).0.model() == m;
                        assert((#[trigger] stash@[k]).0.model() == m);
                    } else {
                        let k = choose|k: int|
                            0 <= k < st0.push(pair).len() && (#[trigger] st0.push(
                                pair,
                            )[k]).0.model() == m;
                        assert(stash@[k] == st_push[k] && st_push[k] == st0.push(pair)[k]);
                        assert((#[trigger] stash@[k]).0.model() == m);
                    }
                }
            }
            if forall|m: R::M|
                tr.contains_key(m) ==> rv_pre.contains_key(m) || exists|k: int|
                    0 <= k < st0.push(pair).len() && (#[trigger] st0.push(pair)[k]).1.model()
                        == m {
                assert forall|m: R::M| tr.contains_key(m) implies self.rview().contains_key(m)
                    || exists|k: int|
                    0 <= k < stash@.len() && (#[trigger] stash@[k]).1.model() == m by {
                    if rv_pre.contains_key(m) {
                        let k = choose|k: int|
                            nl <= k < stash@.len() && (#[trigger] stash@[k]).1.model() == m;
                        assert((#[trigger] stash@[k]).1.model() == m);
                    } else {
                        let k = choose|k: int|
                            0 <= k < st0.push(pair).len() && (#[trigger] st0.push(
                                pair,
                            )[k]).1.model() == m;
                        assert(stash@[k] == st_push[k] && st_push[k] == st0.push(pair)[k]);
                        assert((#[trigger] stash@[k]).1.model() == m);
                    }
                }
            }
        }
    }

    /// Inserts an `(L, R)` pair into the map. Returned is an `(R, L)` pair
    /// of options: the value that was previously associated with the
    /// inserted left key, and likewise for the inserted right key. Any pair
    /// keyed by either side is evicted, so the relation stays one-to-one.
    ///
    /// The capacity never shrinks, and the pair is guaranteed to be stored
    /// whenever the map held fewer pairs than the neighbourhood width; only
    /// a map whose arrays can grow no further, holding at least a full
    /// neighbourhood of pairs, may leave the pair out. A key type whose
    /// hash collides endlessly could reach that state in principle; the
    /// key types shipped here cannot within addressable memory.
    #[verifier::rlimit(100)]
    #[verifier::spinoff_prover]
    pub fn insert(&mut self, left: L, right: R) -> (r: (Option<R>, Option<L>))
        requires
            old(self).wf(),
        ensures
            final(self).wf(),
            final(self).spec_capacity() >= old(self).spec_capacity(),
            (r.0 is Some <==> old(self)@.contains_key(left.model())),
            (r.0 is Some ==> r.0.unwrap().model() == old(self)@[left.model()]),
            (r.1 is Some <==> old(self).rview().contains_key(right.model())),
            (r.1 is Some ==> r.1.unwrap().model() == old(self).rview()[right.model()]),
            final(self)@.submap_of(
                map_after_insert(old(self)@, old(self).rview(), left.model(), right.model()),
            ),
            final(self).rview().submap_of(
                map_after_insert(old(self).rview(), old(self)@, right.model(), left.model()),
            ),
            (final(self)@ == map_after_insert(
                old(self)@,
                old(self).rview(),
                left.model(),
                right.model(),
            ) && final(self).rview() == map_after_insert(
                old(self).rview(),
                old(self)@,
                right.model(),
                left.model(),
            )) || (final(self).at_growth_limit() && old(self)@.dom().len() + 1
                >= B::spec_size()),
    {
        let ghost m0 = old(self)@;
        let ghost rv0 = old(self).rview();
        let ghost lm = left.model();
        let ghost rm = right.model();
        let ghost tv = map_after_insert(m0, rv0, lm, rm);
        let ghost tr = map_after_insert(rv0, m0, rm, lm);
        let ghost cap0 = old(self).spec_capacity();
        proof {
            crate::model::lemma_as_map_dom_len(old(self).left_data@, old(self).right_data@);
        }
        // evict whatever either key was paired with
        let out = self.evict_existing(&left, &right);
        proof {
            assert(self@ == tv.remove(lm));
            assert(self.rview() == tr.remove(rm));
            assert(!self@.contains_key(lm));
            assert(!self.rview().contains_key(rm));
            assert(self@.submap_of(tv));
            assert(self.rview().submap_of(tr));
            assert(tv.contains_key(lm) && tv[lm] == rm);
            assert(tr.contains_key(rm) && tr[rm] == lm);
            // the target relation holds at most one pair more than before
            let base = if rv0.contains_key(rm) {
                m0.remove(lm).remove(rv0[rm])
            } else {
                m0.remove(lm)
            };
            vstd::set_lib::lemma_len_subset(base.dom(), m0.dom());
            vstd::set::axiom_set_insert_len(base.dom(), lm);
            assert(tv.dom() =~= base.dom().insert(lm));
            assert(tv.dom().finite());
            assert(tv.dom().len() <= m0.dom().len() + 1);
        }
        // place the pair, growing the arrays as often as needed
        let mut stash: Vec<(L, R)> = Vec::new();
        stash.push((left, right));
        let ghost mut dropped: bool = false;
        proof {
            assert(stash@[0] == (left, right));
            assert forall|m: L::M| tv.contains_key(m) implies self@.contains_key(m) || exists|k: int|
                0 <= k < stash@.len() && (#[trigger] stash@[k]).0.model() == m by {
                if m == lm {
                    assert((#[trigger] stash@[0]).0.model() == m);
                } else {
                    assert(tv.remove(lm).contains_key(m));
                }
            }
            assert forall|m: R::M| tr.contains_key(m) implies self.rview().contains_key(m)
                || exists|k: int|
                0 <= k < stash@.len() && (#[trigger] stash@[k]).1.model() == m by {
                if m == rm {
                    assert((#[trigger] stash@[0]).1.model() == m);
                } else {
                    assert(tr.remove(rm).contains_key(m));
                }
            }
        }
        loop
            invariant
                self.wf(),
                self@.submap_of(tv),
                self.rview().submap_of(tr),
                self.spec_capacity() >= cap0,
                m0.dom().finite(),
                tv.dom().finite(),
                tv.dom().len() <= m0.dom().len() + 1,
                forall|k: int|
                    0 <= k < stash@.len() ==> {
                        let a = (#[trigger] stash@[k]).0.model();
                        let b = stash@[k].1.model();
                        &&& tv.contains_key(a)
                        &&& tv[a] == b
                        &&& tr.contains_key(b)
                        &&& tr[b] == a
                        &&& !self@.contains_key(a)
                        &&& !self.rview().contains_key(b)
                    },
                forall|k: int, k2: int|
                    0 <= k < stash@.len() && 0 <= k2 < stash@.len() && k != k2
                        ==> (#[trigger] stash@[k]).0.model() != (#[trigger] stash@[k2]).0.model()
                        && stash@[k].1.model() != stash@[k2].1.model(),
                !dropped ==> (forall|m: L::M|
                    tv.contains_key(m) ==> self@.contains_key(m) || exists|k: int|
                        0 <= k < stash@.len() && (#[trigger] stash@[k]).0.model() == m),
                !dropped ==> (forall|m: R::M|
                    tr.contains_key(m) ==> self.rview().contains_key(m) || exists|k: int|
                        0 <= k < stash@.len() && (#[trigger] stash@[k]).1.model() == m),
                dropped ==> self.at_growth_limit() && m0.dom().len() + 1 >= B::spec_size(),
            ensures
                self.wf(),
                self@.submap_of(tv),
                self.rview().submap_of(tr),
                self.spec_capacity() >= cap0,
                !dropped ==> (forall|m: L::M| tv.contains_key(m) ==> self@.contains_key(m)),
                !dropped ==> (forall|m: R::M|
                    tr.contains_key(m) ==> self.rview().contains_key(m)),
                dropped ==> self.at_growth_limit() && m0.dom().len() + 1 >= B::spec_size(),
            decreases MAX_ARRAY_LEN - self.left_data@.len(), stash@.len(),
        {
            let ghost st0 = stash@;
            let ghost v_pre = self@;
            let ghost rv_pre = self.rview();
            let popped = stash.pop();
            match popped {
                None => {
                    proof {
                        assert(stash@.len() == 0);
                    }
                    break ;
                },
                Some((l, r)) => {
                    proof {
                        assert(stash@ == st0.drop_last());
                        assert(st0[st0.len() - 1] == (l, r));
                    }
                    let cap = self.left_data.len();
                    let can_grow = cap <= MAX_ARRAY_LEN / RESIZE_GROWTH_FACTOR;
                    proof {
                        crate::model::lemma_occ_count_le_len(self.left_data@);
                    }
                    let advertised = (cap * MAX_LOAD_FACTOR_DENOMINATOR)
                        / MAX_LOAD_FACTOR_NUMERATOR;
                    let load_high = self.len + 1 > advertised;
                    if load_high && can_grow {
                        self.grow_and_restash((l, r), &mut stash, Ghost(tv), Ghost(tr));
                        proof {
                            assert(st0.drop_last().push((l, r)) =~= st0);
                        }
                    } else if load_high {
                        // the arrays can grow no further; the pair is left out
                        proof {
                            dropped = true;
                            Self::lemma_drop_is_bounded(
                                *self,
                                m0,
                                tv,
                                cap as int,
                                self.len as int,
                            );
                            assert forall|k: int| 0 <= k < stash@.len() implies {
                                let a = (#[trigger] stash@[k]).0.model();
                                let b = stash@[k].1.model();
                                &&& tv.contains_key(a)
                                &&& tv[a] == b
                                &&& tr.contains_key(b)
                                &&& tr[b] == a
                                &&& !self@.contains_key(a)
                                &&& !self.rview().contains_key(b)
                            } by {
                                assert(stash@[k] == st0[k]);
                            }
                        }
                    } else {
                        match Self::insert_pair(
                            l,
                            r,
                            &mut self.left_data,
                            &mut self.right_data,
                            self.left_seed,
                            self.right_seed,
                            &mut self.len,
                        ) {
                            Ok(u) => {
                                proof {
                                    assert(self@ == v_pre.insert(l.model(), r.model()));
                                    assert(self.len * MAX_LOAD_FACTOR_NUMERATOR as int
                                        <= self.left_data@.len()
                                        * MAX_LOAD_FACTOR_DENOMINATOR as int) by (nonlinear_arith)
                                        requires
                                            self.len <= (cap as int * 10) / 11,
                                            self.left_data@.len() == cap as int,
                                            cap >= 1,
                                    ;
                                    assert(st0.last() == (l, r));
                                    assert(tv.contains_key(l.model()) && tv[l.model()]
                                        == r.model());
                                    assert(tr.contains_key(r.model()) && tr[r.model()]
                                        == l.model());
                                    assert(self@.submap_of(tv)) by {
                                        assert forall|m: L::M|
                                            #[trigger] self@.contains_key(m) implies tv.contains_key(
                                            m,
                                        ) && tv[m] == self@[m] by {
                                            if m != l.model() {
                                                assert(v_pre.contains_key(m));
                                            }
                                        }
                                    }
                                    assert(self.rview().submap_of(tr)) by {
                                        assert forall|m: R::M|
                                            #[trigger] self.rview().contains_key(m) implies tr.contains_key(
                                            m,
                                        ) && tr[m] == self.rview()[m] by {
                                            if m != r.model() {
                                                assert(rv_pre.contains_key(m));
                                            }
                                        }
                                    }
                                    Self::lemma_stash_after_place(
                                        tv,
                                        tr,
                                        st0,
                                        stash@,
                                        v_pre,
                                        rv_pre,
                                        self@,
                                        self.rview(),
                                    );
                                }
                            },
                            Err(pair) => {
                                if can_grow {
                                    self.grow_and_restash(pair, &mut stash, Ghost(tv), Ghost(tr));
                                    proof {
                                        assert(st0.drop_last().push(pair) =~= st0);
                                    }
                                } else {
                                    proof {
                                        dropped = true;
                                        Self::lemma_drop_is_bounded(
                                            *self,
                                            m0,
                                            tv,
                                            cap as int,
                                            self.len as int,
                                        );
                                        assert forall|k: int| 0 <= k < stash@.len() implies {
                                            let a = (#[trigger] stash@[k]).0.model();
                                            let b = stash@[k].1.model();
                                            &&& tv.contains_key(a)
                                            &&& tv[a] == b
                                            &&& tr.contains_key(b)
                                            &&& tr[b] == a
                                            &&& !self@.contains_key(a)
                                            &&& !self.rview().contains_key(b)
                                        } by {
                                            assert(stash@[k] == st0[k]);
                                        }
                                    }
                                }
                            },
                        }
                    }
                },
            }
        }
        proof {
            if !dropped {
                assert forall|m: L::M| #[trigger] tv.contains_key(m) implies self@.contains_key(
                    m,
                ) by {}
                assert(self@ =~= tv);
                assert forall|m: R::M| #[trigger] tr.contains_key(m) implies self.rview().contains_key(
                    m,
                ) by {}
                assert(self.rview() =~= tr);
            }
        }
        out
    }


    /// After one pending pair is placed, the stash bookkeeping carries
    /// over: the remaining entries still describe absent target pairs, and
    /// coverage of the target is kept.
    #[verifier::rlimit(100)]
    #[verifier::spinoff_prover]
    proof fn lemma_stash_after_place(
        tv: Map<L::M, R::M>,
        tr: Map<R::M, L::M>,
        st0: Seq<(L, R)>,
        st1: Seq<(L, R)>,
        v_pre: Map<L::M, R::M>,
        rv_pre: Map<R::M, L::M>,
        v_new: Map<L::M, R::M>,
        rv_new: Map<R::M, L::M>,
    )
        requires
            st0.len() >= 1,
            st1 == st0.drop_last(),
            v_new == v_pre.insert(st0.last().0.model(), st0.last().1.model()),
            rv_new == rv_pre.insert(st0.last().1.model(), st0.last().0.model()),
            forall|k: int|
                0 <= k < st0.len() ==> {
                    let a = (#[trigger] st0[k]).0.model();
                    let b = st0[k].1.model();
                    &&& tv.contains_key(a)
                    &&& tv[a] == b
                    &&& tr.contains_key(b)
                    &&& tr[b] == a
                    &&& !v_pre.contains_key(a)
                    &&& !rv_pre.contains_key(b)
                },
            forall|k: int, k2: int|
                0 <= k < st0.len() && 0 <= k2 < st0.len() && k != k2
                    ==> (#[trigger] st0[k]).0.model() != (#[trigger] st0[k2]).0.model()
                    && st0[k].1.model() != st0[k2].1.model(),
        ensures
            forall|k: int|
                0 <= k < st1.len() ==> {
                    let a = (#[trigger] st1[k]).0.model();
                    let b = st1[k].1.model();
                    &&& tv.contains_key(a)
                    &&& tv[a] == b
                    &&& tr.contains_key(b)
                    &&& tr[b] == a
                    &&& !v_new.contains_key(a)
                    &&& !rv_new.contains_key(b)
                },
            forall|k: int, k2: int|
                0 <= k < st1.len() && 0 <= k2 < st1.len() && k != k2
                    ==> (#[trigger] st1[k]).0.model() != (#[trigger] st1[k2]).0.model()
                    && st1[k].1.model() != st1[k2].1.model(),
            (forall|m: L::M|
                tv.contains_key(m) ==> v_pre.contains_key(m) || exists|k: int|
                    0 <= k < st0.len() && (#[trigger] st0[k]).0.model() == m) ==> (forall|m: L::M|
                tv.contains_key(m) ==> v_new.contains_key(m) || exists|k: int|
                    0 <= k < st1.len() && (#[trigger] st1[k]).0.model() == m),
            (forall|m: R::M|
                tr.contains_key(m) ==> rv_pre.contains_key(m) || exists|k: int|
                    0 <= k < st0.len() && (#[trigger] st0[k]).1.model() == m) ==> (forall|m: R::M|
                tr.contains_key(m) ==> rv_new.contains_key(m) || exists|k: int|
                    0 <= k < st1.len() && (#[trigger] st1[k]).1.model() == m),
    {
        let last = st0.len() - 1;
        let a_p = st0[last].0.model();
        let b_p = st0[last].1.model();
        assert forall|k: int| 0 <= k < st1.len() implies {
            let a = (#[trigger] st1[k]).0.model();
            let b = st1[k].1.model();
            &&& tv.contains_key(a)
            &&& tv[a] == b
            &&& tr.contains_key(b)
            &&& tr[b] == a
            &&& !v_new.contains_key(a)
            &&& !rv_new.contains_key(b)
        } by {
            assert(st1[k] == st0[k]);
            assert((#[trigger] st0[k]).0.model() != (#[trigger] st0[last]).0.model());
            assert(st0[k].1.model() != st0[last].1.model());
        }
        if forall|m: L::M|
            tv.contains_key(m) ==> v_pre.contains_key(m) || exists|k: int|
                0 <= k < st0.len() && (#[trigger] st0[k]).0.model() == m {
            assert forall|m: L::M| tv.contains_key(m) implies v_new.contains_key(m) || exists|k: int|
                0 <= k < st1.len() && (#[trigger] st1[k]).0.model() == m by {
                if v_pre.contains_key(m) || m == a_p {
                    assert(v_new.contains_key(m));
                } else {
                    let k = choose|k: int|
                        0 <= k < st0.len() && (#[trigger] st0[k]).0.model() == m;
                    assert(k != last);
                    assert((#[trigger] st1[k]).0.model() == m);
                }
            }
        }
        if forall|m: R::M|
            tr.contains_key(m) ==> rv_pre.contains_key(m) || exists|k: int|
                0 <= k < st0.len() && (#[trigger] st0[k]).1.model() == m {
            assert forall|m: R::M| tr.contains_key(m) implies rv_new.contains_key(m) || exists|k: int|
                0 <= k < st1.len() && (#[trigger] st1[k]).1.model() == m by {
                if rv_pre.contains_key(m) || m == b_p {
                    assert(rv_new.contains_key(m));
                } else {
                    let k = choose|k: int|
                        0 <= k < st0.len() && (#[trigger] st0[k]).1.model() == m;
                    assert(k != last);
                    assert((#[trigger] st1[k]).1.model() == m);
                }
            }
        }
    }

    /// A pair can only be left out by a map whose arrays can grow no
    /// further and which already held at least a neighbourhood's worth of
    /// pairs before the insert began.
    #[verifier::rlimit(100)]
    #[verifier::spinoff_prover]
    proof fn lemma_drop_is_bounded(
        cur: Self,
        m0: Map<L::M, R::M>,
        tv: Map<L::M, R::M>,
        cap: int,
        cur_len: int,
    )
        requires
            cur.wf(),
            cur@.submap_of(tv),
            m0.dom().finite(),
            tv.dom().finite(),
            tv.dom().len() <= m0.dom().len() + 1,
            cap == cur.left_data@.len(),
            cur_len == cur.len as int,
            cap > MAX_ARRAY_LEN as int / RESIZE_GROWTH_FACTOR as int,
            cur_len + 1 > (cap * MAX_LOAD_FACTOR_DENOMINATOR as int)
                / MAX_LOAD_FACTOR_NUMERATOR as int || cur_len >= B::spec_size() || cur_len == cap,
        ensures
            cur.at_growth_limit(),
            m0.dom().len() + 1 >= B::spec_size(),
    {
        B::size_properties();
        let w = B::spec_size() as int;
        assert(cap >= MAX_ARRAY_LEN as int / 2);
        assert(MAX_ARRAY_LEN as int / 2 >= 64) by (nonlinear_arith)
            requires
                MAX_ARRAY_LEN == usize::MAX / 11,
                usize::MAX >= 0xFFFF_FFFF,
        ;
        assert(cur_len >= w) by {
            if cur_len + 1 > (cap * 10) / 11 {
                assert((cap * 10) / 11 >= cap / 2) by (nonlinear_arith)
                    requires
                        cap >= 1,
                ;
                assert(cap / 2 >= 64) by (nonlinear_arith)
                    requires
                        cap >= MAX_ARRAY_LEN as int / 2,
                        MAX_ARRAY_LEN as int / 2 >= 64,
                ;
            }
        }
        crate::model::lemma_as_map_dom_len(cur.left_data@, cur.right_data@);
        vstd::set_lib::lemma_len_subset(cur@.dom(), tv.dom());
    }
    /// An iterator visiting all pairs in an arbitrary order, borrowing the
    /// map. The pairs it can reach are exactly the stored relation.
    pub fn iter<'a>(&'a self) -> (it: Iter<'a, L, R, B>)
        requires
            self.wf(),
        ensures
            it.wf(),
            it.spec_index() == 0,
            as_map(it.spec_left(), it.spec_right()) == self@,
            as_map(it.spec_right(), it.spec_left()) == self.rview(),
    {
        Iter::new(&self.left_data, &self.right_data)
    }

    /// An owning iterator that consumes the map and takes each stored pair
    /// out exactly once.
    pub fn into_iter(self) -> (it: IntoIter<L, R, B>)
        requires
            self.wf(),
        ensures
            it.wf(),
            it.remaining() == self@,
            it.remaining_rev() == self.rview(),
    {
        let BiMap { left_data, right_data, .. } = self;
        IntoIter::new(left_data, right_data)
    }

    /// Gets a key from the left of the map, returning the right value that
    /// is associated with it, if it exists.
    pub fn get_left<'a>(&'a self, left: &L) -> (r: Option<&'a R>)
        requires
            self.wf(),
        ensures
            match r {
                Some(v) => self@.contains_key(left.model()) && v.model() == self@[left.model()],
                None => !self@.contains_key(left.model()),
            },
    {
        Self::get(left, &self.left_data, &self.right_data, self.left_seed)
    }

    /// Gets a key from the right of the map, returning the left value that
    /// is associated with it, if it exists.
    pub fn get_right<'a>(&'a self, right: &R) -> (r: Option<&'a L>)
        requires
            self.wf(),
        ensures
            match r {
                Some(v) => self.rview().contains_key(right.model()) && v.model() == self.rview()[
                    right.model()],
                None => !self.rview().contains_key(right.model()),
            },
    {
        Self::get(right, &self.right_data, &self.left_data, self.right_seed)
    }

    /// Removes a key from the left of the map, returning the right value
    /// that was associated with it, if it existed. Both sides of the pair
    /// are removed.
    pub fn remove_left(&mut self, left: &L) -> (r: Option<R>)
        requires
            old(self).wf(),
        ensures
            final(self).wf(),
            final(self).spec_capacity() == old(self).spec_capacity(),
            match r {
                Some(v) => {
                    &&& old(self)@.contains_key(left.model())
                    &&& v.model() == old(self)@[left.model()]
                    &&& old(self).rview().contains_key(v.model())
                    &&& old(self).rview()[v.model()] == left.model()
                    &&& final(self)@ == old(self)@.remove(left.model())
                    &&& final(self).rview() == old(self).rview().remove(v.model())
                },
                None => {
                    &&& !old(self)@.contains_key(left.model())
                    &&& final(self)@ == old(self)@
                    &&& final(self).rview() == old(self).rview()
                },
            },
    {
        proof {
            lemma_as_map_inverse(old(self).left_data@, old(self).right_data@);
        }
        let r = Self::remove(
            left,
            &mut self.left_data,
            &mut self.right_data,
            self.left_seed,
            self.right_seed,
            &mut self.len,
        );
        match r {
            Some((_key, value)) => Some(value),
            None => None,
        }
    }

    /// Removes a key from the right of the map, returning the left value
    /// that was associated with it, if it existed. Both sides of the pair
    /// are removed.
    pub fn remove_right(&mut self, right: &R) -> (r: Option<L>)
        requires
            old(self).wf(),
        ensures
            final(self).wf(),
            final(self).spec_capacity() == old(self).spec_capacity(),
            match r {
                Some(v) => {
                    &&& old(self).rview().contains_key(right.model())
                    &&& v.model() == old(self).rview()[right.model()]
                    &&& old(self)@.contains_key(v.model())
                    &&& old(self)@[v.model()] == right.model()
                    &&& final(self).rview() == old(self).rview().remove(right.model())
                    &&& final(self)@ == old(self)@.remove(v.model())
                },
                None => {
                    &&& !old(self).rview().contains_key(right.model())
                    &&& final(self)@ == old(self)@
                    &&& final(self).rview() == old(self).rview()
                },
            },
    {
        proof {
            lemma_as_map_inverse(old(self).right_data@, old(self).left_data@);
        }
        let r = Self::remove(
            right,
            &mut self.right_data,
            &mut self.left_data,
            self.right_seed,
            self.left_seed,
            &mut self.len,
        );
        match r {
            Some((_key, value)) => Some(value),
            None => None,
        }
    }
}

} // verus!