use crate::bitfield::{BitField, DefaultBitField};
use crate::bucket::Bucket;
use crate::keys::MapKey;
use crate::model::as_map;
use crate::{BiMap, DEFAULT_HASH_MAP_SIZE, MAX_ARRAY_LEN, MAX_REQUESTED_CAPACITY};
use core::marker::PhantomData;
use vstd::prelude::*;

verus! {

/// The array length provisioned for a requested capacity: the larger of
/// the request and the default, scaled up by the maximum load factor and
/// rounded upward.
pub open spec fn provisioned_len(requested: int) -> int {
    let m = if requested > DEFAULT_HASH_MAP_SIZE as int {
        requested
    } else {
        DEFAULT_HASH_MAP_SIZE as int
    };
    (m * 11 + 9) / 10
}

/// A builder for the bimap, holding the parameters used to tune it: the
/// initial capacity, one hash seed per side, and the bit-field width used
/// for neighbourhoods.
pub struct BiMapBuilder<B = DefaultBitField> {
    capacity: usize,
    left_seed: u64,
    right_seed: u64,
    bit_field: PhantomData<B>,
}

impl BiMapBuilder<DefaultBitField> {
    /// Creates a new builder, ready to be configured.
    pub fn new() -> (b: Self)
        ensures
            b.spec_requested() == DEFAULT_HASH_MAP_SIZE,
    {
        BiMapBuilder {
            capacity: DEFAULT_HASH_MAP_SIZE,
            left_seed: 0,
            right_seed: 0,
            bit_field: PhantomData,
        }
    }
}

impl<B: BitField> BiMapBuilder<B> {
    /// The capacity this builder will request.
    pub closed spec fn spec_requested(&self) -> usize {
        self.capacity
    }

    /// Sets the initial capacity of the bimap: at least this many pairs fit
    /// before the map must be resized for reasons of load alone.
    pub fn capacity(self, capacity: usize) -> (b: Self)
        ensures
            b.spec_requested() == capacity,
    {
        BiMapBuilder { capacity, ..self }
    }

    /// Sets the seed used to hash left values. Two maps built with the same
    /// seeds lay their pairs out identically.
    pub fn left_hasher(self, seed: u64) -> (b: Self)
        ensures
            b.spec_requested() == self.spec_requested(),
    {
        BiMapBuilder { left_seed: seed, ..self }
    }

    /// Sets the seed used to hash right values.
    pub fn right_hasher(self, seed: u64) -> (b: Self)
        ensures
            b.spec_requested() == self.spec_requested(),
    {
        BiMapBuilder { right_seed: seed, ..self }
    }

    /// Selects the unsigned integer type whose bits form a neighbourhood:
    /// the number of bits bounds how far a key may sit from its ideal slot.
    pub fn bitfield<B2: BitField>(self) -> (b: BiMapBuilder<B2>)
        ensures
            b.spec_requested() == self.spec_requested(),
    {
        BiMapBuilder {
            capacity: self.capacity,
            left_seed: self.left_seed,
            right_seed: self.right_seed,
            bit_field: PhantomData,
        }
    }

    /// Takes a completely configured builder and creates an empty `BiMap`
    /// with room for at least the requested number of pairs.
    pub fn finish<L: MapKey, R: MapKey>(self) -> (m: BiMap<L, R, B>)
        requires
            self.spec_requested() <= MAX_REQUESTED_CAPACITY,
        ensures
            m.wf(),
            m@ == Map::<L::M, R::M>::empty(),
            m.rview() == Map::<R::M, L::M>::empty(),
            m.spec_capacity() >= self.spec_requested(),
            m.spec_capacity() == provisioned_len(self.spec_requested() as int) * 10 / 11,
    {
        let requested = if self.capacity > DEFAULT_HASH_MAP_SIZE {
            self.capacity
        } else {
            DEFAULT_HASH_MAP_SIZE
        };
        proof {
            assert(DEFAULT_HASH_MAP_SIZE <= MAX_REQUESTED_CAPACITY);
            assert(requested * 11 + 9 <= usize::MAX) by (nonlinear_arith)
                requires
                    requested <= usize::MAX / 13,
            ;
        }
        let array_len = (requested * 11 + 9) / 10;
        proof {
            assert(array_len >= 1);
            assert(array_len <= MAX_ARRAY_LEN) by (nonlinear_arith)
                requires
                    array_len == (requested * 11 + 9) / 10,
                    requested <= usize::MAX / 13,
                    MAX_ARRAY_LEN == usize::MAX / 11,
            ;
        }
        let left_data: Vec<Bucket<L, usize, B>> = Bucket::empty_vec(array_len);
        let right_data: Vec<Bucket<R, usize, B>> = Bucket::empty_vec(array_len);
        let ghost ls = left_data@;
        let ghost rs = right_data@;
        proof {
            crate::model::lemma_occ_count_empty(ls);
            crate::model::lemma_occ_count_empty(rs);
        }
        let m = BiMap::assemble(left_data, right_data, self.left_seed, self.right_seed, 0);
        proof {
            assert forall|m2: L::M| !crate::model::has_model(ls, m2) by {}
            assert forall|m2: R::M| !crate::model::has_model(rs, m2) by {}
            assert(as_map(ls, rs) =~= Map::<L::M, R::M>::empty());
            assert(as_map(rs, ls) =~= Map::<R::M, L::M>::empty());
            assert(m.spec_capacity() >= self.spec_requested()) by (nonlinear_arith)
                requires
                    m.spec_capacity() == (array_len * 10) / 11,
                    array_len == (requested * 11 + 9) / 10,
                    requested >= self.spec_requested(),
                    requested * 11 + 9 <= usize::MAX,
            ;
        }
        m
    }
}

} // verus!
