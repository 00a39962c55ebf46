use vstd::prelude::*;

verus! {

/// Helper trait giving the number of bits in an unsigned integer type.
pub trait BitSized {
    /// The number of bits, as a specification-level constant.
    spec fn spec_size() -> usize;

    /// Returns how many bits are in the type.
    fn size() -> (n: usize)
        ensures
            n == Self::spec_size(),
    ;
}

/// A bit field for use in hashmap buckets: a fixed-width vector of bits
/// recording which nearby slots belong to a bucket's neighbourhood.
pub trait BitField: BitSized + Copy + Sized {
    /// Whether bit `i` of this field is set; false beyond the width.
    spec fn bit(self, i: usize) -> bool;

    /// The width is positive and small enough for offsets to fit in a `usize`.
    proof fn size_properties()
        ensures
            0 < Self::spec_size() <= 64,
    ;

    /// A field that is all zeroes, except for a single one at the given index.
    fn one_at(index: usize) -> (r: Self)
        requires
            index < Self::spec_size(),
        ensures
            forall|j: usize| j < Self::spec_size() ==> (r.bit(j) <==> j == index),
    ;

    /// A field that is all ones, except for a single zero at the given index.
    fn zero_at(index: usize) -> (r: Self)
        requires
            index < Self::spec_size(),
        ensures
            forall|j: usize| j < Self::spec_size() ==> (r.bit(j) <==> j != index),
    ;

    /// The bitwise intersection of two fields.
    fn intersect(self, other: Self) -> (r: Self)
        ensures
            forall|j: usize| j < Self::spec_size() ==> (r.bit(j) <==> self.bit(j) && other.bit(j)),
    ;

    /// The bitwise union of two fields.
    fn union_with(self, other: Self) -> (r: Self)
        ensures
            forall|j: usize| j < Self::spec_size() ==> (r.bit(j) <==> self.bit(j) || other.bit(j)),
    ;

    /// Reads a single bit.
    fn test(self, index: usize) -> (b: bool)
        requires
            index < Self::spec_size(),
        ensures
            b == self.bit(index),
    ;

    /// Is the bit field currently full?
    fn full(self) -> (b: bool)
        ensures
            b == (forall|j: usize| j < Self::spec_size() ==> self.bit(j)),
    ;

    /// An iterator over the indices of set bits, least significant first.
    fn iter(&self) -> (it: BitFieldIterator<Self>)
        ensures
            it.spec_field() == *self,
            it.spec_index() == 0,
    ;
}

/// The bit-field type used when none is chosen explicitly.
pub type DefaultBitField = u32;

/// Iterates through a bit field, returning the indices that hold ones, in
/// order from least significant to most significant.
pub struct BitFieldIterator<T> {
    field: T,
    index: usize,
}

impl<T> BitFieldIterator<T> {
    /// The field being walked.
    pub closed spec fn spec_field(self) -> T {
        self.field
    }

    /// The next index to be examined.
    pub closed spec fn spec_index(self) -> usize {
        self.index
    }

    /// Creates an iterator positioned at the least significant bit.
    pub fn new(field: T) -> (it: Self)
        ensures
            it.spec_field() == field,
            it.spec_index() == 0,
    {
        BitFieldIterator { field, index: 0 }
    }

}

impl<T: BitField> BitFieldIterator<T> {
    /// Returns the index of the next set bit, if one remains.
    pub fn next(&mut self) -> (r: Option<usize>)
        ensures
            final(self).spec_field() == old(self).spec_field(),
            match r {
                Some(j) => {
                    &&& old(self).spec_index() <= j < T::spec_size()
                    &&& old(self).spec_field().bit(j)
                    &&& forall|k: usize|
                        old(self).spec_index() <= k < j ==> !old(self).spec_field().bit(k)
                    &&& final(self).spec_index() == j + 1
                },
                None => {
                    &&& forall|k: usize|
                        old(self).spec_index() <= k < T::spec_size() ==> !old(
                            self,
                        ).spec_field().bit(k)
                    &&& final(self).spec_index() >= T::spec_size()
                },
            },
    {
        let width = T::size();
        while self.index < width
            invariant
                width == T::spec_size(),
                self.spec_field() == old(self).spec_field(),
                forall|k: usize|
                    old(self).spec_index() <= k < self.spec_index() ==> !old(
                        self,
                    ).spec_field().bit(k),
                self.spec_index() >= old(self).spec_index(),
            decreases width - self.index,
        {
            if self.field.test(self.index) {
                let j = self.index;
                self.index = j + 1;
                return Some(j);
            }
            self.index = self.index + 1;
        }
        None
    }
}

impl BitSized for u8 {
    open spec fn spec_size() -> usize {
        8
    }

    fn size() -> (n: usize)
    {
        8
    }
}

impl BitField for u8 {
    open spec fn bit(self, i: usize) -> bool {
        i < 8 && (self >> i) & 1u8 == 1u8
    }

    proof fn size_properties()
    {
    }

    fn one_at(index: usize) -> (r: Self)
    {
        let r: u8 = 1u8 << index;
        proof {
            assert(forall|j: usize, i: usize|
                j < 8 && i < 8 ==> (((1u8 << i) >> j) & 1u8 == 1u8 <==> j == i)) by (bit_vector);
        }
        r
    }

    fn zero_at(index: usize) -> (r: Self)
    {
        let r: u8 = !(1u8 << index);
        proof {
            assert(forall|j: usize, i: usize|
                j < 8 && i < 8 ==> ((!(1u8 << i) >> j) & 1u8 == 1u8 <==> j != i)) by (bit_vector);
        }
        r
    }

    fn intersect(self, other: Self) -> (r: Self)
    {
        let r: u8 = self & other;
        proof {
            assert(forall|j: usize, a: u8, b: u8|
                j < 8 ==> (((a & b) >> j) & 1u8 == 1u8 <==> ((a >> j) & 1u8 == 1u8 && (b >> j)
                    & 1u8 == 1u8))) by (bit_vector);
        }
        r
    }

    fn union_with(self, other: Self) -> (r: Self)
    {
        let r: u8 = self | other;
        proof {
            assert(forall|j: usize, a: u8, b: u8|
                j < 8 ==> (((a | b) >> j) & 1u8 == 1u8 <==> ((a >> j) & 1u8 == 1u8 || (b >> j)
                    & 1u8 == 1u8))) by (bit_vector);
        }
        r
    }

    fn test(self, index: usize) -> (b: bool)
    {
        (self >> index) & 1u8 == 1u8
    }

    fn full(self) -> (b: bool)
    {
        let mut j: usize = 0;
        while j < 8
            invariant
                j <= 8,
                forall|k: usize| k < j ==> self.bit(k),
            decreases 8 - j,
        {
            if (self >> j) & 1u8 != 1u8 {
                assert(!self.bit(j));
                return false;
            }
            j = j + 1;
        }
        true
    }

    fn iter(&self) -> (it: BitFieldIterator<Self>)
    {
        BitFieldIterator::new(*self)
    }
}

impl BitSized for u16 {
    open spec fn spec_size() -> usize {
        16
    }

    fn size() -> (n: usize)
    {
        16
    }
}

impl BitField for u16 {
    open spec fn bit(self, i: usize) -> bool {
        i < 16 && (self >> i) & 1u16 == 1u16
    }

    proof fn size_properties()
    {
    }

    fn one_at(index: usize) -> (r: Self)
    {
        let r: u16 = 1u16 << index;
        proof {
            assert(forall|j: usize, i: usize|
                j < 16 && i < 16 ==> (((1u16 << i) >> j) & 1u16 == 1u16 <==> j == i)) by (bit_vector);
        }
        r
    }

    fn zero_at(index: usize) -> (r: Self)
    {
        let r: u16 = !(1u16 << index);
        proof {
            assert(forall|j: usize, i: usize|
                j < 16 && i < 16 ==> ((!(1u16 << i) >> j) & 1u16 == 1u16 <==> j != i)) by (bit_vector);
        }
        r
    }

    fn intersect(self, other: Self) -> (r: Self)
    {
        let r: u16 = self & other;
        proof {
            assert(forall|j: usize, a: u16, b: u16|
                j < 16 ==> (((a & b) >> j) & 1u16 == 1u16 <==> ((a >> j) & 1u16 == 1u16 && (b >> j)
                    & 1u16 == 1u16))) by (bit_vector);
        }
        r
    }

    fn union_with(self, other: Self) -> (r: Self)
    {
        let r: u16 = self | other;
        proof {
            assert(forall|j: usize, a: u16, b: u16|
                j < 16 ==> (((a | b) >> j) & 1u16 == 1u16 <==> ((a >> j) & 1u16 == 1u16 || (b >> j)
                    & 1u16 == 1u16))) by (bit_vector);
        }
        r
    }

    fn test(self, index: usize) -> (b: bool)
    {
        (self >> index) & 1u16 == 1u16
    }

    fn full(self) -> (b: bool)
    {
        let mut j: usize = 0;
        while j < 16
            invariant
                j <= 16,
                forall|k: usize| k < j ==> self.bit(k),
            decreases 16 - j,
        {
            if (self >> j) & 1u16 != 1u16 {
                assert(!self.bit(j));
                return false;
            }
            j = j + 1;
        }
        true
    }

    fn iter(&self) -> (it: BitFieldIterator<Self>)
    {
        BitFieldIterator::new(*self)
    }
}

impl BitSized for u32 {
    open spec fn spec_size() -> usize {
        32
    }

    fn size() -> (n: usize)
    {
        32
    }
}

impl BitField for u32 {
    open spec fn bit(self, i: usize) -> bool {
        i < 32 && (self >> i) & 1u32 == 1u32
    }

    proof fn size_properties()
    {
    }

    fn one_at(index: usize) -> (r: Self)
    {
        let r: u32 = 1u32 << index;
        proof {
            assert(forall|j: usize, i: usize|
                j < 32 && i < 32 ==> (((1u32 << i) >> j) & 1u32 == 1u32 <==> j == i)) by (bit_vector);
        }
        r
    }

    fn zero_at(index: usize) -> (r: Self)
    {
        let r: u32 = !(1u32 << index);
        proof {
            assert(forall|j: usize, i: usize|
                j < 32 && i < 32 ==> ((!(1u32 << i) >> j) & 1u32 == 1u32 <==> j != i)) by (bit_vector);
        }
        r
    }

    fn intersect(self, other: Self) -> (r: Self)
    {
        let r: u32 = self & other;
        proof {
            assert(forall|j: usize, a: u32, b: u32|
                j < 32 ==> (((a & b) >> j) & 1u32 == 1u32 <==> ((a >> j) & 1u32 == 1u32 && (b >> j)
                    & 1u32 == 1u32))) by (bit_vector);
        }
        r
    }

    fn union_with(self, other: Self) -> (r: Self)
    {
        let r: u32 = self | other;
        proof {
            assert(forall|j: usize, a: u32, b: u32|
                j < 32 ==> (((a | b) >> j) & 1u32 == 1u32 <==> ((a >> j) & 1u32 == 1u32 || (b >> j)
                    & 1u32 == 1u32))) by (bit_vector);
        }
        r
    }

    fn test(self, index: usize) -> (b: bool)
    {
        (self >> index) & 1u32 == 1u32
    }

    fn full(self) -> (b: bool)
    {
        let mut j: usize = 0;
        while j < 32
            invariant
                j <= 32,
                forall|k: usize| k < j ==> self.bit(k),
            decreases 32 - j,
        {
            if (self >> j) & 1u32 != 1u32 {
                assert(!self.bit(j));
                return false;
            }
            j = j + 1;
        }
        true
    }

    fn iter(&self) -> (it: BitFieldIterator<Self>)
    {
        BitFieldIterator::new(*self)
    }
}

impl BitSized for u64 {
    open spec fn spec_size() -> usize {
        64
    }

    fn size() -> (n: usize)
    {
        64
    }
}

impl BitField for u64 {
    open spec fn bit(self, i: usize) -> bool {
        i < 64 && (self >> i) & 1u64 == 1u64
    }

    proof fn size_properties()
    {
    }

    fn one_at(index: usize) -> (r: Self)
    {
        let r: u64 = 1u64 << index;
        proof {
            assert(forall|j: usize, i: usize|
                j < 64 && i < 64 ==> (((1u64 << i) >> j) & 1u64 == 1u64 <==> j == i)) by (bit_vector);
        }
        r
    }

    fn zero_at(index: usize) -> (r: Self)
    {
        let r: u64 = !(1u64 << index);
        proof {
            assert(forall|j: usize, i: usize|
                j < 64 && i < 64 ==> ((!(1u64 << i) >> j) & 1u64 == 1u64 <==> j != i)) by (bit_vector);
        }
        r
    }

    fn intersect(self, other: Self) -> (r: Self)
    {
        let r: u64 = self & other;
        proof {
            assert(forall|j: usize, a: u64, b: u64|
                j < 64 ==> (((a & b) >> j) & 1u64 == 1u64 <==> ((a >> j) & 1u64 == 1u64 && (b >> j)
                    & 1u64 == 1u64))) by (bit_vector);
        }
        r
    }

    fn union_with(self, other: Self) -> (r: Self)
    {
        let r: u64 = self | other;
        proof {
            assert(forall|j: usize, a: u64, b: u64|
                j < 64 ==> (((a | b) >> j) & 1u64 == 1u64 <==> ((a >> j) & 1u64 == 1u64 || (b >> j)
                    & 1u64 == 1u64))) by (bit_vector);
        }
        r
    }

    fn test(self, index: usize) -> (b: bool)
    {
        (self >> index) & 1u64 == 1u64
    }

    fn full(self) -> (b: bool)
    {
        let mut j: usize = 0;
        while j < 64
            invariant
                j <= 64,
                forall|k: usize| k < j ==> self.bit(k),
            decreases 64 - j,
        {
            if (self >> j) & 1u64 != 1u64 {
                assert(!self.bit(j));
                return false;
            }
            j = j + 1;
        }
        true
    }

    fn iter(&self) -> (it: BitFieldIterator<Self>)
    {
        BitFieldIterator::new(*self)
    }
}

} // verus!
