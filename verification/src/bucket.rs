use crate::bitfield::BitField;
use vstd::prelude::*;

verus! {

/// A single bucket within a hopscotch-hashed array.
///
/// `data` holds a key, the index of the paired slot in the other array, and
/// the ideal index the key hashed to; it is `None` while the slot is free.
/// `neighbourhood` records, relative to this slot's own index taken as an
/// ideal index, which of the next few slots hold keys that hashed here.
pub struct Bucket<K, V, B> {
    /// Key, cross-table-index, ideal-index triplet.
    pub data: Option<(K, V, usize)>,
    /// One bit per slot of the neighbourhood that starts at this bucket.
    pub neighbourhood: B,
}

impl<K, V, B: BitField> Bucket<K, V, B> {
    /// Creates a new array, with a given size, of empty buckets.
    pub fn empty_vec(size: usize) -> (v: Vec<Self>)
        ensures
            v@.len() == size,
            forall|i: int| 0 <= i < size ==> (#[trigger] v@[i]).data is None,
            forall|i: int, j: usize|
                0 <= i < size && j < B::spec_size() ==> !(#[trigger] v@[i].neighbourhood.bit(j)),
    {
        proof {
            B::size_properties();
        }
        let blank = B::one_at(0).intersect(B::zero_at(0));
        let mut output: Vec<Self> = Vec::new();
        let mut k: usize = 0;
        while k < size
            invariant
                output@.len() == k,
                k <= size,
                forall|j: usize| j < B::spec_size() ==> !blank.bit(j),
                forall|i: int| 0 <= i < k ==> (#[trigger] output@[i]).data is None,
                forall|i: int, j: usize|
                    0 <= i < k && j < B::spec_size() ==> !(
                    #[trigger] output@[i].neighbourhood.bit(j)),
            decreases size - k,
        {
            output.push(Bucket { data: None, neighbourhood: blank });
            k = k + 1;
        }
        output
    }
}

} // verus!
