use vstd::prelude::*;

verus! {

/// Initial state of the character-folding hash, the offset basis of FNV-1a.
pub const STRING_HASH_OFFSET: u64 = 0xcbf29ce484222325;

/// Multiplier of the character-folding hash, the FNV-1a prime.
pub const STRING_HASH_PRIME: u64 = 0x100000001b3;

/// A key that can live on either side of a `BiMap`.
///
/// A key has a mathematical model (`M`); two keys are the same exactly when
/// their models are equal, and a key's hash is a function of its model alone,
/// so that equal keys always land in the same ideal bucket.
pub trait MapKey: Sized {
    /// The mathematical value this key stands for.
    type M;

    /// The model of this key.
    spec fn model(&self) -> Self::M;

    /// The hash of a model: one fixed value per model.
    spec fn hash_of(m: Self::M) -> u64;

    /// Computes the hash of this key.
    fn key_hash(&self) -> (h: u64)
        ensures
            h == Self::hash_of(self.model()),
    ;

    /// Compares this key with another by value.
    fn key_eq(&self, other: &Self) -> (r: bool)
        ensures
            r == (self.model() == other.model()),
    ;
}

impl MapKey for u64 {
    type M = u64;

    open spec fn model(&self) -> u64 {
        *self
    }

    open spec fn hash_of(m: u64) -> u64 {
        m
    }

    fn key_hash(&self) -> (h: u64)
        ensures
            h == Self::hash_of(self.model()),
    {
        *self
    }

    fn key_eq(&self, other: &Self) -> (r: bool)
        ensures
            r == (self.model() == other.model()),
    {
        *self == *other
    }
}

impl MapKey for () {
    type M = ();

    open spec fn model(&self) -> () {
        ()
    }

    open spec fn hash_of(m: ()) -> u64 {
        0
    }

    fn key_hash(&self) -> (h: u64)
        ensures
            h == Self::hash_of(self.model()),
    {
        0
    }

    fn key_eq(&self, other: &Self) -> (r: bool)
        ensures
            r == (self.model() == other.model()),
    {
        true
    }
}

/// The hash of a sequence of characters: FNV-1a folded over the characters.
pub open spec fn string_hash_spec(s: Seq<char>) -> u64
    decreases s.len(),
{
    if s.len() == 0 {
        STRING_HASH_OFFSET
    } else {
        (string_hash_spec(s.drop_last()) ^ (s.last() as u64)).wrapping_mul(STRING_HASH_PRIME)
    }
}

impl MapKey for String {
    type M = Seq<char>;

    open spec fn model(&self) -> Seq<char> {
        self@
    }

    open spec fn hash_of(m: Seq<char>) -> u64 {
        string_hash_spec(m)
    }

    fn key_hash(&self) -> (h: u64)
        ensures
            h == Self::hash_of(self.model()),
    {
        let s = self.as_str();
        let n = s.unicode_len();
        let mut h: u64 = STRING_HASH_OFFSET;
        let mut i: usize = 0;
        while i < n
            invariant
                n == s@.len(),
                s@ == self@,
                0 <= i <= n,
                h == string_hash_spec(s@.subrange(0, i as int)),
            decreases n - i,
        {
            let c = s.get_char(i);
            proof {
                assert(s@.subrange(0, i + 1).drop_last() =~= s@.subrange(0, i as int));
                assert(s@.subrange(0, i + 1).last() == s@[i as int]);
            }
            h = (h ^ (c as u64)).wrapping_mul(STRING_HASH_PRIME);
            i = i + 1;
        }
        proof {
            assert(s@.subrange(0, n as int) =~= s@);
        }
        h
    }

    fn key_eq(&self, other: &Self) -> (r: bool)
        ensures
            r == (self.model() == other.model()),
    {
        self.eq(other)
    }
}

} // verus!
