//! A Bloom filter over 32-bit hashes.

use vstd::prelude::*;

verus! {

/// A value that can be looked up in a [`BloomFilter`].
pub trait BloomHash {
    /// The hash of this value.
    spec fn hash(&self) -> u32;

    /// Computes the hash of this value.
    fn bloom_hash(&self) -> (h: u32)
        ensures
            h == self.hash(),
    ;
}

/// A number, such as the one by which a name is interned, is hashed by folding its halves
/// onto each other.
impl BloomHash for u64 {
    open spec fn hash(&self) -> u32 {
        ((*self >> 32) ^ (*self & 0xffff_ffff)) as u32
    }

    fn bloom_hash(&self) -> (h: u32)
        ensures
            h == ((*self >> 32) ^ (*self & 0xffff_ffff)) as u32,
    {
        ((*self >> 32) ^ (*self & 0xffff_ffff)) as u32
    }
}

/// The halves of the hashes that a filter has seen.
pub struct SeenHalves {
    pub low: Set<u32>,
    pub high: Set<u32>,
}

/// The low half of a hash.
pub open spec fn low_half(hash: u32) -> u32 {
    hash & 0xffff
}

/// The high half of a hash.
pub open spec fn high_half(hash: u32) -> u32 {
    hash >> 16
}

impl SeenHalves {
    /// No hash has been seen.
    pub open spec fn none() -> SeenHalves {
        SeenHalves { low: Set::empty(), high: Set::empty() }
    }

    /// One more hash has been seen.
    pub open spec fn with(self, hash: u32) -> SeenHalves {
        SeenHalves {
            low: self.low.insert(low_half(hash)),
            high: self.high.insert(high_half(hash)),
        }
    }

    /// Whether both halves of a hash have been seen.
    pub open spec fn may_hold(self, hash: u32) -> bool {
        self.low.contains(low_half(hash)) && self.high.contains(high_half(hash))
    }
}

/// A set of values that may answer "maybe" for a value that was never inserted, but never
/// answers "no" for one that was.
///
/// It remembers the two halves of each hash apart from each other, so a value is taken for
/// one that was inserted where others have, between them, the halves of its hash.
pub struct BloomFilter {
    low: Vec<bool>,
    high: Vec<bool>,
}

impl View for BloomFilter {
    type V = SeenHalves;

    closed spec fn view(&self) -> SeenHalves {
        SeenHalves {
            low: Set::new(|half: u32| half < 0x10000 && self.low@[half as int]),
            high: Set::new(|half: u32| half < 0x10000 && self.high@[half as int]),
        }
    }
}

impl BloomFilter {
    /// There is a place for each half of a hash.
    #[verifier::type_invariant]
    closed spec fn well_formed(self) -> bool {
        self.low@.len() == 0x10000 && self.high@.len() == 0x10000
    }

    /// A filter that holds nothing.
    pub fn new() -> (filter: BloomFilter)
        ensures
            filter@ == SeenHalves::none(),
    {
        let filter = BloomFilter { low: vec![false; 0x10000], high: vec![false; 0x10000] };
        assert(filter@.low =~= Set::empty());
        assert(filter@.high =~= Set::empty());
        filter
    }

    /// Inserts a value.
    pub fn insert<T: BloomHash>(&mut self, elem: &T)
        ensures
            final(self)@ == old(self)@.with(elem.hash()),
    {
        proof {
            use_type_invariant(&*self);
        }
        let hash: u32 = elem.bloom_hash();
        proof {
            lemma_halves(hash);
        }
        self.low[(hash & 0xffff) as usize] = true;
        self.high[(hash >> 16) as usize] = true;
        assert(self@.low =~= old(self)@.with(hash).low);
        assert(self@.high =~= old(self)@.with(hash).high);
    }

    /// Whether a value may have been inserted. An answer of `false` is certain.
    pub fn might_contain<T: BloomHash>(&self, elem: &T) -> (r: bool)
        ensures
            r == self@.may_hold(elem.hash()),
    {
        proof {
            use_type_invariant(self);
        }
        let hash: u32 = elem.bloom_hash();
        proof {
            lemma_halves(hash);
        }
        self.low[(hash & 0xffff) as usize] && self.high[(hash >> 16) as usize]
    }
}

/// A half of a hash has sixteen bits.
proof fn lemma_halves(hash: u32)
    ensures
        low_half(hash) < 0x10000,
        high_half(hash) < 0x10000,
{
    assert((hash & 0xffff) < 0x10000) by (bit_vector);
    assert((hash >> 16) < 0x10000) by (bit_vector);
}

/// A filter never answers "no" for a value that was inserted, however many values are
/// inserted besides: an insertion makes the filter hold the value, and takes nothing from
/// what it holds. A new filter answers "no" for every value.
pub proof fn law_no_false_negatives(seen: SeenHalves, hash: u32)
    ensures
        seen.with(hash).may_hold(hash),
        forall|other: u32| #[trigger] seen.may_hold(other) ==> seen.with(hash).may_hold(other),
        !SeenHalves::none().may_hold(hash),
{
}

/// A value is newly taken for one that was inserted only where it has a half of its hash, the
/// low or the high one, from the value that was inserted.
pub proof fn law_false_positives_share_a_half(seen: SeenHalves, hash: u32, other: u32)
    requires
        seen.with(hash).may_hold(other),
    ensures
        seen.may_hold(other) || other & 0xffff == hash & 0xffff || other >> 16 == hash >> 16,
        seen == SeenHalves::none() ==> other == hash,
{
    assert(other & 0xffff == hash & 0xffff && other >> 16 == hash >> 16 ==> other == hash)
        by (bit_vector);
}

} // verus!
