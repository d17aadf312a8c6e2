use selectors::bloom::{BloomFilter, BloomHash};
use selectors::matching::RECOMMENDED_SELECTOR_BLOOM_FILTER_SIZE;
use selectors::parser::Atom;

struct Hash(u32);

impl BloomHash for Hash {
    fn hash(&self) -> u32 {
        unreachable!()
    }

    fn bloom_hash(&self) -> u32 {
        self.0
    }
}

#[test]
fn new_filter_contains_nothing() {
    let filter = BloomFilter::new();
    assert!(!filter.might_contain(&Hash(0)));
    assert!(!filter.might_contain(&Hash(0xffff_ffff)));
    assert!(!filter.might_contain(&Hash(0x1234_5678)));
}

#[test]
fn inserted_values_stay() {
    let mut filter = BloomFilter::new();
    let mut hash: u32 = 1;
    let mut hashes = Vec::new();
    for _ in 0..500 {
        hash = hash.wrapping_mul(1664525).wrapping_add(1013904223);
        hashes.push(hash);
        filter.insert(&Hash(hash));
        for seen in &hashes {
            assert!(filter.might_contain(&Hash(*seen)));
        }
    }
}

#[test]
fn both_halves_are_looked_up() {
    let mut filter = BloomFilter::new();
    filter.insert(&Hash(0x0001_0002));
    assert!(filter.might_contain(&Hash(0x0001_0002)));
    assert!(!filter.might_contain(&Hash(0x0001_0003)));
    assert!(!filter.might_contain(&Hash(0x0003_0002)));
    assert!(!filter.might_contain(&Hash(0x0002_0001)));
}

#[test]
fn halves_of_two_values_give_a_false_positive() {
    let mut filter = BloomFilter::new();
    filter.insert(&Hash(0x0001_0002));
    filter.insert(&Hash(0x0003_0004));
    assert!(filter.might_contain(&Hash(0x0001_0004)));
    assert!(filter.might_contain(&Hash(0x0003_0002)));
    assert!(!filter.might_contain(&Hash(0x0002_0004)));
}

#[test]
fn the_ends_of_the_range_can_be_inserted() {
    let mut filter = BloomFilter::new();
    filter.insert(&Hash(0));
    filter.insert(&Hash(0xffff_ffff));
    assert!(filter.might_contain(&Hash(0)));
    assert!(filter.might_contain(&Hash(0xffff_ffff)));
    assert!(filter.might_contain(&Hash(0x0000_ffff)));
    assert!(!filter.might_contain(&Hash(0x0000_fffe)));
}

#[test]
fn false_positives_are_rare_up_to_the_recommended_size() {
    let mut filter = BloomFilter::new();
    let mut state: u64 = 3;
    let mut next = || {
        state = state.wrapping_mul(6364136223846793005).wrapping_add(1442695040888963407);
        Hash((state >> 32) as u32)
    };
    for _ in 0..RECOMMENDED_SELECTOR_BLOOM_FILTER_SIZE {
        filter.insert(&next());
    }
    let mut positives = 0;
    for _ in 0..100_000 {
        if filter.might_contain(&next()) {
            positives += 1;
        }
    }
    assert!(positives < 1_000);
}

#[test]
fn numbers_are_folded() {
    assert_eq!(0u64.bloom_hash(), 0);
    assert_eq!(0x0000_0001_0000_0002u64.bloom_hash(), 3);
    assert_eq!(0xffff_ffff_0000_0000u64.bloom_hash(), 0xffff_ffff);
    let mut filter = BloomFilter::new();
    filter.insert(&17u64);
    assert!(filter.might_contain(&17u64));
    assert!(!filter.might_contain(&18u64));
}

#[test]
fn numbers_are_compared() {
    assert!(5u64.is_same(&5));
    assert!(!5u64.is_same(&6));
}
