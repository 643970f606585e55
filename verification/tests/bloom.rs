use asap_sketchlib::sketches::bloom::hash_pair;
use asap_sketchlib::{BloomFilter, CountingBloomFilter};

#[test]
fn bloom_membership_and_clear() {
    let mut filter = BloomFilter::new(1024, 4);
    filter.insert("a");
    assert!(filter.contains("a"));
    filter.clear();
    assert!(!filter.contains("a"));
}

#[test]
fn counting_bloom_supports_delete_and_saturates() {
    let mut filter = CountingBloomFilter::new(128, 3);
    filter.insert("a");
    filter.insert("a");
    filter.remove("a");
    assert!(filter.contains("a"));
    filter.remove("a");
    assert!(!filter.contains("a"));
}

#[test]
fn hash_pair_is_fnv1a_with_an_odd_step() {
    assert_eq!(hash_pair(""), (1469598103934665603, 1099511628211));
    let first = (1469598103934665603u64 ^ 97).wrapping_mul(1099511628211);
    let second = (1099511628211u64 ^ 97).wrapping_mul(14029467366897019727) | 1;
    assert_eq!(hash_pair("a"), (first, second));
    let first = (first ^ 98).wrapping_mul(1099511628211);
    assert_eq!(hash_pair("ab").0, first);
    assert_eq!(hash_pair("ab").1 % 2, 1);
}

#[test]
fn an_inserted_key_is_always_found() {
    let mut filter = BloomFilter::new(64, 3);
    for i in 0..200 {
        let key = format!("key-{i}");
        filter.insert(&key);
        for j in 0..=i {
            assert!(filter.contains(&format!("key-{j}")));
        }
    }
}

#[test]
fn inserts_are_a_union() {
    let mut ab = BloomFilter::new(256, 4);
    ab.insert("a");
    ab.insert("b");
    ab.insert("a");
    let mut ba = BloomFilter::new(256, 4);
    ba.insert("b");
    ba.insert("a");
    assert_eq!(ab, ba);
}

#[test]
fn an_empty_filter_finds_nothing() {
    let bits = BloomFilter::new(16, 2);
    let counts = CountingBloomFilter::new(16, 2);
    for key in ["", "a", "something longer"] {
        assert!(!bits.contains(key));
        assert!(!counts.contains(key));
    }
}

#[test]
fn dimensions_are_reported() {
    let bits = BloomFilter::new(100, 7);
    assert_eq!((bits.cells(), bits.hashes(), bits.memory_bytes()), (100, 7, 100));
    let counts = CountingBloomFilter::new(50, 3);
    assert_eq!(
        (counts.cells(), counts.hashes(), counts.memory_bytes()),
        (50, 3, 50)
    );
}

#[test]
fn a_removal_undoes_an_insert() {
    let mut filter = CountingBloomFilter::new(128, 3);
    filter.insert("kept");
    let before = filter.clone();
    filter.insert("gone");
    assert!(filter.contains("gone"));
    filter.remove("gone");
    assert_eq!(filter, before);
    assert!(filter.contains("kept"));
}

#[test]
fn counters_saturate_in_both_directions() {
    let mut filter = CountingBloomFilter::new(1, 2);
    // Each insert sends the key to the one counter twice.
    for _ in 0..200 {
        filter.insert("a");
    }
    for _ in 0..127 {
        filter.remove("a");
    }
    assert!(filter.contains("a"), "255 - 254 is one");
    filter.remove("a");
    assert!(!filter.contains("a"));
    filter.remove("a");
    assert!(!filter.contains("a"), "zero stays zero");
    filter.insert("a");
    assert!(filter.contains("a"));
}

#[test]
fn counted_inserts_commute() {
    let mut ab = CountingBloomFilter::new(32, 3);
    let mut ba = CountingBloomFilter::new(32, 3);
    for _ in 0..300 {
        ab.insert("a");
    }
    for _ in 0..10 {
        ab.insert("b");
        ba.insert("b");
    }
    for _ in 0..300 {
        ba.insert("a");
    }
    assert_eq!(ab, ba);
    ab.clear();
    assert_eq!(ab, CountingBloomFilter::new(32, 3));
}

#[test]
fn inserting_a_found_key_changes_nothing() {
    let mut filter = BloomFilter::new(32, 3);
    for i in 0..40 {
        filter.insert(&format!("key-{i}"));
    }
    let before = filter.clone();
    let mut found = 0;
    for i in 0..400 {
        let key = format!("other-{i}");
        if filter.contains(&key) {
            filter.insert(&key);
            assert_eq!(filter, before);
            found += 1;
        }
    }
    assert!(found > 0);
}

#[test]
fn filters_are_equal_where_cells_and_rounds_are() {
    let mut a = BloomFilter::new(64, 2);
    assert_eq!(a, BloomFilter::new(64, 2));
    assert_ne!(a, BloomFilter::new(64, 3));
    assert_ne!(a, BloomFilter::new(65, 2));
    a.insert("a");
    assert_ne!(a, BloomFilter::new(64, 2));
    a.clear();
    assert_eq!(a, BloomFilter::new(64, 2));
    let mut counting = CountingBloomFilter::new(64, 2);
    counting.insert("a");
    let once = counting.clone();
    counting.insert("a");
    assert_ne!(counting, once);
    counting.remove("a");
    assert_eq!(counting, once);
    assert_ne!(CountingBloomFilter::new(64, 2), CountingBloomFilter::new(64, 3));
}

#[test]
fn rounds_do_not_repeat_with_a_power_of_two_of_cells() {
    // As many rounds as cells reach every cell once.
    for cells in [1usize, 2, 16, 256] {
        for key in ["", "a", "key", "another key"] {
            let mut filter = BloomFilter::new(cells, cells);
            filter.insert(key);
            for i in 0..100 {
                assert!(filter.contains(&format!("other-{i}")));
            }
            let mut counting = CountingBloomFilter::new(cells, cells);
            counting.insert(key);
            counting.remove("taken out in its place");
            assert_eq!(counting, CountingBloomFilter::new(cells, cells));
        }
    }
}
