use obcore::hash::{hash_bytes, multiply_mix, FxBuildHasher, FxHashMap, FxHasher};
use std::hash::{BuildHasher, Hash, Hasher};

#[test]
fn test_fx_hasher_default() {
    let hasher = FxHasher::default();
    assert_eq!(hasher.hash, 0);
}

#[test]
fn test_fx_hasher_write_u8() {
    let mut hasher = FxHasher::default();
    hasher.write_u8(42);
    assert_ne!(hasher.finish(), 0);
}

#[test]
fn test_fx_hasher_write_u16() {
    let mut hasher = FxHasher::default();
    hasher.write_u16(1234);
    assert_ne!(hasher.finish(), 0);
}

#[test]
fn test_fx_hasher_write_u32() {
    let mut hasher = FxHasher::default();
    hasher.write_u32(123456);
    assert_ne!(hasher.finish(), 0);
}

#[test]
fn test_fx_hasher_write_u64() {
    let mut hasher = FxHasher::default();
    hasher.write_u64(12345678901234);
    assert_ne!(hasher.finish(), 0);
}

#[test]
fn test_fx_hasher_write_u128() {
    let mut hasher = FxHasher::default();
    hasher.write_u128(12345678901234567890123456789012345678);
    assert_ne!(hasher.finish(), 0);
}

#[test]
fn test_fx_hasher_write_usize() {
    let mut hasher = FxHasher::default();
    hasher.write_usize(123456789);
    assert_ne!(hasher.finish(), 0);
}

#[test]
fn test_fx_hasher_write_bytes_empty() {
    let mut hasher = FxHasher::default();
    hasher.write(&[]);
    let hash = hasher.finish();
    assert_ne!(hash, 0);
}

#[test]
fn test_fx_hasher_write_bytes_short() {
    let mut hasher = FxHasher::default();
    hasher.write(b"abc");
    assert_ne!(hasher.finish(), 0);
}

#[test]
fn test_fx_hasher_write_bytes_4_to_7() {
    let mut hasher = FxHasher::default();
    hasher.write(b"abcdef");
    assert_ne!(hasher.finish(), 0);
}

#[test]
fn test_fx_hasher_write_bytes_8_to_16() {
    let mut hasher = FxHasher::default();
    hasher.write(b"abcdefghijklmnop");
    assert_ne!(hasher.finish(), 0);
}

#[test]
fn test_fx_hasher_write_bytes_long() {
    let mut hasher = FxHasher::default();
    hasher.write(b"abcdefghijklmnopqrstuvwxyz0123456789");
    assert_ne!(hasher.finish(), 0);
}

#[test]
fn test_fx_hasher_deterministic() {
    let mut h1 = FxHasher::default();
    let mut h2 = FxHasher::default();
    h1.write(b"hello");
    h2.write(b"hello");
    assert_eq!(h1.finish(), h2.finish());
}

#[test]
fn test_fx_hasher_different_inputs() {
    let mut h1 = FxHasher::default();
    let mut h2 = FxHasher::default();
    h1.write(b"hello");
    h2.write(b"world");
    assert_ne!(h1.finish(), h2.finish());
}

#[test]
fn test_fx_build_hasher() {
    let builder = FxBuildHasher::default();
    let hasher = builder.build_hasher();
    assert_eq!(hasher.hash, 0);
}

#[test]
fn test_fx_hashmap_basic() {
    let mut map: FxHashMap<u64, u64> = FxHashMap::default();
    map.insert(1, 100);
    map.insert(2, 200);
    assert_eq!(map.get(&1), Some(&100));
    assert_eq!(map.get(&2), Some(&200));
    assert_eq!(map.get(&3), None);
}

#[test]
fn test_fx_hashmap_string_keys() {
    let mut map: FxHashMap<String, i32> = FxHashMap::default();
    map.insert("hello".to_string(), 1);
    map.insert("world".to_string(), 2);
    assert_eq!(map.get("hello"), Some(&1));
    assert_eq!(map.get("world"), Some(&2));
}

#[test]
fn test_hash_bytes_various_lengths() {
    for len in 0..=32 {
        let bytes: Vec<u8> = (0..len).map(|i| i as u8).collect();
        let hash = hash_bytes(&bytes);
        let _ = hash;
    }
}

#[test]
fn test_multiply_mix() {
    let result = multiply_mix(123456789, 987654321);
    assert_ne!(result, 0);
}

#[test]
fn test_hash_type_through_hasher() {
    let mut hasher = FxHasher::default();
    42u64.hash(&mut hasher);
    assert_ne!(hasher.finish(), 0);
}

#[test]
fn hash_bytes_exact_values() {
    // low half of the 128-bit product of the two seeds, xor its high half
    let full = 0x243f6a8885a308d3u128 * 0x13198a2e03707344u128;
    let mixed = (full as u64) ^ ((full >> 64) as u64);
    assert_eq!(multiply_mix(0x243f6a8885a308d3, 0x13198a2e03707344), mixed);
    assert_eq!(hash_bytes(&[]), mixed);
    // one byte: it is the low, the middle and the high byte at once
    let s0 = 0x243f6a8885a308d3u64 ^ 0x61;
    let s1 = 0x13198a2e03707344u64 ^ 0x6161;
    let full = (s0 as u128) * (s1 as u128);
    assert_eq!(hash_bytes(b"a"), ((full as u64) ^ ((full >> 64) as u64)) ^ 1);
}

#[test]
fn hasher_word_formula() {
    let mut hasher = FxHasher::default();
    hasher.write_u64(3);
    assert_eq!(hasher.hash, 3u64.wrapping_mul(0xf1357aea2e62a9c5));
    assert_eq!(hasher.finish(), hasher.hash.rotate_left(26));
    let mut wide = FxHasher::default();
    wide.write_u128((7u128 << 64) | 3);
    let mut narrow = FxHasher::default();
    narrow.write_u64(3);
    narrow.write_u64(7);
    assert_eq!(wide.hash, narrow.hash);
}

#[test]
fn hash_bytes_reads_little_endian_words() {
    let bytes: Vec<u8> = (1..=8).collect();
    let word = u64::from_le_bytes([1, 2, 3, 4, 5, 6, 7, 8]);
    let s0 = 0x243f6a8885a308d3u64 ^ word;
    let s1 = 0x13198a2e03707344u64 ^ word;
    let full = (s0 as u128) * (s1 as u128);
    assert_eq!(hash_bytes(&bytes), ((full as u64) ^ ((full >> 64) as u64)) ^ 8);
    // seventeen bytes: one block folded, then the last sixteen bytes
    let long: Vec<u8> = (0..17).collect();
    let x = u64::from_le_bytes([0, 1, 2, 3, 4, 5, 6, 7]);
    let y = u64::from_le_bytes([8, 9, 10, 11, 12, 13, 14, 15]);
    let t = multiply_mix(0x243f6a8885a308d3 ^ x, 0xa4093822299f31d0 ^ y);
    let a = 0x13198a2e03707344u64 ^ u64::from_le_bytes([1, 2, 3, 4, 5, 6, 7, 8]);
    let b = t ^ u64::from_le_bytes([9, 10, 11, 12, 13, 14, 15, 16]);
    assert_eq!(hash_bytes(&long), multiply_mix(a, b) ^ 17);
}
