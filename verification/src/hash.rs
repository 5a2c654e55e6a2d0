//! A fast, non-cryptographic multiplicative hasher working on 64-bit state.

use vstd::prelude::*;

verus! {

/// The multiplier of the hash.
pub const K: u64 = 0xf1357aea2e62a9c5;

/// By how many bits the digest is rotated.
pub const ROTATE: u32 = 26;

/// The first lane's start: digits of pi.
pub const SEED1: u64 = 0x243f6a8885a308d3;

/// The second lane's start: more digits of pi.
pub const SEED2: u64 = 0x13198a2e03707344;

/// Mixed into each block so that runs of zero bytes do not collapse the hash.
pub const PREVENT_TRIVIAL_ZERO_COLLAPSE: u64 = 0xa4093822299f31d0;

/// The hasher state after absorbing the word `i` into state `h`.
pub open spec fn spec_add_to_hash(h: u64, i: u64) -> u64 {
    h.wrapping_add(i).wrapping_mul(K)
}

/// `x` rotated left by `ROTATE` bits.
pub open spec fn spec_rotate(x: u64) -> u64 {
    (x << ROTATE) | (x >> (64 - ROTATE) as u32)
}

/// The low half of the full 128-bit product of `x` and `y`, xor its high half.
pub open spec fn spec_multiply_mix(x: u64, y: u64) -> u64 {
    let full: int = x as int * y as int;
    ((full % 0x1_0000_0000_0000_0000) as u64) ^ ((full / 0x1_0000_0000_0000_0000) as u64)
}

/// The little-endian 32-bit word held by `s[off..off + 4]`.
pub open spec fn spec_le_u32(s: Seq<u8>, off: int) -> u64 {
    (s[off] as u64) | (s[off + 1] as u64) << 8 | (s[off + 2] as u64) << 16 | (s[off + 3] as u64)
        << 24
}

/// The little-endian 64-bit word held by `s[off..off + 8]`.
pub open spec fn spec_le_u64(s: Seq<u8>, off: int) -> u64 {
    spec_le_u32(s, off) | spec_le_u32(s, off + 4) << 32
}

/// The two lanes after the 16-byte blocks starting at `off` and lying
/// strictly before the final 16 bytes have been folded into `(s0, s1)`.
pub open spec fn spec_bulk(s: Seq<u8>, off: int, s0: u64, s1: u64) -> (u64, u64)
    decreases s.len() - off,
{
    if 0 <= off && off + 16 < s.len() {
        let x = spec_le_u64(s, off);
        let y = spec_le_u64(s, off + 8);
        let t = spec_multiply_mix(s0 ^ x, PREVENT_TRIVIAL_ZERO_COLLAPSE ^ y);
        spec_bulk(s, off + 16, s1, t)
    } else {
        (s0, s1)
    }
}

/// The two lanes just before the final mix.
pub open spec fn spec_lanes(s: Seq<u8>) -> (u64, u64) {
    let len = s.len() as int;
    if len > 16 {
        let (s0, s1) = spec_bulk(s, 0, SEED1, SEED2);
        (s0 ^ spec_le_u64(s, len - 16), s1 ^ spec_le_u64(s, len - 8))
    } else if len >= 8 {
        (SEED1 ^ spec_le_u64(s, 0), SEED2 ^ spec_le_u64(s, len - 8))
    } else if len >= 4 {
        (SEED1 ^ spec_le_u32(s, 0), SEED2 ^ spec_le_u32(s, len - 4))
    } else if len > 0 {
        (SEED1 ^ (s[0] as u64), SEED2 ^ (((s[len - 1] as u64) << 8) | (s[len / 2] as u64)))
    } else {
        (SEED1, SEED2)
    }
}

/// The 64-bit digest of a byte string.
pub open spec fn spec_hash_bytes(s: Seq<u8>) -> u64 {
    let (s0, s1) = spec_lanes(s);
    spec_multiply_mix(s0, s1) ^ (s.len() as u64)
}

/// 64-bit multiply mix using 128-bit multiplication.
pub fn multiply_mix(x: u64, y: u64) -> (r: u64)
    ensures
        r == spec_multiply_mix(x, y),
{
    assert(x as int * y as int <= 0xffff_ffff_ffff_ffff * 0xffff_ffff_ffff_ffff) by (nonlinear_arith)
        requires
            x <= 0xffff_ffff_ffff_ffff,
            y <= 0xffff_ffff_ffff_ffff,
    ;
    let full: u128 = (x as u128) * (y as u128);
    let lo: u64 = #[verifier::truncate]
    (full as u64);
    let hi: u64 = (full >> 64) as u64;
    assert(lo == (full % 0x1_0000_0000_0000_0000) as u64 && (full >> 64) == full
        / 0x1_0000_0000_0000_0000) by (bit_vector)
        requires
            lo == full as u64,
    ;
    lo ^ hi
}

fn le_u32(bytes: &[u8], off: usize) -> (r: u64)
    requires
        off + 4 <= bytes@.len(),
    ensures
        r == spec_le_u32(bytes@, off as int),
{
    (bytes[off] as u64) | (bytes[off + 1] as u64) << 8 | (bytes[off + 2] as u64) << 16 | (bytes[off
        + 3] as u64) << 24
}

fn le_u64(bytes: &[u8], off: usize) -> (r: u64)
    requires
        off + 8 <= bytes@.len(),
    ensures
        r == spec_le_u64(bytes@, off as int),
{
    let len = bytes.len();
    assert(off + 8 <= len);
    le_u32(bytes, off) | le_u32(bytes, off + 4) << 32
}

/// Compresses a byte string into a single 64-bit word.
pub fn hash_bytes(bytes: &[u8]) -> (r: u64)
    ensures
        r == spec_hash_bytes(bytes@),
{
    let len = bytes.len();
    let mut s0: u64 = SEED1;
    let mut s1: u64 = SEED2;

    if len <= 16 {
        if len >= 8 {
            s0 ^= le_u64(bytes, 0);
            s1 ^= le_u64(bytes, len - 8);
        } else if len >= 4 {
            s0 ^= le_u32(bytes, 0);
            s1 ^= le_u32(bytes, len - 4);
        } else if len > 0 {
            let lo = bytes[0];
            let mid = bytes[len / 2];
            let hi = bytes[len - 1];
            s0 ^= lo as u64;
            s1 ^= ((hi as u64) << 8) | mid as u64;
        }
    } else {
        let mut off: usize = 0;
        while off < len - 16
            invariant
                len == bytes@.len(),
                len > 16,
                off <= len,
                spec_bulk(bytes@, off as int, s0, s1) == spec_bulk(bytes@, 0, SEED1, SEED2),
            decreases len - off,
        {
            let x = le_u64(bytes, off);
            let y = le_u64(bytes, off + 8);
            let t = multiply_mix(s0 ^ x, PREVENT_TRIVIAL_ZERO_COLLAPSE ^ y);
            s0 = s1;
            s1 = t;
            off += 16;
        }
        s0 ^= le_u64(bytes, len - 16);
        s1 ^= le_u64(bytes, len - 8);
    }
    multiply_mix(s0, s1) ^ (len as u64)
}

/// A hash map that hashes its keys with [`FxHasher`].
pub type FxHashMap<K, V> = std::collections::HashMap<K, V, FxBuildHasher>;

/// Multiplicative hasher state.
#[derive(Clone)]
pub struct FxHasher {
    pub hash: u64,
}

impl Default for FxHasher {
    fn default() -> (r: Self)
        ensures
            r.hash == 0,
    {
        FxHasher { hash: 0 }
    }
}

impl FxHasher {
    /// Absorbs one word.
    pub fn add_to_hash(&mut self, i: usize)
        ensures
            final(self).hash == spec_add_to_hash(old(self).hash, i as u64),
    {
        self.hash = self.hash.wrapping_add(i as u64).wrapping_mul(K);
    }

    /// Absorbs a byte string: its digest is added as one word.
    pub fn write(&mut self, bytes: &[u8])
        ensures
            final(self).hash == spec_add_to_hash(old(self).hash, spec_hash_bytes(bytes@)),
    {
        self.write_u64(hash_bytes(bytes));
    }

    /// Absorbs a byte as one word.
    pub fn write_u8(&mut self, i: u8)
        ensures
            final(self).hash == spec_add_to_hash(old(self).hash, i as u64),
    {
        self.add_to_hash(i as usize);
    }

    /// Absorbs a 16-bit value as one word.
    pub fn write_u16(&mut self, i: u16)
        ensures
            final(self).hash == spec_add_to_hash(old(self).hash, i as u64),
    {
        self.add_to_hash(i as usize);
    }

    /// Absorbs a 32-bit value as one word.
    pub fn write_u32(&mut self, i: u32)
        ensures
            final(self).hash == spec_add_to_hash(old(self).hash, i as u64),
    {
        self.add_to_hash(i as usize);
    }

    /// Absorbs a 64-bit value as one word.
    pub fn write_u64(&mut self, i: u64)
        ensures
            final(self).hash == spec_add_to_hash(old(self).hash, i),
    {
        self.hash = self.hash.wrapping_add(i).wrapping_mul(K);
    }

    /// Absorbs the low 64 bits, then the high 64 bits.
    pub fn write_u128(&mut self, i: u128)
        ensures
            final(self).hash == spec_add_to_hash(
                spec_add_to_hash(old(self).hash, (i % 0x1_0000_0000_0000_0000) as u64),
                (i / 0x1_0000_0000_0000_0000) as u64,
            ),
    {
        let lo: u64 = #[verifier::truncate]
        (i as u64);
        let hi: u64 = (i >> 64) as u64;
        assert(lo == (i % 0x1_0000_0000_0000_0000) as u64 && (i >> 64) == i
            / 0x1_0000_0000_0000_0000) by (bit_vector)
            requires
                lo == i as u64,
        ;
        self.write_u64(lo);
        self.write_u64(hi);
    }

    /// Absorbs a pointer-sized value as one word.
    pub fn write_usize(&mut self, i: usize)
        ensures
            final(self).hash == spec_add_to_hash(old(self).hash, i as u64),
    {
        self.add_to_hash(i);
    }

    /// The digest: the state rotated so that its high-entropy top bits land at the bottom.
    pub fn finish(&self) -> (r: u64)
        ensures
            r == spec_rotate(self.hash),
    {
        (self.hash << ROTATE) | (self.hash >> (64 - ROTATE))
    }
}

/// Builds hashers that start from the zero state.
#[derive(Copy, Clone, Default)]
pub struct FxBuildHasher;

impl FxBuildHasher {
    /// A hasher in the zero state.
    pub fn build_hasher(&self) -> (r: FxHasher)
        ensures
            r.hash == 0,
    {
        FxHasher::default()
    }
}

impl std::hash::Hasher for FxHasher {
    fn write(&mut self, bytes: &[u8])
        ensures
            final(self).hash == spec_add_to_hash(old(self).hash, spec_hash_bytes(bytes@)),
    {
        FxHasher::write(self, bytes)
    }

    fn write_u8(&mut self, i: u8)
        ensures
            final(self).hash == spec_add_to_hash(old(self).hash, i as u64),
    {
        FxHasher::write_u8(self, i)
    }

    fn write_u16(&mut self, i: u16)
        ensures
            final(self).hash == spec_add_to_hash(old(self).hash, i as u64),
    {
        FxHasher::write_u16(self, i)
    }

    fn write_u32(&mut self, i: u32)
        ensures
            final(self).hash == spec_add_to_hash(old(self).hash, i as u64),
    {
        FxHasher::write_u32(self, i)
    }

    fn write_u64(&mut self, i: u64)
        ensures
            final(self).hash == spec_add_to_hash(old(self).hash, i),
    {
        FxHasher::write_u64(self, i)
    }

    fn write_u128(&mut self, i: u128)
        ensures
            final(self).hash == spec_add_to_hash(
                spec_add_to_hash(old(self).hash, (i % 0x1_0000_0000_0000_0000) as u64),
                (i / 0x1_0000_0000_0000_0000) as u64,
            ),
    {
        FxHasher::write_u128(self, i)
    }

    fn write_usize(&mut self, i: usize)
        ensures
            final(self).hash == spec_add_to_hash(old(self).hash, i as u64),
    {
        FxHasher::write_usize(self, i)
    }

    fn finish(&self) -> (r: u64)
        ensures
            r == spec_rotate(self.hash),
    {
        FxHasher::finish(self)
    }
}

impl std::hash::BuildHasher for FxBuildHasher {
    type Hasher = FxHasher;

    fn build_hasher(&self) -> (r: FxHasher)
        ensures
            r.hash == 0,
    {
        FxHasher::default()
    }
}

} // verus!
