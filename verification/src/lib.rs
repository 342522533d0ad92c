use blake2::Digest;
use vstd::prelude::*;

pub mod block;
pub mod chain;
pub mod laws;
pub mod transaction;

verus! {

broadcast use vstd::array::group_array_axioms;

/// The 64-byte BLAKE2b digest of a byte string, named but not written out:
/// it is a pure function of the input bytes alone.
pub uninterp spec fn hash_of(data: Seq<u8>) -> Seq<u8>;

/// A fixed 64-byte digest. Equality is byte-exact; the all-zero value is the
/// designated "no predecessor" sentinel.
#[derive(Clone, Copy, Debug, PartialEq, Eq, Hash)]
pub struct Hash(pub [u8; 64]);

impl View for Hash {
    type V = Seq<u8>;

    open spec fn view(&self) -> Seq<u8> {
        self.0@
    }
}

/// The all-zero digest: the sentinel meaning "no predecessor".
pub open spec fn zero_hash() -> Seq<u8> {
    Seq::new(64, |i: int| 0u8)
}

impl Default for Hash {
    fn default() -> (r: Self)
        ensures
            r@ == zero_hash(),
    {
        let r = Hash([0u8; 64]);
        proof {
            assert(r.0@ =~= zero_hash());
        }
        r
    }
}

/// The value of a byte string read as a little-endian unsigned integer.
pub open spec fn le_seq_value(s: Seq<u8>) -> nat
    decreases s.len(),
{
    if s.len() == 0 {
        0
    } else {
        s[0] as nat + 256 * le_seq_value(s.drop_first())
    }
}

pub open spec fn pow256(n: nat) -> nat
    decreases n,
{
    if n == 0 {
        1
    } else {
        256 * pow256((n - 1) as nat)
    }
}

/// The 128-bit window a hash is judged by for proof of work: bytes 16 through
/// 31 of the digest read little-endian (byte 16 least significant). The other
/// 48 bytes play no part in the difficulty test.
pub open spec fn difficulty_value(h: Seq<u8>) -> nat
    recommends
        h.len() == 64,
{
    le_seq_value(h.subrange(16, 32))
}

impl Hash {
    /// Extracts the proof-of-work window of this digest as an integer.
    #[verifier::rlimit(30)]
    pub fn difficulty(&self) -> (r: u128)
        ensures
            r == difficulty_value(self@),
    {
        let mut acc: u128 = 0;
        let mut i: usize = 32;
        while i > 16
            invariant
                16 <= i <= 32,
                acc == le_seq_value(self.0@.subrange(i as int, 32)),
                acc < pow256((32 - i) as nat),
            decreases i,
        {
            i = i - 1;
            proof {
                lemma_pow256_15();
                lemma_pow256_monotonic((32 - i - 1) as nat, 15);
                let tail = self.0@.subrange(i as int, 32);
                assert(tail.drop_first() =~= self.0@.subrange(i + 1, 32));
                assert(tail[0] == self.0@[i as int]);
                assert(pow256((32 - i) as nat) == 256 * pow256((32 - i - 1) as nat));
            }
            acc = acc * 256 + self.0[i] as u128;
        }
        proof {
            assert(self.0@.subrange(16, 32) =~= self@.subrange(16, 32));
        }
        acc
    }

    /// Byte-exact comparison of two digests.
    pub fn equals(&self, other: &Hash) -> (r: bool)
        ensures
            r == (self@ == other@),
    {
        let mut i: usize = 0;
        while i < 64
            invariant
                0 <= i <= 64,
                forall|j: int| 0 <= j < i ==> self.0@[j] == other.0@[j],
            decreases 64 - i,
        {
            if self.0[i] != other.0[i] {
                return false;
            }
            i = i + 1;
        }
        proof {
            assert(self.0@ =~= other.0@);
        }
        true
    }
}

pub proof fn lemma_pow256_15()
    ensures
        pow256(15) == 0x1000000000000000000000000000000,
{
    reveal_with_fuel(pow256, 16);
}

pub proof fn lemma_pow256_monotonic(m: nat, n: nat)
    requires
        m <= n,
    ensures
        pow256(m) <= pow256(n),
    decreases n,
{
    if m < n {
        lemma_pow256_monotonic(m, (n - 1) as nat);
        assert(pow256(n) == 256 * pow256((n - 1) as nat));
    }
}

/// Integer milliseconds since a fixed epoch; validated only for monotonicity.
#[derive(Clone, Copy, Debug, PartialEq, Eq, PartialOrd, Ord, Hash)]
pub struct Timestamp(pub u64);

impl View for Timestamp {
    type V = u64;

    open spec fn view(&self) -> u64 {
        self.0
    }
}

impl Timestamp {
    pub fn bytes(&self) -> (r: [u8; 8])
        ensures
            r@ == u64_le_bytes(self.0),
    {
        self.0.bytes()
    }
}

pub open spec fn u16_byte(x: u16, i: int) -> u8 {
    (x >> ((8 * i) as u16)) as u8
}

/// Little-endian byte expansion of a 16-bit unsigned integer.
pub open spec fn u16_le_bytes(x: u16) -> Seq<u8> {
    Seq::new(2, |i: int| u16_byte(x, i))
}

pub open spec fn u32_byte(x: u32, i: int) -> u8 {
    (x >> ((8 * i) as u32)) as u8
}

/// Little-endian byte expansion of a 32-bit unsigned integer.
pub open spec fn u32_le_bytes(x: u32) -> Seq<u8> {
    Seq::new(4, |i: int| u32_byte(x, i))
}

pub open spec fn u64_byte(x: u64, i: int) -> u8 {
    (x >> ((8 * i) as u64)) as u8
}

/// Little-endian byte expansion of a 64-bit unsigned integer.
pub open spec fn u64_le_bytes(x: u64) -> Seq<u8> {
    Seq::new(8, |i: int| u64_byte(x, i))
}

pub open spec fn u128_byte(x: u128, i: int) -> u8 {
    (x >> ((8 * i) as u128)) as u8
}

/// Little-endian byte expansion of a 128-bit unsigned integer.
pub open spec fn u128_le_bytes(x: u128) -> Seq<u8> {
    Seq::new(16, |i: int| u128_byte(x, i))
}

pub trait Int16Ext {
    fn bytes(self) -> [u8; 2];
}

impl Int16Ext for u16 {
    fn bytes(self) -> (r: [u8; 2])
        ensures
            r@ == u16_le_bytes(self),
    {
        let r = [(self >> (8 * 0u16)) as u8, (self >> (8 * 1u16)) as u8];
        proof {
            assert(r@ =~= u16_le_bytes(self));
        }
        r
    }
}

pub trait Int32Ext {
    fn bytes(self) -> [u8; 4];
}

impl Int32Ext for u32 {
    fn bytes(self) -> (r: [u8; 4])
        ensures
            r@ == u32_le_bytes(self),
    {
        let r = [
            (self >> (8 * 0u32)) as u8,
            (self >> (8 * 1u32)) as u8,
            (self >> (8 * 2u32)) as u8,
            (self >> (8 * 3u32)) as u8,
        ];
        proof {
            assert(r@ =~= u32_le_bytes(self));
        }
        r
    }
}

pub trait Int64Ext {
    fn bytes(self) -> [u8; 8];
}

impl Int64Ext for u64 {
    fn bytes(self) -> (r: [u8; 8])
        ensures
            r@ == u64_le_bytes(self),
    {
        let r = [
            (self >> (8 * 0u64)) as u8,
            (self >> (8 * 1u64)) as u8,
            (self >> (8 * 2u64)) as u8,
            (self >> (8 * 3u64)) as u8,
            (self >> (8 * 4u64)) as u8,
            (self >> (8 * 5u64)) as u8,
            (self >> (8 * 6u64)) as u8,
            (self >> (8 * 7u64)) as u8,
        ];
        proof {
            assert(r@ =~= u64_le_bytes(self));
        }
        r
    }
}

pub trait Int128Ext {
    fn bytes(self) -> [u8; 16];
}

impl Int128Ext for u128 {
    fn bytes(self) -> (r: [u8; 16])
        ensures
            r@ == u128_le_bytes(self),
    {
        let r = [
            (self >> (8 * 0u128)) as u8,
            (self >> (8 * 1u128)) as u8,
            (self >> (8 * 2u128)) as u8,
            (self >> (8 * 3u128)) as u8,
            (self >> (8 * 4u128)) as u8,
            (self >> (8 * 5u128)) as u8,
            (self >> (8 * 6u128)) as u8,
            (self >> (8 * 7u128)) as u8,
            (self >> (8 * 8u128)) as u8,
            (self >> (8 * 9u128)) as u8,
            (self >> (8 * 10u128)) as u8,
            (self >> (8 * 11u128)) as u8,
            (self >> (8 * 12u128)) as u8,
            (self >> (8 * 13u128)) as u8,
            (self >> (8 * 14u128)) as u8,
            (self >> (8 * 15u128)) as u8,
        ];
        proof {
            assert(r@ =~= u128_le_bytes(self));
        }
        r
    }
}

/// A value with a canonical, deterministic byte expansion, identified by the
/// digest of that expansion.
pub trait Hashable {
    /// The canonical byte expansion fed to the digest primitive.
    spec fn digest_bytes(&self) -> Seq<u8>;

    /// The digest of the canonical byte expansion.
    fn hash(&self) -> (h: Hash)
        ensures
            h@ == hash_of(self.digest_bytes()),
    ;
}

/// Relies on blake2::Blake2b512 (through digest::Digest::digest): the 64-byte
/// BLAKE2b digest of the input bytes, a pure function of those bytes alone.
#[verifier::external_body]
pub(crate) fn blake2b_digest(data: &Vec<u8>) -> (h: Hash)
    ensures
        h@ == hash_of(data@),
{
    let out = blake2::Blake2b512::digest(data.as_slice());
    let mut bytes = [0u8; 64];
    bytes.copy_from_slice(&out);
    Hash(bytes)
}

/// Appends a byte slice to a byte buffer.
pub fn push_bytes(buf: &mut Vec<u8>, s: &[u8])
    ensures
        final(buf)@ == old(buf)@ + s@,
{
    let n = s.len();
    let mut i: usize = 0;
    while i < n
        invariant
            0 <= i <= n,
            n == s@.len(),
            buf@ == old(buf)@ + s@.subrange(0, i as int),
        decreases n - i,
    {
        buf.push(s[i]);
        proof {
            assert(s@.subrange(0, i + 1) =~= s@.subrange(0, i as int).push(s@[i as int]));
            assert(buf@ =~= old(buf)@ + s@.subrange(0, i + 1));
        }
        i = i + 1;
    }
    proof {
        assert(s@.subrange(0, n as int) =~= s@);
    }
}

/// Appends the little-endian bytes of a 64-bit integer to a byte buffer.
pub fn push_u64_le(buf: &mut Vec<u8>, x: u64)
    ensures
        final(buf)@ == old(buf)@ + u64_le_bytes(x),
{
    let bytes = x.bytes();
    let mut i: usize = 0;
    while i < 8
        invariant
            0 <= i <= 8,
            bytes@ == u64_le_bytes(x),
            buf@ == old(buf)@ + u64_le_bytes(x).subrange(0, i as int),
        decreases 8 - i,
    {
        buf.push(bytes[i]);
        proof {
            assert(u64_le_bytes(x).subrange(0, i + 1) =~= u64_le_bytes(x).subrange(0, i as int).push(
                bytes@[i as int],
            ));
            assert(buf@ =~= old(buf)@ + u64_le_bytes(x).subrange(0, i + 1));
        }
        i = i + 1;
    }
    proof {
        assert(u64_le_bytes(x).subrange(0, 8) =~= u64_le_bytes(x));
    }
}

/// Appends the little-endian bytes of a 128-bit integer to a byte buffer.
pub fn push_u128_le(buf: &mut Vec<u8>, x: u128)
    ensures
        final(buf)@ == old(buf)@ + u128_le_bytes(x),
{
    let bytes = x.bytes();
    let mut i: usize = 0;
    while i < 16
        invariant
            0 <= i <= 16,
            bytes@ == u128_le_bytes(x),
            buf@ == old(buf)@ + u128_le_bytes(x).subrange(0, i as int),
        decreases 16 - i,
    {
        buf.push(bytes[i]);
        proof {
            assert(u128_le_bytes(x).subrange(0, i + 1) =~= u128_le_bytes(x).subrange(
                0,
                i as int,
            ).push(bytes@[i as int]));
            assert(buf@ =~= old(buf)@ + u128_le_bytes(x).subrange(0, i + 1));
        }
        i = i + 1;
    }
    proof {
        assert(u128_le_bytes(x).subrange(0, 16) =~= u128_le_bytes(x));
    }
}

} // verus!
