//! Little-endian integers inside byte blocks.
//!
//! Every on-disk record is made of `u32` and `u64` fields stored little-endian
//! at fixed byte offsets of a 512-byte block. The functions here read and
//! write such fields, and the lemmas say how a write at one offset shows in a
//! later read at the same or at another offset.
use vstd::prelude::*;

verus! {

/// The four bytes of `x`, lowest first.
#[verifier::opaque]
pub open spec fn spec_u32_to_le_bytes(x: u32) -> Seq<u8> {
    seq![
        (x % 256) as u8,
        ((x / 256) % 256) as u8,
        ((x / 65536) % 256) as u8,
        (x / 16777216) as u8,
    ]
}

/// The number whose four bytes, lowest first, are the first four of `s`.
#[verifier::opaque]
pub open spec fn spec_u32_from_le_bytes(s: Seq<u8>) -> u32 {
    (s[0] + s[1] * 256 + s[2] * 65536 + s[3] * 16777216) as u32
}

/// The eight bytes of `x`, lowest first.
#[verifier::opaque]
pub open spec fn spec_u64_to_le_bytes(x: u64) -> Seq<u8> {
    spec_u32_to_le_bytes((x % 4294967296) as u32) + spec_u32_to_le_bytes((x / 4294967296) as u32)
}

/// The number whose eight bytes, lowest first, are the first eight of `s`.
#[verifier::opaque]
pub open spec fn spec_u64_from_le_bytes(s: Seq<u8>) -> u64 {
    (spec_u32_from_le_bytes(s.subrange(0, 4)) + spec_u32_from_le_bytes(s.subrange(4, 8))
        * 4294967296) as u64
}

/// A `u32` is the sum of its four bytes, each at its place.
proof fn lemma_u32_split(x: u32)
    ensures
        x == (x % 256) + ((x / 256) % 256) * 256 + ((x / 65536) % 256) * 65536 + (x / 16777216)
            * 16777216,
        x / 16777216 < 256,
{
    assert(x == (x % 256) + ((x / 256) % 256) * 256 + ((x / 65536) % 256) * 65536 + (x / 16777216)
        * 16777216 && x / 16777216 < 256) by (bit_vector);
}

/// The four bytes of a sum of bytes, each at its place, are these bytes.
proof fn lemma_u32_join(b0: u8, b1: u8, b2: u8, b3: u8, v: u32)
    requires
        v == b0 + b1 * 256 + b2 * 65536 + b3 * 16777216,
    ensures
        v % 256 == b0,
        (v / 256) % 256 == b1,
        (v / 65536) % 256 == b2,
        v / 16777216 == b3,
{
    assert(v % 256 == b0 && (v / 256) % 256 == b1 && (v / 65536) % 256 == b2 && v / 16777216 == b3)
        by (bit_vector)
        requires
            v == b0 + b1 * 256 + b2 * 65536 + b3 * 16777216,
    ;
}

/// Four bytes stand for one `u32`, and each `u32` for four bytes.
pub proof fn lemma_u32_le(x: u32, s: Seq<u8>)
    ensures
        spec_u32_to_le_bytes(x).len() == 4,
        spec_u32_from_le_bytes(spec_u32_to_le_bytes(x)) == x,
        s.len() == 4 ==> spec_u32_to_le_bytes(spec_u32_from_le_bytes(s)) == s,
{
    reveal(spec_u32_to_le_bytes);
    reveal(spec_u32_from_le_bytes);
    lemma_u32_split(x);
    if s.len() == 4 {
        let v = spec_u32_from_le_bytes(s);
        lemma_u32_join(s[0], s[1], s[2], s[3], v);
        assert(spec_u32_to_le_bytes(v) =~= s);
    }
}

/// Eight bytes stand for one `u64`, and each `u64` for eight bytes.
pub proof fn lemma_u64_le(x: u64, s: Seq<u8>)
    ensures
        spec_u64_to_le_bytes(x).len() == 8,
        spec_u64_from_le_bytes(spec_u64_to_le_bytes(x)) == x,
        s.len() == 8 ==> spec_u64_to_le_bytes(spec_u64_from_le_bytes(s)) == s,
{
    reveal(spec_u64_to_le_bytes);
    reveal(spec_u64_from_le_bytes);
    let lo = (x % 4294967296) as u32;
    let hi = (x / 4294967296) as u32;
    lemma_u32_le(lo, Seq::empty());
    lemma_u32_le(hi, Seq::empty());
    let enc = spec_u64_to_le_bytes(x);
    assert(enc.subrange(0, 4) =~= spec_u32_to_le_bytes(lo));
    assert(enc.subrange(4, 8) =~= spec_u32_to_le_bytes(hi));
    if s.len() == 8 {
        let a = s.subrange(0, 4);
        let b = s.subrange(4, 8);
        lemma_u32_le(0, a);
        lemma_u32_le(0, b);
        let v = spec_u64_from_le_bytes(s);
        let va = spec_u32_from_le_bytes(a);
        let vb = spec_u32_from_le_bytes(b);
        assert(v == va + vb * 4294967296);
        assert((v % 4294967296) as u32 == va);
        assert((v / 4294967296) as u32 == vb);
        assert(spec_u64_to_le_bytes(v) =~= a + b);
        assert(a + b =~= s);
    }
}

/// `lemma_u32_le` for all values at once.
pub proof fn lemma_auto_u32_le()
    ensures
        forall|x: u32|
            {
                &&& (#[trigger] spec_u32_to_le_bytes(x)).len() == 4
                &&& spec_u32_from_le_bytes(spec_u32_to_le_bytes(x)) == x
            },
        forall|s: Seq<u8>|
            s.len() == 4 ==> #[trigger] spec_u32_to_le_bytes(spec_u32_from_le_bytes(s)) == s,
{
    assert forall|x: u32|
        {
            &&& (#[trigger] spec_u32_to_le_bytes(x)).len() == 4
            &&& spec_u32_from_le_bytes(spec_u32_to_le_bytes(x)) == x
        } by {
        lemma_u32_le(x, Seq::empty());
    }
    assert forall|s: Seq<u8>| s.len() == 4 implies #[trigger] spec_u32_to_le_bytes(
        spec_u32_from_le_bytes(s),
    ) == s by {
        lemma_u32_le(0, s);
    }
}

/// `lemma_u64_le` for all values at once.
pub proof fn lemma_auto_u64_le()
    ensures
        forall|x: u64|
            {
                &&& (#[trigger] spec_u64_to_le_bytes(x)).len() == 8
                &&& spec_u64_from_le_bytes(spec_u64_to_le_bytes(x)) == x
            },
        forall|s: Seq<u8>|
            s.len() == 8 ==> #[trigger] spec_u64_to_le_bytes(spec_u64_from_le_bytes(s)) == s,
{
    assert forall|x: u64|
        {
            &&& (#[trigger] spec_u64_to_le_bytes(x)).len() == 8
            &&& spec_u64_from_le_bytes(spec_u64_to_le_bytes(x)) == x
        } by {
        lemma_u64_le(x, Seq::empty());
    }
    assert forall|s: Seq<u8>| s.len() == 8 implies #[trigger] spec_u64_to_le_bytes(
        spec_u64_from_le_bytes(s),
    ) == s by {
        lemma_u64_le(0, s);
    }
}

/// The `u32` of four zero bytes is 0, and so is the `u64` of eight.
pub proof fn lemma_zero_le(s: Seq<u8>)
    requires
        forall|i: int| 0 <= i < s.len() ==> s[i] == 0,
    ensures
        s.len() >= 4 ==> spec_u32_from_le_bytes(s) == 0,
        s.len() >= 8 ==> spec_u64_from_le_bytes(s) == 0,
        spec_u32_to_le_bytes(0) == seq![0u8, 0u8, 0u8, 0u8],
{
    reveal(spec_u32_to_le_bytes);
    reveal(spec_u32_from_le_bytes);
    reveal(spec_u64_from_le_bytes);
    if s.len() >= 8 {
        assert(spec_u32_from_le_bytes(s.subrange(0, 4)) == 0);
        assert(spec_u32_from_le_bytes(s.subrange(4, 8)) == 0);
    }
    assert(spec_u32_to_le_bytes(0) =~= seq![0u8, 0u8, 0u8, 0u8]);
}

/// The number stored in the first four bytes of `s`.
pub fn u32_from_le_bytes(s: &[u8]) -> (x: u32)
    requires
        s@.len() >= 4,
    ensures
        x == spec_u32_from_le_bytes(s@),
{
    proof {
        reveal(spec_u32_from_le_bytes);
    }
    let b0: u32 = s[0] as u32;
    let b1: u32 = s[1] as u32;
    let b2: u32 = s[2] as u32;
    let b3: u32 = s[3] as u32;
    b0 + b1 * 256 + b2 * 65536 + b3 * 16777216
}

/// The four bytes of `x`, lowest first.
pub fn u32_to_le_bytes(x: u32) -> (s: Vec<u8>)
    ensures
        s@ == spec_u32_to_le_bytes(x),
        s@.len() == 4,
{
    proof {
        reveal(spec_u32_to_le_bytes);
        lemma_u32_split(x);
    }
    let mut s: Vec<u8> = Vec::new();
    s.push((x % 256) as u8);
    s.push(((x / 256) % 256) as u8);
    s.push(((x / 65536) % 256) as u8);
    s.push((x / 16777216) as u8);
    assert(s@ =~= spec_u32_to_le_bytes(x));
    s
}

/// The number stored in the first eight bytes of `s`.
pub fn u64_from_le_bytes(s: &[u8]) -> (x: u64)
    requires
        s@.len() >= 8,
    ensures
        x == spec_u64_from_le_bytes(s@),
{
    proof {
        reveal(spec_u64_from_le_bytes);
    }
    let total: usize = s.len();
    let lo: u64 = u32_from_le_bytes(vstd::slice::slice_subrange(s, 0, 4)) as u64;
    let hi: u64 = u32_from_le_bytes(vstd::slice::slice_subrange(s, 4, 8)) as u64;
    lo + hi * 4294967296
}

/// The eight bytes of `x`, lowest first.
pub fn u64_to_le_bytes(x: u64) -> (s: Vec<u8>)
    ensures
        s@ == spec_u64_to_le_bytes(x),
        s@.len() == 8,
{
    proof {
        reveal(spec_u64_to_le_bytes);
    }
    let mut s: Vec<u8> = u32_to_le_bytes((x % 4294967296) as u32);
    let hi: Vec<u8> = u32_to_le_bytes((x / 4294967296) as u32);
    s.extend_from_slice(hi.as_slice());
    s
}

/// `block` with the bytes from `off` on replaced by `data`.
pub open spec fn spec_splice(block: Seq<u8>, off: int, data: Seq<u8>) -> Seq<u8> {
    Seq::new(
        block.len(),
        |i: int|
            if off <= i < off + data.len() {
                data[i - off]
            } else {
                block[i]
            },
    )
}

/// The `u32` stored little-endian at byte offset `off` of `block`.
pub open spec fn spec_get_u32(block: Seq<u8>, off: int) -> u32 {
    spec_u32_from_le_bytes(block.subrange(off, off + 4))
}

/// `block` with `v` stored little-endian at byte offset `off`.
pub open spec fn spec_set_u32(block: Seq<u8>, off: int, v: u32) -> Seq<u8> {
    spec_splice(block, off, spec_u32_to_le_bytes(v))
}

/// The `u64` stored little-endian at byte offset `off` of `block`.
pub open spec fn spec_get_u64(block: Seq<u8>, off: int) -> u64 {
    spec_u64_from_le_bytes(block.subrange(off, off + 8))
}

/// `block` with `v` stored little-endian at byte offset `off`.
pub open spec fn spec_set_u64(block: Seq<u8>, off: int, v: u64) -> Seq<u8> {
    spec_splice(block, off, spec_u64_to_le_bytes(v))
}

/// A sequence of `n` zero bytes.
pub open spec fn spec_zeros(n: nat) -> Seq<u8> {
    Seq::new(n, |i: int| 0u8)
}

/// Reading a `u32` back from where it was stored gives the stored value.
pub proof fn lemma_get_set_u32_same(block: Seq<u8>, off: int, v: u32)
    requires
        0 <= off,
        off + 4 <= block.len(),
    ensures
        spec_get_u32(spec_set_u32(block, off, v), off) == v,
        spec_set_u32(block, off, v).len() == block.len(),
{
    lemma_auto_u32_le();
    assert(spec_set_u32(block, off, v).subrange(off, off + 4) =~= spec_u32_to_le_bytes(v));
}

/// Storing a `u32` leaves every field that does not overlap it as it was.
pub proof fn lemma_get_set_u32_other(block: Seq<u8>, off: int, v: u32, other: int)
    requires
        0 <= off,
        off + 4 <= block.len(),
        0 <= other,
        other + 4 <= block.len(),
        other + 4 <= off || off + 4 <= other,
    ensures
        spec_get_u32(spec_set_u32(block, off, v), other) == spec_get_u32(block, other),
{
    lemma_auto_u32_le();
    assert(spec_set_u32(block, off, v).subrange(other, other + 4) =~= block.subrange(
        other,
        other + 4,
    ));
}

/// Reading a `u64` back from where it was stored gives the stored value.
pub proof fn lemma_get_set_u64_same(block: Seq<u8>, off: int, v: u64)
    requires
        0 <= off,
        off + 8 <= block.len(),
    ensures
        spec_get_u64(spec_set_u64(block, off, v), off) == v,
        spec_set_u64(block, off, v).len() == block.len(),
{
    lemma_auto_u64_le();
    assert(spec_set_u64(block, off, v).subrange(off, off + 8) =~= spec_u64_to_le_bytes(v));
}

/// Storing a `u64` leaves every field that does not overlap it as it was.
pub proof fn lemma_get_set_u64_other(block: Seq<u8>, off: int, v: u64, other: int)
    requires
        0 <= off,
        off + 8 <= block.len(),
        0 <= other,
        other + 8 <= block.len(),
        other + 8 <= off || off + 8 <= other,
    ensures
        spec_get_u64(spec_set_u64(block, off, v), other) == spec_get_u64(block, other),
{
    lemma_auto_u64_le();
    assert(spec_set_u64(block, off, v).subrange(other, other + 8) =~= block.subrange(
        other,
        other + 8,
    ));
}

/// Reads the `u32` at byte offset `off` of `bytes`.
pub fn get_u32(bytes: &[u8], off: usize) -> (v: u32)
    requires
        off + 4 <= bytes@.len(),
    ensures
        v == spec_get_u32(bytes@, off as int),
{
    let total: usize = bytes.len();
    assert(off + 4 <= total);
    u32_from_le_bytes(vstd::slice::slice_subrange(bytes, off, off + 4))
}

/// Reads the `u64` at byte offset `off` of `bytes`.
pub fn get_u64(bytes: &[u8], off: usize) -> (v: u64)
    requires
        off + 8 <= bytes@.len(),
    ensures
        v == spec_get_u64(bytes@, off as int),
{
    let total: usize = bytes.len();
    assert(off + 8 <= total);
    u64_from_le_bytes(vstd::slice::slice_subrange(bytes, off, off + 8))
}

/// Copies `src` over the bytes of `dst` that start at `off`.
pub fn splice(dst: &mut [u8], off: usize, src: &[u8])
    requires
        off + src@.len() <= old(dst)@.len(),
    ensures
        final(dst)@ == spec_splice(old(dst)@, off as int, src@),
{
    let n: usize = src.len();
    let total: usize = dst.len();
    let mut i: usize = 0;
    while i < n
        invariant
            n == src@.len(),
            total == dst@.len(),
            i <= n,
            off + n <= dst@.len(),
            dst@.len() == old(dst)@.len(),
            dst@ == spec_splice(old(dst)@, off as int, src@.subrange(0, i as int)),
        decreases n - i,
    {
        dst[off + i] = src[i];
        i += 1;
        assert(dst@ =~= spec_splice(old(dst)@, off as int, src@.subrange(0, i as int)));
    }
    assert(src@.subrange(0, n as int) =~= src@);
    assert(old(dst)@ =~= spec_splice(old(dst)@, off as int, src@.subrange(0, 0)));
}

/// Stores `v` little-endian at byte offset `off` of `bytes`.
pub fn set_u32(bytes: &mut [u8], off: usize, v: u32)
    requires
        off + 4 <= old(bytes)@.len(),
    ensures
        final(bytes)@ == spec_set_u32(old(bytes)@, off as int, v),
{
    let le = u32_to_le_bytes(v);
    splice(bytes, off, le.as_slice());
}

/// Stores `v` little-endian at byte offset `off` of `bytes`.
pub fn set_u64(bytes: &mut [u8], off: usize, v: u64)
    requires
        off + 8 <= old(bytes)@.len(),
    ensures
        final(bytes)@ == spec_set_u64(old(bytes)@, off as int, v),
{
    let le = u64_to_le_bytes(v);
    splice(bytes, off, le.as_slice());
}

} // verus!
