//! Little-endian integers at fixed positions of a byte buffer.

use byteorder::{ByteOrder, LittleEndian};
use vstd::prelude::*;

verus! {

/// The `n` bytes that hold `v` least significant first.
pub open spec fn le_bytes(v: nat, n: nat) -> Seq<u8>
    decreases n,
{
    if n == 0 {
        Seq::empty()
    } else {
        seq![(v % 256) as u8] + le_bytes(v / 256, (n - 1) as nat)
    }
}

/// The number that `b` holds least significant byte first.
pub open spec fn le_val(b: Seq<u8>) -> nat
    decreases b.len(),
{
    if b.len() == 0 {
        0
    } else {
        (b[0] as nat + 256 * le_val(b.drop_first())) as nat
    }
}

/// `b` with the bytes from `pos` on replaced by `part`.
pub open spec fn splice(b: Seq<u8>, pos: int, part: Seq<u8>) -> Seq<u8> {
    b.take(pos) + part + b.skip(pos + part.len())
}

pub open spec fn pow256(n: nat) -> nat
    decreases n,
{
    if n == 0 {
        1
    } else {
        256 * pow256((n - 1) as nat)
    }
}

pub proof fn lemma_pow256_values()
    ensures
        pow256(1) == 0x100,
        pow256(2) == 0x1_0000,
        pow256(4) == 0x1_0000_0000,
        pow256(8) == 0x1_0000_0000_0000_0000,
{
    assert(pow256(0) == 1);
    assert(pow256(1) == 0x100);
    assert(pow256(2) == 0x1_0000);
    assert(pow256(3) == 0x100_0000);
    assert(pow256(4) == 0x1_0000_0000);
    assert(pow256(5) == 0x100_0000_0000);
    assert(pow256(6) == 0x1_0000_0000_0000);
    assert(pow256(7) == 0x100_0000_0000_0000);
    assert(pow256(8) == 0x1_0000_0000_0000_0000);
}

pub proof fn lemma_le_bytes_len(v: nat, n: nat)
    ensures
        le_bytes(v, n).len() == n,
    decreases n,
{
    if n > 0 {
        lemma_le_bytes_len(v / 256, (n - 1) as nat);
    }
}

/// Reading back the bytes of a number that fits gives the number.
pub proof fn lemma_le_round_trip(v: nat, n: nat)
    requires
        v < pow256(n),
    ensures
        le_val(le_bytes(v, n)) == v,
        le_bytes(v, n).len() == n,
    decreases n,
{
    lemma_le_bytes_len(v, n);
    if n > 0 {
        let b = le_bytes(v, n);
        assert(v / 256 < pow256((n - 1) as nat));
        lemma_le_round_trip(v / 256, (n - 1) as nat);
        assert(b.drop_first() =~= le_bytes(v / 256, (n - 1) as nat));
        assert(b[0] as nat == v % 256);
    }
}

/// Relies on byteorder's `LittleEndian::read_u16`: the first two bytes of the
/// slice, least significant first.
#[verifier::external_body]
pub(crate) fn read_u16_at(b: &[u8], pos: usize) -> (r: u16)
    requires
        pos + 2 <= b@.len(),
    ensures
        r as nat == le_val(b@.subrange(pos as int, pos + 2)),
{
    LittleEndian::read_u16(&b[pos..pos + 2])
}

/// Relies on byteorder's `LittleEndian::read_u32`: the first four bytes of the
/// slice, least significant first.
#[verifier::external_body]
pub(crate) fn read_u32_at(b: &[u8], pos: usize) -> (r: u32)
    requires
        pos + 4 <= b@.len(),
    ensures
        r as nat == le_val(b@.subrange(pos as int, pos + 4)),
{
    LittleEndian::read_u32(&b[pos..pos + 4])
}

/// Relies on byteorder's `LittleEndian::read_u64`: the first eight bytes of the
/// slice, least significant first.
#[verifier::external_body]
pub(crate) fn read_u64_at(b: &[u8], pos: usize) -> (r: u64)
    requires
        pos + 8 <= b@.len(),
    ensures
        r as nat == le_val(b@.subrange(pos as int, pos + 8)),
{
    LittleEndian::read_u64(&b[pos..pos + 8])
}

/// Relies on byteorder's `LittleEndian::write_u16`: the two bytes of `v`,
/// least significant first, at the start of the slice.
#[verifier::external_body]
pub(crate) fn write_u16_at(b: &mut Vec<u8>, pos: usize, v: u16)
    requires
        pos + 2 <= old(b)@.len(),
    ensures
        final(b)@ == splice(old(b)@, pos as int, le_bytes(v as nat, 2)),
{
    LittleEndian::write_u16(&mut b[pos..pos + 2], v)
}

/// Relies on byteorder's `LittleEndian::write_u32`: the four bytes of `v`,
/// least significant first, at the start of the slice.
#[verifier::external_body]
pub(crate) fn write_u32_at(b: &mut Vec<u8>, pos: usize, v: u32)
    requires
        pos + 4 <= old(b)@.len(),
    ensures
        final(b)@ == splice(old(b)@, pos as int, le_bytes(v as nat, 4)),
{
    LittleEndian::write_u32(&mut b[pos..pos + 4], v)
}

/// Relies on byteorder's `LittleEndian::write_u64`: the eight bytes of `v`,
/// least significant first, at the start of the slice.
#[verifier::external_body]
pub(crate) fn write_u64_at(b: &mut Vec<u8>, pos: usize, v: u64)
    requires
        pos + 8 <= old(b)@.len(),
    ensures
        final(b)@ == splice(old(b)@, pos as int, le_bytes(v as nat, 8)),
{
    LittleEndian::write_u64(&mut b[pos..pos + 8], v)
}

/// A buffer of `n` zero bytes.
pub fn zeros(n: usize) -> (r: Vec<u8>)
    ensures
        r@ == Seq::new(n as nat, |i: int| 0u8),
{
    let mut r: Vec<u8> = Vec::with_capacity(n);
    let mut i: usize = 0;
    while i < n
        invariant
            i <= n,
            r@ == Seq::new(i as nat, |k: int| 0u8),
        decreases n - i,
    {
        r.push(0u8);
        i += 1;
        assert(r@ =~= Seq::new(i as nat, |k: int| 0u8));
    }
    r
}

/// The two bytes of `v`, least significant first.
pub fn u16_bytes(v: u16) -> (r: Vec<u8>)
    ensures
        r@ == le_bytes(v as nat, 2),
{
    let mut r = zeros(2);
    write_u16_at(&mut r, 0, v);
    proof {
        lemma_le_bytes_len(v as nat, 2);
        assert(r@ =~= le_bytes(v as nat, 2));
    }
    r
}

/// The four bytes of `v`, least significant first.
pub fn u32_bytes(v: u32) -> (r: Vec<u8>)
    ensures
        r@ == le_bytes(v as nat, 4),
{
    let mut r = zeros(4);
    write_u32_at(&mut r, 0, v);
    proof {
        lemma_le_bytes_len(v as nat, 4);
        assert(r@ =~= le_bytes(v as nat, 4));
    }
    r
}

/// The eight bytes of `v`, least significant first.
pub fn u64_bytes(v: u64) -> (r: Vec<u8>)
    ensures
        r@ == le_bytes(v as nat, 8),
{
    let mut r = zeros(8);
    write_u64_at(&mut r, 0, v);
    proof {
        lemma_le_bytes_len(v as nat, 8);
        assert(r@ =~= le_bytes(v as nat, 8));
    }
    r
}

} // verus!
