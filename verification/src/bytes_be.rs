//! Big-endian byte encodings of the fixed-width integers used on the wire,
//! with round-trip lemmas connecting the encoders and the decoders.

use vstd::prelude::*;

verus! {

/// Big-endian bytes of a `u16`.
pub open spec fn u16_be_bytes(x: u16) -> Seq<u8> {
    seq![(x >> 8) as u8, x as u8]
}

/// Big-endian bytes of a `u32`.
pub open spec fn u32_be_bytes(x: u32) -> Seq<u8> {
    seq![(x >> 24) as u8, (x >> 16) as u8, (x >> 8) as u8, x as u8]
}

/// Big-endian bytes of a `u64`.
pub open spec fn u64_be_bytes(x: u64) -> Seq<u8> {
    seq![
        (x >> 56) as u8,
        (x >> 48) as u8,
        (x >> 40) as u8,
        (x >> 32) as u8,
        (x >> 24) as u8,
        (x >> 16) as u8,
        (x >> 8) as u8,
        x as u8,
    ]
}

/// Big-endian bytes of a `u128`.
pub open spec fn u128_be_bytes(x: u128) -> Seq<u8> {
    u64_be_bytes((x >> 64) as u64) + u64_be_bytes(x as u64)
}

/// The `u16` read from two big-endian bytes.
pub open spec fn u16_of_be(b0: u8, b1: u8) -> u16 {
    (((b0 as u16) << 8) | (b1 as u16)) as u16
}

/// The `u32` read from four big-endian bytes.
pub open spec fn u32_of_be(b0: u8, b1: u8, b2: u8, b3: u8) -> u32 {
    (((b0 as u32) << 24) | ((b1 as u32) << 16) | ((b2 as u32) << 8) | (b3 as u32)) as u32
}

/// The `u64` read from eight big-endian bytes.
pub open spec fn u64_of_be(b0: u8, b1: u8, b2: u8, b3: u8, b4: u8, b5: u8, b6: u8, b7: u8) -> u64 {
    (((b0 as u64) << 56) | ((b1 as u64) << 48) | ((b2 as u64) << 40) | ((b3 as u64) << 32)
        | ((b4 as u64) << 24) | ((b5 as u64) << 16) | ((b6 as u64) << 8) | (b7 as u64)) as u64
}

/// The `u16` read from the first two bytes of a sequence.
pub open spec fn seq_u16_be(b: Seq<u8>) -> u16 {
    u16_of_be(b[0], b[1])
}

/// The `u32` read from the first four bytes of a sequence.
pub open spec fn seq_u32_be(b: Seq<u8>) -> u32 {
    u32_of_be(b[0], b[1], b[2], b[3])
}

/// The `u64` read from the first eight bytes of a sequence.
pub open spec fn seq_u64_be(b: Seq<u8>) -> u64 {
    u64_of_be(b[0], b[1], b[2], b[3], b[4], b[5], b[6], b[7])
}

/// The `u128` read from the first sixteen bytes of a sequence.
pub open spec fn seq_u128_be(b: Seq<u8>) -> u128 {
    (((seq_u64_be(b) as u128) << 64) | (seq_u64_be(b.skip(8)) as u128)) as u128
}

pub proof fn lemma_u16_be_round_trip(x: u16)
    ensures
        u16_of_be((x >> 8) as u8, x as u8) == x,
{
    assert(u16_of_be((x >> 8) as u8, x as u8) == x) by (bit_vector);
}

pub proof fn lemma_u32_be_round_trip(x: u32)
    ensures
        u32_of_be((x >> 24) as u8, (x >> 16) as u8, (x >> 8) as u8, x as u8) == x,
{
    assert(u32_of_be((x >> 24) as u8, (x >> 16) as u8, (x >> 8) as u8, x as u8) == x)
        by (bit_vector);
}

pub proof fn lemma_u64_be_round_trip(x: u64)
    ensures
        u64_of_be(
            (x >> 56) as u8,
            (x >> 48) as u8,
            (x >> 40) as u8,
            (x >> 32) as u8,
            (x >> 24) as u8,
            (x >> 16) as u8,
            (x >> 8) as u8,
            x as u8,
        ) == x,
{
    assert(u64_of_be(
        (x >> 56) as u8,
        (x >> 48) as u8,
        (x >> 40) as u8,
        (x >> 32) as u8,
        (x >> 24) as u8,
        (x >> 16) as u8,
        (x >> 8) as u8,
        x as u8,
    ) == x) by (bit_vector);
}

pub proof fn lemma_u128_be_round_trip(x: u128)
    ensures
        seq_u128_be(u128_be_bytes(x)) == x,
{
    let hi = (x >> 64) as u64;
    let lo = x as u64;
    lemma_u64_be_round_trip(hi);
    lemma_u64_be_round_trip(lo);
    assert(u128_be_bytes(x).skip(8) =~= u64_be_bytes(lo));
    assert(seq_u64_be(u128_be_bytes(x)) == hi);
    assert(seq_u64_be(u128_be_bytes(x).skip(8)) == lo);
    assert(hi == (x >> 64) as u64 && lo == x as u64 ==> (((hi as u128) << 64) | (lo as u128))
        as u128 == x) by (bit_vector);
}

/// Append the big-endian bytes of a `u16`.
pub fn push_u16_be(out: &mut Vec<u8>, x: u16)
    ensures
        final(out)@ == old(out)@ + u16_be_bytes(x),
{
    out.push((x >> 8) as u8);
    out.push(x as u8);
    assert(out@ =~= old(out)@ + u16_be_bytes(x));
}

/// Append the big-endian bytes of a `u32`.
pub fn push_u32_be(out: &mut Vec<u8>, x: u32)
    ensures
        final(out)@ == old(out)@ + u32_be_bytes(x),
{
    out.push((x >> 24) as u8);
    out.push((x >> 16) as u8);
    out.push((x >> 8) as u8);
    out.push(x as u8);
    assert(out@ =~= old(out)@ + u32_be_bytes(x));
}

/// Append the big-endian bytes of a `u64`.
pub fn push_u64_be(out: &mut Vec<u8>, x: u64)
    ensures
        final(out)@ == old(out)@ + u64_be_bytes(x),
{
    out.push((x >> 56) as u8);
    out.push((x >> 48) as u8);
    out.push((x >> 40) as u8);
    out.push((x >> 32) as u8);
    out.push((x >> 24) as u8);
    out.push((x >> 16) as u8);
    out.push((x >> 8) as u8);
    out.push(x as u8);
    assert(out@ =~= old(out)@ + u64_be_bytes(x));
}

/// Append the big-endian bytes of a `u128`.
pub fn push_u128_be(out: &mut Vec<u8>, x: u128)
    ensures
        final(out)@ == old(out)@ + u128_be_bytes(x),
{
    push_u64_be(out, (x >> 64) as u64);
    push_u64_be(out, x as u64);
    assert(out@ =~= old(out)@ + u128_be_bytes(x));
}

/// Read a big-endian `u16` at `at`.
pub fn read_u16_be(data: &[u8], at: usize) -> (r: u16)
    requires
        at + 2 <= data@.len(),
    ensures
        r == seq_u16_be(data@.skip(at as int)),
{
    let r = ((data[at] as u16) << 8) | (data[at + 1] as u16);
    assert(data@.skip(at as int)[0] == data@[at as int]);
    assert(data@.skip(at as int)[1] == data@[at as int + 1]);
    r
}

/// Read a big-endian `u32` at `at`.
pub fn read_u32_be(data: &[u8], at: usize) -> (r: u32)
    requires
        at + 4 <= data@.len(),
    ensures
        r == seq_u32_be(data@.skip(at as int)),
{
    let r = ((data[at] as u32) << 24) | ((data[at + 1] as u32) << 16) | ((data[at + 2] as u32) << 8)
        | (data[at + 3] as u32);
    assert(forall|i: int| 0 <= i < 4 ==> data@.skip(at as int)[i] == data@[at as int + i]);
    r
}

/// Read a big-endian `u64` at `at`.
pub fn read_u64_be(data: &[u8], at: usize) -> (r: u64)
    requires
        at + 8 <= data@.len(),
    ensures
        r == seq_u64_be(data@.skip(at as int)),
{
    let r = ((data[at] as u64) << 56) | ((data[at + 1] as u64) << 48) | ((data[at + 2] as u64) << 40)
        | ((data[at + 3] as u64) << 32) | ((data[at + 4] as u64) << 24) | ((data[at + 5] as u64)
        << 16) | ((data[at + 6] as u64) << 8) | (data[at + 7] as u64);
    assert(forall|i: int| 0 <= i < 8 ==> data@.skip(at as int)[i] == data@[at as int + i]);
    r
}

/// Read a big-endian `u128` at `at`.
pub fn read_u128_be(data: &[u8], at: usize) -> (r: u128)
    requires
        at + 16 <= data@.len(),
    ensures
        r == seq_u128_be(data@.skip(at as int)),
{
    let n = data.len();
    assert(at + 16 <= n);
    let hi = read_u64_be(data, at);
    let lo = read_u64_be(data, at + 8);
    assert(data@.skip(at as int).skip(8) =~= data@.skip(at as int + 8));
    ((hi as u128) << 64) | (lo as u128)
}

} // verus!
