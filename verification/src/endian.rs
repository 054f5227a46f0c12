//! Little-endian 32-bit fields, as the record header holds them.

use byteorder::{LittleEndian, ReadBytesExt, WriteBytesExt};
use vstd::prelude::*;

verus! {

/// The four bytes of `n`, least significant first.
#[verifier::opaque]
pub open spec fn le_bytes(n: u32) -> Seq<u8> {
    seq![
        (n as int % 256) as u8,
        (n as int / 256 % 256) as u8,
        (n as int / 65536 % 256) as u8,
        (n as int / 16777216) as u8,
    ]
}

/// The eight bytes of `n`, least significant first.
pub open spec fn le_bytes_u64(n: u64) -> Seq<u8> {
    seq![
        (n as int % 256) as u8,
        (n as int / 0x100 % 256) as u8,
        (n as int / 0x1_0000 % 256) as u8,
        (n as int / 0x100_0000 % 256) as u8,
        (n as int / 0x1_0000_0000 % 256) as u8,
        (n as int / 0x100_0000_0000 % 256) as u8,
        (n as int / 0x1_0000_0000_0000 % 256) as u8,
        (n as int / 0x100_0000_0000_0000) as u8,
    ]
}

/// The number whose little-endian bytes are the first four of `b`.
#[verifier::opaque]
pub open spec fn le_value(b: Seq<u8>) -> u32 {
    (b[0] as int + b[1] as int * 256 + b[2] as int * 65536 + b[3] as int * 16777216) as u32
}

/// Reading back what was written gives the number that was written.
pub proof fn lemma_le_round_trip(n: u32)
    ensures
        le_bytes(n).len() == 4,
        le_value(le_bytes(n)) == n,
{
    reveal(le_bytes);
    reveal(le_value);
}

/// Calls `byteorder::WriteBytesExt::write_u32::<LittleEndian>` on the vector.
///
/// Not proved: that the call appends the four bytes of `n`, least significant
/// first, and leaves the bytes before them as they were. Writing to a vector
/// does not fail, so the call's result carries nothing.
#[verifier::external_body]
pub(crate) fn write_u32_le(out: &mut Vec<u8>, n: u32)
    ensures
        final(out)@ == old(out)@ + le_bytes(n),
{
    let _ = out.write_u32::<LittleEndian>(n);
}

/// Calls `byteorder::ReadBytesExt::read_u32::<LittleEndian>` on the bytes of
/// `src` from `at` on.
///
/// Not proved: that the call yields the number held in the four bytes at
/// `at`, and fails exactly when fewer than four bytes are left.
#[verifier::external_body]
pub(crate) fn read_u32_le(src: &[u8], at: usize) -> (n: Option<u32>)
    requires
        at <= src@.len(),
    ensures
        n == if at + 4 <= src@.len() {
            Some(le_value(src@.subrange(at as int, at + 4)))
        } else {
            None
        },
{
    let mut rest = &src[at..];
    rest.read_u32::<LittleEndian>().ok()
}

} // verus!
