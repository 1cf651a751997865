//! Big-endian field access on byte buffers.
use byteorder::{BigEndian, ByteOrder};
use vstd::prelude::*;

verus! {

/// The big-endian 16-bit value stored at `s[p..p + 2]`.
pub open spec fn be16(s: Seq<u8>, p: int) -> int {
    s[p] as int * 256 + s[p + 1] as int
}

/// The big-endian 32-bit value stored at `s[p..p + 4]`.
pub open spec fn be32(s: Seq<u8>, p: int) -> int {
    be16(s, p) * 65536 + be16(s, p + 2)
}

/// The big-endian 128-bit value stored at `s[p..p + 16]`.
pub open spec fn be128(s: Seq<u8>, p: int) -> int {
    ((be32(s, p) * 4294967296 + be32(s, p + 4)) * 4294967296 + be32(s, p + 8)) * 4294967296 + be32(s, p + 12)
}

/// byteorder's `<BigEndian as ByteOrder>::read_u16`: the first two bytes of
/// `buf` read as a big-endian integer (it panics on a shorter buffer, which
/// `requires` rules out).
#[verifier::external_body]
fn read_be_u16(buf: &[u8]) -> (v: u16)
    requires
        buf@.len() >= 2,
    ensures
        v == be16(buf@, 0),
{
    BigEndian::read_u16(buf)
}

/// byteorder's `<BigEndian as ByteOrder>::read_u32`: the first four bytes of
/// `buf` read as a big-endian integer (it panics on a shorter buffer, which
/// `requires` rules out).
#[verifier::external_body]
fn read_be_u32(buf: &[u8]) -> (v: u32)
    requires
        buf@.len() >= 4,
    ensures
        v == be32(buf@, 0),
{
    BigEndian::read_u32(buf)
}

/// byteorder's `<BigEndian as ByteOrder>::read_u128`: the first sixteen
/// bytes of `buf` read as a big-endian integer (it panics on a shorter
/// buffer, which `requires` rules out).
#[verifier::external_body]
fn read_be_u128(buf: &[u8]) -> (v: u128)
    requires
        buf@.len() >= 16,
    ensures
        v == be128(buf@, 0),
{
    BigEndian::read_u128(buf)
}

/// The big-endian 16-bit field at `data[pos..pos + 2]`.
pub fn get_u16(data: &[u8], pos: usize) -> (v: u16)
    requires
        pos + 2 <= data@.len(),
    ensures
        v == be16(data@, pos as int),
{
    let _n = data.len();
    let field = &data[pos..pos + 2];
    let v = read_be_u16(field);
    assert(field@[0] == data@[pos as int] && field@[1] == data@[pos + 1]);
    v
}

/// The big-endian 32-bit field at `data[pos..pos + 4]`.
pub fn get_u32(data: &[u8], pos: usize) -> (v: u32)
    requires
        pos + 4 <= data@.len(),
    ensures
        v == be32(data@, pos as int),
{
    let _n = data.len();
    let field = &data[pos..pos + 4];
    let v = read_be_u32(field);
    assert(field@[0] == data@[pos as int] && field@[1] == data@[pos + 1]);
    assert(field@[2] == data@[pos + 2] && field@[3] == data@[pos + 3]);
    v
}

/// The big-endian 128-bit field at `data[pos..pos + 16]`.
pub fn get_u128(data: &[u8], pos: usize) -> (v: u128)
    requires
        pos + 16 <= data@.len(),
    ensures
        v == be128(data@, pos as int),
{
    let _n = data.len();
    let field = &data[pos..pos + 16];
    let v = read_be_u128(field);
    assert(field@.subrange(0, 16) =~= data@.subrange(pos as int, pos + 16));
    assert forall|i: int| 0 <= i < 16 implies field@[i] == data@[pos + i] by {}
    v
}

} // verus!
