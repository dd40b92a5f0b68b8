//! Integers on the wire: little-endian fields appended to and read from byte
//! buffers.
//!
//! The conversions are those of the `byteorder` crate. What they produce is
//! stated over the little-endian byte sequences of `vstd::bytes`.

use vstd::prelude::*;
use vstd::bytes::{
    lemma_auto_spec_u16_to_from_le_bytes, lemma_auto_spec_u32_to_from_le_bytes,
    lemma_auto_spec_u64_to_from_le_bytes, spec_u16_from_le_bytes, spec_u16_to_le_bytes,
    spec_u32_from_le_bytes, spec_u32_to_le_bytes, spec_u64_from_le_bytes, spec_u64_to_le_bytes,
};
use byteorder::{ByteOrder, LittleEndian, WriteBytesExt};

verus! {

/// The four bytes of a 32-bit field.
pub open spec fn le_i32(v: i32) -> Seq<u8> {
    spec_u32_to_le_bytes(v as u32)
}

/// The two bytes of a 16-bit field.
pub open spec fn le_i16(v: i16) -> Seq<u8> {
    spec_u16_to_le_bytes(v as u16)
}

/// The eight bytes of a 64-bit field.
pub open spec fn le_u64(v: u64) -> Seq<u8> {
    spec_u64_to_le_bytes(v)
}

/// The 32-bit field that starts at `at`.
pub open spec fn i32_at(bytes: Seq<u8>, at: int) -> i32 {
    spec_u32_from_le_bytes(bytes.subrange(at, at + 4)) as i32
}

/// The 16-bit field that starts at `at`.
pub open spec fn i16_at(bytes: Seq<u8>, at: int) -> i16 {
    spec_u16_from_le_bytes(bytes.subrange(at, at + 2)) as i16
}

/// The 64-bit field that starts at `at`.
pub open spec fn u64_at(bytes: Seq<u8>, at: int) -> u64 {
    spec_u64_from_le_bytes(bytes.subrange(at, at + 8))
}

/// A field has the width of its type, and reading gives back what was
/// written.
pub proof fn lemma_fields()
    ensures
        forall|v: i32| #[trigger] le_i32(v).len() == 4,
        forall|v: i16| #[trigger] le_i16(v).len() == 2,
        forall|v: u64| #[trigger] le_u64(v).len() == 8,
        forall|v: i32| spec_u32_from_le_bytes(#[trigger] le_i32(v)) as i32 == v,
        forall|v: i16| spec_u16_from_le_bytes(#[trigger] le_i16(v)) as i16 == v,
        forall|v: u64| spec_u64_from_le_bytes(#[trigger] le_u64(v)) == v,
{
    lemma_auto_spec_u16_to_from_le_bytes();
    lemma_auto_spec_u32_to_from_le_bytes();
    lemma_auto_spec_u64_to_from_le_bytes();
    assert forall|v: u64| spec_u64_from_le_bytes(#[trigger] le_u64(v)) == v by {
        assert(spec_u64_to_le_bytes(v).len() == 8);
    }
    assert forall|v: i32| spec_u32_from_le_bytes(#[trigger] le_i32(v)) as i32 == v by {
        let u = v as u32;
        assert(spec_u32_to_le_bytes(u).len() == 4);
        assert(spec_u32_from_le_bytes(spec_u32_to_le_bytes(u)) == u);
        assert(u as i32 == v) by (bit_vector)
            requires
                u == v as u32,
        ;
    }
    assert forall|v: i16| spec_u16_from_le_bytes(#[trigger] le_i16(v)) as i16 == v by {
        let u = v as u16;
        assert(spec_u16_to_le_bytes(u).len() == 2);
        assert(spec_u16_from_le_bytes(spec_u16_to_le_bytes(u)) == u);
        assert(u as i16 == v) by (bit_vector)
            requires
                u == v as u16,
        ;
    }
}

/// `WriteBytesExt::write_i32::<LittleEndian>` on a vector: appends the four
/// bytes of the field.
#[verifier::external_body]
pub(crate) fn put_i32(buf: &mut Vec<u8>, v: i32)
    ensures
        final(buf)@ == old(buf)@ + le_i32(v),
{
    buf.write_i32::<LittleEndian>(v).unwrap()
}

/// `WriteBytesExt::write_i16::<LittleEndian>` on a vector: appends the two
/// bytes of the field.
#[verifier::external_body]
pub(crate) fn put_i16(buf: &mut Vec<u8>, v: i16)
    ensures
        final(buf)@ == old(buf)@ + le_i16(v),
{
    buf.write_i16::<LittleEndian>(v).unwrap()
}

/// `WriteBytesExt::write_u64::<LittleEndian>` on a vector: appends the eight
/// bytes of the field.
#[verifier::external_body]
pub(crate) fn put_u64(buf: &mut Vec<u8>, v: u64)
    ensures
        final(buf)@ == old(buf)@ + le_u64(v),
{
    buf.write_u64::<LittleEndian>(v).unwrap()
}

/// `WriteBytesExt::write_u8` on a vector: appends the byte.
#[verifier::external_body]
pub(crate) fn put_u8(buf: &mut Vec<u8>, v: u8)
    ensures
        final(buf)@ == old(buf)@.push(v),
{
    buf.write_u8(v).unwrap()
}

/// `LittleEndian::read_i32` on the four bytes from `at`.
#[verifier::external_body]
pub(crate) fn get_i32(buf: &[u8], at: usize) -> (v: i32)
    requires
        at + 4 <= buf@.len(),
    ensures
        v == i32_at(buf@, at as int),
{
    LittleEndian::read_i32(&buf[at..at + 4])
}

/// `LittleEndian::read_i16` on the two bytes from `at`.
#[verifier::external_body]
pub(crate) fn get_i16(buf: &[u8], at: usize) -> (v: i16)
    requires
        at + 2 <= buf@.len(),
    ensures
        v == i16_at(buf@, at as int),
{
    LittleEndian::read_i16(&buf[at..at + 2])
}

/// `LittleEndian::read_u64` on the eight bytes from `at`.
#[verifier::external_body]
pub(crate) fn get_u64(buf: &[u8], at: usize) -> (v: u64)
    requires
        at + 8 <= buf@.len(),
    ensures
        v == u64_at(buf@, at as int),
{
    LittleEndian::read_u64(&buf[at..at + 8])
}

} // verus!
