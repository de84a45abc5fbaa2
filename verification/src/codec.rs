//! Little-endian numbers in byte buffers, and what can go wrong in reading them.
use vstd::bytes::{
    lemma_auto_spec_u16_to_from_le_bytes, lemma_auto_spec_u32_to_from_le_bytes,
    spec_u16_from_le_bytes, spec_u16_to_le_bytes, spec_u32_from_le_bytes, spec_u32_to_le_bytes,
    u16_from_le_bytes, u16_to_le_bytes, u32_from_le_bytes, u32_to_le_bytes,
};
use vstd::prelude::*;
use vstd::slice::slice_subrange;

verus! {

/// Why bytes could not be read.
#[derive(Debug, Clone, Copy, PartialEq, Eq)]
pub enum ReadError {
    /// The bytes end before the value does.
    UnexpectedEof,
    /// The leading bytes name another kind of file.
    BadMagic,
    /// The format byte stands for no format.
    UnknownFormat(u8),
    /// A merge refers to a token that does not exist yet: its place and its pair.
    FutureToken(usize, u32, u32),
    /// A trailing section starts with a marker that names no section.
    UnknownMarker(u32),
    /// The dimensions ask for more items than a machine index can count.
    TooLarge,
}

/// The number at `pos`.
pub open spec fn u32_at(buf: Seq<u8>, pos: int) -> u32 {
    spec_u32_from_le_bytes(buf.subrange(pos, pos + 4))
}

/// The bytes of a number.
pub open spec fn u32_bytes(x: u32) -> Seq<u8> {
    spec_u32_to_le_bytes(x)
}

/// The half-width number at `pos`.
pub open spec fn u16_at(buf: Seq<u8>, pos: int) -> u16 {
    spec_u16_from_le_bytes(buf.subrange(pos, pos + 2))
}

/// The bytes of a half-width number.
pub open spec fn u16_bytes(x: u16) -> Seq<u8> {
    spec_u16_to_le_bytes(x)
}

/// A half-width number takes two bytes and reads back as itself.
pub proof fn lemma_u16_bytes(x: u16)
    ensures
        u16_bytes(x).len() == 2,
        spec_u16_from_le_bytes(u16_bytes(x)) == x,
{
    lemma_auto_spec_u16_to_from_le_bytes();
    assert(spec_u16_to_le_bytes(x).len() == 2);
}

/// A number takes four bytes and reads back as itself.
pub proof fn lemma_u32_bytes(x: u32)
    ensures
        u32_bytes(x).len() == 4,
        spec_u32_from_le_bytes(u32_bytes(x)) == x,
{
    lemma_auto_spec_u32_to_from_le_bytes();
    assert(spec_u32_to_le_bytes(x).len() == 4);
}

/// A number written after `head` is read back at its place.
pub proof fn lemma_u32_at(head: Seq<u8>, x: u32, tail: Seq<u8>)
    ensures
        u32_at(head + u32_bytes(x) + tail, head.len() as int) == x,
        (head + u32_bytes(x) + tail).len() == head.len() + 4 + tail.len(),
{
    lemma_u32_bytes(x);
    let buf = head + u32_bytes(x) + tail;
    assert(buf.subrange(head.len() as int, (head.len() + 4) as int) =~= u32_bytes(x));
}

/// Appends a number.
pub fn put_u32(w: &mut Vec<u8>, x: u32)
    ensures
        final(w)@ == old(w)@ + u32_bytes(x),
{
    let mut bytes = u32_to_le_bytes(x);
    w.append(&mut bytes);
}

/// Appends a half-width number.
pub fn put_u16(w: &mut Vec<u8>, x: u16)
    ensures
        final(w)@ == old(w)@ + u16_bytes(x),
{
    let mut bytes = u16_to_le_bytes(x);
    w.append(&mut bytes);
}

/// Reads the half-width number at `pos`, where two bytes are left.
pub fn get_u16(buf: &[u8], pos: usize) -> (r: Result<u16, ReadError>)
    requires
        pos <= buf@.len(),
    ensures
        buf@.len() - pos >= 2 ==> r == Ok::<u16, ReadError>(u16_at(buf@, pos as int)),
        buf@.len() - pos < 2 ==> r == Err::<u16, ReadError>(ReadError::UnexpectedEof),
{
    if buf.len() - pos < 2 {
        return Err(ReadError::UnexpectedEof);
    }
    Ok(u16_from_le_bytes(slice_subrange(buf, pos, pos + 2)))
}

/// Reads the number at `pos`, where four bytes are left.
pub fn get_u32(buf: &[u8], pos: usize) -> (r: Result<u32, ReadError>)
    requires
        pos <= buf@.len(),
    ensures
        buf@.len() - pos >= 4 ==> r == Ok::<u32, ReadError>(u32_at(buf@, pos as int)),
        buf@.len() - pos < 4 ==> r == Err::<u32, ReadError>(ReadError::UnexpectedEof),
{
    if buf.len() - pos < 4 {
        return Err(ReadError::UnexpectedEof);
    }
    Ok(u32_from_le_bytes(slice_subrange(buf, pos, pos + 4)))
}

} // verus!
