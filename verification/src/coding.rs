//! Writing variable-length integers and stream identifiers into a buffer.
use crate::stream_id::StreamId;
use crate::varint::VARINT_MAX;
use crate::varint::VarInt;
use crate::wire::be16;
use crate::wire::be32;
use crate::wire::be64;
use crate::wire::put_u16;
use crate::wire::put_u32;
use crate::wire::put_u64;
use crate::wire::put_u8;
use vstd::prelude::*;

verus! {

/// The wire form of `x`: the two high bits of the first byte give the
/// length (1, 2, 4 or 8 bytes), the remaining bits hold `x`, most
/// significant byte first. The shortest form that fits is used.
pub open spec fn varint_bytes(x: u64) -> Seq<u8> {
    if x < 0x40 {
        seq![x as u8]
    } else if x < 0x4000 {
        be16((0x4000 + x) as u16)
    } else if x < 0x4000_0000 {
        be32((0x8000_0000 + x) as u32)
    } else {
        be64((0xc000_0000_0000_0000 + x) as u64)
    }
}

/// Number of bytes in the wire form of `x`.
pub open spec fn varint_size(x: u64) -> nat {
    if x < 0x40 {
        1
    } else if x < 0x4000 {
        2
    } else if x < 0x4000_0000 {
        4
    } else {
        8
    }
}

/// The wire form has the stated size, at most eight bytes.
pub proof fn lemma_varint_size(x: u64)
    ensures
        varint_bytes(x).len() == varint_size(x),
        1 <= varint_size(x) <= 8,
{
}

/// Appends the wire form of `x`, which must be below 2^62.
pub fn write_var(buf: &mut Vec<u8>, x: u64)
    requires
        x <= VARINT_MAX,
        old(buf)@.len() + 8 <= isize::MAX,
    ensures
        final(buf)@ == old(buf)@ + varint_bytes(x),
{
    if x < 0x40 {
        put_u8(buf, x as u8);
        assert(buf@ =~= old(buf)@ + varint_bytes(x));
    } else if x < 0x4000 {
        put_u16(buf, (0x4000 + x) as u16);
    } else if x < 0x4000_0000 {
        put_u32(buf, (0x8000_0000 + x) as u32);
    } else {
        put_u64(buf, 0xc000_0000_0000_0000 + x);
    }
}

/// Appends the wire form of a variable-length integer.
pub fn write_varint(buf: &mut Vec<u8>, x: VarInt)
    requires
        old(buf)@.len() + 8 <= isize::MAX,
    ensures
        final(buf)@ == old(buf)@ + varint_bytes(x.value()),
{
    write_var(buf, x.into_inner());
}

/// Appends the wire form of a stream identifier, which must be below 2^62.
pub fn write_stream_id(buf: &mut Vec<u8>, id: StreamId)
    requires
        id.0 <= VARINT_MAX,
        old(buf)@.len() + 8 <= isize::MAX,
    ensures
        final(buf)@ == old(buf)@ + varint_bytes(id.0),
{
    write_var(buf, id.0);
}

} // verus!
