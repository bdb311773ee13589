//! The frames that carry stream data and stream control, and their wire form.
use crate::coding::varint_bytes;
use crate::coding::write_stream_id;
use crate::coding::write_var;
use crate::coding::write_varint;
use crate::stream_id::Dir;
use crate::stream_id::StreamId;
use crate::varint::VARINT_MAX;
use crate::varint::VarInt;
use bytes::Bytes;
use std::ops::Range;
use vstd::prelude::*;

verus! {

/// Most bytes that a RESET_STREAM frame takes.
pub const RESET_STREAM_SIZE_BOUND: usize = 25;

/// Most bytes that a STOP_SENDING frame takes.
pub const STOP_SENDING_SIZE_BOUND: usize = 17;

/// Most bytes that the header of a STREAM frame takes.
pub const STREAM_SIZE_BOUND: usize = 25;

pub const TYPE_RESET_STREAM: u64 = 0x04;

pub const TYPE_STOP_SENDING: u64 = 0x05;

pub const TYPE_STREAM: u64 = 0x08;

pub const TYPE_MAX_DATA: u64 = 0x10;

pub const TYPE_MAX_STREAM_DATA: u64 = 0x11;

pub const TYPE_MAX_STREAMS_BIDI: u64 = 0x12;

pub const TYPE_MAX_STREAMS_UNI: u64 = 0x13;

/// Whether now is a good time to send a frame of some kind.
#[derive(Clone, Copy, Debug, PartialEq, Eq, Structural)]
pub struct ShouldTransmit(pub bool);

impl ShouldTransmit {
    pub fn new(value: bool) -> (r: ShouldTransmit)
        ensures
            r.0 == value,
    {
        ShouldTransmit(value)
    }

    pub fn should_transmit(self) -> (r: bool)
        ensures
            r == self.0,
    {
        self.0
    }
}

/// A received STREAM frame.
#[derive(Debug, PartialEq, Eq)]
pub struct Stream {
    pub id: StreamId,
    pub offset: u64,
    pub fin: bool,
    pub data: Bytes,
}

/// What a STREAM frame says apart from its bytes.
#[derive(Debug, PartialEq, Eq)]
pub struct StreamMeta {
    pub id: StreamId,
    pub offsets: Range<u64>,
    pub fin: bool,
}

/// A RESET_STREAM frame.
#[derive(Clone, Copy, Debug, PartialEq, Eq)]
pub struct ResetStream {
    pub id: StreamId,
    pub error_code: VarInt,
    pub final_offset: u64,
}

/// A STOP_SENDING frame.
#[derive(Clone, Copy, Debug, PartialEq, Eq)]
pub struct StopSending {
    pub id: StreamId,
    pub error_code: VarInt,
}

/// Wire form of RESET_STREAM: type, stream, error code, final size.
pub open spec fn reset_stream_bytes(id: StreamId, error_code: VarInt, final_offset: u64) -> Seq<u8> {
    varint_bytes(TYPE_RESET_STREAM) + varint_bytes(id.0) + varint_bytes(error_code.value())
        + varint_bytes(final_offset)
}

/// Wire form of STOP_SENDING: type, stream, error code.
pub open spec fn stop_sending_bytes(id: StreamId, error_code: VarInt) -> Seq<u8> {
    varint_bytes(TYPE_STOP_SENDING) + varint_bytes(id.0) + varint_bytes(error_code.value())
}

/// Wire form of MAX_DATA: type, limit.
pub open spec fn max_data_bytes(limit: u64) -> Seq<u8> {
    varint_bytes(TYPE_MAX_DATA) + varint_bytes(limit)
}

/// Wire form of MAX_STREAM_DATA: type, stream, limit.
pub open spec fn max_stream_data_bytes(id: StreamId, limit: u64) -> Seq<u8> {
    varint_bytes(TYPE_MAX_STREAM_DATA) + varint_bytes(id.0) + varint_bytes(limit)
}

/// Wire form of MAX_STREAMS for one directionality: type, count.
pub open spec fn max_streams_bytes(dir: Dir, count: u64) -> Seq<u8> {
    varint_bytes(
        match dir {
            Dir::Bi => TYPE_MAX_STREAMS_BIDI,
            Dir::Uni => TYPE_MAX_STREAMS_UNI,
        },
    ) + varint_bytes(count)
}

/// The type of a STREAM frame: bit 2 says that an offset follows, bit 1
/// that a length follows, bit 0 that the stream ends with this frame.
pub open spec fn stream_type(start: u64, length: bool, fin: bool) -> u64 {
    (TYPE_STREAM + (if start != 0 {
        4int
    } else {
        0
    }) + (if length {
        2int
    } else {
        0
    }) + (if fin {
        1int
    } else {
        0
    })) as u64
}

/// Wire form of the header of a STREAM frame: type, stream, the offset
/// unless it is 0, and the length if asked for.
pub open spec fn stream_header_bytes(id: StreamId, start: u64, end: u64, fin: bool, length: bool) -> Seq<
    u8,
> {
    varint_bytes(stream_type(start, length, fin)) + varint_bytes(id.0) + (if start != 0 {
        varint_bytes(start)
    } else {
        Seq::empty()
    }) + (if length {
        varint_bytes((end - start) as u64)
    } else {
        Seq::empty()
    })
}

impl ResetStream {
    pub fn encode(&self, buf: &mut Vec<u8>)
        requires
            self.id.0 <= VARINT_MAX,
            self.final_offset <= VARINT_MAX,
            old(buf)@.len() + RESET_STREAM_SIZE_BOUND <= isize::MAX,
        ensures
            final(buf)@ == old(buf)@ + reset_stream_bytes(
                self.id,
                self.error_code,
                self.final_offset,
            ),
            final(buf)@.len() <= old(buf)@.len() + RESET_STREAM_SIZE_BOUND,
    {
        write_var(buf, TYPE_RESET_STREAM);
        write_stream_id(buf, self.id);
        write_varint(buf, self.error_code);
        write_var(buf, self.final_offset);
        assert(buf@ =~= old(buf)@ + reset_stream_bytes(
            self.id,
            self.error_code,
            self.final_offset,
        ));
    }
}

impl StopSending {
    pub fn encode(&self, buf: &mut Vec<u8>)
        requires
            self.id.0 <= VARINT_MAX,
            old(buf)@.len() + STOP_SENDING_SIZE_BOUND <= isize::MAX,
        ensures
            final(buf)@ == old(buf)@ + stop_sending_bytes(self.id, self.error_code),
            final(buf)@.len() <= old(buf)@.len() + STOP_SENDING_SIZE_BOUND,
    {
        write_var(buf, TYPE_STOP_SENDING);
        write_stream_id(buf, self.id);
        write_varint(buf, self.error_code);
        assert(buf@ =~= old(buf)@ + stop_sending_bytes(self.id, self.error_code));
    }
}

impl StreamMeta {
    /// A copy of this value.
    pub fn duplicate(&self) -> (r: StreamMeta)
        ensures
            r == *self,
    {
        StreamMeta { id: self.id, offsets: self.offsets.start..self.offsets.end, fin: self.fin }
    }

    /// Writes the header of the STREAM frame, with the length if asked for.
    pub fn encode(&self, length: bool, buf: &mut Vec<u8>)
        requires
            self.id.0 <= VARINT_MAX,
            self.offsets.start <= self.offsets.end <= VARINT_MAX,
            old(buf)@.len() + STREAM_SIZE_BOUND <= isize::MAX,
        ensures
            final(buf)@ == old(buf)@ + stream_header_bytes(
                self.id,
                self.offsets.start,
                self.offsets.end,
                self.fin,
                length,
            ),
            final(buf)@.len() <= old(buf)@.len() + STREAM_SIZE_BOUND,
    {
        let mut ty: u64 = TYPE_STREAM;
        if self.offsets.start != 0 {
            ty = ty + 4;
        }
        if length {
            ty = ty + 2;
        }
        if self.fin {
            ty = ty + 1;
        }
        write_var(buf, ty);
        write_stream_id(buf, self.id);
        if self.offsets.start != 0 {
            write_var(buf, self.offsets.start);
        }
        if length {
            write_var(buf, self.offsets.end - self.offsets.start);
        }
        assert(buf@ =~= old(buf)@ + stream_header_bytes(
            self.id,
            self.offsets.start,
            self.offsets.end,
            self.fin,
            length,
        ));
    }
}

/// Writes a MAX_DATA frame.
pub fn write_max_data(buf: &mut Vec<u8>, limit: u64)
    requires
        limit <= VARINT_MAX,
        old(buf)@.len() + 9 <= isize::MAX,
    ensures
        final(buf)@ == old(buf)@ + max_data_bytes(limit),
        final(buf)@.len() <= old(buf)@.len() + 9,
{
    write_var(buf, TYPE_MAX_DATA);
    write_var(buf, limit);
    assert(buf@ =~= old(buf)@ + max_data_bytes(limit));
}

/// Writes a MAX_STREAM_DATA frame.
pub fn write_max_stream_data(buf: &mut Vec<u8>, id: StreamId, limit: u64)
    requires
        id.0 <= VARINT_MAX,
        limit <= VARINT_MAX,
        old(buf)@.len() + 17 <= isize::MAX,
    ensures
        final(buf)@ == old(buf)@ + max_stream_data_bytes(id, limit),
        final(buf)@.len() <= old(buf)@.len() + 17,
{
    write_var(buf, TYPE_MAX_STREAM_DATA);
    write_stream_id(buf, id);
    write_var(buf, limit);
    assert(buf@ =~= old(buf)@ + max_stream_data_bytes(id, limit));
}

/// Writes a MAX_STREAMS frame for one directionality.
pub fn write_max_streams(buf: &mut Vec<u8>, dir: Dir, count: u64)
    requires
        count <= VARINT_MAX,
        old(buf)@.len() + 9 <= isize::MAX,
    ensures
        final(buf)@ == old(buf)@ + max_streams_bytes(dir, count),
        final(buf)@.len() <= old(buf)@.len() + 9,
{
    match dir {
        Dir::Bi => write_var(buf, TYPE_MAX_STREAMS_BIDI),
        Dir::Uni => write_var(buf, TYPE_MAX_STREAMS_UNI),
    }
    write_var(buf, count);
    assert(buf@ =~= old(buf)@ + max_streams_bytes(dir, count));
}

} // verus!
