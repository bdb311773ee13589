//! What the stream operations hand back: results, errors and events.
use crate::assembler::IllegalOrderedRead;
use crate::frame::ShouldTransmit;
use crate::stream_id::Dir;
use crate::stream_id::StreamId;
use crate::varint::VarInt;
use bytes::Bytes;
use vstd::prelude::*;

verus! {

/// What an unordered read gave, where the stream had not ended.
#[derive(Debug, PartialEq, Eq)]
pub struct ReadUnorderedResult {
    pub buf: Bytes,
    pub offset: u64,
    pub max_stream_data: ShouldTransmit,
    pub max_data: ShouldTransmit,
}

/// What an ordered read gave, where the stream had not ended.
#[derive(Clone, Copy, Debug, PartialEq, Eq)]
pub struct ReadResult {
    pub len: usize,
    pub max_stream_data: ShouldTransmit,
    pub max_data: ShouldTransmit,
}

/// Which frames stopping a stream calls for.
#[derive(Clone, Copy, Debug, PartialEq, Eq)]
pub struct StopResult {
    pub stop_sending: ShouldTransmit,
    pub max_data: ShouldTransmit,
}

/// Why a write failed.
#[derive(Clone, Copy, Debug, PartialEq, Eq, PartialOrd, Ord, Hash)]
pub enum WriteError {
    /// The peer cannot take more data now, or the connection is congested.
    Blocked,
    /// The peer no longer takes data on this stream; carries its code.
    Stopped(VarInt),
    /// The stream was never opened, or was finished or reset.
    UnknownStream,
}

/// Why a read failed.
#[derive(Clone, Copy, Debug, PartialEq, Eq, PartialOrd, Ord, Hash)]
pub enum ReadError {
    /// No more data is there now.
    Blocked,
    /// The peer gave up the stream; carries its code.
    Reset(VarInt),
    /// The stream was never opened, or was stopped, finished or reset.
    UnknownStream,
    /// An ordered read was tried after an unordered one.
    IllegalOrderedRead,
}

impl From<IllegalOrderedRead> for ReadError {
    fn from(_e: IllegalOrderedRead) -> (r: ReadError) {
        ReadError::IllegalOrderedRead
    }
}

impl vstd::std_specs::convert::FromSpecImpl<IllegalOrderedRead> for ReadError {
    open spec fn obeys_from_spec() -> bool {
        true
    }

    open spec fn from_spec(_e: IllegalOrderedRead) -> ReadError {
        ReadError::IllegalOrderedRead
    }
}

/// Why finishing a stream failed.
#[derive(Clone, Copy, Debug, PartialEq, Eq)]
pub enum FinishError {
    /// The peer no longer takes data on this stream; carries its code.
    Stopped(VarInt),
    /// The stream was never opened, or was finished or reset.
    UnknownStream,
}

/// The stream was never opened, or was finished or reset.
#[derive(Clone, Copy, Debug, PartialEq, Eq)]
pub struct UnknownStream {
    _private: (),
}

impl UnknownStream {
    pub fn new() -> (r: UnknownStream) {
        UnknownStream { _private: () }
    }
}

/// What the application is told about streams.
#[derive(Clone, Copy, Debug, PartialEq, Eq)]
pub enum StreamEvent {
    /// The peer has opened one or more streams of this directionality.
    Opened { dir: Dir },
    /// Data or an error waits to be read on this stream.
    Readable { id: StreamId },
    /// A write on this stream, which was blocked, may now succeed.
    Writable { id: StreamId },
    /// Everything sent on this finished stream was acknowledged.
    Finished { id: StreamId },
    /// The peer asked for sending on this stream to stop.
    Stopped { id: StreamId, error_code: VarInt },
    /// At least one more stream of this directionality may be opened.
    Available { dir: Dir },
}

} // verus!
