//! Errors that end the connection, and the limits the peer announced for it.
use crate::varint::VarInt;
use vstd::prelude::*;

verus! {

/// The kind of protocol violation.
#[derive(Clone, Copy, Debug, PartialEq, Eq, Structural)]
pub enum TransportErrorCode {
    FlowControlError,
    StreamLimitError,
    StreamStateError,
    FinalSizeError,
    FrameEncodingError,
}

/// A violation of the protocol by the peer.
#[derive(Clone, Copy, Debug, PartialEq, Eq)]
pub struct TransportError {
    pub code: TransportErrorCode,
    pub reason: &'static str,
}

impl TransportError {
    /// This error has the given code and reason.
    pub open spec fn is(self, code: TransportErrorCode, reason: &'static str) -> bool {
        self.code == code && self.reason@ == reason@
    }

    pub fn flow_control_error(reason: &'static str) -> (e: TransportError)
        ensures
            e.is(TransportErrorCode::FlowControlError, reason),
    {
        TransportError { code: TransportErrorCode::FlowControlError, reason }
    }

    pub fn stream_limit_error(reason: &'static str) -> (e: TransportError)
        ensures
            e.is(TransportErrorCode::StreamLimitError, reason),
    {
        TransportError { code: TransportErrorCode::StreamLimitError, reason }
    }

    pub fn stream_state_error(reason: &'static str) -> (e: TransportError)
        ensures
            e.is(TransportErrorCode::StreamStateError, reason),
    {
        TransportError { code: TransportErrorCode::StreamStateError, reason }
    }

    pub fn final_size_error(reason: &'static str) -> (e: TransportError)
        ensures
            e.is(TransportErrorCode::FinalSizeError, reason),
    {
        TransportError { code: TransportErrorCode::FinalSizeError, reason }
    }

    pub fn frame_encoding_error(reason: &'static str) -> (e: TransportError)
        ensures
            e.is(TransportErrorCode::FrameEncodingError, reason),
    {
        TransportError { code: TransportErrorCode::FrameEncodingError, reason }
    }
}

/// The limits that the peer announced during the handshake.
#[derive(Clone, Copy, Debug, PartialEq, Eq)]
pub struct TransportParameters {
    /// How many bidirectional streams this endpoint may open.
    pub initial_max_streams_bidi: VarInt,
    /// How many unidirectional streams this endpoint may open.
    pub initial_max_streams_uni: VarInt,
    /// How many bytes this endpoint may send on the whole connection.
    pub initial_max_data: VarInt,
    /// How many bytes this endpoint may send on a bidirectional stream that
    /// the peer opened.
    pub initial_max_stream_data_bidi_local: VarInt,
    /// How many bytes this endpoint may send on a bidirectional stream that
    /// it opened itself.
    pub initial_max_stream_data_bidi_remote: VarInt,
    /// How many bytes this endpoint may send on a unidirectional stream.
    pub initial_max_stream_data_uni: VarInt,
}

impl Default for TransportParameters {
    fn default() -> (r: TransportParameters)
        ensures
            r.initial_max_streams_bidi.value() == 0,
            r.initial_max_streams_uni.value() == 0,
            r.initial_max_data.value() == 0,
            r.initial_max_stream_data_bidi_local.value() == 0,
            r.initial_max_stream_data_bidi_remote.value() == 0,
            r.initial_max_stream_data_uni.value() == 0,
    {
        TransportParameters {
            initial_max_streams_bidi: VarInt::from_u32(0),
            initial_max_streams_uni: VarInt::from_u32(0),
            initial_max_data: VarInt::from_u32(0),
            initial_max_stream_data_bidi_local: VarInt::from_u32(0),
            initial_max_stream_data_bidi_remote: VarInt::from_u32(0),
            initial_max_stream_data_uni: VarInt::from_u32(0),
        }
    }
}

} // verus!
