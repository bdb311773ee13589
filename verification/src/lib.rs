//! Stream multiplexing core of a QUIC endpoint: stream identifiers, per-stream
//! send and receive state, connection-level flow control and frame scheduling.
pub mod assembler;
pub mod coding;
pub mod frame;
pub mod laws;
pub mod map_sum;
pub mod model;
pub mod range_set;
pub mod recv;
pub mod retransmits;
pub mod send;
pub mod send_buffer;
pub mod stream_id;
pub mod streams;
pub mod transmit;
pub mod transport;
pub mod types;
pub mod varint;
pub mod wire;
