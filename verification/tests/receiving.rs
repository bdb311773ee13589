use bytes::Bytes;
use quic_streams::frame::ResetStream;
use quic_streams::frame::ShouldTransmit;
use quic_streams::frame::Stream;
use quic_streams::recv::Recv;
use quic_streams::stream_id::Dir;
use quic_streams::stream_id::Side;
use quic_streams::stream_id::StreamId;
use quic_streams::streams::Streams;
use quic_streams::transport::TransportErrorCode;
use quic_streams::transport::TransportParameters;
use quic_streams::types::ReadError;
use quic_streams::types::ReadResult;
use quic_streams::types::ReadUnorderedResult;
use quic_streams::types::StreamEvent;
use quic_streams::varint::VarInt;

fn server() -> Streams {
    Streams::new(
        Side::Server,
        VarInt::from_u32(2),
        VarInt::from_u32(2),
        1000,
        VarInt::from_u32(800),
        VarInt::from_u32(400),
    )
}

fn frame(id: u64, offset: u64, data: &'static [u8], fin: bool) -> Stream {
    Stream { id: StreamId(id), offset, fin, data: Bytes::from_static(data) }
}

#[test]
fn frames_open_streams_and_become_readable() {
    let mut streams = server();
    // Stream 6 is the second unidirectional stream of the client.
    assert_eq!(
        streams.received(frame(6, 0, b"hello", false)).unwrap(),
        ShouldTransmit::new(false)
    );
    assert_eq!(streams.data_recvd, 5);
    assert_eq!(streams.next_remote, [0, 2]);
    assert_eq!(streams.poll(), Some(StreamEvent::Opened { dir: Dir::Uni }));
    // The first frame on a stream makes it readable too.
    assert_eq!(streams.poll(), Some(StreamEvent::Readable { id: StreamId(6) }));
    assert_eq!(streams.poll(), None);
    assert_eq!(streams.accept(Dir::Uni), Some(StreamId(2)));
    assert_eq!(streams.accept(Dir::Uni), Some(StreamId(6)));
    assert_eq!(streams.accept(Dir::Uni), None);
    assert_eq!(streams.send_streams(), 0);
    streams.received(frame(6, 5, b" world", false)).unwrap();
    assert_eq!(streams.poll(), Some(StreamEvent::Readable { id: StreamId(6) }));
    assert_eq!(streams.poll(), None);
    let mut buf = [0u8; 32];
    let res = streams.read(StreamId(6), &mut buf).unwrap().unwrap();
    assert_eq!(res.len, 11);
    assert_eq!(&buf[..11], b"hello world");
    assert_eq!(streams.read(StreamId(6), &mut buf), Err(ReadError::Blocked));
    assert_eq!(streams.read(StreamId(10), &mut buf), Err(ReadError::UnknownStream));
}

#[test]
fn opened_is_reported_once_per_directionality() {
    let mut streams = server();
    streams.received(frame(0, 0, b"a", false)).unwrap();
    streams.received(frame(2, 0, b"b", false)).unwrap();
    streams.received(frame(4, 0, b"c", false)).unwrap();
    assert_eq!(streams.poll(), Some(StreamEvent::Opened { dir: Dir::Bi }));
    assert_eq!(streams.poll(), Some(StreamEvent::Opened { dir: Dir::Uni }));
    assert_eq!(streams.poll(), Some(StreamEvent::Readable { id: StreamId(0) }));
    assert_eq!(streams.poll(), Some(StreamEvent::Readable { id: StreamId(2) }));
    assert_eq!(streams.poll(), Some(StreamEvent::Readable { id: StreamId(4) }));
    assert_eq!(streams.poll(), None);
    streams.received(frame(6, 0, b"d", false)).unwrap();
    assert_eq!(streams.poll(), Some(StreamEvent::Opened { dir: Dir::Uni }));
    assert_eq!(streams.poll(), Some(StreamEvent::Readable { id: StreamId(6) }));
    assert_eq!(streams.poll(), None);
}

#[test]
fn reads_grant_credit() {
    let mut streams = server();
    streams.received(frame(2, 0, &[7; 300], false)).unwrap();
    streams.recv.get_mut(&2).unwrap().record_sent_max_stream_data(400);
    let mut buf = [0u8; 40];
    assert_eq!(
        streams.read(StreamId(2), &mut buf),
        Ok(Some(ReadResult {
            len: 40,
            max_stream_data: ShouldTransmit::new(false),
            max_data: ShouldTransmit::new(false),
        }))
    );
    assert_eq!(streams.local_max_data, 840);
    // An eighth of the stream window is 50, of the connection window 100.
    let mut buf = [0u8; 10];
    assert_eq!(
        streams.read(StreamId(2), &mut buf),
        Ok(Some(ReadResult {
            len: 10,
            max_stream_data: ShouldTransmit::new(true),
            max_data: ShouldTransmit::new(false),
        }))
    );
    let mut buf = [0u8; 50];
    assert_eq!(
        streams.read(StreamId(2), &mut buf),
        Ok(Some(ReadResult {
            len: 50,
            max_stream_data: ShouldTransmit::new(true),
            max_data: ShouldTransmit::new(true),
        }))
    );
    assert_eq!(streams.local_max_data, 900);
    assert_eq!(streams.data_recvd, 300);
}

#[test]
fn credit_stops_at_the_largest_limit() {
    let mut streams = server();
    streams.local_max_data = u64::MAX - 3;
    streams.received(frame(2, 0, &[7; 10], false)).unwrap();
    let mut buf = [0u8; 10];
    let res = streams.read(StreamId(2), &mut buf).unwrap().unwrap();
    assert_eq!(res.len, 10);
    assert_eq!(res.max_data, ShouldTransmit::new(false));
    assert_eq!(streams.local_max_data, u64::MAX);
}

#[test]
fn read_to_the_end() {
    let mut streams = server();
    streams.received(frame(2, 0, b"abc", true)).unwrap();
    let mut buf = [0u8; 2];
    assert_eq!(streams.read(StreamId(2), &mut buf).unwrap().unwrap().len, 2);
    assert_eq!(streams.read(StreamId(2), &mut buf).unwrap().unwrap().len, 1);
    assert!(streams.recv.contains_key(&2));
    assert_eq!(streams.read(StreamId(2), &mut buf), Ok(None));
    assert!(!streams.recv.contains_key(&2));
    assert_eq!(streams.read(StreamId(2), &mut buf), Err(ReadError::UnknownStream));
    // Frames for the forgotten stream are dropped.
    assert_eq!(
        streams.received(frame(2, 0, b"abc", true)).unwrap(),
        ShouldTransmit::new(false)
    );
    assert_eq!(streams.data_recvd, 3);
}

#[test]
fn end_with_a_hole_blocks() {
    let mut streams = server();
    streams.received(frame(2, 3, b"def", true)).unwrap();
    let mut buf = [0u8; 8];
    assert_eq!(streams.read(StreamId(2), &mut buf), Err(ReadError::Blocked));
    assert_eq!(streams.data_recvd, 6);
    streams.received(frame(2, 0, b"abc", false)).unwrap();
    assert_eq!(streams.data_recvd, 6);
    assert_eq!(streams.read(StreamId(2), &mut buf).unwrap().unwrap().len, 6);
    assert_eq!(&buf[..6], b"abcdef");
    assert_eq!(streams.read(StreamId(2), &mut buf), Ok(None));
}

#[test]
fn reset_is_reported_by_read() {
    let mut streams = server();
    streams.received(frame(2, 0, b"abc", false)).unwrap();
    assert_eq!(streams.poll(), Some(StreamEvent::Opened { dir: Dir::Uni }));
    assert_eq!(
        streams
            .received_reset(ResetStream {
                id: StreamId(2),
                error_code: VarInt::from_u32(13),
                final_offset: 3,
            })
            .unwrap(),
        ShouldTransmit::new(false)
    );
    assert_eq!(streams.poll(), Some(StreamEvent::Readable { id: StreamId(2) }));
    assert_eq!(streams.local_max_data, 803);
    let mut buf = [0u8; 8];
    assert_eq!(
        streams.read(StreamId(2), &mut buf),
        Err(ReadError::Reset(VarInt::from_u32(13)))
    );
    assert!(!streams.recv.contains_key(&2));
}

#[test]
fn reset_after_everything_was_read_grants_nothing() {
    let mut streams = server();
    streams.received(frame(2, 0, b"abc", false)).unwrap();
    let mut buf = [0u8; 8];
    streams.read(StreamId(2), &mut buf).unwrap();
    assert_eq!(streams.local_max_data, 803);
    streams
        .received_reset(ResetStream {
            id: StreamId(2),
            error_code: VarInt::from_u32(13),
            final_offset: 3,
        })
        .unwrap();
    assert_eq!(streams.local_max_data, 803);
    assert_eq!(streams.data_recvd, 3);
}

#[test]
fn reset_final_size_errors() {
    let mut streams = server();
    streams.received(frame(2, 0, b"abcdef", false)).unwrap();
    let err = streams
        .received_reset(ResetStream {
            id: StreamId(2),
            error_code: VarInt::from_u32(0),
            final_offset: 5,
        })
        .unwrap_err();
    assert_eq!(err.code, TransportErrorCode::FinalSizeError);
    assert_eq!(err.reason, "lower than high water mark");
    streams.received(frame(6, 0, b"abcdef", true)).unwrap();
    let err = streams
        .received_reset(ResetStream {
            id: StreamId(6),
            error_code: VarInt::from_u32(0),
            final_offset: 7,
        })
        .unwrap_err();
    assert_eq!(err.code, TransportErrorCode::FinalSizeError);
    assert_eq!(err.reason, "inconsistent value");
    let err = streams
        .received_reset(ResetStream {
            id: StreamId(3),
            error_code: VarInt::from_u32(0),
            final_offset: 7,
        })
        .unwrap_err();
    assert_eq!(err.code, TransportErrorCode::StreamStateError);
    assert_eq!(streams.data_recvd, 12);
}

#[test]
fn stream_identifier_errors() {
    let mut streams = server();
    let err = streams.received(frame(3, 0, b"x", false)).unwrap_err();
    assert_eq!(err.code, TransportErrorCode::StreamStateError);
    assert_eq!(err.reason, "illegal operation on send-only stream");
    let err = streams.received(frame(1, 0, b"x", false)).unwrap_err();
    assert_eq!(err.code, TransportErrorCode::StreamStateError);
    assert_eq!(err.reason, "operation on unopened stream");
    let err = streams.received(frame(8, 0, b"x", false)).unwrap_err();
    assert_eq!(err.code, TransportErrorCode::StreamLimitError);
    assert_eq!(err.reason, "");
    let err = streams.received(frame(10, 0, b"x", false)).unwrap_err();
    assert_eq!(err.code, TransportErrorCode::StreamLimitError);
    assert!(streams.validate_receive_id(StreamId(4)).is_ok());
    assert!(streams.validate_receive_id(StreamId(8)).is_err());
    assert_eq!(streams.data_recvd, 0);
    // Once this endpoint has opened its stream, the peer may send on it.
    let params = TransportParameters {
        initial_max_streams_bidi: VarInt::from_u32(1),
        ..Default::default()
    };
    streams.set_params(&params);
    assert_eq!(streams.open(&params, Dir::Bi), Some(StreamId(1)));
    assert!(streams.received(frame(1, 0, b"x", false)).is_ok());
    assert_eq!(streams.poll(), Some(StreamEvent::Readable { id: StreamId(1) }));
}

#[test]
fn flow_control_errors() {
    let mut streams = server();
    // Beyond the stream's window of 400.
    let err = streams.received(frame(2, 400, b"x", false)).unwrap_err();
    assert_eq!(err.code, TransportErrorCode::FlowControlError);
    assert_eq!(err.reason, "");
    assert!(streams.received(frame(2, 399, b"x", false)).is_ok());
    assert!(streams.received(frame(0, 399, b"x", false)).is_ok());
    assert_eq!(streams.data_recvd, 800);
    // Beyond the connection's limit of 800.
    let err = streams.received(frame(4, 0, b"x", false)).unwrap_err();
    assert_eq!(err.code, TransportErrorCode::FlowControlError);
    // What adds nothing is let through.
    assert!(streams.received(frame(2, 10, b"x", false)).is_ok());
    let err = streams
        .received(Stream { id: StreamId(4), offset: (1 << 62) - 1, fin: false, data: Bytes::from_static(b"x") })
        .unwrap_err();
    assert_eq!(err.code, TransportErrorCode::FlowControlError);
    assert_eq!(err.reason, "maximum stream offset too large");
    let err = streams
        .received(Stream { id: StreamId(4), offset: u64::MAX, fin: false, data: Bytes::from_static(b"x") })
        .unwrap_err();
    assert_eq!(err.reason, "maximum stream offset too large");
    assert_eq!(streams.data_recvd, 800);
}

#[test]
fn final_size_errors() {
    let mut streams = server();
    streams.received(frame(2, 0, b"abcdef", true)).unwrap();
    let err = streams.received(frame(2, 6, b"g", false)).unwrap_err();
    assert_eq!(err.code, TransportErrorCode::FinalSizeError);
    let err = streams.received(frame(2, 0, b"abc", true)).unwrap_err();
    assert_eq!(err.code, TransportErrorCode::FinalSizeError);
    assert!(streams.received(frame(2, 0, b"abc", false)).is_ok());
    assert!(streams.received(frame(2, 3, b"def", true)).is_ok());
    streams.received(frame(6, 0, b"abcdef", false)).unwrap();
    let err = streams.received(frame(6, 0, b"abc", true)).unwrap_err();
    assert_eq!(err.code, TransportErrorCode::FinalSizeError);
    assert_eq!(err.reason, "lower than high water mark");
    assert_eq!(streams.data_recvd, 12);
}

#[test]
fn unordered_reads() {
    let mut streams = server();
    streams.received(frame(2, 10, b"klm", false)).unwrap();
    assert_eq!(
        streams.read_unordered(StreamId(2)),
        Ok(Some(ReadUnorderedResult {
            buf: Bytes::from_static(b"klm"),
            offset: 10,
            max_stream_data: ShouldTransmit::new(true),
            max_data: ShouldTransmit::new(false),
        }))
    );
    assert_eq!(streams.local_max_data, 803);
    assert_eq!(streams.read_unordered(StreamId(2)), Err(ReadError::Blocked));
    let mut buf = [0u8; 8];
    assert_eq!(streams.read(StreamId(2), &mut buf), Err(ReadError::IllegalOrderedRead));
    streams.received(frame(2, 0, b"abcdefghijklm", true)).unwrap();
    let res = streams.read_unordered(StreamId(2)).unwrap().unwrap();
    assert_eq!(res.offset, 0);
    assert_eq!(res.buf, Bytes::from_static(b"abcdefghij"));
    assert_eq!(streams.read_unordered(StreamId(2)), Ok(None));
    assert!(!streams.recv.contains_key(&2));
    assert_eq!(streams.read_unordered(StreamId(2)), Err(ReadError::UnknownStream));
    assert_eq!(streams.local_max_data, 813);
}

#[test]
fn stopping_a_finished_stream_asks_for_nothing() {
    let mut streams = server();
    streams.received(frame(2, 0, &[1; 150], false)).unwrap();
    streams
        .received_reset(ResetStream {
            id: StreamId(2),
            error_code: VarInt::from_u32(0),
            final_offset: 150,
        })
        .unwrap();
    assert_eq!(streams.local_max_data, 950);
    let res = streams.stop(StreamId(2)).unwrap();
    assert_eq!(res.stop_sending, ShouldTransmit::new(false));
    // What was seen and not read is granted once more.
    assert_eq!(res.max_data, ShouldTransmit::new(true));
    assert_eq!(streams.local_max_data, 1100);
    assert!(streams.stop(StreamId(10)).is_err());
}

#[test]
fn record_sent_max_stream_data_keeps_the_highest() {
    let mut recv = Recv::new();
    assert!(recv.receiving_unknown_size());
    assert!(!recv.is_finished());
    assert!(!recv.is_closed());
    assert_eq!(recv.final_offset(), None);
    assert_eq!(recv.max_stream_data(400), (400, ShouldTransmit::new(true)));
    recv.record_sent_max_stream_data(400);
    assert_eq!(recv.sent_max_stream_data, 400);
    assert_eq!(recv.max_stream_data(400), (400, ShouldTransmit::new(false)));
    recv.record_sent_max_stream_data(100);
    assert_eq!(recv.sent_max_stream_data, 400);
    assert!(recv.reset(VarInt::from_u32(1), 20));
    assert!(!recv.reset(VarInt::from_u32(1), 20));
    assert_eq!(recv.final_offset(), Some(20));
    assert!(recv.is_finished());
    assert_eq!(recv.read_blocked(), Err(ReadError::Reset(VarInt::from_u32(1))));
    assert!(recv.is_closed());
    assert_eq!(recv.read_blocked(), Err(ReadError::UnknownStream));
}

#[test]
fn reset_on_a_new_stream_is_readable() {
    let mut streams = server();
    streams
        .received_reset(ResetStream {
            id: StreamId(2),
            error_code: VarInt::from_u32(4),
            final_offset: 9,
        })
        .unwrap();
    assert_eq!(streams.next_remote, [0, 1]);
    assert_eq!(streams.poll(), Some(StreamEvent::Opened { dir: Dir::Uni }));
    assert_eq!(streams.poll(), Some(StreamEvent::Readable { id: StreamId(2) }));
    assert_eq!(streams.poll(), None);
    assert_eq!(streams.data_recvd, 9);
}

#[test]
fn reset_counts_up_to_the_largest_number() {
    let mut streams = server();
    streams.received(frame(2, 0, &[1; 10], false)).unwrap();
    streams.data_recvd = u64::MAX - 5;
    // Ten bytes of the final size are counted already: five more fit.
    streams
        .received_reset(ResetStream {
            id: StreamId(2),
            error_code: VarInt::from_u32(4),
            final_offset: 15,
        })
        .unwrap();
    assert_eq!(streams.data_recvd, u64::MAX);
}
