use quic_streams::frame::StreamMeta;
use quic_streams::retransmits::FrameStats;
use quic_streams::retransmits::Retransmits;
use quic_streams::frame::StopSending;
use quic_streams::stream_id::Dir;
use quic_streams::stream_id::Side;
use quic_streams::stream_id::StreamId;
use quic_streams::streams::Streams;
use quic_streams::transport::TransportErrorCode;
use quic_streams::transport::TransportParameters;
use quic_streams::types::FinishError;
use quic_streams::types::StreamEvent;
use quic_streams::types::WriteError;
use quic_streams::varint::VarInt;

fn params(max_data: u32, stream_data: u32) -> TransportParameters {
    TransportParameters {
        initial_max_streams_bidi: VarInt::from_u32(4),
        initial_max_streams_uni: VarInt::from_u32(4),
        initial_max_data: VarInt::from_u32(max_data),
        initial_max_stream_data_bidi_local: VarInt::from_u32(stream_data),
        initial_max_stream_data_bidi_remote: VarInt::from_u32(stream_data),
        initial_max_stream_data_uni: VarInt::from_u32(stream_data),
    }
}

fn client(max_data: u32, stream_data: u32) -> (Streams, TransportParameters) {
    let mut streams = Streams::new(
        Side::Client,
        VarInt::from_u32(2),
        VarInt::from_u32(2),
        1000,
        VarInt::from_u32(800),
        VarInt::from_u32(400),
    );
    let p = params(max_data, stream_data);
    streams.set_params(&p);
    (streams, p)
}

#[test]
fn new_holds_the_streams_of_the_peer() {
    let streams = Streams::new(
        Side::Client,
        VarInt::from_u32(3),
        VarInt::from_u32(2),
        1000,
        VarInt::from_u32(800),
        VarInt::from_u32(400),
    );
    let mut send: Vec<u64> = streams.send.keys().copied().collect();
    send.sort();
    assert_eq!(send, vec![1, 5]);
    let mut recv: Vec<u64> = streams.recv.keys().copied().collect();
    recv.sort();
    assert_eq!(recv, vec![1, 3, 5, 7, 11]);
    assert_eq!(streams.local_max_data, 800);
    assert_eq!(streams.sent_max_data, 800);
    assert_eq!(streams.max_data, 0);
    assert_eq!(streams.send_streams(), 0);
    assert!(!streams.can_send());
    assert!(streams.flow_blocked());
}

#[test]
fn open_up_to_the_limit() {
    let (mut streams, p) = client(100, 50);
    assert_eq!(streams.open(&p, Dir::Bi), Some(StreamId(0)));
    assert_eq!(streams.open(&p, Dir::Bi), Some(StreamId(4)));
    assert_eq!(streams.open(&p, Dir::Uni), Some(StreamId(2)));
    assert_eq!(streams.send_streams(), 3);
    assert!(streams.recv.contains_key(&0));
    assert!(!streams.recv.contains_key(&2));
    assert!(!streams.is_local_unopened(StreamId(4)));
    assert!(streams.is_local_unopened(StreamId(8)));
    assert_eq!(streams.open(&p, Dir::Bi), Some(StreamId(8)));
    assert_eq!(streams.open(&p, Dir::Bi), Some(StreamId(12)));
    assert_eq!(streams.open(&p, Dir::Bi), None);
    assert_eq!(streams.send_streams(), 5);
}

#[test]
fn set_params_sets_the_limits() {
    let (streams, _) = client(100, 50);
    assert_eq!(streams.max, [4, 4]);
    assert_eq!(streams.max_data, 100);
    assert_eq!(streams.send.get(&1).unwrap().max_data, 50);
    assert_eq!(streams.send.get(&5).unwrap().max_data, 50);
}

#[test]
fn write_takes_what_the_limits_allow() {
    let (mut streams, p) = client(100, 50);
    let id = streams.open(&p, Dir::Bi).unwrap();
    assert_eq!(streams.write(StreamId(8), b"x"), Err(WriteError::UnknownStream));
    assert_eq!(streams.write(id, &[7; 60]), Ok(50));
    assert_eq!(streams.data_sent, 50);
    assert_eq!(streams.unacked_data, 50);
    assert!(streams.can_send());
    // The stream's own limit is reached: the stream is not listed as
    // blocked by the connection.
    assert_eq!(streams.write(id, b"x"), Err(WriteError::Blocked));
    assert!(streams.connection_blocked.is_empty());
    let other = streams.open(&p, Dir::Uni).unwrap();
    assert_eq!(streams.write(other, &[1; 30]), Ok(30));
    assert_eq!(streams.write(other, &[1; 30]), Ok(20));
    assert_eq!(streams.data_sent, 100);
    assert!(streams.flow_blocked());
}

#[test]
fn send_window_limits_writes() {
    let mut streams = Streams::new(
        Side::Client,
        VarInt::from_u32(0),
        VarInt::from_u32(0),
        10,
        VarInt::from_u32(800),
        VarInt::from_u32(400),
    );
    let p = params(100, 50);
    streams.set_params(&p);
    let id = streams.open(&p, Dir::Uni).unwrap();
    assert_eq!(streams.write(id, &[0; 30]), Ok(10));
    assert_eq!(streams.unacked_data, 10);
    assert_eq!(streams.write(id, &[0; 30]), Err(WriteError::Blocked));
    assert_eq!(streams.connection_blocked, vec![id]);
}

#[test]
fn blocked_by_the_connection_then_unblocked() {
    let (mut streams, p) = client(10, 50);
    let id = streams.open(&p, Dir::Uni).unwrap();
    assert_eq!(streams.write(id, &[0; 30]), Ok(10));
    assert_eq!(streams.write(id, &[0; 30]), Err(WriteError::Blocked));
    assert_eq!(streams.write(id, &[0; 30]), Err(WriteError::Blocked));
    assert_eq!(streams.connection_blocked, vec![id]);
    assert!(streams.send.get(&id.0).unwrap().connection_blocked);
    // Still blocked: nothing is reported.
    assert_eq!(streams.poll_unblocked(), None);
    assert_eq!(streams.poll(), None);
    assert_eq!(streams.connection_blocked, vec![id]);
    streams.received_max_data(VarInt::from_u32(20));
    assert_eq!(streams.poll(), Some(StreamEvent::Writable { id }));
    assert!(streams.connection_blocked.is_empty());
    assert!(!streams.send.get(&id.0).unwrap().connection_blocked);
    assert_eq!(streams.poll(), None);
    assert_eq!(streams.write(id, &[0; 30]), Ok(10));
}

#[test]
fn unblocking_skips_streams_that_take_no_data() {
    let (mut streams, p) = client(10, 50);
    let a = streams.open(&p, Dir::Uni).unwrap();
    let b = streams.open(&p, Dir::Uni).unwrap();
    assert_eq!(streams.write(a, &[0; 10]), Ok(10));
    assert_eq!(streams.write(a, &[0; 1]), Err(WriteError::Blocked));
    assert_eq!(streams.write(b, &[0; 1]), Err(WriteError::Blocked));
    assert_eq!(streams.connection_blocked, vec![a, b]);
    streams.finish(b).unwrap();
    streams.received_max_data(VarInt::from_u32(20));
    // The search starts at the back: b is finished and skipped.
    assert_eq!(streams.poll(), Some(StreamEvent::Writable { id: a }));
    assert!(streams.connection_blocked.is_empty());
}

#[test]
fn max_data_never_goes_down() {
    let (mut streams, _) = client(100, 50);
    streams.received_max_data(VarInt::from_u32(40));
    assert_eq!(streams.max_data, 100);
    streams.received_max_data(VarInt::from_u32(100));
    assert_eq!(streams.max_data, 100);
    streams.received_max_data(VarInt::from_u32(101));
    assert_eq!(streams.max_data, 101);
    streams.received_max_data(VarInt::from_u32(101));
    assert_eq!(streams.max_data, 101);
}

#[test]
fn stream_frames_take_what_fits() {
    let (mut streams, p) = client(100, 50);
    let id = streams.open(&p, Dir::Bi).unwrap();
    let data: Vec<u8> = (0..50).collect();
    assert_eq!(streams.write(id, &data), Ok(50));
    let mut buf = Vec::new();
    let frames = streams.write_stream_frames(&mut buf, 40);
    assert_eq!(frames, vec![StreamMeta { id, offsets: 0..15, fin: false }]);
    let mut expected = vec![0x0a, 0x00, 0x0f];
    expected.extend_from_slice(&data[..15]);
    assert_eq!(buf, expected);
    assert!(streams.can_send());
    let mut buf = Vec::new();
    let frames = streams.write_stream_frames(&mut buf, 1200);
    assert_eq!(frames, vec![StreamMeta { id, offsets: 15..50, fin: false }]);
    let mut expected = vec![0x0e, 0x00, 0x0f, 0x23];
    expected.extend_from_slice(&data[15..]);
    assert_eq!(buf, expected);
    assert!(!streams.can_send());
    // No room for a header: nothing is written.
    assert_eq!(streams.write(StreamId(1), b"abc"), Ok(3));
    let mut buf = vec![0; 10];
    assert_eq!(streams.write_stream_frames(&mut buf, 35), vec![]);
    assert_eq!(buf, vec![0; 10]);
    assert!(streams.can_send());
}

#[test]
fn streams_take_turns() {
    let (mut streams, p) = client(1000, 400);
    let a = streams.open(&p, Dir::Bi).unwrap();
    let b = streams.open(&p, Dir::Bi).unwrap();
    assert_eq!(streams.write(a, &[1; 100]), Ok(100));
    assert_eq!(streams.write(b, &[2; 100]), Ok(100));
    let mut order = Vec::new();
    for _ in 0..6 {
        let mut buf = Vec::new();
        let frames = streams.write_stream_frames(&mut buf, 36);
        assert_eq!(frames.len(), 1);
        assert_eq!(frames[0].offsets.end - frames[0].offsets.start, 11);
        order.push(frames[0].id);
    }
    assert_eq!(order, vec![a, b, a, b, a, b]);
    // Several frames in one packet keep the order.
    let mut buf = Vec::new();
    let frames = streams.write_stream_frames(&mut buf, 120);
    let ids: Vec<StreamId> = frames.iter().map(|f| f.id).collect();
    assert_eq!(ids, vec![a, b]);
    assert_eq!(frames[0].offsets, 33..100);
    assert_eq!(frames[1].offsets, 33..56);
    assert_eq!(buf.len(), 5 + 67 + 4 + 23);
}

#[test]
fn acks_free_the_send_window() {
    let (mut streams, p) = client(100, 50);
    let id = streams.open(&p, Dir::Bi).unwrap();
    let before = streams.unacked_data;
    assert_eq!(streams.write(id, &[0; 20]), Ok(20));
    assert_eq!(streams.write(id, &[0; 10]), Ok(10));
    assert_eq!(streams.unacked_data, before + 30);
    let mut buf = Vec::new();
    let frames = streams.write_stream_frames(&mut buf, 1200);
    assert_eq!(frames, vec![StreamMeta { id, offsets: 0..30, fin: false }]);
    streams.received_ack_of(StreamMeta { id, offsets: 12..30, fin: false });
    assert_eq!(streams.unacked_data, before + 12);
    // The same bytes again free nothing.
    streams.received_ack_of(StreamMeta { id, offsets: 12..30, fin: false });
    assert_eq!(streams.unacked_data, before + 12);
    streams.received_ack_of(StreamMeta { id, offsets: 0..12, fin: false });
    assert_eq!(streams.unacked_data, before);
    assert!(streams.send.contains_key(&id.0));
    // An ack for a stream that is not there does nothing.
    streams.received_ack_of(StreamMeta { id: StreamId(12), offsets: 0..5, fin: false });
    assert_eq!(streams.unacked_data, before);
}

#[test]
fn finished_stream_is_forgotten_when_acknowledged() {
    let (mut streams, p) = client(100, 50);
    let id = streams.open(&p, Dir::Uni).unwrap();
    assert_eq!(streams.send_streams(), 1);
    assert_eq!(streams.write(id, &[9; 5]), Ok(5));
    assert_eq!(streams.finish(id), Ok(()));
    assert_eq!(streams.finish(id), Err(FinishError::UnknownStream));
    assert_eq!(streams.write(id, b"x"), Err(WriteError::UnknownStream));
    let mut buf = Vec::new();
    let frames = streams.write_stream_frames(&mut buf, 1200);
    assert_eq!(frames, vec![StreamMeta { id, offsets: 0..5, fin: true }]);
    assert_eq!(buf, vec![0x0b, 0x02, 0x05, 9, 9, 9, 9, 9]);
    assert!(!streams.can_send());
    streams.received_ack_of(StreamMeta { id, offsets: 0..5, fin: true });
    assert!(!streams.send.contains_key(&id.0));
    assert_eq!(streams.send_streams(), 0);
    assert_eq!(streams.unacked_data, 0);
    assert_eq!(streams.poll(), Some(StreamEvent::Finished { id }));
    assert_eq!(streams.poll(), None);
}

#[test]
fn finish_without_data_sends_an_empty_frame() {
    let (mut streams, p) = client(100, 50);
    let id = streams.open(&p, Dir::Bi).unwrap();
    assert_eq!(streams.write(id, &[9; 5]), Ok(5));
    let mut buf = Vec::new();
    streams.write_stream_frames(&mut buf, 1200);
    streams.finish(id).unwrap();
    assert!(streams.can_send());
    let mut buf = Vec::new();
    let frames = streams.write_stream_frames(&mut buf, 1200);
    assert_eq!(frames, vec![StreamMeta { id, offsets: 5..5, fin: true }]);
    assert_eq!(buf, vec![0x0f, 0x00, 0x05, 0x00]);
    // The end is acknowledged before the data: the stream stays.
    streams.received_ack_of(StreamMeta { id, offsets: 5..5, fin: true });
    assert!(streams.send.contains_key(&id.0));
    streams.received_ack_of(StreamMeta { id, offsets: 0..5, fin: false });
    assert!(!streams.send.contains_key(&id.0));
    assert_eq!(streams.poll(), Some(StreamEvent::Finished { id }));
}

#[test]
fn lost_frames_are_sent_again() {
    let (mut streams, p) = client(100, 50);
    let id = streams.open(&p, Dir::Bi).unwrap();
    let data: Vec<u8> = (0..20).collect();
    assert_eq!(streams.write(id, &data), Ok(20));
    streams.finish(id).unwrap();
    let mut buf = Vec::new();
    let frames = streams.write_stream_frames(&mut buf, 1200);
    assert_eq!(frames, vec![StreamMeta { id, offsets: 0..20, fin: true }]);
    assert!(!streams.can_send());
    streams.retransmit(StreamMeta { id, offsets: 0..20, fin: true });
    assert!(streams.can_send());
    assert_eq!(streams.unacked_data, 20);
    let mut buf = Vec::new();
    let frames = streams.write_stream_frames(&mut buf, 1200);
    assert_eq!(frames, vec![StreamMeta { id, offsets: 0..20, fin: true }]);
    let mut expected = vec![0x0b, 0x00, 0x14];
    expected.extend_from_slice(&data);
    assert_eq!(buf, expected);
    // Loss on a stream that is not there does nothing.
    streams.retransmit(StreamMeta { id: StreamId(12), offsets: 0..20, fin: true });
    assert!(!streams.can_send());
}

#[test]
fn reset_refunds_and_is_acknowledged() {
    let (mut streams, p) = client(100, 50);
    let id = streams.open(&p, Dir::Bi).unwrap();
    let other = streams.open(&p, Dir::Bi).unwrap();
    assert_eq!(streams.write(id, &[0; 20]), Ok(20));
    assert_eq!(streams.write(other, &[0; 7]), Ok(7));
    let mut buf = Vec::new();
    streams.write_stream_frames(&mut buf, 1200);
    streams.received_ack_of(StreamMeta { id, offsets: 10..20, fin: false });
    assert_eq!(streams.unacked_data, 17);
    assert!(streams.reset(id).is_ok());
    assert_eq!(streams.unacked_data, 7);
    assert_eq!(streams.data_sent, 27);
    assert!(streams.reset(id).is_err());
    assert!(streams.reset(StreamId(12)).is_err());
    assert_eq!(streams.finish(id), Err(FinishError::UnknownStream));
    // Acks for a reset stream change nothing.
    streams.received_ack_of(StreamMeta { id, offsets: 0..10, fin: false });
    assert_eq!(streams.unacked_data, 7);
    assert_eq!(streams.send_streams(), 2);
    streams.reset_acked(other);
    assert!(streams.send.contains_key(&other.0));
    streams.reset_acked(id);
    assert!(!streams.send.contains_key(&id.0));
    assert_eq!(streams.send_streams(), 1);
    streams.reset_acked(id);
    assert_eq!(streams.send_streams(), 1);
    assert!(streams.stop_reason(id).is_err());
}

#[test]
fn reset_streams_get_no_frames() {
    let (mut streams, p) = client(100, 50);
    let id = streams.open(&p, Dir::Bi).unwrap();
    assert_eq!(streams.write(id, &[0; 20]), Ok(20));
    streams.reset(id).unwrap();
    // Nothing is left to send: the stream leaves the queue.
    assert!(!streams.can_send());
    let mut buf = Vec::new();
    assert_eq!(streams.write_stream_frames(&mut buf, 1200), vec![]);
    assert!(buf.is_empty());
    // With its end still due, a reset stream stays queued until its turn,
    // and gets no frame then.
    let other = streams.open(&p, Dir::Bi).unwrap();
    streams.finish(other).unwrap();
    streams.reset(other).unwrap();
    assert!(streams.can_send());
    assert_eq!(streams.write_stream_frames(&mut buf, 1200), vec![]);
    assert!(buf.is_empty());
    assert!(!streams.can_send());
}

#[test]
fn reset_keeps_the_other_streams_queued() {
    let (mut streams, p) = client(100, 50);
    let a = streams.open(&p, Dir::Bi).unwrap();
    let b = streams.open(&p, Dir::Bi).unwrap();
    let c = streams.open(&p, Dir::Bi).unwrap();
    assert_eq!(streams.write(a, &[1; 5]), Ok(5));
    assert_eq!(streams.write(b, &[2; 5]), Ok(5));
    assert_eq!(streams.write(c, &[3; 5]), Ok(5));
    streams.reset(b).unwrap();
    assert_eq!(streams.pending, vec![a, c]);
}

#[test]
fn streams_are_queued_once() {
    let (mut streams, p) = client(100, 50);
    let id = streams.open(&p, Dir::Bi).unwrap();
    assert_eq!(streams.write(id, &[]), Ok(0));
    assert_eq!(streams.write(id, &[1; 5]), Ok(5));
    streams.received_stop_sending(id, VarInt::from_u32(1));
    streams.retransmit(StreamMeta { id, offsets: 0..5, fin: false });
    streams.retransmit_all_for_0rtt();
    assert_eq!(streams.pending, vec![id]);
    let other = streams.open(&p, Dir::Uni).unwrap();
    streams.finish(other).unwrap();
    streams.finish(id).unwrap_err();
    assert_eq!(streams.pending, vec![id, other]);
    // A stream on which nothing was written is left alone.
    let idle = streams.open(&p, Dir::Uni).unwrap();
    streams.retransmit_all_for_0rtt();
    assert_eq!(streams.pending, vec![id, other]);
    assert!(!streams.pending.contains(&idle));
}

#[test]
fn rejection_clears_the_queue_and_the_blocked_list() {
    let mut streams = Streams::new(
        Side::Server,
        VarInt::from_u32(2),
        VarInt::from_u32(2),
        1000,
        VarInt::from_u32(800),
        VarInt::from_u32(400),
    );
    let p = params(100, 50);
    streams.set_params(&p);
    let own = streams.open(&p, Dir::Uni).unwrap();
    assert_eq!(streams.write(own, &[1; 5]), Ok(5));
    // Stream 0 is the first bidirectional stream of the client.
    assert_eq!(streams.write(StreamId(0), &[2; 5]), Ok(5));
    assert_eq!(streams.pending, vec![own, StreamId(0)]);
    // The connection leaves no room: both streams are listed as blocked.
    assert_eq!(streams.write(own, &[1; 100]), Ok(45));
    assert_eq!(streams.write(StreamId(0), &[2; 100]), Ok(45));
    assert_eq!(streams.write(own, &[1; 1]), Err(WriteError::Blocked));
    assert_eq!(streams.write(StreamId(0), &[2; 1]), Err(WriteError::Blocked));
    assert_eq!(streams.connection_blocked, vec![own, StreamId(0)]);
    streams.zero_rtt_rejected();
    assert!(!streams.can_send());
    assert!(streams.pending.is_empty());
    assert!(streams.connection_blocked.is_empty());
    assert!(!streams.send.contains_key(&own.0));
    // The stream of the peer stays, with what it holds, and is no longer
    // flagged as blocked.
    let kept = streams.send.get(&0).unwrap();
    assert!(!kept.connection_blocked);
    assert_eq!(kept.pending.offset(), 50);
    assert_eq!(streams.data_sent, 0);
    assert_eq!(streams.next, [0, 0]);
    assert_eq!(streams.poll(), None);
    // Finishing gives the stream a place in the queue again.
    assert_eq!(streams.finish(StreamId(0)), Ok(()));
    assert!(streams.can_send());
    assert_eq!(streams.pending, vec![StreamId(0)]);
    let mut buf = Vec::new();
    let frames = streams.write_stream_frames(&mut buf, 1200);
    assert_eq!(frames, vec![StreamMeta { id: StreamId(0), offsets: 0..50, fin: true }]);
}

#[test]
fn limit_of_a_finished_stream_is_raised() {
    let (mut streams, p) = client(1000, 10);
    let id = streams.open(&p, Dir::Bi).unwrap();
    assert_eq!(streams.write(id, &[0; 20]), Ok(10));
    streams.finish(id).unwrap();
    assert!(streams.received_max_stream_data(id, 30).is_ok());
    assert_eq!(streams.send.get(&id.0).unwrap().max_data, 30);
    // The stream was at its old limit.
    assert_eq!(streams.poll(), Some(StreamEvent::Writable { id }));
    assert!(streams.received_max_stream_data(id, 30).is_ok());
    assert!(streams.received_max_stream_data(id, 20).is_ok());
    assert_eq!(streams.send.get(&id.0).unwrap().max_data, 30);
    assert_eq!(streams.poll(), None);
}

#[test]
fn stop_sending_is_reported() {
    let (mut streams, p) = client(100, 50);
    let id = streams.open(&p, Dir::Bi).unwrap();
    assert_eq!(streams.stop_reason(id).unwrap(), None);
    streams.received_stop_sending(id, VarInt::from_u32(77));
    assert_eq!(streams.stop_reason(id).unwrap(), Some(VarInt::from_u32(77)));
    assert_eq!(
        streams.poll(),
        Some(StreamEvent::Stopped { id, error_code: VarInt::from_u32(77) })
    );
    assert_eq!(streams.write(id, b"x"), Err(WriteError::Stopped(VarInt::from_u32(77))));
    assert_eq!(streams.finish(id), Err(FinishError::Stopped(VarInt::from_u32(77))));
    // For a stream that is not there, nothing happens.
    streams.received_stop_sending(StreamId(12), VarInt::from_u32(1));
    assert_eq!(streams.poll(), None);
}

#[test]
fn stop_sending_on_a_stream_of_the_peer_opens_it() {
    let (mut streams, _) = client(100, 50);
    streams.received_stop_sending(StreamId(5), VarInt::from_u32(3));
    assert_eq!(streams.next_remote, [2, 0]);
    assert_eq!(streams.poll(), Some(StreamEvent::Opened { dir: Dir::Bi }));
    assert_eq!(
        streams.poll(),
        Some(StreamEvent::Stopped { id: StreamId(5), error_code: VarInt::from_u32(3) })
    );
    assert_eq!(streams.accept(Dir::Bi), Some(StreamId(1)));
    assert_eq!(streams.accept(Dir::Bi), Some(StreamId(5)));
    assert_eq!(streams.accept(Dir::Bi), None);
    assert_eq!(streams.accept(Dir::Uni), None);
    assert_eq!(streams.send_streams(), 2);
}

#[test]
fn max_stream_data_unblocks() {
    let (mut streams, p) = client(1000, 10);
    let id = streams.open(&p, Dir::Bi).unwrap();
    assert_eq!(streams.write(id, &[0; 20]), Ok(10));
    assert_eq!(streams.write(id, &[0; 20]), Err(WriteError::Blocked));
    assert!(streams.received_max_stream_data(id, 5).is_ok());
    assert_eq!(streams.poll(), None);
    assert!(streams.received_max_stream_data(id, 30).is_ok());
    assert_eq!(streams.poll(), Some(StreamEvent::Writable { id }));
    assert_eq!(streams.write(id, &[0; 30]), Ok(20));
    // Raising the limit of a stream that was not blocked is not reported.
    let other = streams.open(&p, Dir::Bi).unwrap();
    assert!(streams.received_max_stream_data(other, 30).is_ok());
    assert_eq!(streams.poll(), None);
    assert_eq!(streams.send.get(&other.0).unwrap().max_data, 30);
}

#[test]
fn max_stream_data_errors() {
    let (mut streams, _) = client(1000, 10);
    let err = streams.received_max_stream_data(StreamId(3), 30).unwrap_err();
    assert_eq!(err.code, TransportErrorCode::StreamStateError);
    assert_eq!(err.reason, "MAX_STREAM_DATA on recv-only stream");
    let err = streams.received_max_stream_data(StreamId(0), 30).unwrap_err();
    assert_eq!(err.code, TransportErrorCode::StreamStateError);
    assert_eq!(err.reason, "MAX_STREAM_DATA on unopened stream");
    let err = streams.received_max_stream_data(StreamId(2), 30).unwrap_err();
    assert_eq!(err.reason, "MAX_STREAM_DATA on unopened stream");
    // A stream of the peer is opened by the frame.
    assert!(streams.received_max_stream_data(StreamId(1), 30).is_ok());
    assert_eq!(streams.poll(), Some(StreamEvent::Opened { dir: Dir::Bi }));
    // One that the peer may not open is left alone.
    assert!(streams.received_max_stream_data(StreamId(9), 30).is_ok());
    assert_eq!(streams.next_remote, [1, 0]);
    assert_eq!(streams.poll(), None);
}

#[test]
fn max_streams() {
    let (mut streams, p) = client(1000, 10);
    assert!(streams.received_max_streams(Dir::Bi, 4).is_ok());
    assert_eq!(streams.poll(), None);
    assert!(streams.received_max_streams(Dir::Bi, 5).is_ok());
    assert_eq!(streams.max, [5, 4]);
    assert_eq!(streams.poll(), Some(StreamEvent::Available { dir: Dir::Bi }));
    assert!(streams.received_max_streams(Dir::Uni, 1 << 60).is_ok());
    assert_eq!(streams.poll(), Some(StreamEvent::Available { dir: Dir::Uni }));
    let err = streams.received_max_streams(Dir::Uni, (1 << 60) + 1).unwrap_err();
    assert_eq!(err.code, TransportErrorCode::FrameEncodingError);
    assert_eq!(err.reason, "unrepresentable stream limit");
    assert_eq!(streams.max, [5, 1 << 60]);
    for _ in 0..5 {
        assert!(streams.open(&p, Dir::Bi).is_some());
    }
    assert!(streams.open(&p, Dir::Bi).is_none());
}

#[test]
fn alloc_remote_stream_adds_one() {
    let (mut streams, p) = client(1000, 10);
    streams.alloc_remote_stream(&p, Dir::Bi);
    assert_eq!(streams.max_remote, [3, 2]);
    assert!(streams.recv.contains_key(&9));
    assert_eq!(streams.send.get(&9).unwrap().max_data, 10);
    streams.alloc_remote_stream(&p, Dir::Uni);
    assert_eq!(streams.max_remote, [3, 3]);
    assert!(streams.recv.contains_key(&11));
    assert!(!streams.send.contains_key(&11));
}

#[test]
fn zero_rtt() {
    let (mut streams, p) = client(100, 50);
    let a = streams.open(&p, Dir::Bi).unwrap();
    let b = streams.open(&p, Dir::Uni).unwrap();
    assert_eq!(streams.write(a, &[1; 10]), Ok(10));
    assert_eq!(streams.write(b, &[2; 10]), Ok(10));
    let mut buf = Vec::new();
    let frames = streams.write_stream_frames(&mut buf, 1200);
    assert_eq!(frames.len(), 2);
    assert!(!streams.can_send());
    streams.retransmit_all_for_0rtt();
    assert!(streams.can_send());
    let mut buf = Vec::new();
    let frames = streams.write_stream_frames(&mut buf, 1200);
    assert_eq!(
        frames,
        vec![
            StreamMeta { id: a, offsets: 0..10, fin: false },
            StreamMeta { id: b, offsets: 0..10, fin: false },
        ]
    );
    assert_eq!(streams.write(a, &[1; 10]), Ok(10));
    streams.zero_rtt_rejected();
    assert!(!streams.send.contains_key(&a.0));
    assert!(!streams.recv.contains_key(&a.0));
    assert!(!streams.send.contains_key(&b.0));
    assert!(streams.send.contains_key(&1));
    assert!(streams.recv.contains_key(&3));
    assert_eq!(streams.next, [0, 0]);
    assert_eq!(streams.data_sent, 0);
    assert!(!streams.can_send());
    assert!(streams.connection_blocked.is_empty());
    assert_eq!(streams.open(&p, Dir::Bi), Some(a));
}

#[test]
fn control_frames_in_order() {
    let (mut streams, p) = client(100, 50);
    let id = streams.open(&p, Dir::Bi).unwrap();
    assert_eq!(streams.write(id, &[0; 20]), Ok(20));
    streams.reset(id).unwrap();
    let mut pending = Retransmits::new();
    assert!(pending.is_empty());
    pending.reset_stream.push((StreamId(12), VarInt::from_u32(1)));
    pending.reset_stream.push((id, VarInt::from_u32(9)));
    pending.stop_sending.push(StopSending { id: StreamId(3), error_code: VarInt::from_u32(5) });
    pending.stop_sending.push(StopSending { id: StreamId(15), error_code: VarInt::from_u32(5) });
    pending.max_data = true;
    pending.insert_max_stream_data(StreamId(7));
    pending.insert_max_stream_data(StreamId(7));
    pending.insert_max_stream_data(StreamId(19));
    assert_eq!(pending.max_stream_data.len(), 2);
    assert!(pending.max_stream_data.contains(&7));
    assert!(pending.max_stream_data.contains(&19));
    assert_eq!(pending.any_max_stream_data().map(|id| id.0 == 7 || id.0 == 19), Some(true));
    pending.max_uni_stream_id = true;
    pending.max_bi_stream_id = true;
    assert!(!pending.is_empty());
    let mut sent = Retransmits::new();
    let mut stats = FrameStats::new();
    let mut buf = Vec::new();
    streams.write_control_frames(&mut buf, &mut pending, &mut sent, &mut stats, 1200);
    assert_eq!(
        buf,
        vec![
            0x04, 0x00, 0x09, 0x14, // RESET_STREAM of stream 0 at 20
            0x05, 0x03, 0x05, // STOP_SENDING on stream 3
            0x10, 0x43, 0x20, // MAX_DATA 800
            0x11, 0x07, 0x41, 0x90, // MAX_STREAM_DATA of stream 7: 400
            0x13, 0x02, // MAX_STREAMS uni
            0x12, 0x02, // MAX_STREAMS bidi
        ]
    );
    assert!(pending.is_empty());
    assert_eq!(sent.reset_stream, vec![(id, VarInt::from_u32(9))]);
    assert_eq!(
        sent.stop_sending,
        vec![StopSending { id: StreamId(3), error_code: VarInt::from_u32(5) }]
    );
    assert!(sent.max_data);
    assert_eq!(sent.max_stream_data.len(), 1);
    assert!(sent.max_stream_data.contains(&7));
    assert!(sent.max_uni_stream_id);
    assert!(sent.max_bi_stream_id);
    assert_eq!(
        stats,
        FrameStats {
            reset_stream: 1,
            stop_sending: 1,
            max_data: 1,
            max_stream_data: 1,
            max_streams_uni: 1,
            max_streams_bidi: 1,
        }
    );
    assert_eq!(streams.recv.get(&7).unwrap().sent_max_stream_data, 400);
    assert_eq!(streams.sent_max_data, 800);
}

#[test]
fn control_frames_wait_for_room() {
    let (mut streams, _) = client(100, 50);
    let mut pending = Retransmits::new();
    pending.stop_sending.push(StopSending { id: StreamId(3), error_code: VarInt::from_u32(5) });
    pending.max_data = true;
    pending.max_uni_stream_id = true;
    let mut sent = Retransmits::new();
    let mut stats = FrameStats::new();
    let mut buf = Vec::new();
    // MAX_DATA and MAX_STREAMS need 9 bytes of room, STOP_SENDING 17.
    streams.write_control_frames(&mut buf, &mut pending, &mut sent, &mut stats, 10);
    assert_eq!(buf, vec![0x10, 0x43, 0x20]);
    assert_eq!(pending.stop_sending.len(), 1);
    assert!(!pending.max_data);
    assert!(pending.max_uni_stream_id);
    streams.write_control_frames(&mut buf, &mut pending, &mut sent, &mut stats, 13);
    assert_eq!(buf, vec![0x10, 0x43, 0x20, 0x13, 0x02]);
    streams.write_control_frames(&mut buf, &mut pending, &mut sent, &mut stats, 23);
    assert_eq!(buf, vec![0x10, 0x43, 0x20, 0x13, 0x02, 0x05, 0x03, 0x05]);
    assert!(pending.is_empty());
}

#[test]
fn stopped_stream_takes_a_turn() {
    let (mut streams, p) = client(100, 50);
    let id = streams.open(&p, Dir::Bi).unwrap();
    assert!(!streams.can_send());
    streams.received_stop_sending(id, VarInt::from_u32(1));
    assert!(streams.can_send());
    let mut buf = Vec::new();
    let frames = streams.write_stream_frames(&mut buf, 1200);
    assert_eq!(frames, vec![StreamMeta { id, offsets: 0..0, fin: false }]);
    assert_eq!(buf, vec![0x0a, 0x00, 0x00]);
    assert!(!streams.can_send());
}

#[test]
fn empty_write_joins_the_queue() {
    let (mut streams, p) = client(100, 50);
    let id = streams.open(&p, Dir::Bi).unwrap();
    assert_eq!(streams.write(id, &[]), Ok(0));
    assert!(streams.can_send());
    assert_eq!(streams.data_sent, 0);
    assert_eq!(streams.unacked_data, 0);
}

#[test]
fn accepts_params_looks_at_the_streams_of_the_peer() {
    let mut streams = Streams::new(
        Side::Server,
        VarInt::from_u32(1),
        VarInt::from_u32(2),
        1000,
        VarInt::from_u32(800),
        VarInt::from_u32(400),
    );
    let p = params(100, 50);
    assert!(streams.accepts_params(&p));
    let too_many = TransportParameters {
        initial_max_streams_uni: VarInt::from_u64((1 << 60) + 1).unwrap(),
        ..p
    };
    assert!(!streams.accepts_params(&too_many));
    streams.set_params(&p);
    // Stream 4 is the second bidirectional stream of the client.
    assert_eq!(streams.write(StreamId(4), &[0; 30]), Ok(30));
    assert!(streams.accepts_params(&params(100, 30)));
    assert!(!streams.accepts_params(&params(100, 29)));
    streams.reset(StreamId(0)).unwrap();
    streams.reset_acked(StreamId(0));
    assert!(!streams.accepts_params(&p));
}

#[test]
fn limits_hold_along_the_way() {
    fn check(s: &Streams) {
        assert!(s.data_sent <= s.max_data);
        assert!(s.unacked_data <= s.send_window);
        assert!(s.sent_max_data <= s.local_max_data);
        for send in s.send.values() {
            assert!(send.pending.offset() <= send.max_data);
        }
        for d in 0..2 {
            assert!(s.next_reported_remote[d] <= s.next_remote[d]);
            assert!(s.next_remote[d] <= s.max_remote[d]);
        }
        for (i, id) in s.connection_blocked.iter().enumerate() {
            assert!(!s.connection_blocked[..i].contains(id));
            if let Some(send) = s.send.get(&id.0) {
                assert!(send.connection_blocked);
            }
        }
        let unacked: u64 = s.send.values().map(|send| send.pending.unacked()).sum();
        assert!(unacked <= s.unacked_data);
        for (i, id) in s.pending.iter().enumerate() {
            assert!(!s.pending.iter().take(i).any(|other| other == id));
        }
        for (k, send) in s.send.iter() {
            if send.connection_blocked {
                assert!(s.connection_blocked.contains(&StreamId(*k)));
            }
        }
    }
    let (mut s, p) = client(60, 50);
    check(&s);
    let a = s.open(&p, Dir::Bi).unwrap();
    let b = s.open(&p, Dir::Uni).unwrap();
    check(&s);
    assert_eq!(s.write(a, &[1; 40]), Ok(40));
    check(&s);
    assert_eq!(s.write(b, &[2; 40]), Ok(20));
    check(&s);
    assert_eq!(s.write(b, &[2; 40]), Err(WriteError::Blocked));
    check(&s);
    let mut buf = Vec::new();
    let frames = s.write_stream_frames(&mut buf, 60);
    check(&s);
    for frame in frames {
        s.received_ack_of(frame);
        check(&s);
    }
    s.received_max_data(VarInt::from_u32(200));
    check(&s);
    assert_eq!(s.poll(), Some(StreamEvent::Writable { id: b }));
    check(&s);
    s.finish(a).unwrap();
    s.reset(b).unwrap();
    check(&s);
    let mut buf = Vec::new();
    let frames = s.write_stream_frames(&mut buf, 1200);
    check(&s);
    for frame in frames {
        s.retransmit(frame.duplicate());
        check(&s);
        s.received_ack_of(frame);
        check(&s);
    }
    s.reset_acked(b);
    check(&s);
    s.zero_rtt_rejected();
    check(&s);
}

#[test]
fn round_trips_restore_the_send_window() {
    let (mut s, p) = client(1000, 400);
    let a = s.open(&p, Dir::Bi).unwrap();
    let b = s.open(&p, Dir::Bi).unwrap();
    assert_eq!(s.write(a, &[1; 7]), Ok(7));
    let mut buf = Vec::new();
    let first = s.write_stream_frames(&mut buf, 1200);
    let before = s.unacked_data;
    assert_eq!(before, 7);
    assert_eq!(s.write(a, &[1; 100]), Ok(100));
    assert_eq!(s.write(b, &[2; 50]), Ok(50));
    assert_eq!(s.write(a, &[1; 30]), Ok(30));
    assert_eq!(s.unacked_data, before + 180);
    let mut frames = Vec::new();
    while s.can_send() {
        let mut buf = Vec::new();
        frames.extend(s.write_stream_frames(&mut buf, 70));
    }
    assert!(frames.len() > 4);
    // The acknowledgements arrive in another order.
    frames.reverse();
    for frame in frames {
        s.received_ack_of(frame);
    }
    assert_eq!(s.unacked_data, before);
    for frame in first {
        s.received_ack_of(frame);
    }
    assert_eq!(s.unacked_data, 0);
}

#[test]
fn stream_limits_are_written_in_any_order() {
    let (mut streams, _) = client(100, 50);
    let mut pending = Retransmits::new();
    assert_eq!(pending.any_max_stream_data(), None);
    pending.insert_max_stream_data(StreamId(3));
    pending.insert_max_stream_data(StreamId(7));
    pending.insert_max_stream_data(StreamId(1));
    pending.remove_max_stream_data(StreamId(1));
    pending.remove_max_stream_data(StreamId(11));
    assert_eq!(pending.max_stream_data.len(), 2);
    let mut sent = Retransmits::new();
    let mut stats = FrameStats::new();
    let mut buf = Vec::new();
    // Room for one frame only: one of the two streams is taken.
    streams.write_control_frames(&mut buf, &mut pending, &mut sent, &mut stats, 18);
    assert_eq!(stats.max_stream_data, 1);
    assert_eq!(pending.max_stream_data.len(), 1);
    assert_eq!(sent.max_stream_data.len(), 1);
    let first = *sent.max_stream_data.iter().next().unwrap();
    assert!(first == 3 || first == 7);
    assert_eq!(buf, vec![0x11, first as u8, 0x41, 0x90]);
    assert_eq!(streams.recv.get(&first).unwrap().sent_max_stream_data, 400);
    streams.write_control_frames(&mut buf, &mut pending, &mut sent, &mut stats, 1200);
    assert!(pending.is_empty());
    assert_eq!(stats.max_stream_data, 2);
    assert_eq!(buf, vec![0x11, first as u8, 0x41, 0x90, 0x11, (10 - first) as u8, 0x41, 0x90]);
    assert!(sent.max_stream_data.contains(&3) && sent.max_stream_data.contains(&7));
}
