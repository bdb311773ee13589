use bytes::Bytes;
use quic_streams::frame::ResetStream;
use quic_streams::frame::ShouldTransmit;
use quic_streams::frame::Stream;
use quic_streams::stream_id::Dir;
use quic_streams::stream_id::Side;
use quic_streams::stream_id::StreamId;
use quic_streams::streams::Streams;
use quic_streams::transport::TransportParameters;
use quic_streams::types::ReadError;
use quic_streams::types::StopResult;
use quic_streams::types::WriteError;

fn make(side: Side) -> Streams {
    Streams::new(
        side,
        128u32.into(),
        128u32.into(),
        1024 * 1024,
        (1024 * 1024u32).into(),
        (1024 * 1024u32).into(),
    )
}

#[test]
fn reset_flow_control() {
    let mut client = make(Side::Client);
    let id = StreamId::new(Side::Server, Dir::Uni, 0);
    let initial_max = client.local_max_data;
    assert_eq!(
        client
            .received(Stream {
                id,
                offset: 0,
                fin: false,
                data: Bytes::from_static(&[0; 2048]),
            })
            .unwrap(),
        ShouldTransmit::new(false)
    );
    assert_eq!(client.data_recvd, 2048);
    assert_eq!(client.local_max_data - initial_max, 0);
    client.read(id, &mut [0; 1024]).unwrap();
    assert_eq!(client.local_max_data - initial_max, 1024);
    assert_eq!(
        client
            .received_reset(ResetStream {
                id,
                error_code: 0u32.into(),
                final_offset: 4096,
            })
            .unwrap(),
        ShouldTransmit::new(false)
    );
    assert_eq!(client.data_recvd, 4096);
    assert_eq!(client.local_max_data - initial_max, 4096);
}

#[test]
fn reset_after_empty_frame_flow_control() {
    let mut client = make(Side::Client);
    let id = StreamId::new(Side::Server, Dir::Uni, 0);
    let initial_max = client.local_max_data;
    assert_eq!(
        client
            .received(Stream {
                id,
                offset: 4096,
                fin: false,
                data: Bytes::from_static(&[0; 0]),
            })
            .unwrap(),
        ShouldTransmit::new(false)
    );
    assert_eq!(client.data_recvd, 4096);
    assert_eq!(client.local_max_data - initial_max, 0);
    assert_eq!(
        client
            .received_reset(ResetStream {
                id,
                error_code: 0u32.into(),
                final_offset: 4096,
            })
            .unwrap(),
        ShouldTransmit::new(false)
    );
    assert_eq!(client.data_recvd, 4096);
    assert_eq!(client.local_max_data - initial_max, 4096);
}

#[test]
fn duplicate_reset_flow_control() {
    let mut client = make(Side::Client);
    let id = StreamId::new(Side::Server, Dir::Uni, 0);
    assert_eq!(
        client
            .received_reset(ResetStream {
                id,
                error_code: 0u32.into(),
                final_offset: 4096,
            })
            .unwrap(),
        ShouldTransmit::new(false)
    );
    assert_eq!(client.data_recvd, 4096);
    assert_eq!(
        client
            .received_reset(ResetStream {
                id,
                error_code: 0u32.into(),
                final_offset: 4096,
            })
            .unwrap(),
        ShouldTransmit::new(false)
    );
    assert_eq!(client.data_recvd, 4096);
}

#[test]
fn recv_stopped() {
    let mut client = make(Side::Client);
    let id = StreamId::new(Side::Server, Dir::Uni, 0);
    let initial_max = client.local_max_data;
    assert_eq!(
        client
            .received(Stream {
                id,
                offset: 0,
                fin: false,
                data: Bytes::from_static(&[0; 32]),
            })
            .unwrap(),
        ShouldTransmit::new(false)
    );
    assert_eq!(client.local_max_data, initial_max);
    assert_eq!(
        client.stop(id).unwrap(),
        StopResult {
            max_data: ShouldTransmit::new(false),
            stop_sending: ShouldTransmit::new(true),
        }
    );
    assert!(client.stop(id).is_err());
    assert_eq!(client.read(id, &mut []), Err(ReadError::UnknownStream));
    assert_eq!(client.read_unordered(id), Err(ReadError::UnknownStream));
    assert_eq!(client.local_max_data - initial_max, 32);
    assert_eq!(
        client
            .received(Stream {
                id,
                offset: 32,
                fin: true,
                data: Bytes::from_static(&[0; 16]),
            })
            .unwrap(),
        ShouldTransmit::new(false)
    );
    assert_eq!(client.local_max_data - initial_max, 48);
    assert!(!client.recv.contains_key(&id.0));
}

#[test]
fn stopped_reset() {
    let mut client = make(Side::Client);
    let id = StreamId::new(Side::Server, Dir::Uni, 0);
    // Server opens stream
    assert_eq!(
        client
            .received(Stream {
                id,
                offset: 0,
                fin: false,
                data: Bytes::from_static(&[0; 32]),
            })
            .unwrap(),
        ShouldTransmit::new(false)
    );
    // Client stops it
    assert_eq!(
        client.stop(id).unwrap(),
        StopResult {
            max_data: ShouldTransmit::new(false),
            stop_sending: ShouldTransmit::new(true),
        }
    );
    // Server complies
    assert_eq!(
        client
            .received_reset(ResetStream {
                id,
                error_code: 0u32.into(),
                final_offset: 32,
            })
            .unwrap(),
        ShouldTransmit::new(false)
    );
    assert!(!client.recv.contains_key(&id.0), "stream state is freed");
}

#[test]
fn send_stopped() {
    let params = TransportParameters {
        initial_max_streams_uni: 1u32.into(),
        initial_max_data: 42u32.into(),
        initial_max_stream_data_uni: 42u32.into(),
        ..Default::default()
    };
    let mut server = make(Side::Server);
    server.set_params(&params);
    let id = server.open(&params, Dir::Uni).unwrap();
    let reason = 0u32.into();
    server.received_stop_sending(id, reason);
    assert_eq!(server.write(id, &[]), Err(WriteError::Stopped(reason)));
    server.reset(id).unwrap();
    assert_eq!(server.write(id, &[]), Err(WriteError::UnknownStream));
}
