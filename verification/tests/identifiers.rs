use quic_streams::coding::write_stream_id;
use quic_streams::coding::write_var;
use quic_streams::coding::write_varint;
use quic_streams::frame::write_max_data;
use quic_streams::frame::write_max_stream_data;
use quic_streams::frame::write_max_streams;
use quic_streams::frame::ResetStream;
use quic_streams::frame::StopSending;
use quic_streams::frame::StreamMeta;
use quic_streams::stream_id::Dir;
use quic_streams::stream_id::Side;
use quic_streams::stream_id::StreamId;
use quic_streams::varint::VarInt;

#[test]
fn stream_id_parts() {
    let id = StreamId::new(Side::Server, Dir::Uni, 0);
    assert_eq!(id.0, 3);
    assert_eq!(id.initiator(), Side::Server);
    assert_eq!(id.dir(), Dir::Uni);
    assert_eq!(id.index(), 0);
    let id = StreamId::new(Side::Client, Dir::Bi, 5);
    assert_eq!(id.0, 20);
    assert_eq!(id.initiator(), Side::Client);
    assert_eq!(id.dir(), Dir::Bi);
    assert_eq!(id.index(), 5);
    let id = StreamId::new(Side::Client, Dir::Uni, 7);
    assert_eq!(id.0, 30);
    let id = StreamId::new(Side::Server, Dir::Bi, 1);
    assert_eq!(id.0, 5);
}

#[test]
fn stream_id_keeps_initiator_and_dir_for_any_index() {
    for index in [0u64, 1, 1 << 59, (1 << 62) - 1, 1 << 62, u64::MAX] {
        for side in [Side::Client, Side::Server] {
            for dir in [Dir::Bi, Dir::Uni] {
                let id = StreamId::new(side, dir, index);
                assert_eq!(id.initiator(), side);
                assert_eq!(id.dir(), dir);
                if index < (1 << 62) {
                    assert_eq!(id.index(), index);
                }
            }
        }
    }
}

#[test]
fn side_and_dir_helpers() {
    assert!(Side::Client.is_client());
    assert!(!Side::Client.is_server());
    assert!(Side::Server.is_server());
    assert_eq!(Side::Client.opposite(), Side::Server);
    assert_eq!(Side::Server.opposite(), Side::Client);
    assert_eq!(Dir::Bi.as_usize(), 0);
    assert_eq!(Dir::Uni.as_usize(), 1);
}

#[test]
fn varint_bounds() {
    assert_eq!(VarInt::from_u32(7).into_inner(), 7);
    assert_eq!(VarInt::from_u64((1 << 62) - 1).unwrap().into_inner(), (1 << 62) - 1);
    assert!(VarInt::from_u64(1 << 62).is_none());
    assert_eq!(VarInt::max_value().into_inner(), (1 << 62) - 1);
}

#[test]
fn varint_wire_forms() {
    let mut buf = Vec::new();
    write_var(&mut buf, 37);
    assert_eq!(buf, vec![0x25]);
    let mut buf = Vec::new();
    write_var(&mut buf, 15293);
    assert_eq!(buf, vec![0x7b, 0xbd]);
    let mut buf = Vec::new();
    write_var(&mut buf, 494_878_333);
    assert_eq!(buf, vec![0x9d, 0x7f, 0x3e, 0x7d]);
    let mut buf = Vec::new();
    write_var(&mut buf, 151_288_809_941_952_652);
    assert_eq!(buf, vec![0xc2, 0x19, 0x7c, 0x5e, 0xff, 0x14, 0xe8, 0x8c]);
}

#[test]
fn varint_size_boundaries() {
    for (value, size) in [
        (0u64, 1usize),
        (63, 1),
        (64, 2),
        (16383, 2),
        (16384, 4),
        ((1 << 30) - 1, 4),
        (1 << 30, 8),
        ((1 << 62) - 1, 8),
    ] {
        let mut buf = vec![0xaa];
        write_var(&mut buf, value);
        assert_eq!(buf.len(), 1 + size);
        assert_eq!(buf[0], 0xaa);
    }
    let mut buf = Vec::new();
    write_var(&mut buf, 64);
    assert_eq!(buf, vec![0x40, 0x40]);
    let mut buf = Vec::new();
    write_varint(&mut buf, VarInt::from_u32(16384));
    assert_eq!(buf, vec![0x80, 0x00, 0x40, 0x00]);
    let mut buf = Vec::new();
    write_stream_id(&mut buf, StreamId(1 << 30));
    assert_eq!(buf, vec![0xc0, 0, 0, 0, 0x40, 0, 0, 0]);
}

#[test]
fn control_frame_wire_forms() {
    let mut buf = Vec::new();
    ResetStream { id: StreamId(4), error_code: VarInt::from_u32(7), final_offset: 300 }
        .encode(&mut buf);
    assert_eq!(buf, vec![0x04, 0x04, 0x07, 0x41, 0x2c]);
    let mut buf = Vec::new();
    StopSending { id: StreamId(3), error_code: VarInt::from_u32(64) }.encode(&mut buf);
    assert_eq!(buf, vec![0x05, 0x03, 0x40, 0x40]);
    let mut buf = Vec::new();
    write_max_data(&mut buf, 1000);
    assert_eq!(buf, vec![0x10, 0x43, 0xe8]);
    let mut buf = Vec::new();
    write_max_stream_data(&mut buf, StreamId(8), 5);
    assert_eq!(buf, vec![0x11, 0x08, 0x05]);
    let mut buf = Vec::new();
    write_max_streams(&mut buf, Dir::Bi, 9);
    assert_eq!(buf, vec![0x12, 0x09]);
    let mut buf = Vec::new();
    write_max_streams(&mut buf, Dir::Uni, 10);
    assert_eq!(buf, vec![0x13, 0x0a]);
}

#[test]
fn stream_header_wire_forms() {
    let mut buf = Vec::new();
    StreamMeta { id: StreamId(2), offsets: 0..10, fin: false }.encode(true, &mut buf);
    assert_eq!(buf, vec![0x0a, 0x02, 0x0a]);
    let mut buf = Vec::new();
    StreamMeta { id: StreamId(2), offsets: 5..10, fin: true }.encode(true, &mut buf);
    assert_eq!(buf, vec![0x0f, 0x02, 0x05, 0x05]);
    let mut buf = Vec::new();
    StreamMeta { id: StreamId(2), offsets: 5..10, fin: true }.encode(false, &mut buf);
    assert_eq!(buf, vec![0x0d, 0x02, 0x05]);
    let mut buf = Vec::new();
    StreamMeta { id: StreamId(2), offsets: 0..0, fin: true }.encode(false, &mut buf);
    assert_eq!(buf, vec![0x09, 0x02]);
    let meta = StreamMeta { id: StreamId(6), offsets: 1..2, fin: false };
    assert_eq!(meta.duplicate(), meta);
}
