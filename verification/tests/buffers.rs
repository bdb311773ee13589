use bytes::Bytes;
use quic_streams::assembler::Assembler;
use quic_streams::assembler::IllegalOrderedRead;
use quic_streams::range_set::RangeSet;
use quic_streams::send_buffer::SendBuffer;

#[test]
fn range_set_insert_merges_and_counts() {
    let mut set = RangeSet::new();
    assert!(set.is_empty());
    assert_eq!(set.insert(10, 20), 10);
    assert_eq!(set.insert(30, 40), 10);
    assert_eq!(set.len(), 2);
    // Touching ranges merge and add all their offsets.
    assert_eq!(set.insert(20, 30), 10);
    assert_eq!(set.len(), 1);
    assert_eq!(set.get(0), (10, 40));
    // An overlap adds only what is new.
    assert_eq!(set.insert(5, 15), 5);
    assert_eq!(set.insert(35, 50), 10);
    assert_eq!(set.insert(0, 60), 15);
    assert_eq!(set.peek_min(), Some((0, 60)));
    assert_eq!(set.insert(0, 60), 0);
    assert_eq!(set.pop_min(), Some((0, 60)));
    assert_eq!(set.pop_min(), None);
}

#[test]
fn range_set_keeps_separate_ranges_in_order() {
    let mut set = RangeSet::new();
    set.insert(50, 60);
    set.insert(10, 20);
    set.insert(30, 40);
    assert_eq!(set.len(), 3);
    assert_eq!(set.get(0), (10, 20));
    assert_eq!(set.get(1), (30, 40));
    assert_eq!(set.get(2), (50, 60));
    assert_eq!(set.insert(15, 55), 20);
    assert_eq!(set.len(), 1);
    assert_eq!(set.get(0), (10, 60));
}

#[test]
fn range_set_gaps() {
    let mut set = RangeSet::new();
    set.insert(10, 20);
    set.insert(30, 40);
    assert_eq!(set.gaps(0, 50), vec![(0, 10), (20, 30), (40, 50)]);
    assert_eq!(set.gaps(12, 18), Vec::<(u64, u64)>::new());
    assert_eq!(set.gaps(15, 35), vec![(20, 30)]);
    assert_eq!(set.gaps(20, 30), vec![(20, 30)]);
    assert_eq!(set.gaps(40, 45), vec![(40, 45)]);
    assert_eq!(set.gaps(5, 5), Vec::<(u64, u64)>::new());
    assert_eq!(RangeSet::new().gaps(3, 9), vec![(3, 9)]);
}

#[test]
fn send_buffer_hands_out_in_order() {
    let mut buf = SendBuffer::new();
    assert!(buf.is_fully_acked());
    assert!(!buf.has_unsent_data());
    buf.write(b"hello world");
    assert_eq!(buf.offset(), 11);
    assert_eq!(buf.unacked(), 11);
    assert!(buf.has_unsent_data());
    assert_eq!(buf.poll_transmit(5), (0, 5));
    assert_eq!(buf.get(0, 5), b"hello");
    assert_eq!(buf.poll_transmit(100), (5, 11));
    assert_eq!(buf.get(5, 11), b" world");
    assert!(!buf.has_unsent_data());
    assert_eq!(buf.poll_transmit(100), (11, 11));
}

#[test]
fn send_buffer_acks() {
    let mut buf = SendBuffer::new();
    buf.write(b"0123456789");
    assert_eq!(buf.poll_transmit(100), (0, 10));
    // Out of order: the bytes stay buffered, but count as acknowledged.
    assert_eq!(buf.ack(5, 10), 5);
    assert_eq!(buf.unacked(), 5);
    assert!(!buf.is_fully_acked());
    assert_eq!(buf.get(0, 5), b"01234");
    // Twice the same: nothing new.
    assert_eq!(buf.ack(5, 10), 0);
    assert_eq!(buf.ack(7, 8), 0);
    // An overlap counts once.
    assert_eq!(buf.ack(0, 7), 5);
    assert_eq!(buf.unacked(), 0);
    assert!(buf.is_fully_acked());
    assert_eq!(buf.offset(), 10);
}

#[test]
fn send_buffer_ignores_acks_of_what_was_not_sent() {
    let mut buf = SendBuffer::new();
    buf.write(b"0123456789");
    assert_eq!(buf.ack(0, 10), 0);
    assert_eq!(buf.poll_transmit(4), (0, 4));
    assert_eq!(buf.ack(0, 10), 4);
    assert_eq!(buf.unacked(), 6);
    assert_eq!(buf.ack(9, 3), 0);
    assert_eq!(buf.poll_transmit(100), (4, 10));
    assert_eq!(buf.get(4, 10), b"456789");
}

#[test]
fn send_buffer_retransmits_oldest_first() {
    let mut buf = SendBuffer::new();
    buf.write(b"0123456789");
    assert_eq!(buf.poll_transmit(100), (0, 10));
    assert!(!buf.has_unsent_data());
    buf.retransmit(6, 8);
    buf.retransmit(0, 4);
    assert!(buf.has_unsent_data());
    assert_eq!(buf.poll_transmit(100), (6, 8));
    assert_eq!(buf.poll_transmit(3), (0, 3));
    assert_eq!(buf.poll_transmit(3), (3, 4));
    assert!(!buf.has_unsent_data());
    // What was never sent cannot be lost.
    buf.write(b"abc");
    buf.retransmit(8, 13);
    assert_eq!(buf.poll_transmit(100), (8, 10));
    assert_eq!(buf.poll_transmit(100), (10, 13));
}

#[test]
fn send_buffer_drops_retransmits_of_acked_front() {
    let mut buf = SendBuffer::new();
    buf.write(b"0123456789");
    assert_eq!(buf.poll_transmit(100), (0, 10));
    buf.retransmit(0, 3);
    buf.retransmit(2, 8);
    assert_eq!(buf.ack(0, 5), 5);
    assert_eq!(buf.poll_transmit(100), (5, 8));
    assert!(!buf.has_unsent_data());
    assert_eq!(buf.get(5, 10), b"56789");
}

#[test]
fn send_buffer_retransmit_all_and_discard() {
    let mut buf = SendBuffer::new();
    buf.write(b"0123456789");
    assert_eq!(buf.poll_transmit(6), (0, 6));
    buf.retransmit_all_for_0rtt();
    assert_eq!(buf.poll_transmit(100), (0, 6));
    assert_eq!(buf.poll_transmit(100), (6, 10));
    buf.discard();
    assert_eq!(buf.offset(), 10);
    assert_eq!(buf.unacked(), 0);
    assert!(buf.is_fully_acked());
    assert!(!buf.has_unsent_data());
}

#[test]
fn assembler_reads_in_order() {
    let mut reassembly = Assembler::new();
    reassembly.insert(3, Bytes::from_static(b"def"));
    assert_eq!(reassembly.end(), 6);
    let mut buf = [0u8; 8];
    assert_eq!(reassembly.read(&mut buf), Ok(0));
    assert!(!reassembly.is_fully_read());
    reassembly.insert(0, Bytes::from_static(b"abc"));
    assert_eq!(reassembly.read(&mut buf[..2]), Ok(2));
    assert_eq!(&buf[..2], b"ab");
    assert_eq!(reassembly.bytes_read(), 2);
    assert_eq!(reassembly.read(&mut buf), Ok(4));
    assert_eq!(&buf[..4], b"cdef");
    assert_eq!(reassembly.bytes_read(), 6);
    assert!(reassembly.is_fully_read());
    assert_eq!(reassembly.read(&mut buf), Ok(0));
}

#[test]
fn assembler_drops_what_it_has() {
    let mut reassembly = Assembler::new();
    reassembly.insert(2, Bytes::from_static(b"CD"));
    // The bytes at 2 and 3 were received before: the first copy stays.
    reassembly.insert(0, Bytes::from_static(b"abcdef"));
    reassembly.insert(1, Bytes::from_static(b"XYZ"));
    let mut buf = [0u8; 16];
    assert_eq!(reassembly.read(&mut buf), Ok(6));
    assert_eq!(&buf[..6], b"abCDef");
    // What was read is not taken again.
    reassembly.insert(4, Bytes::from_static(b"EFgh"));
    assert_eq!(reassembly.end(), 8);
    assert_eq!(reassembly.read(&mut buf), Ok(2));
    assert_eq!(&buf[..2], b"gh");
}

#[test]
fn assembler_unordered_reads() {
    let mut reassembly = Assembler::new();
    reassembly.insert(5, Bytes::from_static(b"fgh"));
    reassembly.insert(0, Bytes::from_static(b"ab"));
    let mut seen = Vec::new();
    while let Some((offset, data)) = reassembly.read_unordered() {
        seen.push((offset, data.to_vec()));
    }
    seen.sort();
    assert_eq!(seen, vec![(0, b"ab".to_vec()), (5, b"fgh".to_vec())]);
    assert_eq!(reassembly.bytes_read(), 5);
    assert!(!reassembly.is_fully_read());
    let mut buf = [0u8; 4];
    assert_eq!(reassembly.read(&mut buf), Err(IllegalOrderedRead));
    // Only what is new is handed out.
    reassembly.insert(0, Bytes::from_static(b"abcdefgh"));
    assert_eq!(reassembly.read_unordered(), Some((2, Bytes::from_static(b"cde"))));
    assert_eq!(reassembly.read_unordered(), None);
    assert_eq!(reassembly.bytes_read(), 8);
    assert!(reassembly.is_fully_read());
}

#[test]
fn assembler_stop_and_clear() {
    let mut reassembly = Assembler::new();
    reassembly.insert(0, Bytes::from_static(b"abc"));
    reassembly.clear();
    let mut buf = [0u8; 4];
    assert_eq!(reassembly.read(&mut buf), Ok(0));
    assert_eq!(reassembly.end(), 3);
    assert!(!reassembly.is_stopped());
    reassembly.stop();
    assert!(reassembly.is_stopped());
    reassembly.insert(3, Bytes::from_static(b"defg"));
    assert_eq!(reassembly.end(), 7);
    assert_eq!(reassembly.read(&mut buf), Ok(0));
    assert_eq!(reassembly.bytes_read(), 0);
}
