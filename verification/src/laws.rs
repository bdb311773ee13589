//! What holds of the operations on the streams of a connection, beyond
//! what each of them states about itself.
use crate::assembler::AssemblerView;
use crate::map_sum::map_sum;
use crate::model::StreamsView;
use crate::model::lemma_unacked_update;
use crate::model::unacked_weights;
use crate::range_set::ranges_contain;
use crate::range_set::ranges_miss;
use crate::recv::new_bytes;
use crate::send::SendState;
use crate::send_buffer::SendBufferView;
use crate::stream_id::Dir;
use crate::stream_id::StreamId;
use crate::types::ReadError;
use crate::types::StreamEvent;
use crate::varint::VarInt;
use vstd::prelude::*;

verus! {

/// Announcing a connection limit that is not above the one in force
/// changes nothing, and announcing any limit twice is as good as once.
pub proof fn law_max_data_idempotent(s: StreamsView, n: u64)
    ensures
        n <= s.max_data ==> s.after_max_data(n) == s,
        s.after_max_data(n).after_max_data(n) == s.after_max_data(n),
{
}

/// The search for a stream to unblock changes nothing but the sending
/// halves and the list of blocked streams.
pub proof fn lemma_unblock_frame(s: StreamsView)
    ensures
        s.unblock_scan().0 == (StreamsView {
            send: s.unblock_scan().0.send,
            connection_blocked: s.unblock_scan().0.connection_blocked,
            ..s
        }),
        s.unblocked().0 == (StreamsView {
            send: s.unblocked().0.send,
            connection_blocked: s.unblocked().0.connection_blocked,
            ..s
        }),
    decreases s.connection_blocked.len(),
{
    if s.connection_blocked.len() > 0 {
        let id = s.connection_blocked.last();
        let rest = StreamsView { connection_blocked: s.connection_blocked.drop_last(), ..s };
        if !s.send.contains_key(id.0) {
            lemma_unblock_frame(rest);
        } else {
            let next = StreamsView {
                send: s.send.insert(
                    id.0,
                    crate::send::SendView { connection_blocked: false, ..s.send[id.0] },
                ),
                ..rest
            };
            if !s.send[id.0].is_writable() {
                lemma_unblock_frame(next);
            }
        }
    }
}

/// The application is told that the peer has opened streams of a
/// directionality only while that is flagged, and being told clears the
/// flag: so it is not told twice unless the flag was set again in between.
pub proof fn law_opened_once(s: StreamsView, dir: Dir)
    requires
        s.wf(),
    ensures
        s.polled().1 == Some(StreamEvent::Opened { dir }) ==> s.opened[dir.slot()]
            && !s.polled().0.opened[dir.slot()],
        !s.opened[dir.slot()] ==> s.polled().1 != Some(StreamEvent::Opened { dir }),
        s.polled().1 == Some(StreamEvent::Opened { dir }) ==> s.polled().0.polled().1 != Some(
            StreamEvent::Opened { dir },
        ),
{
    lemma_unblock_frame(s);
    let u = s.unblocked().0;
    if u.events.len() > 0 {
        assert(!(s.events[0] is Opened));
    }
    let p = s.polled().0;
    if s.opened[0] || s.opened[1] {
        lemma_unblock_frame(p);
        let v = p.unblocked().0;
        if v.events.len() > 0 {
            assert(!(p.events[0] is Opened));
        }
    }
}

/// The sizes of some reads, added up.
pub open spec fn total_read(sizes: Seq<usize>) -> nat
    decreases sizes.len(),
{
    if sizes.len() == 0 {
        0
    } else {
        total_read(sizes.drop_last()) + sizes.last() as nat
    }
}

/// The state after reads of the given sizes on the given streams, one
/// after the other.
pub open spec fn after_reads(s: StreamsView, ids: Seq<StreamId>, sizes: Seq<usize>) -> StreamsView
    decreases sizes.len(),
{
    if sizes.len() == 0 || ids.len() != sizes.len() {
        s
    } else {
        after_reads(s, ids.drop_last(), sizes.drop_last()).after_read(ids.last(), sizes.last())
    }
}

/// Reads that hand out `k` bytes in all raise the limit that the peer is
/// granted on the connection by `k`, up to the largest number that the
/// limit can hold.
pub proof fn law_read_credits(s: StreamsView, ids: Seq<StreamId>, sizes: Seq<usize>)
    requires
        ids.len() == sizes.len(),
    ensures
        after_reads(s, ids, sizes).local_max_data == (if s.local_max_data + total_read(sizes)
            > u64::MAX {
            u64::MAX as int
        } else {
            s.local_max_data + total_read(sizes)
        }),
    decreases sizes.len(),
{
    if sizes.len() > 0 {
        law_read_credits(s, ids.drop_last(), sizes.drop_last());
    }
}

/// A round trip: `n` bytes are written on a stream, handed out for
/// sending, and then acknowledged as one range. Afterwards as many bytes
/// count against the send window as before the write. `sent` is the state
/// in which the acknowledgement arrives: the stream's buffer holds what it
/// held after the write, and the bytes written were handed out.
pub proof fn law_round_trip(
    s: StreamsView,
    sent: StreamsView,
    acked: StreamsView,
    id: StreamId,
    data: Seq<u8>,
    fin: bool,
)
    requires
        s.wf(),
        s.write_outcome(id, data.len() as int).is_ok(),
        sent.send.contains_key(id.0),
        !sent.send[id.0].is_reset(),
        sent.unacked_data == s.after_write(id, data).unacked_data,
        sent.send[id.0].pending.base == s.after_write(id, data).send[id.0].pending.base,
        sent.send[id.0].pending.data == s.after_write(id, data).send[id.0].pending.data,
        sent.send[id.0].pending.acks == s.after_write(id, data).send[id.0].pending.acks,
        sent.send[id.0].pending.unsent == sent.send[id.0].pending.offset(),
        sent.acked(
            acked,
            id,
            s.send[id.0].pending.offset() as u64,
            (s.send[id.0].pending.offset() + s.write_outcome(id, data.len() as int).unwrap()) as u64,
            fin,
        ),
    ensures
        acked.unacked_data == s.unacked_data,
{
    let n = s.write_outcome(id, data.len() as int).unwrap();
    let before = s.send[id.0];
    assert(before.wf());
    let start = before.pending.offset() as u64;
    let end = (before.pending.offset() + n) as u64;
    let pending = sent.send[id.0].pending;
    assert(data.take(n as int).len() == n);
    assert(pending.offset() == before.pending.offset() + n);
    // No offset of the new bytes was acknowledged before they were written.
    assert(ranges_miss(pending.acks, start, end)) by {
        assert forall|x: int| start <= x < end implies !ranges_contain(pending.acks, x) by {
            if ranges_contain(pending.acks, x) {
                let k = choose|k: int|
                    0 <= k < pending.acks.len() && (#[trigger] pending.acks[k]).0 <= x
                        < pending.acks[k].1;
                assert(before.pending.acks[k].1 <= before.pending.unsent);
            }
        }
    }
}

/// The bytes that the sending halves hold unacknowledged, added up.
pub open spec fn unacked_in_streams(s: StreamsView) -> nat {
    map_sum(unacked_weights(s.send))
}

/// One step of sending: a write that takes bytes, a turn of the stream at
/// the front of the queue, or an acknowledgement.
pub open spec fn send_step(a: StreamsView, b: StreamsView) -> bool {
    ||| exists|id: StreamId, data: Seq<u8>|
        a.write_outcome(id, data.len() as int).is_ok() && b == #[trigger] a.after_write(id, data)
    ||| exists|room: int| a.pending.len() > 0 && b == #[trigger] a.after_front(room)
    ||| exists|id: StreamId, start: u64, end: u64, fin: bool| #[trigger]
        a.acked(b, id, start, end, fin)
}

/// A step of sending changes what counts against the send window by what
/// it changes in the bytes that the streams hold unacknowledged.
pub proof fn lemma_step_keeps_balance(a: StreamsView, b: StreamsView)
    requires
        a.wf(),
        send_step(a, b),
    ensures
        b.unacked_data - unacked_in_streams(b) == a.unacked_data - unacked_in_streams(a),
{
    if exists|id: StreamId, data: Seq<u8>|
        a.write_outcome(id, data.len() as int).is_ok() && b == #[trigger] a.after_write(id, data) {
        let (id, data) = choose|id: StreamId, data: Seq<u8>|
            a.write_outcome(id, data.len() as int).is_ok() && b == #[trigger] a.after_write(
                id,
                data,
            );
        let n = a.write_outcome(id, data.len() as int).unwrap();
        assert(a.send[id.0].wf());
        assert(data.take(n as int).len() == n);
        a.send[id.0].pending.lemma_fully_acked();
        lemma_unacked_update(a.send, id.0, b.send[id.0]);
    } else if exists|room: int| a.pending.len() > 0 && b == #[trigger] a.after_front(room) {
        let room = choose|room: int| a.pending.len() > 0 && b == #[trigger] a.after_front(room);
        if a.front_sends() {
            let k = a.pending[0].0;
            assert(a.send[k].wf());
            a.send[k].pending.lemma_fully_acked();
            lemma_unacked_update(a.send, k, b.send[k]);
        }
    } else {
        let (id, start, end, fin) = choose|id: StreamId, start: u64, end: u64, fin: bool| #[trigger]
            a.acked(b, id, start, end, fin);
        let k = id.0;
        if a.send.contains_key(k) && !a.send[k].is_reset() {
            let (newly, buffer) = choose|newly: u64, buffer: SendBufferView|
                {
                    &&& #[trigger] a.send[k].pending.ack_result(buffer, start, end, newly)
                    &&& newly <= a.unacked_data
                    &&& b == a.after_ack(id, fin, buffer, newly)
                };
            assert(a.send[k].wf());
            a.send[k].pending.lemma_fully_acked();
            buffer.lemma_fully_acked();
            let after = a.send[k].after_ack(fin, buffer);
            lemma_unacked_update(a.send, k, after);
        }
    }
}

/// Any run of writes, turns at sending and acknowledgements changes what
/// counts against the send window by what it changes in the bytes that the
/// streams hold unacknowledged. So when every byte written in the run was
/// acknowledged by its end, as many bytes count against the send window as
/// before it, however the writes and acknowledgements were cut.
pub proof fn law_round_trips(run: Seq<StreamsView>)
    requires
        run.len() > 0,
        forall|i: int| 0 <= i < run.len() ==> (#[trigger] run[i]).wf(),
        forall|i: int| 0 <= i < run.len() - 1 ==> send_step(#[trigger] run[i], run[i + 1]),
    ensures
        run.last().unacked_data - unacked_in_streams(run.last()) == run[0].unacked_data
            - unacked_in_streams(run[0]),
        unacked_in_streams(run.last()) == unacked_in_streams(run[0]) ==> run.last().unacked_data
            == run[0].unacked_data,
    decreases run.len(),
{
    if run.len() > 1 {
        let before = run.drop_last();
        assert forall|i: int| 0 <= i < before.len() implies (#[trigger] before[i]).wf() by {
            assert(before[i] == run[i]);
        }
        assert forall|i: int| 0 <= i < before.len() - 1 implies send_step(
            #[trigger] before[i],
            before[i + 1],
        ) by {
            assert(before[i] == run[i] && before[i + 1] == run[i + 1]);
            assert(send_step(run[i], run[i + 1]));
        }
        law_round_trips(before);
        let n = run.len() - 2;
        assert(send_step(run[n], run[n + 1]));
        assert(before.last() == run[n]);
        lemma_step_keeps_balance(run[n], run[n + 1]);
    }
}

/// Writing adds the bytes taken to what counts against the send window and
/// to what the stream holds unacknowledged, and to nothing else.
pub proof fn law_write_counts(s: StreamsView, id: StreamId, data: Seq<u8>)
    requires
        s.wf(),
        s.write_outcome(id, data.len() as int).is_ok(),
    ensures
        s.after_write(id, data).unacked_data == s.unacked_data + s.write_outcome(
            id,
            data.len() as int,
        ).unwrap(),
        s.after_write(id, data).data_sent == s.data_sent + s.write_outcome(
            id,
            data.len() as int,
        ).unwrap(),
        s.after_write(id, data).send[id.0].pending.unacked() == s.send[id.0].pending.unacked()
            + s.write_outcome(id, data.len() as int).unwrap(),
        s.after_write(id, data).data_sent <= s.max_data,
        s.after_write(id, data).unacked_data <= s.send_window,
{
    let n = s.write_outcome(id, data.len() as int).unwrap();
    assert(s.send[id.0].wf());
    assert(data.take(n as int).len() == n);
}

/// The streams take turns at sending. The stream at the front gets its
/// frame and goes to the back of the queue if it has more to send; every
/// other stream moves up one place. So between two frames of one stream,
/// every stream that waited behind it gets a frame of its own.
pub proof fn law_round_robin(s: StreamsView, room: int)
    requires
        s.pending.len() > 0,
    ensures
        s.after_front(room).pending.len() >= s.pending.len() - 1,
        forall|j: int|
            1 <= j < s.pending.len() ==> s.after_front(room).pending[j - 1] == s.pending[j],
        s.after_front(room).pending.len() == s.pending.len() ==> s.after_front(
            room,
        ).pending.last() == s.pending[0] && s.front_sends(),
        s.front_sends() && s.after_front(room).send[s.pending[0].0].is_pending() ==> s.after_front(
            room,
        ).pending == s.pending.skip(1).push(s.pending[0]),
{
}

/// Two streams that always have more to send than fits get their frames in
/// turn: after the first has had its frame, the second is at the front,
/// and after that one's frame, the first is at the front again.
pub proof fn law_two_streams_alternate(s: StreamsView, room1: int, room2: int)
    requires
        s.pending.len() == 2,
        s.pending[0] != s.pending[1],
        s.front_sends(),
        s.after_front(room1).send[s.pending[0].0].is_pending(),
        s.after_front(room1).front_sends(),
        s.after_front(room1).after_front(room2).send[s.pending[1].0].is_pending(),
    ensures
        s.after_front(room1).pending == seq![s.pending[1], s.pending[0]],
        s.after_front(room1).after_front(room2).pending == s.pending,
{
    let a = s.pending[0];
    let b = s.pending[1];
    let s1 = s.after_front(room1);
    assert(s1.pending =~= seq![b, a]);
    let s2 = s1.after_front(room2);
    assert(s1.pending.skip(1).push(b) =~= seq![a, b]);
    assert(s2.pending =~= seq![a, b]);
    assert(s.pending =~= seq![a, b]);
}

/// The state after one turn at sending for each of `rooms`, where each
/// turn has that much room for data.
pub open spec fn after_turns(s: StreamsView, rooms: Seq<int>) -> StreamsView
    decreases rooms.len(),
{
    if rooms.len() == 0 {
        s
    } else {
        after_turns(s, rooms.drop_last()).after_front(rooms.last())
    }
}

/// At each of the turns, the stream at the front gets a frame and has more
/// to send afterwards.
pub open spec fn always_more(s: StreamsView, rooms: Seq<int>) -> bool {
    forall|i: int|
        0 <= i < rooms.len() ==> {
            let at = #[trigger] after_turns(s, rooms.take(i));
            at.pending.len() > 0 && at.front_sends() && at.after_front(
                rooms[i],
            ).send[at.pending[0].0].is_pending()
        }
}

/// Two streams that always have more to send get their frames in turn,
/// however many turns there are: the first stream gets the frames of the
/// even turns, the second those of the odd turns, so neither is ever more
/// than one frame ahead of the other.
pub proof fn law_fair_turns(s: StreamsView, rooms: Seq<int>)
    requires
        s.pending.len() == 2,
        s.pending[0] != s.pending[1],
        always_more(s, rooms),
    ensures
        after_turns(s, rooms).pending == (if rooms.len() % 2 == 0 {
            s.pending
        } else {
            seq![s.pending[1], s.pending[0]]
        }),
        forall|i: int|
            0 <= i < rooms.len() ==> (#[trigger] after_turns(s, rooms.take(i))).pending[0]
                == s.pending[i % 2],
    decreases rooms.len(),
{
    let a = s.pending[0];
    let b = s.pending[1];
    assert(s.pending =~= seq![a, b]);
    if rooms.len() > 0 {
        let n = rooms.len() - 1;
        let before = rooms.drop_last();
        assert(before =~= rooms.take(n));
        assert forall|i: int| 0 <= i < before.len() implies {
            let at = #[trigger] after_turns(s, before.take(i));
            at.pending.len() > 0 && at.front_sends() && at.after_front(
                before[i],
            ).send[at.pending[0].0].is_pending()
        } by {
            assert(before.take(i) =~= rooms.take(i));
        }
        law_fair_turns(s, before);
        let at = after_turns(s, rooms.take(n));
        assert(at == after_turns(s, before));
        assert(at.pending.len() > 0 && at.front_sends() && at.after_front(
            rooms[n],
        ).send[at.pending[0].0].is_pending());
        let post = at.after_front(rooms[n]);
        assert(post == after_turns(s, rooms));
        if n % 2 == 0 {
            assert(at.pending.skip(1).push(a) =~= seq![b, a]);
        } else {
            assert(at.pending =~= seq![b, a]);
            assert(at.pending.skip(1).push(b) =~= seq![a, b]);
        }
        assert forall|i: int| 0 <= i < rooms.len() implies (#[trigger] after_turns(
            s,
            rooms.take(i),
        )).pending[0] == s.pending[i % 2] by {
            if i < n {
                assert(before.take(i) =~= rooms.take(i));
            }
        }
    }
}

/// What is counted as received on the connection follows what the streams
/// count: a STREAM frame adds what it adds to the highest offset seen on
/// its stream.
pub proof fn law_frame_counted(s: StreamsView, id: StreamId, end: u64, fin: bool, assembler: AssemblerView)
    requires
        s.wf(),
        !s.drops_frame(id),
        assembler.end == (if end > s.recv[id.0].assembler.end {
            end
        } else {
            s.recv[id.0].assembler.end
        }),
        s.data_recvd + new_bytes(s.recv[id.0].assembler.end, end as int) <= u64::MAX,
    ensures
        s.after_ingest(id, end, fin, assembler).data_recvd - s.data_recvd == s.recv[id.0].after_ingest(
            end,
            fin,
            assembler,
        ).counted() - s.recv[id.0].counted(),
{
}

/// What is counted as received on the connection follows what the streams
/// count: a reset adds what lies between the highest offset seen on its
/// stream and the final size.
pub proof fn law_reset_counted(s: StreamsView, id: StreamId, error_code: VarInt, final_offset: u64)
    requires
        s.wf(),
        s.reset_applies(id, final_offset),
        s.data_recvd + final_offset - s.recv[id.0].assembler.end <= u64::MAX,
    ensures
        s.after_received_reset(id, error_code, final_offset).data_recvd - s.data_recvd
            == s.recv[id.0].after_reset(error_code, final_offset).counted()
            - s.recv[id.0].counted(),
{
    assert(s.recv[id.0].wf());
}

/// A stream that is given a turn waits in the queue of streams with
/// something to send exactly once afterwards: after a write that took
/// bytes or none, after it was finished, after the peer asked for it to be
/// stopped, after a frame of it was lost, and after all it had sent was
/// queued to be sent again.
pub proof fn law_queued_once(
    s: StreamsView,
    id: StreamId,
    data: Seq<u8>,
    error_code: VarInt,
    start: u64,
    end: u64,
    fin: bool,
)
    requires
        s.wf(),
        s.send.contains_key(id.0),
    ensures
        s.write_outcome(id, data.len() as int).is_ok() ==> s.after_write(id, data).pending.contains(
            id,
        ) && s.after_write(id, data).pending.no_duplicates(),
        s.finish_outcome(id).is_ok() ==> s.after_finish(id).pending.contains(id) && s.after_finish(
            id,
        ).pending.no_duplicates(),
        s.after_stop_sending(id, error_code).pending.contains(id) && s.after_stop_sending(
            id,
            error_code,
        ).pending.no_duplicates(),
        s.after_retransmit(id, start, end, fin).pending.contains(id) && s.after_retransmit(
            id,
            start,
            end,
            fin,
        ).pending.no_duplicates(),
        !(s.send[id.0].pending.is_fully_acked() && !s.send[id.0].fin_pending)
            ==> s.after_retransmit_all_for(id).pending.contains(id) && s.after_retransmit_all_for(
            id,
        ).pending.no_duplicates(),
        s.send[id.0].pending.is_fully_acked() && !s.send[id.0].fin_pending
            ==> s.after_retransmit_all_for(id) == s,
{
    crate::model::lemma_enqueued(s.pending, id);
}

/// A stream that was reset leaves the queue of streams with something to
/// send, unless its end is still due; the other streams keep their places.
pub proof fn law_reset_leaves_queue(s: StreamsView, id: StreamId)
    requires
        s.wf(),
        s.can_reset(id),
    ensures
        !s.send[id.0].fin_pending ==> !s.after_reset(id).pending.contains(id),
        forall|x: StreamId|
            x != id && s.pending.contains(x) ==> #[trigger] s.after_reset(id).pending.contains(x),
        s.after_reset(id).pending.no_duplicates(),
{
    crate::model::lemma_without_stream(s.pending, id);
}

/// When early data is rejected, every stream that this endpoint has
/// opened is forgotten, no stream waits to send or to be unblocked, and no
/// sending half is flagged as blocked; the halves of the peer's streams
/// stay as they were but for that flag.
pub proof fn law_rejection_clears(s: StreamsView)
    requires
        s.wf(),
    ensures
        s.after_zero_rtt_rejected().pending.len() == 0,
        s.after_zero_rtt_rejected().connection_blocked.len() == 0,
        s.after_zero_rtt_rejected().data_sent == 0,
        forall|k: u64| #[trigger]
            s.after_zero_rtt_rejected().send.contains_key(k) <==> s.send.contains_key(k)
                && StreamId(k).spec_initiator() != s.side,
        forall|k: u64| #[trigger]
            s.after_zero_rtt_rejected().recv.contains_key(k) <==> s.recv.contains_key(k)
                && StreamId(k).spec_initiator() != s.side,
        forall|k: u64| #[trigger]
            s.after_zero_rtt_rejected().send.contains_key(k) ==> s.after_zero_rtt_rejected().send[k]
                == (crate::send::SendView { connection_blocked: false, ..s.send[k] }),
        forall|k: u64| #[trigger]
            s.after_zero_rtt_rejected().recv.contains_key(k) ==> s.after_zero_rtt_rejected().recv[k]
                == s.recv[k],
{
    assert forall|k: u64| s.send.contains_key(k) && StreamId(k).spec_initiator()
        == s.side implies s.is_local(k, s.next[0], s.next[1]) by {
        assert(s.send_allocated(k));
    }
    assert forall|k: u64| s.recv.contains_key(k) && StreamId(k).spec_initiator()
        == s.side implies s.is_local(k, s.next[0], s.next[1]) by {
        assert(s.recv_allocated(k));
    }
}

/// A stream that joins the queue of streams with something to send has
/// something to send: after a write that took bytes, after it was
/// finished, after a frame with the end of the stream or with bytes that
/// were sent and are buffered was lost, and when it goes to the back of the
/// queue after its turn.
pub proof fn law_queued_has_work(s: StreamsView, id: StreamId, data: Seq<u8>, start: u64, end: u64)
    requires
        s.wf(),
    ensures
        s.write_outcome(id, data.len() as int).is_ok() && s.write_outcome(
            id,
            data.len() as int,
        ).unwrap() > 0 ==> s.after_write(id, data).send[id.0].is_pending(),
        s.finish_outcome(id).is_ok() ==> s.after_finish(id).send[id.0].is_pending(),
        s.send.contains_key(id.0) ==> s.after_retransmit(id, start, end, true).send[id.0].is_pending(),
        s.send.contains_key(id.0) && s.send[id.0].pending.base <= start < end
            <= s.send[id.0].pending.unsent ==> s.after_retransmit(
            id,
            start,
            end,
            false,
        ).send[id.0].is_pending(),
        forall|room: int|
            s.pending.len() > 0 && #[trigger] s.after_front(room).pending.len() == s.pending.len()
                ==> s.after_front(room).send[s.pending[0].0].is_pending(),
{
    if s.write_outcome(id, data.len() as int).is_ok() {
        let n = s.write_outcome(id, data.len() as int).unwrap();
        assert(s.send[id.0].wf());
        assert(data.take(n as int).len() == n);
    }
}

/// As long as no receiving half is forgotten, what is counted as received
/// on the connection is the sum of what the streams count: a STREAM frame
/// on a stream that the application reads keeps the two equal.
pub proof fn law_frame_counted_exactly(
    s: StreamsView,
    id: StreamId,
    end: u64,
    fin: bool,
    assembler: AssemblerView,
)
    requires
        s.wf(),
        !s.drops_frame(id),
        !s.recv[id.0].assembler.stopped,
        assembler.end == (if end > s.recv[id.0].assembler.end {
            end
        } else {
            s.recv[id.0].assembler.end
        }),
        s.data_recvd + new_bytes(s.recv[id.0].assembler.end, end as int) <= u64::MAX,
        s.data_recvd == crate::map_sum::map_sum(crate::model::counted_weights(s.recv)),
    ensures
        s.after_ingest(id, end, fin, assembler).data_recvd == crate::map_sum::map_sum(
            crate::model::counted_weights(s.after_ingest(id, end, fin, assembler).recv),
        ),
{
    crate::model::lemma_counted_update(s.recv, id.0, s.recv[id.0].after_ingest(end, fin, assembler));
}

/// As long as no receiving half is forgotten, what is counted as received
/// on the connection is the sum of what the streams count: a reset of a
/// stream that the application reads keeps the two equal.
pub proof fn law_reset_counted_exactly(s: StreamsView, id: StreamId, error_code: VarInt, final_offset: u64)
    requires
        s.wf(),
        s.reset_applies(id, final_offset),
        !s.recv[id.0].assembler.stopped,
        s.data_recvd + final_offset - s.recv[id.0].assembler.end <= u64::MAX,
        s.data_recvd == crate::map_sum::map_sum(crate::model::counted_weights(s.recv)),
    ensures
        s.after_received_reset(id, error_code, final_offset).data_recvd
            == crate::map_sum::map_sum(
            crate::model::counted_weights(
                s.after_received_reset(id, error_code, final_offset).recv,
            ),
        ),
{
    assert(s.recv[id.0].wf());
    crate::model::lemma_counted_update(
        s.recv,
        id.0,
        s.recv[id.0].after_reset(error_code, final_offset),
    );
}

/// A sending half is forgotten only when the peer has acknowledged all of
/// a finished stream or the reset of a stream.
pub proof fn law_send_half_forgotten(
    s: StreamsView,
    id: StreamId,
    fin: bool,
    buffer: SendBufferView,
    newly: u64,
)
    requires
        s.send.contains_key(id.0),
    ensures
        !s.after_ack(id, fin, buffer, newly).send.contains_key(id.0) <==> s.send[id.0].after_ack(
            fin,
            buffer,
        ).state == SendState::DataRecvd,
        !s.after_reset_acked(id).send.contains_key(id.0) <==> s.send[id.0].state
            == SendState::ResetSent,
        s.after_write(id, Seq::empty()).send.contains_key(id.0),
        s.after_finish(id).send.contains_key(id.0),
        s.after_reset(id).send.contains_key(id.0),
{
}

/// A receiving half is forgotten only when the application has read the
/// stream to its end or has been told of its reset, or when it has given up
/// reading and the peer has ended or reset the stream.
pub proof fn law_recv_half_forgotten(
    s: StreamsView,
    id: StreamId,
    end: u64,
    fin: bool,
    assembler: AssemblerView,
    error_code: VarInt,
    final_offset: u64,
)
    requires
        s.recv.contains_key(id.0),
    ensures
        !s.after_read_without_data(id, s.recv[id.0]).recv.contains_key(id.0) <==> (
        !s.recv[id.0].assembler.stopped && (s.recv[id.0].blocked_outcome().is_ok()
            || s.recv[id.0].blocked_outcome() matches Err(ReadError::Reset(_)))),
        !s.drops_frame(id) ==> (!s.after_ingest(id, end, fin, assembler).recv.contains_key(id.0)
            <==> (s.recv[id.0].assembler.stopped && fin)),
        s.reset_applies(id, final_offset) ==> (!s.after_received_reset(
            id,
            error_code,
            final_offset,
        ).recv.contains_key(id.0) <==> s.recv[id.0].assembler.stopped),
        s.after_stop(id).recv.contains_key(id.0),
{
}

} // verus!
