//! Writing what is due into a packet: control frames first, then stream
//! data, one stream after the other.
use crate::frame::RESET_STREAM_SIZE_BOUND;
use crate::frame::ResetStream;
use crate::frame::STOP_SENDING_SIZE_BOUND;
use crate::frame::STREAM_SIZE_BOUND;
use crate::frame::StreamMeta;
use crate::frame::max_data_bytes;
use crate::frame::max_stream_data_bytes;
use crate::frame::max_streams_bytes;
use crate::frame::reset_stream_bytes;
use crate::frame::stop_sending_bytes;
use crate::frame::stream_header_bytes;
use crate::frame::write_max_data;
use crate::frame::write_max_stream_data;
use crate::frame::write_max_streams;
use crate::model::StreamsView;
use crate::model::enqueued;
use crate::model::lemma_enqueued;
use crate::model::lemma_skip_front;
use crate::retransmits::FrameStats;
use crate::retransmits::Retransmits;
use crate::retransmits::RetransmitsView;
use crate::send::SendState;
use crate::send::SendView;
use crate::stream_id::Dir;
use crate::stream_id::StreamId;
use crate::streams::Streams;
use crate::streams::lemma_reinsert;
use crate::varint::VARINT_MAX;
use crate::varint::VarInt;
use crate::wire::put_slice;
use std::ops::Range;
use vstd::prelude::*;

verus! {

impl StreamsView {
    /// Whether the stream at the front of the queue gets a frame: it is
    /// there and was not reset.
    pub open spec fn front_sends(self) -> bool {
        &&& self.pending.len() > 0
        &&& self.send.contains_key(self.pending[0].0)
        &&& !self.send[self.pending[0].0].is_reset()
    }

    /// What the frame for the stream at the front of the queue says, where
    /// `room` bytes of data fit: the next range that the stream's buffer
    /// hands out, and the end of the stream if the range reaches the last
    /// byte written and the stream was finished.
    pub open spec fn front_frame(self, room: int) -> StreamMeta {
        let s = self.send[self.pending[0].0];
        let range = s.pending.next_range(room);
        StreamMeta {
            id: self.pending[0],
            offsets: Range { start: range.0 as u64, end: range.1 as u64 },
            fin: range.1 == s.pending.offset() && s.state is DataSent,
        }
    }

    /// The bytes of that frame: its header, with a length, and its data.
    pub open spec fn front_bytes(self, room: int) -> Seq<u8> {
        let s = self.send[self.pending[0].0];
        let meta = self.front_frame(room);
        stream_header_bytes(meta.id, meta.offsets.start, meta.offsets.end, meta.fin, true)
            + s.pending.data.subrange(
            meta.offsets.start - s.pending.base,
            meta.offsets.end - s.pending.base,
        )
    }

    /// The state after the stream at the front of the queue had its turn:
    /// it leaves the front, and joins at the back if it got a frame and has
    /// more to send.
    pub open spec fn after_front(self, room: int) -> StreamsView {
        let id = self.pending[0];
        if !self.front_sends() {
            StreamsView { pending: self.pending.skip(1), ..self }
        } else {
            let s = self.send[id.0];
            let after = SendView {
                pending: s.pending.after_poll(room),
                fin_pending: s.fin_pending && !self.front_frame(room).fin,
                ..s
            };
            StreamsView {
                send: self.send.insert(id.0, after),
                pending: if after.is_pending() {
                    self.pending.skip(1).push(id)
                } else {
                    self.pending.skip(1)
                },
                ..self
            }
        }
    }

    /// Writing stream frames after `buf` while a frame header fits below
    /// `max` bytes and a stream waits: the state afterwards, the bytes
    /// afterwards, and what the frames say, in the order written.
    pub open spec fn stream_frames(self, buf: Seq<u8>, max: int) -> (StreamsView, Seq<u8>, Seq<StreamMeta>)
        decreases max - buf.len(), self.pending.len(),
        when self.wf()
        via Self::stream_frames_end
    {
        if buf.len() + STREAM_SIZE_BOUND >= max || self.pending.len() == 0 {
            (self, buf, Seq::empty())
        } else {
            let room = max - buf.len() - STREAM_SIZE_BOUND;
            let next = self.after_front(room);
            if !self.front_sends() {
                next.stream_frames(buf, max)
            } else {
                let rest = next.stream_frames(buf + self.front_bytes(room), max);
                (rest.0, rest.1, seq![self.front_frame(room)] + rest.2)
            }
        }
    }

    /// A turn of the stream at the front puts no stream into the queue
    /// twice: the stream goes to the back if it has more to send, and every
    /// other stream keeps its place.
    pub proof fn lemma_front_keeps_queue(self, room: int)
        requires
            self.wf_queue(),
            self.pending.len() > 0,
        ensures
            self.after_front(room).wf_queue(),
    {
        let id = self.pending[0];
        let rest = self.pending.skip(1);
        lemma_skip_front(self.pending);
        lemma_enqueued(rest, id);
        assert(self.after_front(room).pending == rest || self.after_front(room).pending
            == enqueued(rest, id));
    }

    /// Every frame takes room, so the writing ends.
    #[via_fn]
    proof fn stream_frames_end(self, buf: Seq<u8>, max: int) {
        if !(buf.len() + STREAM_SIZE_BOUND >= max || self.pending.len() == 0) {
            let room = max - buf.len() - STREAM_SIZE_BOUND;
            if self.front_sends() {
                let meta = self.front_frame(room);
                let ty = crate::frame::stream_type(meta.offsets.start, true, meta.fin);
                crate::coding::lemma_varint_size(ty);
                let header = stream_header_bytes(
                    meta.id,
                    meta.offsets.start,
                    meta.offsets.end,
                    meta.fin,
                    true,
                );
                crate::coding::lemma_varint_size(meta.id.0);
                crate::coding::lemma_varint_size(meta.offsets.start);
                crate::coding::lemma_varint_size((meta.offsets.end - meta.offsets.start) as u64);
                assert(1 <= header.len() <= STREAM_SIZE_BOUND);
                let s = self.send[self.pending[0].0];
                assert(s.wf());
                let bytes = self.front_bytes(room);
                assert(bytes.len() == header.len() + (meta.offsets.end - meta.offsets.start));
                assert((buf + bytes).len() == buf.len() + bytes.len());
            }
        }
    }
}

impl Streams {
    /// Gives the stream at the front of the queue its turn: writes one
    /// frame for it, with as much data as fits, unless the stream is gone.
    fn write_front_frame(&mut self, buf: &mut Vec<u8>, max_buf_size: usize) -> (r: Option<StreamMeta>)
        requires
            old(self).wf(),
            old(self)@.pending.len() > 0,
            old(buf)@.len() + STREAM_SIZE_BOUND < max_buf_size <= isize::MAX,
        ensures
            final(self).wf(),
            final(self)@ == old(self)@.after_front(
                max_buf_size - old(buf)@.len() - STREAM_SIZE_BOUND,
            ),
            r == (if old(self)@.front_sends() {
                Some(old(self)@.front_frame(max_buf_size - old(buf)@.len() - STREAM_SIZE_BOUND))
            } else {
                None
            }),
            final(buf)@ == (if old(self)@.front_sends() {
                old(buf)@ + old(self)@.front_bytes(
                    max_buf_size - old(buf)@.len() - STREAM_SIZE_BOUND,
                )
            } else {
                old(buf)@
            }),
            final(buf)@.len() <= max_buf_size,
    {
        let max_data_len = max_buf_size - buf.len() - STREAM_SIZE_BOUND;
        let ghost pre = old(self)@;
        proof {
            pre.lemma_front_keeps_queue(max_data_len as int);
        }
        let id = match self.pending.pop_front() {
            Some(id) => id,
            None => {
                return None;
            },
        };
        proof {
            assert(self.pending@ =~= pre.pending.skip(1));
        }
        let mut stream = match self.take_send(id) {
            Some(s) => s,
            None => {
                return None;
            },
        };
        proof {
            lemma_reinsert(pre.send, id.0, stream@);
            assert(pre.send[id.0].wf());
            assert(pre.send_allocated(id.0));
        }
        if stream.is_reset() {
            self.put_send(id, stream);
            return None;
        }
        let offsets = stream.pending.poll_transmit(max_data_len);
        let sent = match stream.state {
            SendState::DataSent { .. } => true,
            _ => false,
        };
        let fin = offsets.1 == stream.pending.offset() && sent;
        if fin {
            stream.fin_pending = false;
        }
        if stream.is_pending() {
            self.pending.push_back(id);
        }
        let meta = StreamMeta { id, offsets: offsets.0..offsets.1, fin };
        meta.encode(true, buf);
        put_slice(buf, stream.pending.get(offsets.0, offsets.1));
        proof {
            lemma_reinsert(pre.send, id.0, stream@);
            pre.lemma_send_replaced(id.0, stream@);
            assert(buf@ =~= old(buf)@ + pre.front_bytes(max_data_len as int));
        }
        self.put_send(id, stream);
        Some(meta)
    }

    /// Writes stream frames into `buf`, which may grow up to
    /// `max_buf_size` bytes. The streams take turns: each gets one frame
    /// with as much of its data as fits, and joins the queue at the back if
    /// it has more to send. Returns what the frames say.
    pub fn write_stream_frames(&mut self, buf: &mut Vec<u8>, max_buf_size: usize) -> (r: Vec<StreamMeta>)
        requires
            old(self).wf(),
            max_buf_size <= isize::MAX,
        ensures
            final(self).wf(),
            (final(self)@, final(buf)@, r@) == old(self)@.stream_frames(
                old(buf)@,
                max_buf_size as int,
            ),
    {
        let mut stream_frames: Vec<StreamMeta> = Vec::new();
        let ghost want = old(self)@.stream_frames(old(buf)@, max_buf_size as int);
        proof {
            assert(stream_frames@ + want.2 =~= want.2);
        }
        while max_buf_size > STREAM_SIZE_BOUND && buf.len() < max_buf_size - STREAM_SIZE_BOUND
            && self.pending.len() > 0
            invariant
                self.wf(),
                max_buf_size <= isize::MAX,
                want == ({
                    let rest = self@.stream_frames(buf@, max_buf_size as int);
                    (rest.0, rest.1, stream_frames@ + rest.2)
                }),
            decreases max_buf_size - buf@.len(), self@.pending.len(),
        {
            let ghost now = self@;
            let ghost bytes = buf@;
            let ghost room = max_buf_size - bytes.len() - STREAM_SIZE_BOUND;
            let ghost so_far = stream_frames@;
            if let Some(meta) = self.write_front_frame(buf, max_buf_size) {
                stream_frames.push(meta);
                proof {
                    let rest = self@.stream_frames(buf@, max_buf_size as int);
                    assert(so_far + (seq![now.front_frame(room)] + rest.2) =~= stream_frames@
                        + rest.2);
                    crate::coding::lemma_varint_size(
                        crate::frame::stream_type(meta.offsets.start, true, meta.fin),
                    );
                }
            }
        }
        stream_frames
    }
}

/// What the writing of control frames works on: the streams, the frames
/// that are due, those that were sent, the counts of frames written, and
/// the bytes of the packet so far.
pub struct ControlFrames {
    pub streams: StreamsView,
    pub pending: RetransmitsView,
    pub sent: RetransmitsView,
    pub stats: FrameStats,
    pub buf: Seq<u8>,
}

impl ControlFrames {
    /// After the RESET_STREAM frames: while one fits below `max` bytes,
    /// the entry that was queued last is taken; a frame with the stream's
    /// final size is written and the entry noted as sent, unless the
    /// stream is forgotten.
    pub open spec fn reset_streams(self, max: int) -> ControlFrames
        decreases self.pending.reset_stream.len(),
    {
        if self.buf.len() + RESET_STREAM_SIZE_BOUND >= max || self.pending.reset_stream.len()
            == 0 {
            self
        } else {
            let entry = self.pending.reset_stream.last();
            let taken = ControlFrames {
                pending: RetransmitsView {
                    reset_stream: self.pending.reset_stream.drop_last(),
                    ..self.pending
                },
                ..self
            };
            if !self.streams.send.contains_key(entry.0.0) {
                taken.reset_streams(max)
            } else {
                (ControlFrames {
                    sent: RetransmitsView {
                        reset_stream: self.sent.reset_stream.push(entry),
                        ..self.sent
                    },
                    stats: FrameStats {
                        reset_stream: (self.stats.reset_stream + 1) as u64,
                        ..self.stats
                    },
                    buf: self.buf + reset_stream_bytes(
                        entry.0,
                        entry.1,
                        self.streams.send[entry.0.0].pending.offset() as u64,
                    ),
                    ..taken
                }).reset_streams(max)
            }
        }
    }

    /// After the STOP_SENDING frames: while one fits below `max` bytes,
    /// the frame that was queued last is taken; it is written and noted as
    /// sent, unless the stream is forgotten or the peer sends nothing more
    /// on it.
    pub open spec fn stop_sendings(self, max: int) -> ControlFrames
        decreases self.pending.stop_sending.len(),
    {
        if self.buf.len() + STOP_SENDING_SIZE_BOUND >= max || self.pending.stop_sending.len()
            == 0 {
            self
        } else {
            let frame = self.pending.stop_sending.last();
            let taken = ControlFrames {
                pending: RetransmitsView {
                    stop_sending: self.pending.stop_sending.drop_last(),
                    ..self.pending
                },
                ..self
            };
            if self.streams.drops_frame(frame.id) {
                taken.stop_sendings(max)
            } else {
                (ControlFrames {
                    sent: RetransmitsView {
                        stop_sending: self.sent.stop_sending.push(frame),
                        ..self.sent
                    },
                    stats: FrameStats {
                        stop_sending: (self.stats.stop_sending + 1) as u64,
                        ..self.stats
                    },
                    buf: self.buf + stop_sending_bytes(frame.id, frame.error_code),
                    ..taken
                }).stop_sendings(max)
            }
        }
    }

    /// The connection's limit as it is announced: what the wire can carry
    /// at most.
    pub open spec fn announced_max_data(self) -> u64 {
        if self.streams.local_max_data > VARINT_MAX {
            VARINT_MAX
        } else {
            self.streams.local_max_data
        }
    }

    /// After the MAX_DATA frame: it is written if it is due and fits below
    /// `max` bytes, and the limit is noted as announced.
    pub open spec fn max_data(self, max: int) -> ControlFrames {
        if self.pending.max_data && self.buf.len() + 9 < max {
            ControlFrames {
                streams: StreamsView {
                    sent_max_data: if self.announced_max_data() > self.streams.sent_max_data {
                        self.announced_max_data()
                    } else {
                        self.streams.sent_max_data
                    },
                    ..self.streams
                },
                pending: RetransmitsView { max_data: false, ..self.pending },
                sent: RetransmitsView { max_data: true, ..self.sent },
                stats: FrameStats { max_data: (self.stats.max_data + 1) as u64, ..self.stats },
                buf: self.buf + max_data_bytes(self.announced_max_data()),
            }
        } else {
            self
        }
    }

    /// After the MAX_STREAM_DATA frame for the stream `k`: the stream is
    /// no longer due; its limit is written, at most what the wire can
    /// carry, and noted as announced and sent, unless the stream is
    /// forgotten or the peer sends nothing more on it.
    pub open spec fn max_stream_data_for(self, k: u64) -> ControlFrames {
        let id = StreamId(k);
        let taken = ControlFrames {
            pending: RetransmitsView {
                max_stream_data: self.pending.max_stream_data.remove(k),
                ..self.pending
            },
            ..self
        };
        if self.streams.drops_frame(id) {
            taken
        } else {
            let rs = self.streams.recv[k];
            let limit = rs.max_stream_data(self.streams.stream_receive_window) as u64;
            ControlFrames {
                streams: StreamsView {
                    recv: self.streams.recv.insert(k, rs.after_sent_max_stream_data(limit)),
                    ..self.streams
                },
                sent: RetransmitsView {
                    max_stream_data: self.sent.max_stream_data.insert(k),
                    ..self.sent
                },
                stats: FrameStats {
                    max_stream_data: (self.stats.max_stream_data + 1) as u64,
                    ..self.stats
                },
                buf: self.buf + max_stream_data_bytes(
                    id,
                    if limit > VARINT_MAX {
                        VARINT_MAX
                    } else {
                        limit
                    },
                ),
                ..taken
            }
        }
    }

    /// After the MAX_STREAM_DATA frames for the streams of `order`, one
    /// after the other.
    pub open spec fn max_stream_datas(self, order: Seq<u64>) -> ControlFrames
        decreases order.len(),
    {
        if order.len() == 0 {
            self
        } else {
            self.max_stream_datas(order.drop_last()).max_stream_data_for(order.last())
        }
    }

    /// Whether the streams of `order` can be taken one after the other:
    /// when the turn of each comes, a frame fits below `max` bytes and the
    /// stream is due.
    pub open spec fn can_take(self, order: Seq<u64>, max: int) -> bool {
        forall|i: int|
            0 <= i < order.len() ==> {
                let at = #[trigger] self.max_stream_datas(order.take(i));
                at.buf.len() + 17 < max && at.pending.max_stream_data.contains(order[i])
            }
    }

    /// Whether `order` is a way to write the MAX_STREAM_DATA frames: the
    /// streams can be taken in this order, and after the last of them no
    /// frame fits below `max` bytes or no stream is due. The set of the
    /// streams that are due does not say which of them is taken first.
    pub open spec fn walks(self, order: Seq<u64>, max: int) -> bool {
        &&& self.can_take(order, max)
        &&& self.max_stream_datas(order).buf.len() + 17 >= max || self.max_stream_datas(
            order,
        ).pending.max_stream_data.len() == 0
    }

    /// The MAX_STREAM_DATA frames change nothing but the bytes written, the
    /// limits noted as announced, the streams due and sent, and their
    /// count.
    pub proof fn lemma_max_stream_datas_frame(self, order: Seq<u64>)
        ensures
            self.max_stream_datas(order).streams == (StreamsView {
                recv: self.max_stream_datas(order).streams.recv,
                ..self.streams
            }),
            self.max_stream_datas(order).pending == (RetransmitsView {
                max_stream_data: self.max_stream_datas(order).pending.max_stream_data,
                ..self.pending
            }),
            self.max_stream_datas(order).sent == (RetransmitsView {
                max_stream_data: self.max_stream_datas(order).sent.max_stream_data,
                ..self.sent
            }),
            self.max_stream_datas(order).stats == (FrameStats {
                max_stream_data: self.max_stream_datas(order).stats.max_stream_data,
                ..self.stats
            }),
        decreases order.len(),
    {
        if order.len() > 0 {
            self.lemma_max_stream_datas_frame(order.drop_last());
        }
    }

    /// After the MAX_STREAMS frame for unidirectional streams: it is
    /// written if it is due and fits below `max` bytes.
    pub open spec fn max_streams_uni(self, max: int) -> ControlFrames {
        if self.pending.max_uni_stream_id && self.buf.len() + 9 < max {
            ControlFrames {
                pending: RetransmitsView { max_uni_stream_id: false, ..self.pending },
                sent: RetransmitsView { max_uni_stream_id: true, ..self.sent },
                stats: FrameStats {
                    max_streams_uni: (self.stats.max_streams_uni + 1) as u64,
                    ..self.stats
                },
                buf: self.buf + max_streams_bytes(Dir::Uni, self.streams.max_remote[1]),
                ..self
            }
        } else {
            self
        }
    }

    /// After the MAX_STREAMS frame for bidirectional streams: it is
    /// written if it is due and fits below `max` bytes.
    pub open spec fn max_streams_bidi(self, max: int) -> ControlFrames {
        if self.pending.max_bi_stream_id && self.buf.len() + 9 < max {
            ControlFrames {
                pending: RetransmitsView { max_bi_stream_id: false, ..self.pending },
                sent: RetransmitsView { max_bi_stream_id: true, ..self.sent },
                stats: FrameStats {
                    max_streams_bidi: (self.stats.max_streams_bidi + 1) as u64,
                    ..self.stats
                },
                buf: self.buf + max_streams_bytes(Dir::Bi, self.streams.max_remote[0]),
                ..self
            }
        } else {
            self
        }
    }

    /// The state before the MAX_STREAM_DATA frames: after the
    /// RESET_STREAM, STOP_SENDING and MAX_DATA frames.
    pub open spec fn before_stream_limits(self, max: int) -> ControlFrames {
        self.reset_streams(max).stop_sendings(max).max_data(max)
    }

    /// Whether `post` is the state after all control frames, in their fixed
    /// order, with the MAX_STREAM_DATA frames written in some order.
    pub open spec fn written(self, post: ControlFrames, max: int) -> bool {
        exists|order: Seq<u64>|
            {
                &&& #[trigger] self.before_stream_limits(max).walks(order, max)
                &&& post == self.before_stream_limits(max).max_stream_datas(
                    order,
                ).max_streams_uni(max).max_streams_bidi(max)
            }
    }

    /// The counts of frames written have room for what is due.
    pub open spec fn counts_have_room(self) -> bool {
        &&& self.stats.reset_stream + self.pending.reset_stream.len() <= u64::MAX
        &&& self.stats.stop_sending + self.pending.stop_sending.len() <= u64::MAX
        &&& self.stats.max_stream_data + self.pending.max_stream_data.len() <= u64::MAX
        &&& self.pending.max_data ==> self.stats.max_data < u64::MAX
        &&& self.pending.max_uni_stream_id ==> self.stats.max_streams_uni < u64::MAX
        &&& self.pending.max_bi_stream_id ==> self.stats.max_streams_bidi < u64::MAX
    }
}

/// The state of the writing of control frames in full.
pub open spec fn control_frames(
    streams: &Streams,
    pending: &Retransmits,
    sent: &Retransmits,
    stats: &FrameStats,
    buf: &Vec<u8>,
) -> ControlFrames {
    ControlFrames { streams: streams@, pending: pending@, sent: sent@, stats: *stats, buf: buf@ }
}

impl Streams {
    /// The number of bytes written on stream `id`, if it has a sending half.
    fn send_offset(&self, id: StreamId) -> (r: Option<u64>)
        requires
            self.wf(),
        ensures
            r.is_some() == self@.send.contains_key(id.0),
            r.is_some() ==> r.unwrap() == self@.send[id.0].pending.offset(),
    {
        broadcast use vstd::std_specs::hash::group_hash_axioms;

        match self.send.get(&id.0) {
            Some(s) => {
                proof {
                    assert(self@.send[id.0].wf());
                }
                Some(s.offset())
            },
            None => None,
        }
    }

    /// Whether a frame for stream `id` is dropped: the stream is forgotten,
    /// or the peer sends nothing more on it.
    fn drops_frame(&self, id: StreamId) -> (r: bool)
        ensures
            r == self@.drops_frame(id),
    {
        broadcast use vstd::std_specs::hash::group_hash_axioms;

        match self.recv.get(&id.0) {
            Some(s) => s.is_finished(),
            None => true,
        }
    }

    fn write_reset_streams(
        &mut self,
        buf: &mut Vec<u8>,
        pending: &mut Retransmits,
        sent: &mut Retransmits,
        stats: &mut FrameStats,
        max_size: usize,
    )
        requires
            old(self).wf(),
            max_size <= isize::MAX,
            control_frames(old(self), old(pending), old(sent), old(stats), old(buf)).counts_have_room(),
        ensures
            final(self).wf(),
            control_frames(final(self), final(pending), final(sent), final(stats), final(buf))
                == control_frames(
                old(self),
                old(pending),
                old(sent),
                old(stats),
                old(buf),
            ).reset_streams(max_size as int),
            control_frames(final(self), final(pending), final(sent), final(stats), final(buf)).counts_have_room(),
    {
        let ghost start = control_frames(self, pending, sent, stats, buf);
        while max_size > RESET_STREAM_SIZE_BOUND && buf.len() < max_size - RESET_STREAM_SIZE_BOUND
            && pending.reset_stream.len() > 0
            invariant
                self.wf(),
                max_size <= isize::MAX,
                control_frames(self, pending, sent, stats, buf).counts_have_room(),
                control_frames(self, pending, sent, stats, buf).reset_streams(max_size as int)
                    == start.reset_streams(max_size as int),
            decreases pending.reset_stream@.len(),
        {
            let ghost now = control_frames(self, pending, sent, stats, buf);
            let entry = pending.reset_stream.pop().unwrap();
            proof {
                assert(pending.reset_stream@ =~= now.pending.reset_stream.drop_last());
            }
            let id = entry.0;
            let error_code = entry.1;
            let offset = match self.send_offset(id) {
                Some(n) => n,
                None => {
                    continue ;
                },
            };
            proof {
                assert(self@.send_allocated(id.0));
                assert(self@.send[id.0].wf());
            }
            sent.reset_stream.push((id, error_code));
            let frame = ResetStream { id, error_code, final_offset: offset };
            frame.encode(buf);
            stats.reset_stream = stats.reset_stream + 1;
        }
    }

    fn write_stop_sendings(
        &mut self,
        buf: &mut Vec<u8>,
        pending: &mut Retransmits,
        sent: &mut Retransmits,
        stats: &mut FrameStats,
        max_size: usize,
    )
        requires
            old(self).wf(),
            max_size <= isize::MAX,
            control_frames(old(self), old(pending), old(sent), old(stats), old(buf)).counts_have_room(),
        ensures
            final(self).wf(),
            control_frames(final(self), final(pending), final(sent), final(stats), final(buf))
                == control_frames(
                old(self),
                old(pending),
                old(sent),
                old(stats),
                old(buf),
            ).stop_sendings(max_size as int),
            control_frames(final(self), final(pending), final(sent), final(stats), final(buf)).counts_have_room(),
    {
        let ghost start = control_frames(self, pending, sent, stats, buf);
        while max_size > STOP_SENDING_SIZE_BOUND && buf.len() < max_size - STOP_SENDING_SIZE_BOUND
            && pending.stop_sending.len() > 0
            invariant
                self.wf(),
                max_size <= isize::MAX,
                control_frames(self, pending, sent, stats, buf).counts_have_room(),
                control_frames(self, pending, sent, stats, buf).stop_sendings(max_size as int)
                    == start.stop_sendings(max_size as int),
            decreases pending.stop_sending@.len(),
        {
            let ghost now = control_frames(self, pending, sent, stats, buf);
            let frame = pending.stop_sending.pop().unwrap();
            proof {
                assert(pending.stop_sending@ =~= now.pending.stop_sending.drop_last());
            }
            if self.drops_frame(frame.id) {
                continue ;
            }
            proof {
                assert(self@.recv.contains_key(frame.id.0));
                assert(self@.recv_allocated(frame.id.0));
            }
            frame.encode(buf);
            sent.stop_sending.push(frame);
            stats.stop_sending = stats.stop_sending + 1;
        }
    }

    fn write_max_data_frame(
        &mut self,
        buf: &mut Vec<u8>,
        pending: &mut Retransmits,
        sent: &mut Retransmits,
        stats: &mut FrameStats,
        max_size: usize,
    )
        requires
            old(self).wf(),
            max_size <= isize::MAX,
            control_frames(old(self), old(pending), old(sent), old(stats), old(buf)).counts_have_room(),
        ensures
            final(self).wf(),
            control_frames(final(self), final(pending), final(sent), final(stats), final(buf))
                == control_frames(old(self), old(pending), old(sent), old(stats), old(buf)).max_data(
                max_size as int,
            ),
            control_frames(final(self), final(pending), final(sent), final(stats), final(buf)).counts_have_room(),
    {
        if pending.max_data && max_size > 9 && buf.len() < max_size - 9 {
            pending.max_data = false;
            let max = match VarInt::from_u64(self.local_max_data) {
                Some(v) => v,
                None => VarInt::max_value(),
            };
            self.record_sent_max_data(max);
            sent.max_data = true;
            write_max_data(buf, max.into_inner());
            stats.max_data = stats.max_data + 1;
        }
    }

    fn write_max_stream_datas(
        &mut self,
        buf: &mut Vec<u8>,
        pending: &mut Retransmits,
        sent: &mut Retransmits,
        stats: &mut FrameStats,
        max_size: usize,
    )
        requires
            old(self).wf(),
            max_size <= isize::MAX,
            control_frames(old(self), old(pending), old(sent), old(stats), old(buf)).counts_have_room(),
        ensures
            final(self).wf(),
            exists|order: Seq<u64>|
                {
                    &&& #[trigger] control_frames(
                        old(self),
                        old(pending),
                        old(sent),
                        old(stats),
                        old(buf),
                    ).walks(order, max_size as int)
                    &&& control_frames(
                        final(self),
                        final(pending),
                        final(sent),
                        final(stats),
                        final(buf),
                    ) == control_frames(
                        old(self),
                        old(pending),
                        old(sent),
                        old(stats),
                        old(buf),
                    ).max_stream_datas(order)
                },
            control_frames(final(self), final(pending), final(sent), final(stats), final(buf)).counts_have_room(),
    {
        broadcast use vstd::std_specs::hash::group_hash_axioms;

        let ghost start = control_frames(self, pending, sent, stats, buf);
        let ghost mut order: Seq<u64> = Seq::empty();
        proof {
            pending.lemma_finite();
        }
        while max_size > 17 && buf.len() < max_size - 17 && pending.max_stream_data.len() > 0
            invariant
                self.wf(),
                max_size <= isize::MAX,
                control_frames(self, pending, sent, stats, buf).counts_have_room(),
                control_frames(self, pending, sent, stats, buf) == start.max_stream_datas(order),
                start.can_take(order, max_size as int),
                pending.max_stream_data@.finite(),
            decreases pending.max_stream_data@.len(),
        {
            let ghost now = control_frames(self, pending, sent, stats, buf);
            let id = pending.any_max_stream_data().unwrap();
            pending.remove_max_stream_data(id);
            let ghost before = order;
            proof {
                order = before.push(id.0);
                assert(order.drop_last() =~= before);
                assert forall|i: int| 0 <= i < order.len() implies {
                    let at = #[trigger] start.max_stream_datas(order.take(i));
                    at.buf.len() + 17 < max_size && at.pending.max_stream_data.contains(order[i])
                } by {
                    if i < before.len() {
                        assert(order.take(i) =~= before.take(i));
                    } else {
                        assert(order.take(i) =~= before);
                    }
                }
            }
            if self.drops_frame(id) {
                continue ;
            }
            let ghost pre = self@;
            let mut rs = self.take_recv(id).unwrap();
            proof {
                assert(pre.recv[id.0].wf());
                assert(pre.recv_allocated(id.0));
            }
            sent.insert_max_stream_data(id);
            let (max, _) = rs.max_stream_data(self.stream_receive_window);
            rs.record_sent_max_stream_data(max);
            proof {
                lemma_reinsert(pre.recv, id.0, rs@);
                pre.lemma_recv_replaced(id.0, rs@);
            }
            self.put_recv(id, rs);
            let announced = if max > VARINT_MAX {
                VARINT_MAX
            } else {
                max
            };
            write_max_stream_data(buf, id, announced);
            stats.max_stream_data = stats.max_stream_data + 1;
        }
        proof {
            assert(start.walks(order, max_size as int));
        }
    }

    fn write_max_streams_frames(
        &mut self,
        buf: &mut Vec<u8>,
        pending: &mut Retransmits,
        sent: &mut Retransmits,
        stats: &mut FrameStats,
        max_size: usize,
    )
        requires
            old(self).wf(),
            max_size <= isize::MAX,
            control_frames(old(self), old(pending), old(sent), old(stats), old(buf)).counts_have_room(),
        ensures
            final(self).wf(),
            control_frames(final(self), final(pending), final(sent), final(stats), final(buf))
                == control_frames(
                old(self),
                old(pending),
                old(sent),
                old(stats),
                old(buf),
            ).max_streams_uni(max_size as int).max_streams_bidi(max_size as int),
    {
        proof {
            assert(self@.counts_ok(0) && self@.counts_ok(1));
        }
        if pending.max_uni_stream_id && max_size > 9 && buf.len() < max_size - 9 {
            pending.max_uni_stream_id = false;
            sent.max_uni_stream_id = true;
            write_max_streams(buf, Dir::Uni, self.max_remote[1]);
            stats.max_streams_uni = stats.max_streams_uni + 1;
        }
        if pending.max_bi_stream_id && max_size > 9 && buf.len() < max_size - 9 {
            pending.max_bi_stream_id = false;
            sent.max_bi_stream_id = true;
            write_max_streams(buf, Dir::Bi, self.max_remote[0]);
            stats.max_streams_bidi = stats.max_streams_bidi + 1;
        }
    }

    /// Writes the control frames that are due into `buf`, which may grow
    /// up to `max_size` bytes: RESET_STREAM, STOP_SENDING, MAX_DATA,
    /// MAX_STREAM_DATA, then MAX_STREAMS for each directionality. What was
    /// written moves from `pending` to `sent` and is counted in `stats`.
    /// The streams whose limit is due are taken in the order in which
    /// their set hands them out.
    pub fn write_control_frames(
        &mut self,
        buf: &mut Vec<u8>,
        pending: &mut Retransmits,
        sent: &mut Retransmits,
        stats: &mut FrameStats,
        max_size: usize,
    )
        requires
            old(self).wf(),
            max_size <= isize::MAX,
            control_frames(old(self), old(pending), old(sent), old(stats), old(buf)).counts_have_room(),
        ensures
            final(self).wf(),
            control_frames(old(self), old(pending), old(sent), old(stats), old(buf)).written(
                control_frames(final(self), final(pending), final(sent), final(stats), final(buf)),
                max_size as int,
            ),
    {
        let ghost start = control_frames(self, pending, sent, stats, buf);
        self.write_reset_streams(buf, pending, sent, stats, max_size);
        self.write_stop_sendings(buf, pending, sent, stats, max_size);
        self.write_max_data_frame(buf, pending, sent, stats, max_size);
        let ghost before = control_frames(self, pending, sent, stats, buf);
        self.write_max_stream_datas(buf, pending, sent, stats, max_size);
        let ghost limits = control_frames(self, pending, sent, stats, buf);
        self.write_max_streams_frames(buf, pending, sent, stats, max_size);
        proof {
            assert(before == start.before_stream_limits(max_size as int));
            let order = choose|order: Seq<u64>|
                {
                    &&& #[trigger] before.walks(order, max_size as int)
                    &&& limits == before.max_stream_datas(order)
                };
            assert(start.before_stream_limits(max_size as int).walks(order, max_size as int));
        }
    }
}

} // verus!
