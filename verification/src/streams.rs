//! All the streams of one connection: which exist, how much may be sent
//! and received, what is due for sending, and what the application is told.
use crate::assembler::AssemblerView;
use crate::frame::ResetStream;
use crate::frame::ShouldTransmit;
use crate::frame::Stream;
use crate::frame::StreamMeta;
use crate::map_sum::lemma_sum_empty;
use crate::model::StreamsView;
use crate::model::counted_weights;
use crate::model::lemma_enqueued;
use crate::model::lemma_unacked_update;
use crate::model::lemma_without_stream;
use crate::model::recv_views;
use crate::model::send_views;
use crate::model::unacked_weights;
use crate::model::unflagged;
use crate::model::without_stream;
use crate::range_set::lemma_total_push;
use crate::recv::Recv;
use crate::recv::RecvView;
use crate::recv::new_bytes;
use crate::send::Send;
use crate::send::SendState;
use crate::send::SendView;
use crate::stream_id::Dir;
use crate::stream_id::MAX_STREAM_COUNT;
use crate::stream_id::Side;
use crate::stream_id::StreamId;
use crate::transport::TransportError;
use crate::transport::TransportErrorCode;
use crate::transport::TransportParameters;
use crate::types::FinishError;
use crate::types::ReadError;
use crate::types::ReadResult;
use crate::types::ReadUnorderedResult;
use crate::types::StopResult;
use crate::types::StreamEvent;
use crate::types::UnknownStream;
use crate::types::WriteError;
use crate::varint::VARINT_MAX;
use crate::varint::VarInt;
use crate::wire::bytes_contents;
use std::collections::HashMap;
use std::collections::VecDeque;
use vstd::prelude::*;

verus! {

/// Putting back what was taken out of a map, or something in its place.
pub proof fn lemma_reinsert<V>(m: Map<u64, V>, k: u64, v: V)
    ensures
        m.remove(k).insert(k, v) == m.insert(k, v),
        m.contains_key(k) ==> m.insert(k, m[k]) == m,
        !m.contains_key(k) ==> m.remove(k) == m,
{
    assert(m.remove(k).insert(k, v) =~= m.insert(k, v));
    if m.contains_key(k) {
        assert(m.insert(k, m[k]) =~= m);
    } else {
        assert(m.remove(k) =~= m);
    }
}

/// The streams of one connection.
pub struct Streams {
    pub side: Side,
    pub send: HashMap<u64, Send>,
    pub recv: HashMap<u64, Recv>,
    pub next: [u64; 2],
    pub max: [u64; 2],
    pub max_remote: [u64; 2],
    pub next_remote: [u64; 2],
    pub opened: [bool; 2],
    pub next_reported_remote: [u64; 2],
    pub send_streams: usize,
    pub pending: VecDeque<StreamId>,
    pub events: VecDeque<StreamEvent>,
    pub connection_blocked: Vec<StreamId>,
    pub max_data: u64,
    pub receive_window: u64,
    pub local_max_data: u64,
    pub sent_max_data: u64,
    pub data_sent: u64,
    pub data_recvd: u64,
    pub unacked_data: u64,
    pub send_window: u64,
    pub stream_receive_window: u64,
}

impl View for Streams {
    type V = StreamsView;

    open spec fn view(&self) -> StreamsView {
        StreamsView {
            side: self.side,
            send: send_views(self.send@),
            recv: recv_views(self.recv@),
            next: self.next@,
            max: self.max@,
            max_remote: self.max_remote@,
            next_remote: self.next_remote@,
            opened: self.opened@,
            next_reported_remote: self.next_reported_remote@,
            send_streams: self.send_streams,
            pending: self.pending@,
            events: self.events@,
            connection_blocked: self.connection_blocked@,
            max_data: self.max_data,
            receive_window: self.receive_window,
            local_max_data: self.local_max_data,
            sent_max_data: self.sent_max_data,
            data_sent: self.data_sent,
            data_recvd: self.data_recvd,
            unacked_data: self.unacked_data,
            send_window: self.send_window,
            stream_receive_window: self.stream_receive_window,
        }
    }
}

impl Streams {
    /// Every buffer stands for its view.
    pub open spec fn consistent(&self) -> bool {
        &&& forall|k: u64| #[trigger]
            self.send@.contains_key(k) ==> self.send@[k].pending.consistent()
        &&& forall|k: u64| #[trigger]
            self.recv@.contains_key(k) ==> self.recv@[k].assembler.consistent()
    }

    /// What holds after every operation.
    pub open spec fn wf(&self) -> bool {
        self.consistent() && self@.wf()
    }

    /// Takes the sending half of stream `id` out, if there is one.
    pub(crate) fn take_send(&mut self, id: StreamId) -> (r: Option<Send>)
        requires
            old(self).consistent(),
        ensures
            final(self).consistent(),
            match r {
                Some(s) => old(self)@.send.contains_key(id.0) && s@ == old(self)@.send[id.0]
                    && s.pending.consistent() && final(self)@ == (StreamsView {
                    send: old(self)@.send.remove(id.0),
                    ..old(self)@
                }),
                None => !old(self)@.send.contains_key(id.0) && final(self)@ == old(self)@,
            },
    {
        broadcast use vstd::std_specs::hash::group_hash_axioms;

        let r = self.send.remove(&id.0);
        proof {
            assert(send_views(self.send@) =~= send_views(old(self).send@).remove(id.0));
            lemma_reinsert(old(self)@.send, id.0, SendView::fresh(0));
        }
        r
    }

    /// Puts a sending half in place for stream `id`.
    pub(crate) fn put_send(&mut self, id: StreamId, s: Send)
        requires
            old(self).consistent(),
            s.pending.consistent(),
        ensures
            final(self).consistent(),
            final(self)@ == (StreamsView {
                send: old(self)@.send.insert(id.0, s@),
                ..old(self)@
            }),
    {
        broadcast use vstd::std_specs::hash::group_hash_axioms;

        let _ = self.send.insert(id.0, s);
        proof {
            assert(send_views(self.send@) =~= send_views(old(self).send@).insert(id.0, s@));
        }
    }

    /// Takes the receiving half of stream `id` out, if there is one.
    pub(crate) fn take_recv(&mut self, id: StreamId) -> (r: Option<Recv>)
        requires
            old(self).consistent(),
        ensures
            final(self).consistent(),
            match r {
                Some(s) => old(self)@.recv.contains_key(id.0) && s@ == old(self)@.recv[id.0]
                    && s.assembler.consistent() && final(self)@ == (StreamsView {
                    recv: old(self)@.recv.remove(id.0),
                    ..old(self)@
                }),
                None => !old(self)@.recv.contains_key(id.0) && final(self)@ == old(self)@,
            },
    {
        broadcast use vstd::std_specs::hash::group_hash_axioms;

        let r = self.recv.remove(&id.0);
        proof {
            assert(recv_views(self.recv@) =~= recv_views(old(self).recv@).remove(id.0));
            lemma_reinsert(old(self)@.recv, id.0, RecvView::fresh());
        }
        r
    }

    /// Puts a receiving half in place for stream `id`.
    pub(crate) fn put_recv(&mut self, id: StreamId, s: Recv)
        requires
            old(self).consistent(),
            s.assembler.consistent(),
        ensures
            final(self).consistent(),
            final(self)@ == (StreamsView {
                recv: old(self)@.recv.insert(id.0, s@),
                ..old(self)@
            }),
    {
        broadcast use vstd::std_specs::hash::group_hash_axioms;

        let _ = self.recv.insert(id.0, s);
        proof {
            assert(recv_views(self.recv@) =~= recv_views(old(self).recv@).insert(id.0, s@));
        }
    }

    /// Gives stream `id` a place in the queue of streams with something to
    /// send, unless it has one.
    pub(crate) fn schedule(&mut self, id: StreamId)
        requires
            old(self).consistent(),
        ensures
            final(self).consistent(),
            final(self)@ == (StreamsView { pending: old(self)@.scheduled(id), ..old(self)@ }),
    {
        let n = self.pending.len();
        let mut i: usize = 0;
        while i < n
            invariant
                n == self.pending@.len(),
                i <= n,
                *self == *old(self),
                self.consistent(),
                forall|j: int| 0 <= j < i ==> self.pending@[j] != id,
            decreases n - i,
        {
            if self.pending[i].0 == id.0 {
                assert(self.pending@[i as int] == id);
                return ;
            }
            i += 1;
        }
        self.pending.push_back(id);
    }

    /// Takes stream `id` out of the queue of streams with something to
    /// send.
    pub(crate) fn unschedule(&mut self, id: StreamId)
        requires
            old(self).consistent(),
        ensures
            final(self).consistent(),
            final(self)@ == (StreamsView {
                pending: without_stream(old(self)@.pending, id),
                ..old(self)@
            }),
    {
        let n = self.pending.len();
        let mut out: VecDeque<StreamId> = VecDeque::new();
        let mut i: usize = 0;
        assert(self.pending@.subrange(0, 0) =~= Seq::empty());
        while i < n
            invariant
                n == self.pending@.len(),
                i <= n,
                *self == *old(self),
                out@ == without_stream(self.pending@.subrange(0, i as int), id),
            decreases n - i,
        {
            let x = self.pending[i];
            assert(self.pending@.subrange(0, i + 1).drop_last() =~= self.pending@.subrange(
                0,
                i as int,
            ));
            if x.0 != id.0 {
                out.push_back(x);
            }
            i += 1;
        }
        assert(self.pending@.subrange(0, n as int) =~= self.pending@);
        self.pending = out;
    }

    /// The streams of a new connection. Every stream that the peer may open
    /// is there from the start.
    pub fn new(
        side: Side,
        max_remote_uni: VarInt,
        max_remote_bi: VarInt,
        send_window: u64,
        receive_window: VarInt,
        stream_receive_window: VarInt,
    ) -> (r: Streams)
        requires
            max_remote_uni.value() <= MAX_STREAM_COUNT,
            max_remote_bi.value() <= MAX_STREAM_COUNT,
        ensures
            r.wf(),
            r@.holds_remote_streams(max_remote_bi.value(), max_remote_uni.value()),
            forall|k: u64| #[trigger] r@.send.contains_key(k) ==> r@.send[k] == SendView::fresh(0),
            forall|k: u64| #[trigger] r@.recv.contains_key(k) ==> r@.recv[k] == RecvView::fresh(),
            r@ == (StreamsView {
                side,
                send: r@.send,
                recv: r@.recv,
                next: seq![0u64, 0u64],
                max: seq![0u64, 0u64],
                max_remote: seq![max_remote_bi.value(), max_remote_uni.value()],
                next_remote: seq![0u64, 0u64],
                opened: seq![false, false],
                next_reported_remote: seq![0u64, 0u64],
                send_streams: 0,
                pending: Seq::empty(),
                events: Seq::empty(),
                connection_blocked: Seq::empty(),
                max_data: 0,
                receive_window: receive_window.value(),
                local_max_data: receive_window.value(),
                sent_max_data: receive_window.value(),
                data_sent: 0,
                data_recvd: 0,
                unacked_data: 0,
                send_window,
                stream_receive_window: stream_receive_window.value(),
            }),
    {
        broadcast use vstd::std_specs::hash::group_hash_axioms;

        let bi = max_remote_bi.into_inner();
        let uni = max_remote_uni.into_inner();
        let mut this = Streams {
            side,
            send: HashMap::new(),
            recv: HashMap::new(),
            next: [0, 0],
            max: [0, 0],
            max_remote: [bi, uni],
            next_remote: [0, 0],
            opened: [false, false],
            next_reported_remote: [0, 0],
            send_streams: 0,
            pending: VecDeque::new(),
            events: VecDeque::new(),
            connection_blocked: Vec::new(),
            max_data: 0,
            receive_window: receive_window.into_inner(),
            local_max_data: receive_window.into_inner(),
            sent_max_data: receive_window.into_inner(),
            data_sent: 0,
            data_recvd: 0,
            unacked_data: 0,
            send_window,
            stream_receive_window: stream_receive_window.into_inner(),
        };
        let ghost start = this@;
        proof {
            lemma_sum_empty();
            assert(this@.send =~= Map::<u64, SendView>::empty());
            assert(this@.recv =~= Map::<u64, RecvView>::empty());
            assert(unacked_weights(this@.send) =~= Map::<u64, nat>::empty());
            assert(counted_weights(this@.recv) =~= Map::<u64, nat>::empty());
            assert(this.next@ =~= seq![0u64, 0u64]);
            assert(this.max@ =~= seq![0u64, 0u64]);
            assert(this.max_remote@ =~= seq![bi, uni]);
            assert(this.next_remote@ =~= seq![0u64, 0u64]);
            assert(this.opened@ =~= seq![false, false]);
            assert(this.next_reported_remote@ =~= seq![0u64, 0u64]);
        }
        let mut i: u64 = 0;
        while i < bi
            invariant
                i <= bi <= MAX_STREAM_COUNT,
                uni <= MAX_STREAM_COUNT,
                this.wf(),
                this@ == (StreamsView { send: this@.send, recv: this@.recv, ..start }),
                start.side == side,
                start.max_remote == seq![bi, uni],
                start.next == seq![0u64, 0u64],
                start.connection_blocked.len() == 0,
                this@.holds_remote_streams(i, 0),
                forall|k: u64| #[trigger]
                    this@.send.contains_key(k) ==> this@.send[k] == SendView::fresh(0),
                forall|k: u64| #[trigger]
                    this@.recv.contains_key(k) ==> this@.recv[k] == RecvView::fresh(),
            decreases bi - i,
        {
            let id = StreamId::new(side.opposite(), Dir::Bi, i);
            proof {
                this@.lemma_remote_streams_grow(id, i, 0);
            }
            this.insert(None, true, id);
            i += 1;
        }
        let mut j: u64 = 0;
        while j < uni
            invariant
                j <= uni <= MAX_STREAM_COUNT,
                bi <= MAX_STREAM_COUNT,
                this.wf(),
                this@ == (StreamsView { send: this@.send, recv: this@.recv, ..start }),
                start.side == side,
                start.max_remote == seq![bi, uni],
                start.next == seq![0u64, 0u64],
                start.connection_blocked.len() == 0,
                this@.holds_remote_streams(bi, j),
                forall|k: u64| #[trigger]
                    this@.send.contains_key(k) ==> this@.send[k] == SendView::fresh(0),
                forall|k: u64| #[trigger]
                    this@.recv.contains_key(k) ==> this@.recv[k] == RecvView::fresh(),
            decreases uni - j,
        {
            let id = StreamId::new(side.opposite(), Dir::Uni, j);
            proof {
                this@.lemma_remote_streams_grow(id, bi, j);
            }
            this.insert(None, true, id);
            j += 1;
        }
        this
    }

    /// Puts the new stream `id` in place: a sending half unless only the
    /// peer sends on it, a receiving half unless only this endpoint does.
    /// `remote` says that the peer opens the stream.
    pub(crate) fn insert(&mut self, params: Option<&TransportParameters>, remote: bool, id: StreamId)
        requires
            old(self).wf(),
            id.0 <= VARINT_MAX,
            id.spec_dir() == Dir::Bi || !remote ==> old(self)@.send_allocated(id.0) && !old(
                self)@.send.contains_key(id.0) && !old(self)@.connection_blocked.contains(id),
            id.spec_dir() == Dir::Bi || remote ==> old(self)@.recv_allocated(id.0) && !old(
                self)@.recv.contains_key(id.0),
        ensures
            final(self).wf(),
            final(self)@ == old(self)@.with_stream(
                id,
                id.spec_dir() == Dir::Bi || !remote,
                id.spec_dir() == Dir::Bi || remote,
                StreamsView::initial_send_limit(params, remote, id.spec_dir()),
            ),
    {
        let bi = match id.dir() {
            Dir::Bi => true,
            Dir::Uni => false,
        };
        proof {
            if let Some(p) = params {
                use_type_invariant(&p.initial_max_stream_data_uni);
                use_type_invariant(&p.initial_max_stream_data_bidi_local);
                use_type_invariant(&p.initial_max_stream_data_bidi_remote);
            }
            old(self)@.lemma_with_stream(
                id,
                id.spec_dir() == Dir::Bi || !remote,
                id.spec_dir() == Dir::Bi || remote,
                StreamsView::initial_send_limit(params, remote, id.spec_dir()),
            );
        }
        if bi || !remote {
            let max_data = match params {
                None => VarInt::from_u32(0),
                Some(p) => match id.dir() {
                    Dir::Uni => p.initial_max_stream_data_uni,
                    Dir::Bi => if remote {
                        p.initial_max_stream_data_bidi_local
                    } else {
                        p.initial_max_stream_data_bidi_remote
                    },
                },
            };
            self.put_send(id, Send::new(max_data));
        }
        if bi || remote {
            self.put_recv(id, Recv::new());
        }
    }

    /// Opens a stream of this endpoint, unless the peer's limit on their
    /// number is reached.
    pub fn open(&mut self, params: &TransportParameters, dir: Dir) -> (r: Option<StreamId>)
        requires
            old(self).wf(),
            old(self)@.send_streams < usize::MAX,
        ensures
            final(self).wf(),
            r == old(self)@.next_local(dir),
            final(self)@ == old(self)@.after_open(params, dir),
    {
        let d = dir.as_usize();
        if self.next[d] >= self.max[d] {
            return None;
        }
        let index = self.next[d];
        let id = StreamId::new(self.side, dir, index);
        proof {
            // No stream of this endpoint has this index yet.
            if self@.send.contains_key(id.0) {
                assert(self@.send_allocated(id.0));
            }
            if self@.recv.contains_key(id.0) {
                assert(self@.recv_allocated(id.0));
            }
            if self@.connection_blocked.contains(id) {
                let i = choose|i: int|
                    0 <= i < self@.connection_blocked.len() && self@.connection_blocked[i] == id;
                assert(self@.send_allocated(self@.connection_blocked[i].0));
            }
            assert(self@.counts_ok(0) && self@.counts_ok(1));
        }
        self.next[d] = index + 1;
        proof {
            assert(self.next@ =~= old(self).next@.update(d as int, (index + 1) as u64));
            old(self)@.lemma_counters_grown(self@);
        }
        self.insert(Some(params), false, id);
        self.send_streams = self.send_streams + 1;
        Some(id)
    }

    /// Lets the peer open one more stream of the directionality, and puts
    /// that stream in place.
    pub fn alloc_remote_stream(&mut self, params: &TransportParameters, dir: Dir)
        requires
            old(self).wf(),
            old(self)@.max_remote[dir.slot()] < MAX_STREAM_COUNT,
        ensures
            final(self).wf(),
            final(self)@ == old(self)@.after_alloc_remote(params, dir),
    {
        let d = dir.as_usize();
        let index = self.max_remote[d];
        let id = StreamId::new(self.side.opposite(), dir, index);
        proof {
            if self@.send.contains_key(id.0) {
                assert(self@.send_allocated(id.0));
            }
            if self@.recv.contains_key(id.0) {
                assert(self@.recv_allocated(id.0));
            }
            if self@.connection_blocked.contains(id) {
                let i = choose|i: int|
                    0 <= i < self@.connection_blocked.len() && self@.connection_blocked[i] == id;
                assert(self@.send_allocated(self@.connection_blocked[i].0));
            }
            assert(self@.counts_ok(0) && self@.counts_ok(1));
        }
        self.max_remote[d] = index + 1;
        proof {
            assert(self.max_remote@ =~= old(self).max_remote@.update(d as int, (index + 1) as u64));
            old(self)@.lemma_counters_grown(self@);
        }
        self.insert(Some(params), true, id);
    }

    /// Hands the next stream that the peer has opened to the application,
    /// lowest index first.
    pub fn accept(&mut self, dir: Dir) -> (r: Option<StreamId>)
        requires
            old(self).wf(),
            old(self)@.send_streams < usize::MAX,
        ensures
            final(self).wf(),
            r == old(self)@.next_accepted(dir),
            final(self)@ == old(self)@.after_accept(dir),
    {
        let d = dir.as_usize();
        if self.next_remote[d] == self.next_reported_remote[d] {
            return None;
        }
        let x = self.next_reported_remote[d];
        proof {
            assert(self@.counts_ok(0) && self@.counts_ok(1));
        }
        self.next_reported_remote[d] = x + 1;
        match dir {
            Dir::Bi => {
                self.send_streams = self.send_streams + 1;
            },
            Dir::Uni => {},
        }
        proof {
            assert(self.next_reported_remote@ =~= old(self).next_reported_remote@.update(
                d as int,
                (x + 1) as u64,
            ));
        }
        Some(StreamId::new(self.side.opposite(), dir, x))
    }

    /// Number of streams that this endpoint sends on.
    pub fn send_streams(&self) -> (r: usize)
        ensures
            r == self@.send_streams,
    {
        self.send_streams
    }

    /// Whether any stream has something to send.
    pub fn can_send(&self) -> (r: bool)
        ensures
            r == (self@.pending.len() > 0),
    {
        self.pending.len() > 0
    }

    /// Whether a stream of this endpoint with this identifier was never
    /// opened.
    pub fn is_local_unopened(&self, id: StreamId) -> (r: bool)
        ensures
            r == (id.spec_index() >= self@.next[id.spec_dir().slot()]),
    {
        id.index() >= self.next[id.dir().as_usize()]
    }

    /// Whether writes are held back by the connection's limit or by the
    /// send window.
    pub fn flow_blocked(&self) -> (r: bool)
        ensures
            r == self@.flow_blocked(),
    {
        self.data_sent >= self.max_data || self.unacked_data >= self.send_window
    }

    /// Grants the peer `credits` more bytes on the connection. Returns
    /// whether announcing the new limit is worth a frame.
    pub(crate) fn add_read_credits(&mut self, credits: u64) -> (r: ShouldTransmit)
        requires
            old(self).wf(),
        ensures
            final(self).wf(),
            final(self)@ == old(self)@.after_read_credits(credits),
            r.0 == final(self)@.should_send_max_data(),
    {
        self.local_max_data = self.local_max_data.saturating_add(credits);
        if self.local_max_data > VARINT_MAX {
            return ShouldTransmit::new(false);
        }
        let diff = self.local_max_data - self.sent_max_data;
        ShouldTransmit::new(diff >= self.receive_window / 8)
    }

    /// Notes that the connection's limit `sent_value` was announced.
    pub(crate) fn record_sent_max_data(&mut self, sent_value: VarInt)
        requires
            old(self).wf(),
            sent_value.value() <= old(self)@.local_max_data,
        ensures
            final(self).wf(),
            final(self)@ == (StreamsView {
                sent_max_data: if sent_value.value() > old(self)@.sent_max_data {
                    sent_value.value()
                } else {
                    old(self)@.sent_max_data
                },
                ..old(self)@
            }),
    {
        let v = sent_value.into_inner();
        if v > self.sent_max_data {
            self.sent_max_data = v;
        }
    }

    /// The peer raised the connection's limit to `n`; a lower value changes
    /// nothing.
    pub fn received_max_data(&mut self, n: VarInt)
        requires
            old(self).wf(),
        ensures
            final(self).wf(),
            final(self)@ == old(self)@.after_max_data(n.value()),
    {
        let v = n.into_inner();
        if v > self.max_data {
            self.max_data = v;
        }
    }

    /// The peer raised the number of streams of one directionality that
    /// this endpoint may open. A count above 2^60 is refused; a count that
    /// is not higher than the one in force changes nothing.
    pub fn received_max_streams(&mut self, dir: Dir, count: u64) -> (r: Result<(), TransportError>)
        requires
            old(self).wf(),
        ensures
            final(self).wf(),
            count > MAX_STREAM_COUNT ==> r.is_err() && r.unwrap_err().is(
                TransportErrorCode::FrameEncodingError,
                "unrepresentable stream limit",
            ) && final(self)@ == old(self)@,
            count <= MAX_STREAM_COUNT ==> r.is_ok() && final(self)@ == old(self)@.after_max_streams(
                dir,
                count,
            ),
    {
        if count > MAX_STREAM_COUNT {
            return Err(TransportError::frame_encoding_error("unrepresentable stream limit"));
        }
        let d = dir.as_usize();
        proof {
            assert(self@.counts_ok(0) && self@.counts_ok(1));
        }
        if count > self.max[d] {
            self.max[d] = count;
            self.events.push_back(StreamEvent::Available { dir });
            proof {
                assert(self.max@ =~= old(self).max@.update(d as int, count));
            }
        }
        Ok(())
    }

    /// Notes that a frame for `stream` was handled.
    pub(crate) fn on_stream_frame(&mut self, notify_readable: bool, stream: StreamId)
        requires
            old(self).wf(),
            stream.spec_initiator() != old(self)@.side ==> stream.spec_index() < old(
                self)@.max_remote[stream.spec_dir().slot()],
        ensures
            final(self).wf(),
            final(self)@ == old(self)@.after_stream_frame(notify_readable, stream),
    {
        if notify_readable {
            self.events.push_back(StreamEvent::Readable { id: stream });
        }
        if stream.initiator() == self.side {
            return ;
        }
        let d = stream.dir().as_usize();
        proof {
            assert(self@.counts_ok(0) && self@.counts_ok(1));
        }
        if stream.index() >= self.next_remote[d] {
            self.next_remote[d] = stream.index() + 1;
            self.opened[d] = true;
            proof {
                assert(self.next_remote@ =~= old(self).next_remote@.update(
                    d as int,
                    (stream.spec_index() + 1) as u64,
                ));
                assert(self.opened@ =~= old(self).opened@.update(d as int, true));
            }
        }
    }

    /// Checks a frame of the peer for its sending on stream `id`.
    pub fn validate_receive_id(&self, id: StreamId) -> (r: Result<(), TransportError>)
        requires
            self.wf(),
        ensures
            match self@.receive_id_error(id) {
                Some((code, reason)) => r.is_err() && r.unwrap_err().code == code && r.unwrap_err().reason@
                    == reason,
                None => r.is_ok(),
            },
    {
        if self.side == id.initiator() {
            match id.dir() {
                Dir::Uni => {
                    return Err(
                        TransportError::stream_state_error("illegal operation on send-only stream"),
                    );
                },
                Dir::Bi => {
                    if id.index() >= self.next[0] {
                        return Err(TransportError::stream_state_error("operation on unopened stream"));
                    }
                },
            }
        } else {
            let limit = self.max_remote[id.dir().as_usize()];
            if id.index() >= limit {
                return Err(TransportError::stream_limit_error(""));
            }
        }
        Ok(())
    }
}

impl Streams {
    /// Takes bytes from the front of `data` for sending on stream `id`.
    pub fn write(&mut self, id: StreamId, data: &[u8]) -> (r: Result<usize, WriteError>)
        requires
            old(self).wf(),
        ensures
            final(self).wf(),
            r == old(self)@.write_outcome(id, data@.len() as int),
            final(self)@ == old(self)@.after_write(id, data@),
    {
        let a = self.max_data - self.data_sent;
        let b = self.send_window - self.unacked_data;
        let limit = if a <= b {
            a
        } else {
            b
        };
        let mut stream = match self.take_send(id) {
            Some(s) => s,
            None => {
                return Err(WriteError::UnknownStream);
            },
        };
        let ghost pre = old(self)@;
        proof {
            lemma_reinsert(pre.send, id.0, stream@);
            assert(pre.send_allocated(id.0));
        }
        if limit == 0 {
            if !stream.connection_blocked {
                stream.connection_blocked = true;
                self.connection_blocked.push(id);
                self.put_send(id, stream);
                proof {
                    let post = self@;
                    lemma_reinsert(pre.send, id.0, stream@);
                    lemma_unacked_update(pre.send, id.0, stream@);
                    assert forall|j: u64| #[trigger]
                        post.send.contains_key(j) implies post.send_allocated(j)
                        && post.send[j].wf() && !post.send[j].is_terminal() by {
                        assert(pre.send.contains_key(j));
                    }
                    assert forall|i: int| 0 <= i < post.connection_blocked.len() implies {
                        &&& post.send_allocated((#[trigger] post.connection_blocked[i]).0)
                        &&& post.send.contains_key(post.connection_blocked[i].0)
                            ==> post.send[post.connection_blocked[i].0].connection_blocked
                    } by {
                        if i < pre.connection_blocked.len() {
                            assert(pre.send_allocated(pre.connection_blocked[i].0));
                        }
                    }
                    assert forall|k: u64| #[trigger]
                        post.send.contains_key(k) && post.send[k].connection_blocked implies post.connection_blocked.contains(
                        StreamId(k),
                    ) by {
                        if k == id.0 {
                            assert(post.connection_blocked[post.connection_blocked.len() - 1]
                                == id);
                        } else {
                            assert(pre.send.contains_key(k) && pre.send[k].connection_blocked);
                            let i = choose|i: int|
                                0 <= i < pre.connection_blocked.len() && pre.connection_blocked[i]
                                    == StreamId(k);
                            assert(post.connection_blocked[i] == StreamId(k));
                        }
                    }
                    assert forall|i: int, j: int|
                        0 <= i < post.connection_blocked.len() && 0 <= j
                            < post.connection_blocked.len() && i != j implies post.connection_blocked[i]
                        != post.connection_blocked[j] by {
                        if i < pre.connection_blocked.len() && j == pre.connection_blocked.len() {
                            assert(pre.send_allocated(pre.connection_blocked[i].0));
                        }
                        if j < pre.connection_blocked.len() && i == pre.connection_blocked.len() {
                            assert(pre.send_allocated(pre.connection_blocked[j].0));
                        }
                    }
                }
            } else {
                self.put_send(id, stream);
            }
            return Err(WriteError::Blocked);
        }
        let len = if data.len() as u64 <= limit {
            data.len()
        } else {
            limit as usize
        };
        let res = stream.write(vstd::slice::slice_subrange(data, 0, len));
        proof {
            lemma_reinsert(pre.send, id.0, stream@);
        }
        self.put_send(id, stream);
        match res {
            Err(e) => Err(e),
            Ok(n) => {
                proof {
                    pre.lemma_send_replaced(id.0, stream@);
                    lemma_enqueued(pre.pending, id);
                    assert(data@.subrange(0, len as int).take(n as int) =~= data@.take(n as int));
                }
                self.data_sent = self.data_sent + n as u64;
                self.unacked_data = self.unacked_data + n as u64;
                self.schedule(id);
                Ok(n)
            },
        }
    }

    /// Ends stream `id` after what was written; a frame that says so goes
    /// out even if no data is left to send.
    pub fn finish(&mut self, id: StreamId) -> (r: Result<(), FinishError>)
        requires
            old(self).wf(),
        ensures
            final(self).wf(),
            r == old(self)@.finish_outcome(id),
            final(self)@ == old(self)@.after_finish(id),
    {
        let mut stream = match self.take_send(id) {
            Some(s) => s,
            None => {
                return Err(FinishError::UnknownStream);
            },
        };
        let ghost pre = old(self)@;
        proof {
            assert(pre.send[id.0].wf());
        }
        let res = stream.finish();
        proof {
            lemma_reinsert(pre.send, id.0, stream@);
        }
        self.put_send(id, stream);
        match res {
            Err(e) => Err(e),
            Ok(()) => {
                proof {
                    pre.lemma_send_replaced(id.0, stream@);
                    lemma_enqueued(pre.pending, id);
                }
                self.schedule(id);
                Ok(())
            },
        }
    }

    /// Gives up sending on stream `id`: what was written and not
    /// acknowledged no longer counts against the send window, and what is
    /// buffered is dropped. Fails where the stream is not there or was
    /// reset before.
    pub fn reset(&mut self, id: StreamId) -> (r: Result<(), UnknownStream>)
        requires
            old(self).wf(),
        ensures
            final(self).wf(),
            r.is_ok() == old(self)@.can_reset(id),
            final(self)@ == old(self)@.after_reset(id),
    {
        let mut stream = match self.take_send(id) {
            Some(s) => s,
            None => {
                return Err(UnknownStream::new());
            },
        };
        let ghost pre = old(self)@;
        proof {
            lemma_reinsert(pre.send, id.0, stream@);
            assert(pre.send[id.0].wf());
        }
        if stream.is_reset() {
            self.put_send(id, stream);
            return Err(UnknownStream::new());
        }
        let refund = stream.pending.unacked();
        let fin_due = stream.fin_pending;
        stream.reset();
        proof {
            lemma_reinsert(pre.send, id.0, stream@);
            pre.lemma_send_replaced(id.0, stream@);
            lemma_without_stream(pre.pending, id);
            lemma_total_push(Seq::empty(), (0, 0));
        }
        self.put_send(id, stream);
        self.unacked_data = self.unacked_data - refund;
        if !fin_due {
            self.unschedule(id);
        }
        Ok(())
    }

    /// The peer has acknowledged the reset of stream `id`: the stream is
    /// forgotten. Nothing happens where the stream is not there or was not
    /// reset.
    pub fn reset_acked(&mut self, id: StreamId)
        requires
            old(self).wf(),
            old(self)@.send.contains_key(id.0) && old(self)@.send[id.0].state
                == SendState::ResetSent ==> old(self)@.send_streams > 0,
        ensures
            final(self).wf(),
            final(self)@ == old(self)@.after_reset_acked(id),
    {
        let stream = match self.take_send(id) {
            Some(s) => s,
            None => {
                return ;
            },
        };
        let ghost pre = old(self)@;
        let is_reset_sent = match stream.state {
            SendState::ResetSent => true,
            _ => false,
        };
        if is_reset_sent {
            self.send_streams = self.send_streams - 1;
            proof {
                pre.lemma_send_removed(id.0);
            }
        } else {
            proof {
                lemma_reinsert(pre.send, id.0, stream@);
            }
            self.put_send(id, stream);
        }
    }

    /// The code with which the peer asked for sending on stream `id` to
    /// stop, if it did.
    pub fn stop_reason(&self, id: StreamId) -> (r: Result<Option<VarInt>, UnknownStream>)
        ensures
            r.is_ok() == self@.send.contains_key(id.0),
            r.is_ok() ==> r.unwrap() == self@.send[id.0].stop_reason,
    {
        broadcast use vstd::std_specs::hash::group_hash_axioms;

        match self.send.get(&id.0) {
            Some(s) => Ok(s.stop_reason),
            None => Err(UnknownStream::new()),
        }
    }

    /// The peer asked for sending on stream `id` to stop.
    pub fn received_stop_sending(&mut self, id: StreamId, error_code: VarInt)
        requires
            old(self).wf(),
        ensures
            final(self).wf(),
            final(self)@ == old(self)@.after_stop_sending(id, error_code),
    {
        let mut stream = match self.take_send(id) {
            Some(s) => s,
            None => {
                return ;
            },
        };
        let ghost pre = old(self)@;
        proof {
            assert(pre.send[id.0].wf());
            assert(pre.send_allocated(id.0));
        }
        self.events.push_back(StreamEvent::Stopped { id, error_code });
        stream.stop(error_code);
        proof {
            lemma_reinsert(pre.send, id.0, stream@);
            pre.lemma_send_replaced(id.0, stream@);
            lemma_enqueued(pre.pending, id);
        }
        self.put_send(id, stream);
        self.schedule(id);
        self.on_stream_frame(false, id);
    }

    /// The frame was lost: its bytes are queued to be sent again, and with
    /// them the end of the stream, if the frame carried it.
    pub fn retransmit(&mut self, frame: StreamMeta)
        requires
            old(self).wf(),
        ensures
            final(self).wf(),
            final(self)@ == old(self)@.after_retransmit(
                frame.id,
                frame.offsets.start,
                frame.offsets.end,
                frame.fin,
            ),
    {
        let mut stream = match self.take_send(frame.id) {
            Some(s) => s,
            None => {
                return ;
            },
        };
        let ghost pre = old(self)@;
        proof {
            assert(pre.send[frame.id.0].wf());
        }
        stream.fin_pending = stream.fin_pending || frame.fin;
        stream.pending.retransmit(frame.offsets.start, frame.offsets.end);
        proof {
            lemma_reinsert(pre.send, frame.id.0, stream@);
            pre.lemma_send_replaced(frame.id.0, stream@);
            lemma_enqueued(pre.pending, frame.id);
        }
        self.put_send(frame.id, stream);
        self.schedule(frame.id);
    }

    /// The peer has received the frame.
    pub fn received_ack_of(&mut self, frame: StreamMeta)
        requires
            old(self).wf(),
            old(self)@.send.contains_key(frame.id.0) && old(self)@.send[frame.id.0].state is DataSent
                ==> old(self)@.send_streams > 0,
        ensures
            final(self).wf(),
            old(self)@.acked(
                final(self)@,
                frame.id,
                frame.offsets.start,
                frame.offsets.end,
                frame.fin,
            ),
    {
        let mut stream = match self.take_send(frame.id) {
            Some(s) => s,
            None => {
                return ;
            },
        };
        let ghost pre = old(self)@;
        proof {
            lemma_reinsert(pre.send, frame.id.0, stream@);
            assert(pre.send[frame.id.0].wf());
        }
        if stream.is_reset() {
            self.put_send(frame.id, stream);
            return ;
        }
        let id = frame.id;
        let newly = stream.ack(&frame);
        let ghost acked = stream@;
        let done = match stream.state {
            SendState::DataRecvd => true,
            _ => false,
        };
        proof {
            pre.send[id.0].pending.lemma_fully_acked();
            acked.pending.lemma_fully_acked();
            assert(pre.send[id.0].pending.ack_result(
                acked.pending,
                frame.offsets.start,
                frame.offsets.end,
                newly,
            ));
            assert(acked == pre.send[id.0].after_ack(frame.fin, acked.pending));
            if done {
                pre.lemma_send_removed(id.0);
            } else {
                pre.lemma_send_replaced(id.0, acked);
                lemma_reinsert(pre.send, id.0, acked);
            }
        }
        self.unacked_data = self.unacked_data - newly;
        if !done {
            self.put_send(id, stream);
            return ;
        }
        self.send_streams = self.send_streams - 1;
        self.events.push_back(StreamEvent::Finished { id });
    }

    /// The peer announced the limit `offset` for stream `id`. A limit that
    /// is not higher than the one in force changes nothing. A limit for a
    /// stream on which only the peer sends, or for a stream of this
    /// endpoint that was never opened, is refused. A limit for a stream of
    /// this endpoint that was opened and is gone by now is accepted and
    /// does nothing: the frame may have been on its way while the stream
    /// came to its end.
    pub fn received_max_stream_data(&mut self, id: StreamId, offset: u64) -> (r: Result<
        (),
        TransportError,
    >)
        requires
            old(self).wf(),
            offset <= VARINT_MAX,
        ensures
            final(self).wf(),
            match old(self)@.max_stream_data_error(id) {
                Some((code, reason)) => r.is_err() && r.unwrap_err().code == code && r.unwrap_err().reason@
                    == reason,
                None => r.is_ok(),
            },
            final(self)@ == old(self)@.after_max_stream_data(id, offset),
    {
        let local = id.initiator() == self.side;
        let uni = match id.dir() {
            Dir::Uni => true,
            Dir::Bi => false,
        };
        if !local && uni {
            return Err(TransportError::stream_state_error("MAX_STREAM_DATA on recv-only stream"));
        }
        let ghost pre = old(self)@;
        match self.take_send(id) {
            Some(mut ss) => {
                proof {
                    assert(pre.send[id.0].wf());
                    assert(pre.send_allocated(id.0));
                }
                if ss.increase_max_data(offset) {
                    self.events.push_back(StreamEvent::Writable { id });
                }
                proof {
                    lemma_reinsert(pre.send, id.0, ss@);
                    pre.lemma_send_replaced(id.0, ss@);
                }
                self.put_send(id, ss);
            },
            None => {
                if local && self.is_local_unopened(id) {
                    return Err(
                        TransportError::stream_state_error("MAX_STREAM_DATA on unopened stream"),
                    );
                }
                if !local && id.index() >= self.max_remote[id.dir().as_usize()] {
                    return Ok(());
                }
            },
        }
        self.on_stream_frame(false, id);
        Ok(())
    }
}

impl Streams {
    /// Reads in order from stream `id` into the front of `buf`. Gives the
    /// number of bytes read, at least one, with the frames that this calls
    /// for; or nothing at the end of the stream, which is then forgotten.
    pub fn read(&mut self, id: StreamId, buf: &mut [u8]) -> (r: Result<Option<ReadResult>, ReadError>)
        requires
            old(self).wf(),
        ensures
            final(self).wf(),
            final(buf)@.len() == old(buf)@.len(),
            match r {
                Ok(Some(res)) => {
                    &&& old(self)@.can_read(id, old(buf)@.len() as int)
                    &&& old(self)@.recv[id.0].assembler.readable(
                        old(buf)@.len() as int,
                        res.len as int,
                    )
                    &&& final(self)@ == old(self)@.after_read(id, res.len)
                    &&& res.max_stream_data.0 == final(self)@.recv[id.0].should_send_max_stream_data(
                        old(self)@.stream_receive_window,
                    )
                    &&& res.max_data.0 == final(self)@.should_send_max_data()
                    &&& forall|i: int|
                        0 <= i < old(buf)@.len() ==> #[trigger] final(buf)@[i] == (if i < res.len {
                            old(self)@.recv[id.0].assembler.buffered[old(
                                self)@.recv[id.0].assembler.bytes_read + i]
                        } else {
                            old(buf)@[i]
                        })
                },
                other => {
                    &&& !old(self)@.can_read(id, old(buf)@.len() as int)
                    &&& final(buf)@ == old(buf)@
                    &&& if old(self)@.recv.contains_key(id.0) && !old(
                        self)@.recv[id.0].assembler.stopped && old(
                        self)@.recv[id.0].assembler.unordered {
                        other == Err::<Option<ReadResult>, ReadError>(ReadError::IllegalOrderedRead)
                            && final(self)@ == old(self)@
                    } else {
                        &&& other == (match old(self)@.read_without_data(id) {
                            Ok(()) => Ok::<Option<ReadResult>, ReadError>(None),
                            Err(e) => Err(e),
                        })
                        &&& final(self)@ == (if old(self)@.recv.contains_key(id.0) {
                            old(self)@.after_read_without_data(id, old(self)@.recv[id.0])
                        } else {
                            old(self)@
                        })
                    }
                },
            },
    {
        let mut rs = match self.take_recv(id) {
            Some(s) => s,
            None => {
                return Err(ReadError::UnknownStream);
            },
        };
        let ghost pre = old(self)@;
        let ghost before = rs@;
        proof {
            lemma_reinsert(pre.recv, id.0, before);
            assert(pre.recv[id.0].wf());
        }
        let window = self.stream_receive_window;
        match rs.read(buf) {
            Ok(Some(len)) => {
                proof {
                    lemma_reinsert(pre.recv, id.0, rs@);
                    pre.lemma_recv_replaced(id.0, rs@);
                    assert(before.assembler.buffered.contains_key(
                        before.assembler.bytes_read as int,
                    ));
                }
                let (_, transmit_max_stream_data) = rs.max_stream_data(window);
                self.put_recv(id, rs);
                let transmit_max_data = self.add_read_credits(len as u64);
                Ok(
                    Some(
                        ReadResult {
                            len,
                            max_stream_data: transmit_max_stream_data,
                            max_data: transmit_max_data,
                        },
                    ),
                )
            },
            Ok(None) => {
                proof {
                    pre.lemma_recv_removed(id.0);
                }
                Ok(None)
            },
            Err(ReadError::Reset(code)) => {
                proof {
                    pre.lemma_recv_removed(id.0);
                }
                Err(ReadError::Reset(code))
            },
            Err(e) => {
                proof {
                    lemma_reinsert(pre.recv, id.0, rs@);
                    pre.lemma_recv_replaced(id.0, rs@);
                }
                self.put_recv(id, rs);
                Err(e)
            },
        }
    }

    /// Reads out of order from stream `id`. Gives one buffered fragment
    /// with its offset and the frames that this calls for; or nothing at
    /// the end of the stream, which is then forgotten. Ordered reads on the
    /// stream fail from now on.
    pub fn read_unordered(&mut self, id: StreamId) -> (r: Result<Option<ReadUnorderedResult>, ReadError>)
        requires
            old(self).wf(),
        ensures
            final(self).wf(),
            match r {
                Ok(Some(res)) => {
                    &&& old(self)@.can_stop(id)
                    &&& bytes_contents(res.buf).len() > 0
                    &&& forall|x: int|
                        res.offset <= x < res.offset + bytes_contents(res.buf).len()
                            ==> #[trigger] old(self)@.recv[id.0].assembler.buffered.contains_key(x)
                            && old(self)@.recv[id.0].assembler.buffered[x] == bytes_contents(
                            res.buf,
                        )[x - res.offset]
                    &&& final(self)@ == old(self)@.after_read_unordered(
                        id,
                        res.offset,
                        bytes_contents(res.buf).len() as usize,
                    )
                    &&& res.max_stream_data.0 == final(self)@.recv[id.0].should_send_max_stream_data(
                        old(self)@.stream_receive_window,
                    )
                    &&& res.max_data.0 == final(self)@.should_send_max_data()
                },
                Ok(None) => {
                    &&& old(self)@.read_without_data(id).is_ok()
                    &&& old(self)@.recv[id.0].assembler.buffered == Map::<int, u8>::empty()
                    &&& final(self)@ == (StreamsView {
                        recv: old(self)@.recv.remove(id.0),
                        ..old(self)@
                    })
                },
                Err(e) => {
                    &&& old(self)@.read_without_data(id) == Err::<(), ReadError>(e)
                    &&& old(self)@.can_stop(id) ==> old(self)@.recv[id.0].assembler.buffered
                        == Map::<int, u8>::empty()
                    &&& final(self)@ == (if old(self)@.can_stop(id) {
                        old(self)@.after_read_without_data(
                            id,
                            RecvView {
                                assembler: AssemblerView {
                                    unordered: true,
                                    ..old(self)@.recv[id.0].assembler
                                },
                                ..old(self)@.recv[id.0]
                            },
                        )
                    } else {
                        old(self)@
                    })
                },
            },
    {
        let mut rs = match self.take_recv(id) {
            Some(s) => s,
            None => {
                return Err(ReadError::UnknownStream);
            },
        };
        let ghost pre = old(self)@;
        let ghost before = rs@;
        proof {
            lemma_reinsert(pre.recv, id.0, before);
            assert(pre.recv[id.0].wf());
        }
        let window = self.stream_receive_window;
        match rs.read_unordered() {
            Ok(Some((buf, offset))) => {
                proof {
                    lemma_reinsert(pre.recv, id.0, rs@);
                    pre.lemma_recv_replaced(id.0, rs@);
                }
                let (_, transmit_max_stream_data) = rs.max_stream_data(window);
                self.put_recv(id, rs);
                let len = crate::wire::bytes_len(&buf);
                let transmit_max_data = self.add_read_credits(len as u64);
                Ok(
                    Some(
                        ReadUnorderedResult {
                            buf,
                            offset,
                            max_stream_data: transmit_max_stream_data,
                            max_data: transmit_max_data,
                        },
                    ),
                )
            },
            Ok(None) => {
                proof {
                    pre.lemma_recv_removed(id.0);
                }
                Ok(None)
            },
            Err(ReadError::Reset(code)) => {
                proof {
                    pre.lemma_recv_removed(id.0);
                }
                Err(ReadError::Reset(code))
            },
            Err(e) => {
                proof {
                    lemma_reinsert(pre.recv, id.0, rs@);
                    pre.lemma_recv_replaced(id.0, rs@);
                }
                self.put_recv(id, rs);
                Err(e)
            },
        }
    }

    /// Gives up reading on stream `id`. Says which frames this calls for:
    /// one that asks the peer to stop, unless it sends nothing more anyway,
    /// and one that announces the connection's limit, where that is worth
    /// it.
    pub fn stop(&mut self, id: StreamId) -> (r: Result<StopResult, UnknownStream>)
        requires
            old(self).wf(),
        ensures
            final(self).wf(),
            r.is_ok() == old(self)@.can_stop(id),
            final(self)@ == old(self)@.after_stop(id),
            r.is_ok() ==> r.unwrap().stop_sending.0 == !old(self)@.recv[id.0].is_finished()
                && r.unwrap().max_data.0 == final(self)@.should_send_max_data(),
    {
        let mut rs = match self.take_recv(id) {
            Some(s) => s,
            None => {
                return Err(UnknownStream::new());
            },
        };
        let ghost pre = old(self)@;
        proof {
            lemma_reinsert(pre.recv, id.0, rs@);
            assert(pre.recv[id.0].wf());
        }
        if rs.assembler.is_stopped() {
            self.put_recv(id, rs);
            return Err(UnknownStream::new());
        }
        rs.stop();
        let stop_sending = ShouldTransmit::new(!rs.is_finished());
        let read_credits = rs.assembler.end() - rs.assembler.bytes_read();
        proof {
            lemma_reinsert(pre.recv, id.0, rs@);
            pre.lemma_recv_replaced(id.0, rs@);
        }
        self.put_recv(id, rs);
        let max_data = self.add_read_credits(read_credits);
        Ok(StopResult { stop_sending, max_data })
    }

    /// Takes in a STREAM frame of the peer. Returns whether announcing the
    /// connection's limit is worth a frame.
    pub fn received(&mut self, frame: Stream) -> (r: Result<ShouldTransmit, TransportError>)
        requires
            old(self).wf(),
        ensures
            final(self).wf(),
            match old(self)@.received_error(
                frame.id,
                frame.offset,
                bytes_contents(frame.data).len() as int,
                frame.fin,
            ) {
                Some((code, reason)) => {
                    &&& r.is_err()
                    &&& r.unwrap_err().code == code
                    &&& r.unwrap_err().reason@ == reason
                    &&& final(self)@ == old(self)@
                },
                None => r.is_ok() && old(self)@.received(
                    final(self)@,
                    frame.id,
                    frame.offset,
                    bytes_contents(frame.data),
                    frame.fin,
                    r.unwrap().0,
                ),
            },
    {
        let id = frame.id;
        match self.validate_receive_id(id) {
            Err(e) => {
                return Err(e);
            },
            Ok(()) => {},
        }
        let mut rs = match self.take_recv(id) {
            Some(s) => s,
            None => {
                return Ok(ShouldTransmit::new(false));
            },
        };
        let ghost pre = old(self)@;
        let ghost before = rs@;
        proof {
            lemma_reinsert(pre.recv, id.0, before);
            assert(pre.recv[id.0].wf());
        }
        if rs.is_finished() {
            self.put_recv(id, rs);
            return Ok(ShouldTransmit::new(false));
        }
        let ghost offset = frame.offset;
        let ghost data = bytes_contents(frame.data);
        let ghost fin = frame.fin;
        let new_bytes = match rs.ingest(
            frame,
            self.data_recvd,
            self.local_max_data,
            self.stream_receive_window,
        ) {
            Ok(n) => n,
            Err(e) => {
                self.put_recv(id, rs);
                return Err(e);
            },
        };
        let closed = rs.is_closed();
        proof {
            assert(before.assembler.insert_result(rs@.assembler, offset, data));
            if closed {
                pre.lemma_recv_removed(id.0);
            } else {
                lemma_reinsert(pre.recv, id.0, rs@);
                pre.lemma_recv_replaced(id.0, rs@);
            }
        }
        self.data_recvd = self.data_recvd + new_bytes;
        if !rs.assembler.is_stopped() {
            self.put_recv(id, rs);
            self.on_stream_frame(true, id);
            return Ok(ShouldTransmit::new(false));
        }
        if !closed {
            self.put_recv(id, rs);
        }
        Ok(self.add_read_credits(new_bytes))
    }

    /// Takes in a RESET_STREAM frame of the peer. Returns whether
    /// announcing the connection's limit is worth a frame.
    pub fn received_reset(&mut self, frame: ResetStream) -> (r: Result<ShouldTransmit, TransportError>)
        requires
            old(self).wf(),
            old(self)@.recv.contains_key(frame.id.0) && old(
                self)@.recv[frame.id.0].assembler.end <= frame.final_offset ==> old(
                self)@.data_recvd + frame.final_offset - old(
                self)@.recv[frame.id.0].assembler.end <= u64::MAX,
        ensures
            final(self).wf(),
            match old(self)@.reset_error(frame.id, frame.final_offset) {
                Some((code, reason)) => {
                    &&& r.is_err()
                    &&& r.unwrap_err().code == code
                    &&& r.unwrap_err().reason@ == reason
                    &&& final(self)@ == old(self)@
                },
                None => {
                    &&& r.is_ok()
                    &&& r.unwrap().0 == (old(self)@.reset_credits(frame.id, frame.final_offset)
                        && final(self)@.should_send_max_data())
                    &&& final(self)@ == old(self)@.after_received_reset(
                        frame.id,
                        frame.error_code,
                        frame.final_offset,
                    )
                },
            },
    {
        let id = frame.id;
        let error_code = frame.error_code;
        let final_offset = frame.final_offset;
        match self.validate_receive_id(id) {
            Err(e) => {
                return Err(e);
            },
            Ok(()) => {},
        }
        let mut rs = match self.take_recv(id) {
            Some(s) => s,
            None => {
                return Ok(ShouldTransmit::new(false));
            },
        };
        let ghost pre = old(self)@;
        let ghost before = rs@;
        proof {
            lemma_reinsert(pre.recv, id.0, before);
            assert(pre.recv[id.0].wf());
        }
        let end = rs.assembler.end();
        match rs.final_offset() {
            Some(offset) => {
                if offset != final_offset {
                    self.put_recv(id, rs);
                    return Err(TransportError::final_size_error("inconsistent value"));
                }
            },
            None => {
                if end > final_offset {
                    self.put_recv(id, rs);
                    return Err(TransportError::final_size_error("lower than high water mark"));
                }
            },
        }
        if !rs.reset(error_code, final_offset) {
            self.put_recv(id, rs);
            return Ok(ShouldTransmit::new(false));
        }
        let bytes_read = rs.assembler.bytes_read();
        let stopped = rs.assembler.is_stopped();
        proof {
            lemma_reinsert(pre.recv, id.0, rs@);
            pre.lemma_recv_replaced(id.0, rs@);
        }
        if bytes_read != final_offset {
            self.data_recvd = self.data_recvd + (final_offset - end);
        }
        if stopped {
            proof {
                let mid = StreamsView {
                    recv: pre.recv.insert(id.0, rs@),
                    data_recvd: self.data_recvd,
                    ..pre
                };
                assert(mid.wf());
                assert(mid.recv.remove(id.0) =~= pre.recv.remove(id.0));
                mid.lemma_recv_removed(id.0);
            }
        } else {
            self.put_recv(id, rs);
        }
        self.on_stream_frame(!stopped, id);
        if bytes_read != final_offset {
            Ok(self.add_read_credits(final_offset - bytes_read))
        } else {
            Ok(ShouldTransmit::new(false))
        }
    }
}

impl Streams {
    /// Finds a stream on which a write failed for want of room on the
    /// connection and which can be written to again.
    pub fn poll_unblocked(&mut self) -> (r: Option<StreamId>)
        requires
            old(self).wf(),
        ensures
            final(self).wf(),
            (final(self)@, r) == old(self)@.unblocked(),
    {
        if self.flow_blocked() {
            return None;
        }
        loop
            invariant
                self.wf(),
                !old(self)@.flow_blocked(),
                self@.unblock_scan() == old(self)@.unblock_scan(),
            ensures
                self.wf(),
                !old(self)@.flow_blocked(),
                self@.connection_blocked.len() == 0,
                self@.unblock_scan() == old(self)@.unblock_scan(),
            decreases self.connection_blocked.len(),
        {
            let ghost top = self@;
            let id = match self.connection_blocked.pop() {
                Some(id) => id,
                None => {
                    break ;
                },
            };
            let ghost rest = self@;
            proof {
                assert(top.connection_blocked.drop_last() =~= rest.connection_blocked);
                assert(top.connection_blocked.last() == id);
                assert(top.connection_blocked[top.connection_blocked.len() - 1] == id);
                // Every other stream of the list is still in it.
                assert forall|x: StreamId|
                    top.connection_blocked.contains(x) && x
                        != id implies #[trigger] rest.connection_blocked.contains(x) by {
                    let i = choose|i: int|
                        0 <= i < top.connection_blocked.len() && top.connection_blocked[i] == x;
                    assert(rest.connection_blocked[i] == x);
                }
                assert forall|i: int| 0 <= i < rest.connection_blocked.len() implies {
                    &&& rest.send_allocated((#[trigger] rest.connection_blocked[i]).0)
                    &&& rest.connection_blocked[i] != id
                } by {
                    assert(top.connection_blocked[i] == rest.connection_blocked[i]);
                    assert(top.send_allocated(top.connection_blocked[i].0));
                }
                if !top.send.contains_key(id.0) {
                    assert forall|k: u64| #[trigger]
                        rest.send.contains_key(k) && rest.send[k].connection_blocked implies rest.connection_blocked.contains(
                        StreamId(k),
                    ) by {
                        assert(top.connection_blocked.contains(StreamId(k)));
                    }
                    assert forall|i: int|
                        0 <= i < rest.connection_blocked.len() && rest.send.contains_key(
                            (#[trigger] rest.connection_blocked[i]).0,
                        ) implies rest.send[rest.connection_blocked[i].0].connection_blocked by {
                        assert(top.connection_blocked[i] == rest.connection_blocked[i]);
                    }
                }
            }
            let mut stream = match self.take_send(id) {
                Some(s) => s,
                None => {
                    continue ;
                },
            };
            stream.connection_blocked = false;
            let writable = stream.is_writable();
            proof {
                lemma_reinsert(top.send, id.0, stream@);
                lemma_unacked_update(top.send, id.0, stream@);
                assert(top.send[id.0].wf());
                let post = StreamsView { send: top.send.insert(id.0, stream@), ..rest };
                assert forall|j: u64| #[trigger] post.send.contains_key(j) implies post.send_allocated(
                    j,
                ) && post.send[j].wf() && !post.send[j].is_terminal() by {
                    assert(top.send.contains_key(j));
                }
                assert forall|i: int| 0 <= i < post.connection_blocked.len() implies {
                    &&& post.send_allocated((#[trigger] post.connection_blocked[i]).0)
                    &&& post.send.contains_key(post.connection_blocked[i].0)
                        ==> post.send[post.connection_blocked[i].0].connection_blocked
                } by {
                    assert(top.connection_blocked[i] == post.connection_blocked[i]);
                    assert(top.send_allocated(top.connection_blocked[i].0));
                    assert(top.connection_blocked[i] != top.connection_blocked[top.connection_blocked.len()
                        - 1]);
                }
                assert forall|k: u64| #[trigger]
                    post.send.contains_key(k) && post.send[k].connection_blocked implies post.connection_blocked.contains(
                    StreamId(k),
                ) by {
                    assert(k != id.0);
                    assert(top.send.contains_key(k) && top.send[k].connection_blocked);
                    assert(top.connection_blocked.contains(StreamId(k)));
                    assert(StreamId(k) != id);
                }
            }
            self.put_send(id, stream);
            proof {
                assert(top.send[id.0].is_writable() == writable);
                assert(self@ == (StreamsView {
                    send: top.send.insert(
                        id.0,
                        SendView { connection_blocked: false, ..top.send[id.0] },
                    ),
                    connection_blocked: top.connection_blocked.drop_last(),
                    ..top
                }));
            }
            if writable {
                return Some(id);
            }
        }
        None
    }

    /// Hands the next event to the application.
    pub fn poll(&mut self) -> (r: Option<StreamEvent>)
        requires
            old(self).wf(),
        ensures
            final(self).wf(),
            (final(self)@, r) == old(self)@.polled(),
    {
        if self.opened[0] {
            self.opened[0] = false;
            proof {
                assert(self.opened@ =~= old(self).opened@.update(0, false));
                assert(old(self)@.counts_ok(0) && old(self)@.counts_ok(1));
            }
            return Some(StreamEvent::Opened { dir: Dir::Bi });
        }
        if self.opened[1] {
            self.opened[1] = false;
            proof {
                assert(self.opened@ =~= old(self).opened@.update(1, false));
                assert(old(self)@.counts_ok(0) && old(self)@.counts_ok(1));
            }
            return Some(StreamEvent::Opened { dir: Dir::Uni });
        }
        if let Some(id) = self.poll_unblocked() {
            return Some(StreamEvent::Writable { id });
        }
        let r = self.events.pop_front();
        proof {
            if r.is_some() {
                assert(self.events@ =~= old(self)@.unblocked().0.events.skip(1));
            }
        }
        r
    }

    /// Whether the limits `params` can be put in force.
    pub fn accepts_params(&self, params: &TransportParameters) -> (r: bool)
        requires
            self.wf(),
        ensures
            r == self@.accepts_params(params),
    {
        broadcast use vstd::std_specs::hash::group_hash_axioms;

        if params.initial_max_streams_bidi.into_inner() > MAX_STREAM_COUNT
            || params.initial_max_streams_uni.into_inner() > MAX_STREAM_COUNT {
            return false;
        }
        let limit = params.initial_max_stream_data_bidi_local.into_inner();
        let count = self.max_remote[0];
        proof {
            assert(self@.counts_ok(0));
        }
        let mut i: u64 = 0;
        while i < count
            invariant
                i <= count,
                count == self@.max_remote[0],
                count <= MAX_STREAM_COUNT,
                self.wf(),
                limit == params.initial_max_stream_data_bidi_local.value(),
                forall|j: u64|
                    j < i ==> {
                        let k = #[trigger] StreamId::compose(
                            self@.side.spec_opposite(),
                            Dir::Bi,
                            j,
                        ) as u64;
                        self@.send.contains_key(k) && self@.send[k].pending.offset() <= limit
                    },
            decreases count - i,
        {
            let id = StreamId::new(self.side.opposite(), Dir::Bi, i);
            proof {
                assert(id.0 == StreamId::compose(self@.side.spec_opposite(), Dir::Bi, i) as u64);
            }
            let within = match self.send.get(&id.0) {
                Some(s) => {
                    proof {
                        assert(self@.send[id.0].wf());
                    }
                    s.offset() <= limit
                },
                None => false,
            };
            if !within {
                return false;
            }
            i += 1;
        }
        true
    }

    /// Puts in force the limits that the peer announced in the handshake.
    pub fn set_params(&mut self, params: &TransportParameters)
        requires
            old(self).wf(),
            old(self)@.accepts_params(params),
        ensures
            final(self).wf(),
            final(self)@ == old(self)@.after_set_params(params),
    {
        let ghost pre = old(self)@;
        proof {
            assert(pre.counts_ok(0) && pre.counts_ok(1));
        }
        self.max[0] = params.initial_max_streams_bidi.into_inner();
        self.max[1] = params.initial_max_streams_uni.into_inner();
        self.received_max_data(params.initial_max_data);
        let limit = params.initial_max_stream_data_bidi_local.into_inner();
        let count = self.max_remote[0];
        let ghost base = self@;
        proof {
            assert(self.max@ =~= seq![
                params.initial_max_streams_bidi.value(),
                params.initial_max_streams_uni.value(),
            ]);
            assert(pre.with_remote_bidi_limit(0, limit) =~= pre.send);
        }
        let mut i: u64 = 0;
        while i < count
            invariant
                i <= count,
                count == pre.max_remote[0],
                count <= MAX_STREAM_COUNT,
                limit == params.initial_max_stream_data_bidi_local.value(),
                limit <= VARINT_MAX,
                pre.wf(),
                pre.accepts_params(params),
                self.wf(),
                base.side == pre.side,
                self@ == (StreamsView { send: pre.with_remote_bidi_limit(i, limit), ..base }),
            decreases count - i,
        {
            let id = StreamId::new(self.side.opposite(), Dir::Bi, i);
            let ghost now = self@;
            proof {
                assert(id.0 == StreamId::compose(pre.side.spec_opposite(), Dir::Bi, i) as u64);
                assert(pre.send.contains_key(id.0));
            }
            if let Some(mut stream) = self.take_send(id) {
                stream.max_data = limit;
                proof {
                    lemma_reinsert(now.send, id.0, stream@);
                    now.lemma_send_replaced(id.0, stream@);
                    assert(now.send.insert(id.0, stream@) =~= pre.with_remote_bidi_limit(
                        (i + 1) as u64,
                        limit,
                    )) by {
                        assert forall|k: u64| #[trigger] pre.send.contains_key(k) implies now.send.insert(
                            id.0,
                            stream@,
                        )[k] == pre.with_remote_bidi_limit((i + 1) as u64, limit)[k] by {
                            StreamId(k).lemma_decompose();
                            id.lemma_decompose();
                        }
                    }
                    assert(unacked_weights(now.send.insert(id.0, stream@)) =~= unacked_weights(
                        now.send,
                    ));
                }
                self.put_send(id, stream);
            }
            i += 1;
        }
    }

    /// Early data was rejected: forgets the streams that this endpoint has
    /// opened.
    pub fn zero_rtt_rejected(&mut self)
        requires
            old(self).wf(),
        ensures
            final(self).wf(),
            final(self)@ == old(self)@.after_zero_rtt_rejected(),
    {
        let ghost pre = old(self)@;
        proof {
            assert(pre.counts_ok(0) && pre.counts_ok(1));
            assert(pre.without_local(0, 0).send =~= pre.send);
            assert(pre.without_local(0, 0).recv =~= pre.recv);
        }
        let bi = self.next[0];
        let uni = self.next[1];
        let mut i: u64 = 0;
        while i < bi
            invariant
                i <= bi <= MAX_STREAM_COUNT,
                bi == pre.next[0],
                pre.wf(),
                self.wf(),
                self@ == pre.without_local(i, 0),
            decreases bi - i,
        {
            let id = StreamId::new(self.side, Dir::Bi, i);
            let ghost now = self@;
            proof {
                if now.send.contains_key(id.0) {
                    now.lemma_send_removed(id.0);
                }
            }
            let _ = self.take_send(id);
            let ghost mid = self@;
            proof {
                if mid.recv.contains_key(id.0) {
                    mid.lemma_recv_removed(id.0);
                }
            }
            let _ = self.take_recv(id);
            proof {
                lemma_reinsert(now.send, id.0, SendView::fresh(0));
                lemma_reinsert(now.recv, id.0, RecvView::fresh());
                Self::lemma_without_local_step(pre, now, self@, id, i, 0);
            }
            i += 1;
        }
        let mut j: u64 = 0;
        while j < uni
            invariant
                j <= uni <= MAX_STREAM_COUNT,
                bi == pre.next[0],
                uni == pre.next[1],
                pre.wf(),
                self.wf(),
                self@ == pre.without_local(bi, j),
            decreases uni - j,
        {
            let id = StreamId::new(self.side, Dir::Uni, j);
            let ghost now = self@;
            proof {
                if now.send.contains_key(id.0) {
                    now.lemma_send_removed(id.0);
                }
                if now.recv.contains_key(id.0) {
                    assert(now.recv_allocated(id.0));
                }
            }
            let _ = self.take_send(id);
            proof {
                lemma_reinsert(now.send, id.0, SendView::fresh(0));
                Self::lemma_without_local_step(pre, now, self@, id, bi, j);
            }
            j += 1;
        }
        let ghost swept = self@;
        self.next[0] = 0;
        self.next[1] = 0;
        self.pending.clear();
        self.data_sent = 0;
        self.connection_blocked.clear();
        let ghost cleared = self@;
        let count = self.max_remote[0];
        proof {
            assert(self.next@ =~= seq![0u64, 0u64]);
            assert(cleared.without_flags(0) =~= cleared.send);
        }
        let mut i: u64 = 0;
        while i < count
            invariant
                i <= count,
                count == cleared.max_remote[0],
                count <= MAX_STREAM_COUNT,
                self.consistent(),
                self.side == cleared.side,
                self@ == (StreamsView { send: cleared.without_flags(i), ..cleared }),
            decreases count - i,
        {
            let id = StreamId::new(self.side.opposite(), Dir::Bi, i);
            let ghost now = self@;
            if let Some(mut stream) = self.take_send(id) {
                stream.connection_blocked = false;
                proof {
                    lemma_reinsert(now.send, id.0, stream@);
                }
                self.put_send(id, stream);
            }
            proof {
                lemma_reinsert(now.send, id.0, SendView::fresh(0));
                assert(self@.send =~= cleared.without_flags((i + 1) as u64)) by {
                    assert forall|k: u64| #[trigger] cleared.send.contains_key(k) implies self@.send[k]
                        == cleared.without_flags((i + 1) as u64)[k] by {
                        StreamId(k).lemma_decompose();
                        id.lemma_decompose();
                    }
                }
            }
            i += 1;
        }
        proof {
            let post = self@;
            // What is left are streams of the peer, so every flag is cleared.
            assert(post.send =~= unflagged(cleared.send)) by {
                assert forall|k: u64| #[trigger] cleared.send.contains_key(k) implies cleared.is_remote_bidi(
                    k,
                    count,
                ) by {
                    assert(pre.send.contains_key(k));
                    assert(pre.send_allocated(k));
                    if StreamId(k).spec_initiator() == pre.side {
                        assert(pre.is_local(k, pre.next[0], pre.next[1]));
                    }
                }
            }
            assert(unacked_weights(post.send) =~= unacked_weights(swept.send));
            assert forall|k: u64| #[trigger] post.send.contains_key(k) implies post.send_allocated(
                k,
            ) && post.send[k].wf() && !post.send[k].is_terminal() by {
                assert(swept.send.contains_key(k));
                assert(pre.send.contains_key(k));
                assert(pre.send_allocated(k));
            }
            assert forall|k: u64| #[trigger] post.recv.contains_key(k) implies post.recv_allocated(
                k,
            ) && post.recv[k].wf() && !post.recv[k].is_closed() && post.recv[k].window_ok(
                post.stream_receive_window,
            ) by {
                assert(pre.recv.contains_key(k));
                assert(pre.recv_allocated(k));
            }
        }
    }

    /// Taking the halves of one more stream of this endpoint away.
    proof fn lemma_without_local_step(
        pre: StreamsView,
        now: StreamsView,
        post: StreamsView,
        id: StreamId,
        bi: u64,
        uni: u64,
    )
        requires
            pre.wf(),
            now == pre.without_local(bi, uni),
            id.0 <= VARINT_MAX,
            id.spec_initiator() == pre.side,
            id.spec_index() == (if id.spec_dir() == Dir::Bi {
                bi
            } else {
                uni
            }),
            bi < u64::MAX,
            uni < u64::MAX,
            post == (StreamsView {
                send: now.send.remove(id.0),
                recv: if id.spec_dir() == Dir::Bi {
                    now.recv.remove(id.0)
                } else {
                    now.recv
                },
                ..now
            }),
            id.spec_dir() == Dir::Uni ==> !now.recv.contains_key(id.0),
        ensures
            post == pre.without_local(
                if id.spec_dir() == Dir::Bi {
                    (bi + 1) as u64
                } else {
                    bi
                },
                if id.spec_dir() == Dir::Bi {
                    uni
                } else {
                    (uni + 1) as u64
                },
            ),
    {
        let bi2 = if id.spec_dir() == Dir::Bi {
            (bi + 1) as u64
        } else {
            bi
        };
        let uni2 = if id.spec_dir() == Dir::Bi {
            uni
        } else {
            (uni + 1) as u64
        };
        let want = pre.without_local(bi2, uni2);
        assert forall|k: u64| pre.is_local(k, bi2, uni2) <==> (pre.is_local(k, bi, uni) || k
            == id.0) by {
            StreamId(k).lemma_decompose();
            id.lemma_decompose();
        }
        assert(post.send =~= want.send);
        assert(post.recv =~= want.recv);
    }

    /// Early data was accepted: queues everything that was sent on the
    /// streams that this endpoint has opened to be sent again.
    pub fn retransmit_all_for_0rtt(&mut self)
        requires
            old(self).wf(),
        ensures
            final(self).wf(),
            final(self)@ == old(self)@.after_retransmit_all_upto(
                Dir::Bi,
                old(self)@.next[0],
            ).after_retransmit_all_upto(Dir::Uni, old(self)@.next[1]),
    {
        let ghost pre = old(self)@;
        proof {
            assert(pre.counts_ok(0) && pre.counts_ok(1));
        }
        let bi = self.next[0];
        let uni = self.next[1];
        let mut i: u64 = 0;
        while i < bi
            invariant
                i <= bi <= MAX_STREAM_COUNT,
                self.wf(),
                self.side == pre.side,
                self@ == pre.after_retransmit_all_upto(Dir::Bi, i),
            decreases bi - i,
        {
            let id = StreamId::new(self.side, Dir::Bi, i);
            self.retransmit_all_for(id);
            i += 1;
        }
        let ghost mid = self@;
        let mut j: u64 = 0;
        while j < uni
            invariant
                j <= uni <= MAX_STREAM_COUNT,
                self.wf(),
                self.side == mid.side,
                self@ == mid.after_retransmit_all_upto(Dir::Uni, j),
            decreases uni - j,
        {
            let id = StreamId::new(self.side, Dir::Uni, j);
            self.retransmit_all_for(id);
            j += 1;
        }
    }

    /// Queues everything that was sent on stream `id` to be sent again.
    fn retransmit_all_for(&mut self, id: StreamId)
        requires
            old(self).wf(),
        ensures
            final(self).wf(),
            final(self)@ == old(self)@.after_retransmit_all_for(id),
    {
        let mut stream = match self.take_send(id) {
            Some(s) => s,
            None => {
                return ;
            },
        };
        let ghost pre = old(self)@;
        proof {
            lemma_reinsert(pre.send, id.0, stream@);
            assert(pre.send[id.0].wf());
        }
        if stream.pending.is_fully_acked() && !stream.fin_pending {
            self.put_send(id, stream);
            return ;
        }
        stream.pending.retransmit_all_for_0rtt();
        proof {
            lemma_reinsert(pre.send, id.0, stream@);
            pre.lemma_send_replaced(id.0, stream@);
            lemma_enqueued(pre.pending, id);
        }
        self.put_send(id, stream);
        self.schedule(id);
    }
}

} // verus!
