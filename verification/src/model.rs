//! The state of the streams of one connection and what each operation
//! does to it.
use crate::assembler::AssemblerView;
use crate::map_sum::lemma_sum_insert;
use crate::map_sum::lemma_sum_remove;
use crate::map_sum::map_sum;
use crate::range_set::lemma_total_push;
use crate::recv::Recv;
use crate::recv::RecvView;
use crate::recv::new_bytes;
use crate::send::Send;
use crate::send::SendState;
use crate::send::SendView;
use crate::stream_id::Dir;
use crate::stream_id::MAX_STREAM_COUNT;
use crate::stream_id::Side;
use crate::stream_id::StreamId;
use crate::transport::TransportErrorCode;
use crate::transport::TransportParameters;
use crate::types::FinishError;
use crate::types::ReadError;
use crate::types::StreamEvent;
use crate::types::UnknownStream;
use crate::types::WriteError;
use crate::varint::VARINT_MAX;
use crate::varint::VarInt;
use vstd::prelude::*;

verus! {

/// The states of the sending halves.
pub open spec fn send_views(m: Map<u64, Send>) -> Map<u64, SendView> {
    Map::new(|k: u64| m.contains_key(k), |k: u64| m[k]@)
}

/// The states of the receiving halves.
pub open spec fn recv_views(m: Map<u64, Recv>) -> Map<u64, RecvView> {
    Map::new(|k: u64| m.contains_key(k), |k: u64| m[k]@)
}

/// For each send stream, the number of its bytes that are written and not
/// acknowledged.
pub open spec fn unacked_weights(m: Map<u64, SendView>) -> Map<u64, nat> {
    Map::new(|k: u64| m.contains_key(k), |k: u64| m[k].pending.unacked() as nat)
}

/// For each receive stream, what it counts towards the data received.
pub open spec fn counted_weights(m: Map<u64, RecvView>) -> Map<u64, nat> {
    Map::new(|k: u64| m.contains_key(k), |k: u64| m[k].counted() as nat)
}

/// How the sum over the send streams changes with one stream.
pub proof fn lemma_unacked_update(m: Map<u64, SendView>, k: u64, s: SendView)
    requires
        m.dom().finite(),
    ensures
        map_sum(unacked_weights(m.insert(k, s))) == (s.pending.unacked() as nat) + map_sum(
            unacked_weights(m.remove(k)),
        ),
        m.contains_key(k) ==> map_sum(unacked_weights(m)) == (m[k].pending.unacked() as nat)
            + map_sum(unacked_weights(m.remove(k))),
        !m.contains_key(k) ==> m.remove(k) == m,
{
    let w = unacked_weights(m);
    assert(w.dom() =~= m.dom());
    assert(unacked_weights(m.insert(k, s)) =~= w.insert(k, s.pending.unacked() as nat));
    assert(unacked_weights(m.remove(k)) =~= w.remove(k));
    lemma_sum_insert(w, k, s.pending.unacked() as nat);
    if m.contains_key(k) {
        lemma_sum_remove(w, k);
    } else {
        assert(m.remove(k) =~= m);
    }
}

/// How the sum over the receive streams changes with one stream.
pub proof fn lemma_counted_update(m: Map<u64, RecvView>, k: u64, r: RecvView)
    requires
        m.dom().finite(),
    ensures
        map_sum(counted_weights(m.insert(k, r))) == (r.counted() as nat) + map_sum(
            counted_weights(m.remove(k)),
        ),
        m.contains_key(k) ==> map_sum(counted_weights(m)) == (m[k].counted() as nat) + map_sum(
            counted_weights(m.remove(k)),
        ),
        !m.contains_key(k) ==> m.remove(k) == m,
{
    let w = counted_weights(m);
    assert(w.dom() =~= m.dom());
    assert(counted_weights(m.insert(k, r)) =~= w.insert(k, r.counted() as nat));
    assert(counted_weights(m.remove(k)) =~= w.remove(k));
    lemma_sum_insert(w, k, r.counted() as nat);
    if m.contains_key(k) {
        lemma_sum_remove(w, k);
    } else {
        assert(m.remove(k) =~= m);
    }
}

/// The queue without the stream `id`.
pub open spec fn without_stream(q: Seq<StreamId>, id: StreamId) -> Seq<StreamId>
    decreases q.len(),
{
    if q.len() == 0 {
        q
    } else if q.last() == id {
        without_stream(q.drop_last(), id)
    } else {
        without_stream(q.drop_last(), id).push(q.last())
    }
}

/// Taking a stream out of the queue leaves the others in it, each as often
/// as before.
pub proof fn lemma_without_stream(q: Seq<StreamId>, id: StreamId)
    ensures
        forall|x: StreamId| #[trigger]
            without_stream(q, id).contains(x) <==> q.contains(x) && x != id,
        q.no_duplicates() ==> without_stream(q, id).no_duplicates(),
    decreases q.len(),
{
    let r = without_stream(q, id);
    if q.len() > 0 {
        let p = q.drop_last();
        let rp = without_stream(p, id);
        lemma_without_stream(p, id);
        assert forall|x: StreamId| #[trigger] r.contains(x) <==> q.contains(x) && x != id by {
            if r.contains(x) {
                let i = choose|i: int| 0 <= i < r.len() && r[i] == x;
                if q.last() != id && i == r.len() - 1 {
                    assert(q[q.len() - 1] == x);
                } else {
                    assert(rp[i] == x);
                    assert(rp.contains(x));
                    let j = choose|j: int| 0 <= j < p.len() && p[j] == x;
                    assert(q[j] == x);
                }
            }
            if q.contains(x) && x != id {
                let j = choose|j: int| 0 <= j < q.len() && q[j] == x;
                if j == q.len() - 1 {
                    assert(r[r.len() - 1] == x);
                } else {
                    assert(p[j] == x);
                    assert(rp.contains(x));
                    let i = choose|i: int| 0 <= i < rp.len() && rp[i] == x;
                    assert(r[i] == x);
                }
            }
        }
        if q.no_duplicates() {
            assert(p.no_duplicates()) by {
                assert forall|i: int, j: int| 0 <= i < p.len() && 0 <= j < p.len() && i
                    != j implies p[i] != p[j] by {
                    assert(q[i] != q[j]);
                }
            }
            if q.last() != id {
                assert forall|i: int, j: int| 0 <= i < r.len() && 0 <= j < r.len() && i
                    != j implies r[i] != r[j] by {
                    if i == r.len() - 1 || j == r.len() - 1 {
                        let o = if i == r.len() - 1 {
                            j
                        } else {
                            i
                        };
                        assert(rp[o] == r[o]);
                        assert(rp.contains(r[o]));
                        let m = choose|m: int| 0 <= m < p.len() && p[m] == r[o];
                        assert(q[m] != q[q.len() - 1]);
                    } else {
                        assert(rp[i] != rp[j]);
                    }
                }
            }
        }
    }
}

/// Taking the stream at the front out of a queue without duplicates
/// leaves the others in it, and not the stream taken.
pub proof fn lemma_skip_front(q: Seq<StreamId>)
    requires
        q.len() > 0,
        q.no_duplicates(),
    ensures
        q.skip(1).no_duplicates(),
        !q.skip(1).contains(q[0]),
        forall|x: StreamId| q.contains(x) && x != q[0] ==> #[trigger] q.skip(1).contains(x),
{
    let r = q.skip(1);
    assert forall|i: int, j: int| 0 <= i < r.len() && 0 <= j < r.len() && i != j implies r[i]
        != r[j] by {
        assert(q[i + 1] != q[j + 1]);
    }
    if r.contains(q[0]) {
        let i = choose|i: int| 0 <= i < r.len() && r[i] == q[0];
        assert(q[i + 1] != q[0]);
    }
    assert forall|x: StreamId| q.contains(x) && x != q[0] implies #[trigger] r.contains(x) by {
        let j = choose|j: int| 0 <= j < q.len() && q[j] == x;
        assert(r[j - 1] == x);
    }
}

/// The queue after a stream was given a place in it: the stream joins at
/// the back unless it waits in the queue already.
pub open spec fn enqueued(q: Seq<StreamId>, id: StreamId) -> Seq<StreamId> {
    if q.contains(id) {
        q
    } else {
        q.push(id)
    }
}

/// Giving a stream a place in the queue leaves the others in it, and puts
/// no stream into it twice.
pub proof fn lemma_enqueued(q: Seq<StreamId>, id: StreamId)
    ensures
        enqueued(q, id).contains(id),
        forall|x: StreamId| q.contains(x) ==> #[trigger] enqueued(q, id).contains(x),
        q.no_duplicates() ==> enqueued(q, id).no_duplicates(),
{
    let r = enqueued(q, id);
    if !q.contains(id) {
        assert(r[r.len() - 1] == id);
        assert forall|x: StreamId| q.contains(x) implies #[trigger] r.contains(x) by {
            let j = choose|j: int| 0 <= j < q.len() && q[j] == x;
            assert(r[j] == x);
        }
        if q.no_duplicates() {
            assert forall|i: int, j: int| 0 <= i < r.len() && 0 <= j < r.len() && i
                != j implies r[i] != r[j] by {
                if i == r.len() - 1 {
                    assert(q[j] == r[j]);
                } else if j == r.len() - 1 {
                    assert(q[i] == r[i]);
                } else {
                    assert(q[i] != q[j]);
                }
            }
        }
    }
}

/// The sending halves, none of them flagged as blocked.
pub open spec fn unflagged(send: Map<u64, SendView>) -> Map<u64, SendView> {
    Map::new(
        |k: u64| send.contains_key(k),
        |k: u64| SendView { connection_blocked: false, ..send[k] },
    )
}

/// The state of the streams of a connection.
pub struct StreamsView {
    pub side: Side,
    /// The sending halves, by stream identifier.
    pub send: Map<u64, SendView>,
    /// The receiving halves, by stream identifier.
    pub recv: Map<u64, RecvView>,
    /// Per directionality: how many streams this endpoint has opened.
    pub next: Seq<u64>,
    /// Per directionality: how many streams this endpoint may open.
    pub max: Seq<u64>,
    /// Per directionality: how many streams the peer may open.
    pub max_remote: Seq<u64>,
    /// Per directionality: one more than the highest index the peer used.
    pub next_remote: Seq<u64>,
    /// Per directionality: whether the peer has opened streams that the
    /// application was not told about.
    pub opened: Seq<bool>,
    /// Per directionality: how many of the peer's streams were accepted.
    pub next_reported_remote: Seq<u64>,
    /// Number of streams that this endpoint sends on.
    pub send_streams: usize,
    /// Streams with something to send, in the order they take their turn.
    pub pending: Seq<StreamId>,
    /// Events that the application has not fetched, oldest first.
    pub events: Seq<StreamEvent>,
    /// Streams on which a write failed for want of connection-level room.
    pub connection_blocked: Seq<StreamId>,
    /// How many bytes the peer lets this endpoint send on the connection.
    pub max_data: u64,
    pub receive_window: u64,
    /// How many bytes this endpoint lets the peer send on the connection.
    pub local_max_data: u64,
    /// The highest such limit that was announced.
    pub sent_max_data: u64,
    /// Number of bytes written on all streams.
    pub data_sent: u64,
    /// Number of bytes counted as received on all streams.
    pub data_recvd: u64,
    /// Number of bytes written and not yet acknowledged.
    pub unacked_data: u64,
    /// The most that `unacked_data` may be.
    pub send_window: u64,
    pub stream_receive_window: u64,
}

impl StreamsView {
    /// Whether a stream with this identifier may have a sending half: this
    /// endpoint has opened it, or it is a bidirectional stream that the
    /// peer may open.
    pub open spec fn send_allocated(self, k: u64) -> bool {
        let id = StreamId(k);
        &&& k <= VARINT_MAX
        &&& if id.spec_initiator() == self.side {
            id.spec_index() < self.next[id.spec_dir().slot()]
        } else {
            id.spec_dir() == Dir::Bi && id.spec_index() < self.max_remote[0]
        }
    }

    /// Whether a stream with this identifier may have a receiving half: the
    /// peer may open it, or it is a bidirectional stream that this endpoint
    /// has opened.
    pub open spec fn recv_allocated(self, k: u64) -> bool {
        let id = StreamId(k);
        &&& k <= VARINT_MAX
        &&& if id.spec_initiator() == self.side {
            id.spec_dir() == Dir::Bi && id.spec_index() < self.next[0]
        } else {
            id.spec_index() < self.max_remote[id.spec_dir().slot()]
        }
    }

    /// The counts of streams of the directionality at position `d`: no more
    /// of the peer's streams were accepted than it used, it used no more
    /// than it may open, and every count fits an identifier.
    pub open spec fn counts_ok(self, d: int) -> bool {
        &&& self.next_reported_remote[d] <= self.next_remote[d]
        &&& self.next_remote[d] <= self.max_remote[d] <= MAX_STREAM_COUNT
        &&& self.next[d] <= MAX_STREAM_COUNT
        &&& self.max[d] <= MAX_STREAM_COUNT
    }

    /// The limits and counters are sound: nothing was sent beyond what the
    /// peer and the send window allow, and no limit was announced that is
    /// not in force.
    pub open spec fn wf_limits(self) -> bool {
        &&& self.data_sent <= self.max_data <= VARINT_MAX
        &&& self.unacked_data <= self.send_window
        &&& self.sent_max_data <= self.local_max_data
        &&& self.sent_max_data <= VARINT_MAX
        &&& self.receive_window <= VARINT_MAX
        &&& self.stream_receive_window <= VARINT_MAX
        &&& self.next.len() == 2
        &&& self.max.len() == 2
        &&& self.max_remote.len() == 2
        &&& self.next_remote.len() == 2
        &&& self.opened.len() == 2
        &&& self.next_reported_remote.len() == 2
        &&& self.counts_ok(0)
        &&& self.counts_ok(1)
    }

    /// Every sending half belongs to a stream that may have one, is sound
    /// and has not come to its end, and together they hold no more
    /// unacknowledged bytes than the connection counts.
    pub open spec fn wf_send(self) -> bool {
        &&& self.send.dom().finite()
        &&& forall|k: u64| #[trigger]
            self.send.contains_key(k) ==> self.send_allocated(k) && self.send[k].wf()
                && !self.send[k].is_terminal()
        &&& map_sum(unacked_weights(self.send)) <= self.unacked_data
    }

    /// Every receiving half belongs to a stream that may have one, is sound,
    /// is not closed, and has announced no limit beyond its window; together
    /// they count no more than the connection does.
    pub open spec fn wf_recv(self) -> bool {
        &&& self.recv.dom().finite()
        &&& forall|k: u64| #[trigger]
            self.recv.contains_key(k) ==> self.recv_allocated(k) && self.recv[k].wf()
                && !self.recv[k].is_closed() && self.recv[k].window_ok(
                self.stream_receive_window,
            )
        &&& map_sum(counted_weights(self.recv)) <= self.data_recvd
    }

    /// No stream waits twice in the list of blocked streams, each stream in
    /// it may have a sending half, and a sending half is flagged as blocked
    /// exactly when its stream waits in the list.
    pub open spec fn wf_blocked(self) -> bool {
        &&& self.connection_blocked.no_duplicates()
        &&& forall|i: int|
            0 <= i < self.connection_blocked.len() ==> {
                &&& self.send_allocated((#[trigger] self.connection_blocked[i]).0)
                &&& self.send.contains_key(self.connection_blocked[i].0)
                    ==> self.send[self.connection_blocked[i].0].connection_blocked
            }
        &&& forall|k: u64| #[trigger]
            self.send.contains_key(k) && self.send[k].connection_blocked
                ==> self.connection_blocked.contains(StreamId(k))
    }

    /// That the peer has opened streams is never queued as an event; it is
    /// noted per directionality.
    pub open spec fn wf_events(self) -> bool {
        forall|i: int| 0 <= i < self.events.len() ==> !(#[trigger] self.events[i] is Opened)
    }

    /// No stream waits twice in the queue of streams with something to
    /// send.
    pub open spec fn wf_queue(self) -> bool {
        self.pending.no_duplicates()
    }

    /// What holds after every operation.
    pub open spec fn wf(self) -> bool {
        &&& self.wf_limits()
        &&& self.wf_send()
        &&& self.wf_recv()
        &&& self.wf_blocked()
        &&& self.wf_events()
        &&& self.wf_queue()
    }

    /// Whether every stream that the peer may open is there, and no other.
    /// `bi` and `uni` are the numbers of streams of each directionality.
    pub open spec fn holds_remote_streams(self, bi: u64, uni: u64) -> bool {
        &&& forall|k: u64| #[trigger]
            self.send.contains_key(k) <==> k <= VARINT_MAX && StreamId(k).spec_initiator()
                != self.side && StreamId(k).spec_dir() == Dir::Bi && StreamId(k).spec_index() < bi
        &&& forall|k: u64| #[trigger]
            self.recv.contains_key(k) <==> k <= VARINT_MAX && StreamId(k).spec_initiator()
                != self.side && StreamId(k).spec_index() < (if StreamId(k).spec_dir() == Dir::Bi {
                bi
            } else {
                uni
            })
    }

    /// The limit of a new sending half: what the peer announced for streams
    /// of its kind, or 0 before that is known.
    pub open spec fn initial_send_limit(params: Option<&TransportParameters>, remote: bool, dir: Dir) -> u64 {
        match params {
            None => 0,
            Some(p) => match dir {
                Dir::Uni => p.initial_max_stream_data_uni.value(),
                Dir::Bi => if remote {
                    p.initial_max_stream_data_bidi_local.value()
                } else {
                    p.initial_max_stream_data_bidi_remote.value()
                },
            },
        }
    }

    /// This state with the new stream `id`: with a new sending half of
    /// limit `max_data` where `send_half` says so, and a new receiving half
    /// where `recv_half` says so.
    pub open spec fn with_stream(self, id: StreamId, send_half: bool, recv_half: bool, max_data: u64) -> StreamsView {
        StreamsView {
            send: if send_half {
                self.send.insert(id.0, SendView::fresh(max_data))
            } else {
                self.send
            },
            recv: if recv_half {
                self.recv.insert(id.0, RecvView::fresh())
            } else {
                self.recv
            },
            ..self
        }
    }

    /// One sending half was replaced by a sound one for the same stream,
    /// which waits in the list of blocked streams as the old one did: then
    /// every sending half is sound still, and the sum of the unacknowledged
    /// bytes has changed as that of the one stream has.
    pub proof fn lemma_send_replaced(self, k: u64, s: SendView)
        requires
            self.wf(),
            self.send.contains_key(k),
            s.wf(),
            !s.is_terminal(),
            s.connection_blocked == self.send[k].connection_blocked,
        ensures
            self.send.insert(k, s).dom().finite(),
            forall|j: u64| #[trigger]
                self.send.insert(k, s).contains_key(j) ==> self.send_allocated(j)
                    && self.send.insert(k, s)[j].wf() && !self.send.insert(k, s)[j].is_terminal(),
            map_sum(unacked_weights(self.send.insert(k, s))) + self.send[k].pending.unacked()
                == map_sum(unacked_weights(self.send)) + s.pending.unacked(),
            0 <= self.send[k].pending.unacked() <= map_sum(unacked_weights(self.send)),
            0 <= s.pending.unacked(),
            (StreamsView { send: self.send.insert(k, s), ..self }).wf_blocked(),
    {
        let post = StreamsView { send: self.send.insert(k, s), ..self };
        lemma_unacked_update(self.send, k, s);
        self.send[k].pending.lemma_fully_acked();
        s.pending.lemma_fully_acked();
        assert forall|j: u64| #[trigger] post.send.contains_key(j) implies self.send_allocated(j)
            && post.send[j].wf() && !post.send[j].is_terminal() by {
            if j != k {
                assert(self.send.contains_key(j));
            }
        }
        assert forall|i: int| 0 <= i < post.connection_blocked.len() implies {
            &&& post.send_allocated((#[trigger] post.connection_blocked[i]).0)
            &&& post.send.contains_key(post.connection_blocked[i].0)
                ==> post.send[post.connection_blocked[i].0].connection_blocked
        } by {
            assert(self.send_allocated(self.connection_blocked[i].0));
        }
    }

    /// One sending half was taken away: the others are sound still, and
    /// the sum of the unacknowledged bytes is lower by those of the one.
    pub proof fn lemma_send_removed(self, k: u64)
        requires
            self.wf(),
            self.send.contains_key(k),
        ensures
            self.send.remove(k).dom().finite(),
            forall|j: u64| #[trigger]
                self.send.remove(k).contains_key(j) ==> self.send_allocated(j) && self.send.remove(
                    k,
                )[j].wf() && !self.send.remove(k)[j].is_terminal(),
            map_sum(unacked_weights(self.send.remove(k))) + self.send[k].pending.unacked()
                == map_sum(unacked_weights(self.send)),
            0 <= self.send[k].pending.unacked(),
            (StreamsView { send: self.send.remove(k), ..self }).wf_blocked(),
    {
        let post = StreamsView { send: self.send.remove(k), ..self };
        lemma_unacked_update(self.send, k, self.send[k]);
        self.send[k].pending.lemma_fully_acked();
        assert forall|j: u64| #[trigger] post.send.contains_key(j) implies self.send_allocated(j)
            && post.send[j].wf() && !post.send[j].is_terminal() by {
            assert(self.send.contains_key(j));
        }
        assert forall|i: int| 0 <= i < post.connection_blocked.len() implies {
            &&& post.send_allocated((#[trigger] post.connection_blocked[i]).0)
            &&& post.send.contains_key(post.connection_blocked[i].0)
                ==> post.send[post.connection_blocked[i].0].connection_blocked
        } by {
            assert(self.send_allocated(self.connection_blocked[i].0));
        }
    }

    /// One receiving half was replaced by a sound one for the same stream:
    /// then every receiving half is sound still, and the sum of what they
    /// count has changed as that of the one stream has.
    pub proof fn lemma_recv_replaced(self, k: u64, r: RecvView)
        requires
            self.wf(),
            self.recv.contains_key(k),
            r.wf(),
            !r.is_closed(),
            r.window_ok(self.stream_receive_window),
        ensures
            self.recv.insert(k, r).dom().finite(),
            forall|j: u64| #[trigger]
                self.recv.insert(k, r).contains_key(j) ==> self.recv_allocated(j)
                    && self.recv.insert(k, r)[j].wf() && !self.recv.insert(k, r)[j].is_closed()
                    && self.recv.insert(k, r)[j].window_ok(self.stream_receive_window),
            map_sum(counted_weights(self.recv.insert(k, r))) + self.recv[k].counted() == map_sum(
                counted_weights(self.recv),
            ) + r.counted(),
            0 <= self.recv[k].counted() <= map_sum(counted_weights(self.recv)),
    {
        let post = self.recv.insert(k, r);
        lemma_counted_update(self.recv, k, r);
        assert forall|j: u64| #[trigger] post.contains_key(j) implies self.recv_allocated(j)
            && post[j].wf() && !post[j].is_closed() && post[j].window_ok(
            self.stream_receive_window,
        ) by {
            if j != k {
                assert(self.recv.contains_key(j));
            }
        }
    }

    /// One receiving half was taken away: the others are sound still, and
    /// the sum of what they count is lower by what the one counted.
    pub proof fn lemma_recv_removed(self, k: u64)
        requires
            self.wf(),
            self.recv.contains_key(k),
        ensures
            self.recv.remove(k).dom().finite(),
            forall|j: u64| #[trigger]
                self.recv.remove(k).contains_key(j) ==> self.recv_allocated(j) && self.recv.remove(
                    k,
                )[j].wf() && !self.recv.remove(k)[j].is_closed() && self.recv.remove(
                    k,
                )[j].window_ok(self.stream_receive_window),
            map_sum(counted_weights(self.recv.remove(k))) + self.recv[k].counted() == map_sum(
                counted_weights(self.recv),
            ),
            0 <= self.recv[k].counted(),
    {
        let post = self.recv.remove(k);
        lemma_counted_update(self.recv, k, self.recv[k]);
        assert forall|j: u64| #[trigger] post.contains_key(j) implies self.recv_allocated(j)
            && post[j].wf() && !post[j].is_closed() && post[j].window_ok(
            self.stream_receive_window,
        ) by {
            assert(self.recv.contains_key(j));
        }
    }

    /// Raising a count of streams keeps every stream in its place.
    pub proof fn lemma_counters_grown(self, post: StreamsView)
        requires
            self.wf(),
            post == (StreamsView { next: post.next, max_remote: post.max_remote, ..self }),
            post.next.len() == 2,
            post.max_remote.len() == 2,
            self.next[0] <= post.next[0] <= MAX_STREAM_COUNT,
            self.next[1] <= post.next[1] <= MAX_STREAM_COUNT,
            self.max_remote[0] <= post.max_remote[0] <= MAX_STREAM_COUNT,
            self.max_remote[1] <= post.max_remote[1] <= MAX_STREAM_COUNT,
        ensures
            post.wf(),
            forall|k: u64| self.send_allocated(k) ==> post.send_allocated(k),
            forall|k: u64| self.recv_allocated(k) ==> post.recv_allocated(k),
    {
        assert forall|k: u64| self.send_allocated(k) implies post.send_allocated(k) by {
            assert(self.next[StreamId(k).spec_dir().slot()]
                <= post.next[StreamId(k).spec_dir().slot()]);
        }
        assert forall|k: u64| self.recv_allocated(k) implies post.recv_allocated(k) by {
            assert(self.max_remote[StreamId(k).spec_dir().slot()]
                <= post.max_remote[StreamId(k).spec_dir().slot()]);
        }
        assert forall|k: u64| #[trigger] post.send.contains_key(k) implies post.send_allocated(k)
            && post.send[k].wf() && !post.send[k].is_terminal() by {
            assert(self.send.contains_key(k));
        }
        assert forall|k: u64| #[trigger] post.recv.contains_key(k) implies post.recv_allocated(k)
            && post.recv[k].wf() && !post.recv[k].is_closed() && post.recv[k].window_ok(
            post.stream_receive_window,
        ) by {
            assert(self.recv.contains_key(k));
        }
        assert(self.counts_ok(0) && self.counts_ok(1));
        assert forall|i: int| 0 <= i < post.connection_blocked.len() implies {
            &&& post.send_allocated((#[trigger] post.connection_blocked[i]).0)
            &&& post.send.contains_key(post.connection_blocked[i].0)
                ==> post.send[post.connection_blocked[i].0].connection_blocked
        } by {
            assert(self.send_allocated(self.connection_blocked[i].0));
        }
    }

    /// Putting a new stream in place keeps the state sound.
    pub proof fn lemma_with_stream(self, id: StreamId, send_half: bool, recv_half: bool, max_data: u64)
        requires
            self.wf(),
            max_data <= VARINT_MAX,
            send_half ==> self.send_allocated(id.0) && !self.send.contains_key(id.0)
                && !self.connection_blocked.contains(id),
            recv_half ==> self.recv_allocated(id.0) && !self.recv.contains_key(id.0),
        ensures
            self.with_stream(id, send_half, recv_half, max_data).wf(),
    {
        let post = self.with_stream(id, send_half, recv_half, max_data);
        lemma_total_push(Seq::empty(), (0, 0));
        if send_half {
            lemma_unacked_update(self.send, id.0, SendView::fresh(max_data));
            assert forall|k: u64| #[trigger] post.send.contains_key(k) implies post.send_allocated(
                k,
            ) && post.send[k].wf() && !post.send[k].is_terminal() by {
                if k != id.0 {
                    assert(self.send.contains_key(k));
                }
            }
        }
        if recv_half {
            lemma_counted_update(self.recv, id.0, RecvView::fresh());
            assert forall|k: u64| #[trigger] post.recv.contains_key(k) implies post.recv_allocated(
                k,
            ) && post.recv[k].wf() && !post.recv[k].is_closed() && post.recv[k].window_ok(
                post.stream_receive_window,
            ) by {
                if k != id.0 {
                    assert(self.recv.contains_key(k));
                }
            }
        }
        assert forall|i: int| 0 <= i < post.connection_blocked.len() implies {
            &&& post.send_allocated((#[trigger] post.connection_blocked[i]).0)
            &&& post.send.contains_key(post.connection_blocked[i].0)
                ==> post.send[post.connection_blocked[i].0].connection_blocked
        } by {
            let c = self.connection_blocked[i];
            assert(self.send_allocated(c.0));
            if c.0 == id.0 {
                assert(c == id);
            }
        }
    }

    /// With one more stream of the peer in place, all of them up to the
    /// next index are in place.
    pub proof fn lemma_remote_streams_grow(self, id: StreamId, bi: u64, uni: u64)
        requires
            self.holds_remote_streams(bi, uni),
            id.0 <= VARINT_MAX,
            id.spec_initiator() != self.side,
            id.spec_index() == (if id.spec_dir() == Dir::Bi {
                bi
            } else {
                uni
            }),
            bi < u64::MAX,
            uni < u64::MAX,
        ensures
            self.with_stream(id, id.spec_dir() == Dir::Bi, true, 0).holds_remote_streams(
                if id.spec_dir() == Dir::Bi {
                    (bi + 1) as u64
                } else {
                    bi
                },
                if id.spec_dir() == Dir::Bi {
                    uni
                } else {
                    (uni + 1) as u64
                },
            ),
    {
        let post = self.with_stream(id, id.spec_dir() == Dir::Bi, true, 0);
        let bi2 = if id.spec_dir() == Dir::Bi {
            (bi + 1) as u64
        } else {
            bi
        };
        let uni2 = if id.spec_dir() == Dir::Bi {
            uni
        } else {
            (uni + 1) as u64
        };
        assert forall|k: u64| #[trigger]
            post.send.contains_key(k) <==> k <= VARINT_MAX && StreamId(k).spec_initiator()
                != post.side && StreamId(k).spec_dir() == Dir::Bi && StreamId(k).spec_index()
                < bi2 by {
            assert(self.send.contains_key(k) <==> k <= VARINT_MAX && StreamId(k).spec_initiator()
                != self.side && StreamId(k).spec_dir() == Dir::Bi && StreamId(k).spec_index()
                < bi);
            StreamId(k).lemma_decompose();
            id.lemma_decompose();
        }
        assert forall|k: u64| #[trigger]
            post.recv.contains_key(k) <==> k <= VARINT_MAX && StreamId(k).spec_initiator()
                != post.side && StreamId(k).spec_index() < (if StreamId(k).spec_dir() == Dir::Bi {
                bi2
            } else {
                uni2
            }) by {
            assert(self.recv.contains_key(k) <==> k <= VARINT_MAX && StreamId(k).spec_initiator()
                != self.side && StreamId(k).spec_index() < (if StreamId(k).spec_dir() == Dir::Bi {
                bi
            } else {
                uni
            }));
            StreamId(k).lemma_decompose();
            id.lemma_decompose();
        }
    }

    /// Whether writes are held back by the connection's limit or by the
    /// send window.
    pub open spec fn flow_blocked(self) -> bool {
        self.data_sent >= self.max_data || self.unacked_data >= self.send_window
    }

    /// The state after `credits` more bytes were granted to the peer on the
    /// connection; the limit stops growing at the largest `u64`.
    pub open spec fn after_read_credits(self, credits: u64) -> StreamsView {
        StreamsView {
            local_max_data: if self.local_max_data + credits > u64::MAX {
                u64::MAX
            } else {
                (self.local_max_data + credits) as u64
            },
            ..self
        }
    }

    /// Whether announcing the connection's limit is worth a frame: it fits
    /// on the wire and has grown by at least an eighth of the receive
    /// window since the last announcement.
    pub open spec fn should_send_max_data(self) -> bool {
        self.local_max_data <= VARINT_MAX && self.local_max_data - self.sent_max_data
            >= self.receive_window / 8
    }

    /// The state after a frame for `stream` was handled: a stream of the
    /// peer with an index not used before counts as opened from now on, and
    /// the application is to be told so; and the application is told that
    /// the stream is readable, where `notify_readable` says so.
    pub open spec fn after_stream_frame(self, notify_readable: bool, stream: StreamId) -> StreamsView {
        let d = stream.spec_dir().slot();
        let events = if notify_readable {
            self.events.push(StreamEvent::Readable { id: stream })
        } else {
            self.events
        };
        if stream.spec_initiator() != self.side && stream.spec_index() >= self.next_remote[d] {
            StreamsView {
                next_remote: self.next_remote.update(d, (stream.spec_index() + 1) as u64),
                opened: self.opened.update(d, true),
                events,
                ..self
            }
        } else {
            StreamsView { events, ..self }
        }
    }

    /// Why a frame of the peer for its sending on stream `id` is refused, if
    /// it is: this endpoint alone sends on the stream, this endpoint has not
    /// opened the stream, or the peer may not open it.
    pub open spec fn receive_id_error(self, id: StreamId) -> Option<(TransportErrorCode, Seq<char>)> {
        if self.side == id.spec_initiator() {
            if id.spec_dir() == Dir::Uni {
                Some((TransportErrorCode::StreamStateError, "illegal operation on send-only stream"@))
            } else if id.spec_index() >= self.next[0] {
                Some((TransportErrorCode::StreamStateError, "operation on unopened stream"@))
            } else {
                None
            }
        } else if id.spec_index() >= self.max_remote[id.spec_dir().slot()] {
            Some((TransportErrorCode::StreamLimitError, ""@))
        } else {
            None
        }
    }

    /// How many bytes the connection's limit and the send window leave room
    /// for.
    pub open spec fn send_budget(self) -> int {
        if self.max_data - self.data_sent <= self.send_window - self.unacked_data {
            self.max_data - self.data_sent
        } else {
            self.send_window - self.unacked_data
        }
    }

    /// The order of sending after stream `id` was given a turn: it joins
    /// at the back unless it waits in the queue already.
    pub open spec fn scheduled(self, id: StreamId) -> Seq<StreamId> {
        enqueued(self.pending, id)
    }
}

impl StreamsView {
    /// The stream that opening one of the directionality gives: the next of
    /// this endpoint, unless the peer's limit is reached.
    pub open spec fn next_local(self, dir: Dir) -> Option<StreamId> {
        if self.next[dir.slot()] >= self.max[dir.slot()] {
            None
        } else {
            Some(StreamId(StreamId::compose(self.side, dir, self.next[dir.slot()]) as u64))
        }
    }

    /// The state after a stream of the directionality was opened, where the
    /// peer's limit allows it.
    pub open spec fn after_open(self, params: &TransportParameters, dir: Dir) -> StreamsView {
        match self.next_local(dir) {
            None => self,
            Some(id) => (StreamsView {
                next: self.next.update(dir.slot(), (self.next[dir.slot()] + 1) as u64),
                send_streams: (self.send_streams + 1) as usize,
                ..self
            }).with_stream(
                id,
                true,
                dir == Dir::Bi,
                Self::initial_send_limit(Some(params), false, dir),
            ),
        }
    }

    /// The state after the peer was let to open one more stream of the
    /// directionality.
    pub open spec fn after_alloc_remote(self, params: &TransportParameters, dir: Dir) -> StreamsView {
        (StreamsView {
            max_remote: self.max_remote.update(
                dir.slot(),
                (self.max_remote[dir.slot()] + 1) as u64,
            ),
            ..self
        }).with_stream(
            StreamId(
                StreamId::compose(self.side.spec_opposite(), dir, self.max_remote[dir.slot()]) as u64,
            ),
            dir == Dir::Bi,
            true,
            Self::initial_send_limit(Some(params), true, dir),
        )
    }

    /// The stream of the peer that the application is handed next: the
    /// lowest that it has opened and that was not handed out.
    pub open spec fn next_accepted(self, dir: Dir) -> Option<StreamId> {
        if self.next_remote[dir.slot()] == self.next_reported_remote[dir.slot()] {
            None
        } else {
            Some(
                StreamId(
                    StreamId::compose(
                        self.side.spec_opposite(),
                        dir,
                        self.next_reported_remote[dir.slot()],
                    ) as u64,
                ),
            )
        }
    }

    /// The state after that stream was handed out.
    pub open spec fn after_accept(self, dir: Dir) -> StreamsView {
        if self.next_accepted(dir).is_none() {
            self
        } else {
            StreamsView {
                next_reported_remote: self.next_reported_remote.update(
                    dir.slot(),
                    (self.next_reported_remote[dir.slot()] + 1) as u64,
                ),
                send_streams: if dir == Dir::Bi {
                    (self.send_streams + 1) as usize
                } else {
                    self.send_streams
                },
                ..self
            }
        }
    }

    /// The state after the peer announced the connection limit `n`: the
    /// limit never goes down.
    pub open spec fn after_max_data(self, n: u64) -> StreamsView {
        StreamsView {
            max_data: if n > self.max_data {
                n
            } else {
                self.max_data
            },
            ..self
        }
    }

    /// The state after the peer announced that this endpoint may open
    /// `count` streams of the directionality: the count never goes down,
    /// and the application is told when it goes up.
    pub open spec fn after_max_streams(self, dir: Dir, count: u64) -> StreamsView {
        if count > self.max[dir.slot()] {
            StreamsView {
                max: self.max.update(dir.slot(), count),
                events: self.events.push(StreamEvent::Available { dir }),
                ..self
            }
        } else {
            self
        }
    }
}

impl StreamsView {
    /// What writing `len` bytes on stream `id` gives: the number of bytes
    /// taken, which is as many as the connection and the stream leave room
    /// for, or why none is taken.
    pub open spec fn write_outcome(self, id: StreamId, len: int) -> Result<usize, WriteError> {
        if !self.send.contains_key(id.0) {
            Err(WriteError::UnknownStream)
        } else if self.send_budget() == 0 {
            Err(WriteError::Blocked)
        } else {
            self.send[id.0].write_outcome(
                if len <= self.send_budget() {
                    len
                } else {
                    self.send_budget()
                },
            )
        }
    }

    /// The state after `data` was offered for writing on stream `id`: the
    /// bytes taken are buffered and counted, and the stream takes a turn at
    /// sending. Where the connection leaves no room at all, the stream
    /// joins the list of blocked streams.
    pub open spec fn after_write(self, id: StreamId, data: Seq<u8>) -> StreamsView {
        match self.write_outcome(id, data.len() as int) {
            Ok(n) => StreamsView {
                send: self.send.insert(id.0, self.send[id.0].written(data.take(n as int))),
                data_sent: (self.data_sent + n) as u64,
                unacked_data: (self.unacked_data + n) as u64,
                pending: self.scheduled(id),
                ..self
            },
            Err(_) => if self.send.contains_key(id.0) && self.send_budget() == 0
                && !self.send[id.0].connection_blocked {
                StreamsView {
                    send: self.send.insert(
                        id.0,
                        SendView { connection_blocked: true, ..self.send[id.0] },
                    ),
                    connection_blocked: self.connection_blocked.push(id),
                    ..self
                }
            } else {
                self
            },
        }
    }

    /// What finishing stream `id` gives.
    pub open spec fn finish_outcome(self, id: StreamId) -> Result<(), FinishError> {
        if self.send.contains_key(id.0) {
            self.send[id.0].finish_outcome()
        } else {
            Err(FinishError::UnknownStream)
        }
    }

    /// The state after stream `id` was finished, where that succeeds: the
    /// stream takes a turn at sending.
    pub open spec fn after_finish(self, id: StreamId) -> StreamsView {
        if self.finish_outcome(id).is_ok() {
            StreamsView {
                send: self.send.insert(id.0, self.send[id.0].finished()),
                pending: self.scheduled(id),
                ..self
            }
        } else {
            self
        }
    }

    /// Whether stream `id` can be reset: it is there and was not reset.
    pub open spec fn can_reset(self, id: StreamId) -> bool {
        self.send.contains_key(id.0) && !self.send[id.0].is_reset()
    }

    /// The state after stream `id` was reset, where that succeeds: what it
    /// had written and not acknowledged no longer counts against the send
    /// window, and it leaves the queue of streams with something to send,
    /// unless its end is still due.
    pub open spec fn after_reset(self, id: StreamId) -> StreamsView {
        if self.can_reset(id) {
            StreamsView {
                send: self.send.insert(id.0, self.send[id.0].after_reset()),
                unacked_data: (self.unacked_data - self.send[id.0].pending.unacked()) as u64,
                pending: if self.send[id.0].fin_pending {
                    self.pending
                } else {
                    without_stream(self.pending, id)
                },
                ..self
            }
        } else {
            self
        }
    }

    /// The state after the peer acknowledged the reset of stream `id`: a
    /// stream that was reset is forgotten.
    pub open spec fn after_reset_acked(self, id: StreamId) -> StreamsView {
        if self.send.contains_key(id.0) && self.send[id.0].state == SendState::ResetSent {
            StreamsView {
                send: self.send.remove(id.0),
                send_streams: (self.send_streams - 1) as usize,
                ..self
            }
        } else {
            self
        }
    }

    /// The state after the peer asked for sending on stream `id` to stop:
    /// the application is told, and the stream takes a turn at sending.
    pub open spec fn after_stop_sending(self, id: StreamId, error_code: VarInt) -> StreamsView {
        if self.send.contains_key(id.0) {
            (StreamsView {
                send: self.send.insert(
                    id.0,
                    SendView { stop_reason: Some(error_code), ..self.send[id.0] },
                ),
                events: self.events.push(StreamEvent::Stopped { id, error_code }),
                pending: self.scheduled(id),
                ..self
            }).after_stream_frame(false, id)
        } else {
            self
        }
    }

    /// The state after the frame `start..end` of stream `id` was lost,
    /// which carried the end of the stream if `fin` says so: its bytes are
    /// queued to be sent again, and the stream takes a turn at sending.
    pub open spec fn after_retransmit(self, id: StreamId, start: u64, end: u64, fin: bool) -> StreamsView {
        if self.send.contains_key(id.0) {
            StreamsView {
                send: self.send.insert(id.0, self.send[id.0].after_retransmit(start, end, fin)),
                pending: self.scheduled(id),
                ..self
            }
        } else {
            self
        }
    }

    /// What the acknowledgement of the frame `start..end` of stream `id`
    /// does, which carried the end of the stream if `fin` says so: `post`
    /// is the state afterwards. The bytes acknowledged for the first time
    /// no longer count against the send window; a stream that was finished
    /// and is acknowledged in full is forgotten, and the application is
    /// told. Nothing happens where the stream is not there or was reset.
    pub open spec fn acked(self, post: StreamsView, id: StreamId, start: u64, end: u64, fin: bool) -> bool {
        let k = id.0;
        if !self.send.contains_key(k) || self.send[k].is_reset() {
            post == self
        } else {
            exists|newly: u64, buffer: crate::send_buffer::SendBufferView|
                {
                    &&& #[trigger] self.send[k].pending.ack_result(buffer, start, end, newly)
                    &&& newly <= self.unacked_data
                    &&& post == self.after_ack(id, fin, buffer, newly)
                }
        }
    }

    /// The state after an acknowledgement for stream `id` that left the
    /// stream's buffer in the state `buffer` and acknowledged `newly` bytes
    /// for the first time.
    pub open spec fn after_ack(
        self,
        id: StreamId,
        fin: bool,
        buffer: crate::send_buffer::SendBufferView,
        newly: u64,
    ) -> StreamsView {
        let after = self.send[id.0].after_ack(fin, buffer);
        if after.state == SendState::DataRecvd {
            StreamsView {
                send: self.send.remove(id.0),
                unacked_data: (self.unacked_data - newly) as u64,
                send_streams: (self.send_streams - 1) as usize,
                events: self.events.push(StreamEvent::Finished { id }),
                ..self
            }
        } else {
            StreamsView {
                send: self.send.insert(id.0, after),
                unacked_data: (self.unacked_data - newly) as u64,
                ..self
            }
        }
    }

    /// Why a limit that the peer announces for stream `id` is refused, if
    /// it is: only the peer sends on the stream, or this endpoint has never
    /// opened it.
    pub open spec fn max_stream_data_error(self, id: StreamId) -> Option<(TransportErrorCode, Seq<char>)> {
        if id.spec_initiator() != self.side && id.spec_dir() == Dir::Uni {
            Some((TransportErrorCode::StreamStateError, "MAX_STREAM_DATA on recv-only stream"@))
        } else if !self.send.contains_key(id.0) && id.spec_initiator() == self.side
            && id.spec_index() >= self.next[id.spec_dir().slot()] {
            Some((TransportErrorCode::StreamStateError, "MAX_STREAM_DATA on unopened stream"@))
        } else {
            None
        }
    }

    /// The state after the peer announced the limit `offset` for stream
    /// `id`, where that is not refused. A stream that was blocked at its
    /// old limit is reported as writable. A stream of the peer that was
    /// not used before counts as opened, if the peer may open it. For a
    /// stream of this endpoint that was opened and is gone, nothing
    /// changes.
    pub open spec fn after_max_stream_data(self, id: StreamId, offset: u64) -> StreamsView {
        if self.max_stream_data_error(id).is_some() {
            self
        } else if self.send.contains_key(id.0) {
            (StreamsView {
                send: self.send.insert(id.0, self.send[id.0].after_max_data(offset)),
                events: if self.send[id.0].raises_limit(offset) && self.send[id.0].pending.offset()
                    == self.send[id.0].max_data {
                    self.events.push(StreamEvent::Writable { id })
                } else {
                    self.events
                },
                ..self
            }).after_stream_frame(false, id)
        } else if id.spec_initiator() == self.side || id.spec_index()
            < self.max_remote[id.spec_dir().slot()] {
            self.after_stream_frame(false, id)
        } else {
            self
        }
    }
}

impl StreamsView {
    /// Whether an ordered read on stream `id` into a buffer of `room` bytes
    /// hands out at least one byte.
    pub open spec fn can_read(self, id: StreamId, room: int) -> bool {
        &&& self.recv.contains_key(id.0)
        &&& !self.recv[id.0].assembler.stopped
        &&& !self.recv[id.0].assembler.unordered
        &&& room > 0
        &&& self.recv[id.0].assembler.buffered.contains_key(
            self.recv[id.0].assembler.bytes_read as int,
        )
    }

    /// What a read on stream `id` gives that hands out no byte: nothing at
    /// the end of the stream, or why no byte is there.
    pub open spec fn read_without_data(self, id: StreamId) -> Result<(), ReadError> {
        if !self.recv.contains_key(id.0) {
            Err(ReadError::UnknownStream)
        } else if self.recv[id.0].assembler.stopped {
            Err(ReadError::UnknownStream)
        } else {
            self.recv[id.0].blocked_outcome()
        }
    }

    /// The state after `n` bytes, at least one, were read in order from
    /// stream `id`: the peer is granted as many on the connection.
    pub open spec fn after_read(self, id: StreamId, n: usize) -> StreamsView {
        (StreamsView {
            recv: self.recv.insert(
                id.0,
                RecvView {
                    assembler: self.recv[id.0].assembler.after_read(n as int),
                    ..self.recv[id.0]
                },
            ),
            ..self
        }).after_read_credits(n as u64)
    }

    /// The state after a fragment of `len` bytes at `offset` was read out
    /// of order from stream `id`.
    pub open spec fn after_read_unordered(self, id: StreamId, offset: u64, len: usize) -> StreamsView {
        (StreamsView {
            recv: self.recv.insert(
                id.0,
                RecvView {
                    assembler: self.recv[id.0].assembler.after_read_unordered(offset, len as int),
                    ..self.recv[id.0]
                },
            ),
            ..self
        }).after_read_credits(len as u64)
    }

    /// The state after a read on stream `id`, which is there and has the
    /// state `rs`, that handed out no byte: the stream is forgotten at its
    /// end and once the peer's reset was reported.
    pub open spec fn after_read_without_data(self, id: StreamId, rs: RecvView) -> StreamsView {
        if rs.assembler.stopped {
            self
        } else {
            match rs.blocked_outcome() {
                Ok(()) => StreamsView { recv: self.recv.remove(id.0), ..self },
                Err(ReadError::Reset(_)) => StreamsView { recv: self.recv.remove(id.0), ..self },
                Err(_) => StreamsView { recv: self.recv.insert(id.0, rs), ..self },
            }
        }
    }

    /// Whether reading on stream `id` can be given up: the stream is there
    /// and was not given up before.
    pub open spec fn can_stop(self, id: StreamId) -> bool {
        self.recv.contains_key(id.0) && !self.recv[id.0].assembler.stopped
    }

    /// The state after reading on stream `id` was given up, where that
    /// succeeds: the peer is granted on the connection what was seen and
    /// not read.
    pub open spec fn after_stop(self, id: StreamId) -> StreamsView {
        if self.can_stop(id) {
            (StreamsView {
                recv: self.recv.insert(id.0, self.recv[id.0].after_stop()),
                ..self
            }).after_read_credits(
                (self.recv[id.0].assembler.end - self.recv[id.0].assembler.bytes_read) as u64,
            )
        } else {
            self
        }
    }

    /// Whether a frame for stream `id` is dropped: the stream is forgotten,
    /// or the peer sends nothing more on it.
    pub open spec fn drops_frame(self, id: StreamId) -> bool {
        !self.recv.contains_key(id.0) || self.recv[id.0].is_finished()
    }

    /// Why a STREAM frame is refused, if it is.
    pub open spec fn received_error(self, id: StreamId, offset: u64, len: int, fin: bool) -> Option<
        (TransportErrorCode, Seq<char>),
    > {
        if self.receive_id_error(id).is_some() {
            self.receive_id_error(id)
        } else if self.drops_frame(id) {
            None
        } else {
            self.recv[id.0].ingest_error(
                offset,
                len,
                fin,
                self.data_recvd,
                self.local_max_data,
                self.stream_receive_window,
            )
        }
    }

    /// The state after a STREAM frame for stream `id` that ends at `end`
    /// was taken in, where `assembler` is the state of the stream's buffer
    /// afterwards. What the frame adds to the highest offset seen is
    /// counted. The application is told, unless it has given up reading;
    /// then the peer is granted the same number of bytes on the connection,
    /// and the stream is forgotten at its end.
    pub open spec fn after_ingest(self, id: StreamId, end: u64, fin: bool, assembler: AssemblerView) -> StreamsView {
        let rs = self.recv[id.0];
        let after = rs.after_ingest(end, fin, assembler);
        let added = new_bytes(rs.assembler.end, end as int) as u64;
        let counted = StreamsView { data_recvd: (self.data_recvd + added) as u64, ..self };
        if !rs.assembler.stopped {
            (StreamsView {
                recv: self.recv.insert(id.0, after),
                ..counted
            }).after_stream_frame(true, id)
        } else {
            (StreamsView {
                recv: if after.is_closed() {
                    self.recv.remove(id.0)
                } else {
                    self.recv.insert(id.0, after)
                },
                ..counted
            }).after_read_credits(added)
        }
    }

    /// What a STREAM frame that is not refused does: `post` is the state
    /// afterwards, `transmit` whether announcing the connection's limit is
    /// worth a frame.
    pub open spec fn received(
        self,
        post: StreamsView,
        id: StreamId,
        offset: u64,
        data: Seq<u8>,
        fin: bool,
        transmit: bool,
    ) -> bool {
        if self.drops_frame(id) {
            post == self && !transmit
        } else {
            exists|assembler: AssemblerView|
                {
                    &&& #[trigger] self.recv[id.0].assembler.insert_result(assembler, offset, data)
                    &&& post == self.after_ingest(id, (offset + data.len()) as u64, fin, assembler)
                    &&& transmit == (self.recv[id.0].assembler.stopped
                        && post.should_send_max_data())
                }
        }
    }

    /// Why a RESET_STREAM frame is refused, if it is: the stream may not
    /// be used by the peer, or the final size disagrees with what is known.
    pub open spec fn reset_error(self, id: StreamId, final_offset: u64) -> Option<
        (TransportErrorCode, Seq<char>),
    > {
        if self.receive_id_error(id).is_some() {
            self.receive_id_error(id)
        } else if !self.recv.contains_key(id.0) {
            None
        } else if let Some(offset) = self.recv[id.0].final_offset() {
            if offset != final_offset {
                Some((TransportErrorCode::FinalSizeError, "inconsistent value"@))
            } else {
                None
            }
        } else if self.recv[id.0].assembler.end > final_offset {
            Some((TransportErrorCode::FinalSizeError, "lower than high water mark"@))
        } else {
            None
        }
    }

    /// Whether a RESET_STREAM frame for stream `id` takes effect.
    pub open spec fn reset_applies(self, id: StreamId, final_offset: u64) -> bool {
        self.reset_error(id, final_offset).is_none() && !self.drops_frame(id)
    }

    /// Whether a reset at `final_offset` changes what is counted and
    /// granted for stream `id`: not where all up to there was read.
    pub open spec fn reset_credits(self, id: StreamId, final_offset: u64) -> bool {
        self.reset_applies(id, final_offset) && self.recv[id.0].assembler.bytes_read
            != final_offset
    }

    /// The state after a RESET_STREAM frame for stream `id`. Where it takes
    /// effect, what is buffered is dropped; the stream is forgotten if the
    /// application has given up reading, else the application is told; what
    /// lies between the highest offset seen and the final size is counted,
    /// and the peer is granted on the connection what was not read.
    pub open spec fn after_received_reset(self, id: StreamId, error_code: VarInt, final_offset: u64) -> StreamsView {
        if !self.reset_applies(id, final_offset) {
            self
        } else {
            let rs = self.recv[id.0];
            let stopped = rs.assembler.stopped;
            let counted = StreamsView {
                recv: if stopped {
                    self.recv.remove(id.0)
                } else {
                    self.recv.insert(id.0, rs.after_reset(error_code, final_offset))
                },
                data_recvd: if rs.assembler.bytes_read != final_offset {
                    (self.data_recvd + final_offset - rs.assembler.end) as u64
                } else {
                    self.data_recvd
                },
                ..self
            };
            let told = counted.after_stream_frame(!stopped, id);
            if rs.assembler.bytes_read != final_offset {
                told.after_read_credits((final_offset - rs.assembler.bytes_read) as u64)
            } else {
                told
            }
        }
    }
}

impl StreamsView {
    /// The search for a stream that can be told to write again, from the
    /// back of the list of blocked streams: each stream looked at leaves
    /// the list and is no longer flagged as blocked; the search ends at the
    /// first that is there and takes new data.
    pub open spec fn unblock_scan(self) -> (StreamsView, Option<StreamId>)
        decreases self.connection_blocked.len(),
    {
        if self.connection_blocked.len() == 0 {
            (self, None)
        } else {
            let id = self.connection_blocked.last();
            let rest = StreamsView {
                connection_blocked: self.connection_blocked.drop_last(),
                ..self
            };
            if !self.send.contains_key(id.0) {
                rest.unblock_scan()
            } else {
                let next = StreamsView {
                    send: self.send.insert(
                        id.0,
                        SendView { connection_blocked: false, ..self.send[id.0] },
                    ),
                    ..rest
                };
                if self.send[id.0].is_writable() {
                    (next, Some(id))
                } else {
                    next.unblock_scan()
                }
            }
        }
    }

    /// The stream that is told to write again, if any, and the state
    /// afterwards. While the connection holds writes back, none is.
    pub open spec fn unblocked(self) -> (StreamsView, Option<StreamId>) {
        if self.flow_blocked() {
            (self, None)
        } else {
            self.unblock_scan()
        }
    }

    /// The event that the application is handed next, if any, and the state
    /// afterwards. First that the peer has opened streams, once for each
    /// directionality; then that a blocked stream can be written to again;
    /// then the oldest of the other events.
    pub open spec fn polled(self) -> (StreamsView, Option<StreamEvent>) {
        if self.opened[0] {
            (
                StreamsView { opened: self.opened.update(0, false), ..self },
                Some(StreamEvent::Opened { dir: Dir::Bi }),
            )
        } else if self.opened[1] {
            (
                StreamsView { opened: self.opened.update(1, false), ..self },
                Some(StreamEvent::Opened { dir: Dir::Uni }),
            )
        } else {
            let (s, id) = self.unblocked();
            match id {
                Some(id) => (s, Some(StreamEvent::Writable { id })),
                None => if s.events.len() > 0 {
                    (StreamsView { events: s.events.skip(1), ..s }, Some(s.events[0]))
                } else {
                    (s, None)
                },
            }
        }
    }

    /// Whether `k` identifies a bidirectional stream of the peer with an
    /// index below `count`.
    pub open spec fn is_remote_bidi(self, k: u64, count: u64) -> bool {
        StreamId(k).spec_initiator() != self.side && StreamId(k).spec_dir() == Dir::Bi && StreamId(
            k,
        ).spec_index() < count
    }

    /// The sending halves, with the limit `limit` for those on the first
    /// `count` bidirectional streams of the peer.
    pub open spec fn with_remote_bidi_limit(self, count: u64, limit: u64) -> Map<u64, SendView> {
        Map::new(
            |k: u64| self.send.contains_key(k),
            |k: u64|
                if self.is_remote_bidi(k, count) {
                    SendView { max_data: limit, ..self.send[k] }
                } else {
                    self.send[k]
                },
        )
    }

    /// Whether the limits `params` can be put in force: the counts of
    /// streams fit an identifier, and every bidirectional stream that the
    /// peer may open still has its sending half, on which no more was
    /// written than the new limit allows.
    pub open spec fn accepts_params(self, params: &TransportParameters) -> bool {
        &&& params.initial_max_streams_bidi.value() <= MAX_STREAM_COUNT
        &&& params.initial_max_streams_uni.value() <= MAX_STREAM_COUNT
        &&& forall|i: u64|
            i < self.max_remote[0] ==> {
                let k = #[trigger] StreamId::compose(self.side.spec_opposite(), Dir::Bi, i) as u64;
                self.send.contains_key(k) && self.send[k].pending.offset()
                    <= params.initial_max_stream_data_bidi_local.value()
            }
    }

    /// The state after the limits that the peer announced in the handshake
    /// were put in force.
    pub open spec fn after_set_params(self, params: &TransportParameters) -> StreamsView {
        StreamsView {
            max: seq![
                params.initial_max_streams_bidi.value(),
                params.initial_max_streams_uni.value(),
            ],
            send: self.with_remote_bidi_limit(
                self.max_remote[0],
                params.initial_max_stream_data_bidi_local.value(),
            ),
            ..self.after_max_data(params.initial_max_data.value())
        }
    }

    /// Whether `k` identifies one of the first streams of this endpoint:
    /// with an index below `bi` where it is bidirectional, below `uni`
    /// where not.
    pub open spec fn is_local(self, k: u64, bi: u64, uni: u64) -> bool {
        StreamId(k).spec_initiator() == self.side && StreamId(k).spec_index() < (if StreamId(
            k,
        ).spec_dir() == Dir::Bi {
            bi
        } else {
            uni
        })
    }

    /// The sending halves, with no flag of being blocked on those of the
    /// first `count` bidirectional streams of the peer.
    pub open spec fn without_flags(self, count: u64) -> Map<u64, SendView> {
        Map::new(
            |k: u64| self.send.contains_key(k),
            |k: u64|
                if self.is_remote_bidi(k, count) {
                    SendView { connection_blocked: false, ..self.send[k] }
                } else {
                    self.send[k]
                },
        )
    }

    /// This state without those first streams of this endpoint.
    pub open spec fn without_local(self, bi: u64, uni: u64) -> StreamsView {
        StreamsView {
            send: Map::new(
                |k: u64| self.send.contains_key(k) && !self.is_local(k, bi, uni),
                |k: u64| self.send[k],
            ),
            recv: Map::new(
                |k: u64| self.recv.contains_key(k) && !self.is_local(k, bi, uni),
                |k: u64| self.recv[k],
            ),
            ..self
        }
    }

    /// The state after early data was rejected: the streams that this
    /// endpoint has opened are forgotten, nothing counts as sent, no stream
    /// waits to send, and no stream waits to be unblocked or is flagged as
    /// blocked.
    pub open spec fn after_zero_rtt_rejected(self) -> StreamsView {
        StreamsView {
            next: seq![0u64, 0u64],
            send: unflagged(self.without_local(self.next[0], self.next[1]).send),
            pending: Seq::empty(),
            data_sent: 0,
            connection_blocked: Seq::empty(),
            ..self.without_local(self.next[0], self.next[1])
        }
    }

    /// The state after everything sent on stream `id` was queued to be sent
    /// again. Nothing happens where nothing was ever written on the stream
    /// and its end is not due.
    pub open spec fn after_retransmit_all_for(self, id: StreamId) -> StreamsView {
        if !self.send.contains_key(id.0) || (self.send[id.0].pending.is_fully_acked()
            && !self.send[id.0].fin_pending) {
            self
        } else {
            StreamsView {
                send: self.send.insert(
                    id.0,
                    SendView {
                        pending: self.send[id.0].pending.after_retransmit(
                            self.send[id.0].pending.base,
                            self.send[id.0].pending.unsent,
                        ),
                        ..self.send[id.0]
                    },
                ),
                pending: self.scheduled(id),
                ..self
            }
        }
    }

    /// That, for the first `count` streams of the directionality that this
    /// endpoint has opened, lowest index first.
    pub open spec fn after_retransmit_all_upto(self, dir: Dir, count: u64) -> StreamsView
        decreases count,
    {
        if count == 0 {
            self
        } else {
            self.after_retransmit_all_upto(dir, (count - 1) as u64).after_retransmit_all_for(
                StreamId(StreamId::compose(self.side, dir, (count - 1) as u64) as u64),
            )
        }
    }
}

} // verus!
