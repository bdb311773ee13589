//! Bytes handed over for sending, kept until the peer has acknowledged them.
use crate::range_set::RangeSet;
use crate::range_set::lemma_total_bounded;
use crate::range_set::lemma_total_concat;
use crate::range_set::lemma_total_push;
use crate::range_set::ranges_contain;
use crate::range_set::ranges_miss;
use crate::range_set::ranges_total;
use crate::range_set::ranges_wf;
use std::collections::VecDeque;
use vstd::prelude::*;
use vstd::slice::slice_subrange;

verus! {

/// `x` kept between `lo` and `hi`.
pub open spec fn clamp(x: u64, lo: u64, hi: u64) -> u64 {
    if x < lo {
        lo
    } else if x > hi {
        hi
    } else {
        x
    }
}

/// The queue of ranges to send again, once everything below `base` needs
/// no sending any more: ranges wholly below `base` leave, a range that
/// crosses `base` keeps its part from `base` on.
pub open spec fn prune(q: Seq<(u64, u64)>, base: u64) -> Seq<(u64, u64)>
    decreases q.len(),
{
    if q.len() == 0 {
        q
    } else if q.last().1 <= base {
        prune(q.drop_last(), base)
    } else {
        prune(q.drop_last(), base).push(
            (
                if q.last().0 < base {
                    base
                } else {
                    q.last().0
                },
                q.last().1,
            ),
        )
    }
}

/// Every range of the queue is non-empty and lies within `lo..hi`.
pub open spec fn queue_within(q: Seq<(u64, u64)>, lo: u64, hi: u64) -> bool {
    forall|k: int| 0 <= k < q.len() ==> lo <= (#[trigger] q[k]).0 < q[k].1 <= hi
}

/// Pruning at a bound that every range respects changes nothing.
pub proof fn lemma_prune_identity(q: Seq<(u64, u64)>, base: u64, hi: u64)
    requires
        queue_within(q, base, hi),
    ensures
        prune(q, base) == q,
    decreases q.len(),
{
    if q.len() > 0 {
        let p = q.drop_last();
        assert forall|k: int| 0 <= k < p.len() implies base <= (#[trigger] p[k]).0 < p[k].1
            <= hi by {
            assert(p[k] == q[k]);
        }
        lemma_prune_identity(p, base, hi);
        assert(base <= q[q.len() - 1].0);
        assert(p.push(q.last()) =~= q);
    }
}

/// A pruned queue lies above the bound.
pub proof fn lemma_prune_within(q: Seq<(u64, u64)>, lo: u64, hi: u64, base: u64)
    requires
        queue_within(q, lo, hi),
        lo <= base <= hi,
    ensures
        queue_within(prune(q, base), base, hi),
    decreases q.len(),
{
    if q.len() > 0 {
        let p = q.drop_last();
        assert forall|k: int| 0 <= k < p.len() implies lo <= (#[trigger] p[k]).0 < p[k].1
            <= hi by {
            assert(p[k] == q[k]);
        }
        lemma_prune_within(p, lo, hi, base);
        assert(lo <= q[q.len() - 1].0 < q[q.len() - 1].1 <= hi);
    }
}

/// The total of a sequence of ranges is the length of the first plus the
/// total of the others.
pub proof fn lemma_total_skip_first(r: Seq<(u64, u64)>)
    requires
        r.len() > 0,
        r[0].0 <= r[0].1,
    ensures
        ranges_total(r) == (r[0].1 - r[0].0) + ranges_total(r.skip(1)),
{
    lemma_total_push(Seq::empty(), r[0]);
    assert(Seq::<(u64, u64)>::empty().push(r[0]) =~= seq![r[0]]);
    lemma_total_concat(seq![r[0]], r.skip(1));
    assert(seq![r[0]] + r.skip(1) =~= r);
}

/// The state of a send buffer.
pub struct SendBufferView {
    /// Every offset below this one was acknowledged; its byte is gone.
    pub base: u64,
    /// The bytes from offset `base` on.
    pub data: Seq<u8>,
    /// The first offset that was never handed out for sending.
    pub unsent: u64,
    /// The acknowledged offsets from `base` on.
    pub acks: Seq<(u64, u64)>,
    /// Ranges to send again, oldest first.
    pub retransmits: Seq<(u64, u64)>,
}

impl SendBufferView {
    /// Total number of bytes ever written.
    pub open spec fn offset(self) -> int {
        self.base + self.data.len()
    }

    /// Whether offset `x` was acknowledged.
    pub open spec fn acked(self, x: int) -> bool {
        x < self.base || ranges_contain(self.acks, x)
    }

    /// Number of bytes written and not yet acknowledged.
    pub open spec fn unacked(self) -> int {
        self.data.len() - ranges_total(self.acks)
    }

    pub open spec fn is_fully_acked(self) -> bool {
        self.data.len() == 0
    }

    pub open spec fn has_unsent_data(self) -> bool {
        self.unsent != self.offset() || self.retransmits.len() > 0
    }

    pub open spec fn inv(self) -> bool {
        &&& self.offset() <= u64::MAX
        &&& self.base <= self.unsent <= self.offset()
        &&& ranges_wf(self.acks)
        &&& forall|k: int|
            0 <= k < self.acks.len() ==> self.base < (#[trigger] self.acks[k]).0 && self.acks[k].1
                <= self.unsent
        &&& ranges_total(self.acks) <= self.data.len()
        &&& queue_within(self.retransmits, self.base, self.unsent)
    }

    /// The range that the next poll hands out when at most `max_len` bytes
    /// fit: the front of the oldest range to send again, else the front of
    /// what was never sent.
    pub open spec fn next_range(self, max_len: int) -> (int, int) {
        if self.retransmits.len() > 0 {
            let r = self.retransmits[0];
            (
                r.0 as int,
                if r.1 - r.0 <= max_len {
                    r.1 as int
                } else {
                    r.0 + max_len
                },
            )
        } else {
            (
                self.unsent as int,
                if self.offset() - self.unsent <= max_len {
                    self.offset()
                } else {
                    self.unsent + max_len
                },
            )
        }
    }

    /// The state after that poll.
    pub open spec fn after_poll(self, max_len: int) -> SendBufferView {
        let end = self.next_range(max_len).1;
        if self.retransmits.len() > 0 {
            let r = self.retransmits[0];
            SendBufferView {
                retransmits: if end < r.1 {
                    seq![(end as u64, r.1)] + self.retransmits.skip(1)
                } else {
                    self.retransmits.skip(1)
                },
                ..self
            }
        } else {
            SendBufferView { unsent: end as u64, ..self }
        }
    }

    /// What acknowledging `start..end` does. Only offsets that were sent and
    /// are still buffered count. `post` is the state afterwards and `newly`
    /// the number of offsets that had not been acknowledged before.
    pub open spec fn ack_result(self, post: SendBufferView, start: u64, end: u64, newly: u64) -> bool {
        let s = clamp(start, self.base, self.unsent);
        let e = clamp(end, self.base, self.unsent);
        if s < e {
            &&& post.offset() == self.offset()
            &&& post.unsent == self.unsent
            &&& self.base <= post.base
            &&& post.data == self.data.skip(post.base - self.base)
            &&& forall|x: int| post.acked(x) <==> (self.acked(x) || s <= x < e)
            &&& post.retransmits == prune(self.retransmits, post.base)
            &&& post.unacked() == self.unacked() - newly
            &&& post.inv()
            &&& newly <= e - s
            &&& ranges_miss(self.acks, s, e) ==> newly == e - s
        } else {
            post == self && newly == 0
        }
    }

    /// The state after `start..end` was queued to be sent again: what was
    /// sent of it and is still buffered joins the queue.
    pub open spec fn after_retransmit(self, start: u64, end: u64) -> SendBufferView {
        if clamp(start, self.base, self.unsent) < clamp(end, self.base, self.unsent) {
            SendBufferView {
                retransmits: self.retransmits.push(
                    (clamp(start, self.base, self.unsent), clamp(end, self.base, self.unsent)),
                ),
                ..self
            }
        } else {
            self
        }
    }

    /// The state after everything buffered was dropped: the offset stays,
    /// nothing is left to send or to acknowledge.
    pub open spec fn after_discard(self) -> SendBufferView {
        SendBufferView {
            base: self.offset() as u64,
            data: Seq::empty(),
            unsent: self.offset() as u64,
            acks: Seq::empty(),
            retransmits: Seq::empty(),
        }
    }

    /// With nothing buffered, nothing is unacknowledged, and the other way
    /// round.
    pub proof fn lemma_fully_acked(self)
        requires
            self.inv(),
        ensures
            self.is_fully_acked() <==> self.unacked() == 0,
            0 <= self.unacked() <= self.data.len(),
    {
        if self.acks.len() > 0 {
            lemma_total_bounded(self.acks);
            assert(self.base < self.acks[0].0);
            assert(self.acks[self.acks.len() - 1].1 <= self.unsent);
        }
    }
}

/// After `s..e`, which lies between the base and the unsent offset, was
/// added to the acknowledged ranges, these still lie between the two; only
/// the lowest of them can start at the base.
proof fn lemma_acks_after_insert(pre: SendBufferView, mid: Seq<(u64, u64)>, s: u64, e: u64)
    requires
        pre.inv(),
        pre.base <= s < e <= pre.unsent,
        ranges_wf(mid),
        forall|x: int| ranges_contain(mid, x) <==> (ranges_contain(pre.acks, x) || s <= x < e),
    ensures
        mid.len() > 0,
        forall|k: int|
            0 <= k < mid.len() ==> pre.base <= (#[trigger] mid[k]).0 && mid[k].1 <= pre.unsent,
        mid[0].0 == pre.base <==> s == pre.base,
        ranges_total(mid) <= pre.unsent - pre.base,
{
    assert(ranges_contain(mid, s as int));
    assert forall|k: int| 0 <= k < mid.len() implies pre.base <= (#[trigger] mid[k]).0
        && mid[k].1 <= pre.unsent by {
        assert(mid[k].0 < mid[k].1);
        let lo = mid[k].0 as int;
        let hi = mid[k].1 - 1;
        assert(mid[k].0 <= lo < mid[k].1);
        assert(mid[k].0 <= hi < mid[k].1);
        assert(ranges_contain(mid, lo));
        assert(ranges_contain(mid, hi));
        if ranges_contain(pre.acks, lo) {
            let q = choose|q: int|
                0 <= q < pre.acks.len() && (#[trigger] pre.acks[q]).0 <= lo < pre.acks[q].1;
            assert(pre.base < pre.acks[q].0);
        }
        if ranges_contain(pre.acks, hi) {
            let q = choose|q: int|
                0 <= q < pre.acks.len() && (#[trigger] pre.acks[q]).0 <= hi < pre.acks[q].1;
            assert(pre.acks[q].1 <= pre.unsent);
        }
    }
    if s == pre.base {
        let k = choose|k: int| 0 <= k < mid.len() && (#[trigger] mid[k]).0 <= s < mid[k].1;
        if k > 0 {
            assert(mid[0].1 < mid[k].0);
            assert(mid[0].0 < mid[0].1);
        }
    }
    if mid[0].0 == pre.base {
        assert(mid[0].0 < mid[0].1);
        assert(mid[0].0 <= pre.base < mid[0].1);
        assert(ranges_contain(mid, pre.base as int));
        if ranges_contain(pre.acks, pre.base as int) {
            let q = choose|q: int|
                0 <= q < pre.acks.len() && (#[trigger] pre.acks[q]).0 <= pre.base
                    < pre.acks[q].1;
            assert(pre.base < pre.acks[q].0);
        }
    }
    lemma_total_bounded(mid);
}

/// The send side's byte buffer, keyed by stream offset.
pub struct SendBuffer {
    unacked: Vec<u8>,
    offset: u64,
    unsent: u64,
    acks: RangeSet,
    retransmits: VecDeque<(u64, u64)>,
}

impl View for SendBuffer {
    type V = SendBufferView;

    closed spec fn view(&self) -> SendBufferView {
        SendBufferView {
            base: (self.offset - self.unacked@.len()) as u64,
            data: self.unacked@,
            unsent: self.unsent,
            acks: self.acks@,
            retransmits: self.retransmits@,
        }
    }
}

impl SendBuffer {
    /// The buffer stands for its view.
    pub closed spec fn consistent(&self) -> bool {
        self.unacked@.len() <= self.offset
    }

    pub open spec fn wf(&self) -> bool {
        self.consistent() && self@.inv()
    }

    pub fn new() -> (r: SendBuffer)
        ensures
            r.wf(),
            r@ == (SendBufferView {
                base: 0,
                data: Seq::empty(),
                unsent: 0,
                acks: Seq::empty(),
                retransmits: Seq::empty(),
            }),
    {
        let r = SendBuffer {
            unacked: Vec::new(),
            offset: 0,
            unsent: 0,
            acks: RangeSet::new(),
            retransmits: VecDeque::new(),
        };
        proof {
            lemma_total_push(Seq::empty(), (0, 0));
            assert(r.acks@ =~= Seq::empty());
        }
        r
    }

    /// Appends bytes to the end of the stream.
    pub fn write(&mut self, data: &[u8])
        requires
            old(self).wf(),
            old(self)@.offset() + data@.len() <= u64::MAX,
        ensures
            final(self).wf(),
            final(self)@ == (SendBufferView { data: old(self)@.data + data@, ..old(self)@ }),
    {
        self.unacked.extend_from_slice(data);
        self.offset = self.offset + data.len() as u64;
        assert(self.unacked@ =~= old(self).unacked@ + data@);
    }

    /// Total number of bytes ever written.
    pub fn offset(&self) -> (r: u64)
        requires
            self.wf(),
        ensures
            r == self@.offset(),
    {
        self.offset
    }

    /// Number of bytes written and not yet acknowledged.
    pub fn unacked(&self) -> (r: u64)
        requires
            self.wf(),
        ensures
            r == self@.unacked(),
    {
        let mut total: u64 = 0;
        let buffered = self.unacked.len();
        let n = self.acks.len();
        let mut k: usize = 0;
        proof {
            lemma_total_push(Seq::empty(), (0, 0));
            assert(self.acks@.subrange(0, 0) =~= Seq::empty());
        }
        while k < n
            invariant
                n == self.acks@.len(),
                k <= n,
                ranges_wf(self.acks@),
                total == ranges_total(self.acks@.subrange(0, k as int)),
                ranges_total(self.acks@) <= self.unacked@.len() == buffered,
            decreases n - k,
        {
            let r = self.acks.get(k);
            proof {
                assert(self.acks@[k as int].0 < self.acks@[k as int].1);
                assert(self.acks@.subrange(0, k + 1) =~= self.acks@.subrange(0, k as int).push(r));
                lemma_total_push(self.acks@.subrange(0, k as int), r);
                assert(self.acks@ =~= self.acks@.subrange(0, k + 1) + self.acks@.subrange(
                    k + 1,
                    n as int,
                ));
                lemma_total_concat(
                    self.acks@.subrange(0, k + 1),
                    self.acks@.subrange(k + 1, n as int),
                );
            }
            total = total + (r.1 - r.0);
            k += 1;
        }
        assert(self.acks@.subrange(0, n as int) =~= self.acks@);
        buffered as u64 - total
    }

    /// Whether every byte written was acknowledged.
    pub fn is_fully_acked(&self) -> (r: bool)
        requires
            self.wf(),
        ensures
            r == self@.is_fully_acked(),
            r == (self@.unacked() == 0),
    {
        proof {
            self@.lemma_fully_acked();
        }
        self.unacked.len() == 0
    }

    /// Whether a poll would hand out anything that needs sending.
    pub fn has_unsent_data(&self) -> (r: bool)
        requires
            self.wf(),
        ensures
            r == self@.has_unsent_data(),
    {
        self.unsent != self.offset || self.retransmits.len() > 0
    }

    /// Hands out the next range to transmit, of at most `max_len` bytes.
    pub fn poll_transmit(&mut self, max_len: usize) -> (r: (u64, u64))
        requires
            old(self).wf(),
        ensures
            final(self).wf(),
            (r.0 as int, r.1 as int) == old(self)@.next_range(max_len as int),
            final(self)@ == old(self)@.after_poll(max_len as int),
            old(self)@.base <= r.0 <= r.1 <= old(self)@.offset(),
            r.1 - r.0 <= max_len,
    {
        match self.retransmits.pop_front() {
            Some(range) => {
                let ghost rest = self.retransmits@;
                assert(old(self).retransmits@[0] == range);
                assert(rest =~= old(self).retransmits@.skip(1));
                let end = if range.1 - range.0 <= max_len as u64 {
                    range.1
                } else {
                    range.0 + max_len as u64
                };
                if end < range.1 {
                    self.retransmits.push_front((end, range.1));
                }
                proof {
                    let q = self.retransmits@;
                    assert forall|k: int| 0 <= k < q.len() implies self@.base <= (#[trigger] q[k]).0
                        < q[k].1 <= self@.unsent by {
                        if end < range.1 {
                            if k > 0 {
                                assert(q[k] == old(self).retransmits@[k]);
                            }
                        } else {
                            assert(q[k] == old(self).retransmits@[k + 1]);
                        }
                    }
                }
                (range.0, end)
            },
            None => {
                let end = if self.offset - self.unsent <= max_len as u64 {
                    self.offset
                } else {
                    self.unsent + max_len as u64
                };
                let start = self.unsent;
                self.unsent = end;
                assert(self.retransmits@ =~= old(self).retransmits@);
                (start, end)
            },
        }
    }

    /// The bytes of the offsets from `start` up to, not including, `end`.
    pub fn get(&self, start: u64, end: u64) -> (r: &[u8])
        requires
            self.wf(),
            self@.base <= start <= end <= self@.offset(),
        ensures
            r@ == self@.data.subrange(start - self@.base, end - self@.base),
    {
        let base = self.offset - self.unacked.len() as u64;
        slice_subrange(self.unacked.as_slice(), (start - base) as usize, (end - base) as usize)
    }

    /// Queues the part of `start..end` that was sent and is still buffered
    /// to be sent again.
    pub fn retransmit(&mut self, start: u64, end: u64)
        requires
            old(self).wf(),
        ensures
            final(self).wf(),
            final(self)@ == old(self)@.after_retransmit(start, end),
    {
        let base = self.offset - self.unacked.len() as u64;
        let s = Self::clamp_to(start, base, self.unsent);
        let e = Self::clamp_to(end, base, self.unsent);
        if s < e {
            self.retransmits.push_back((s, e));
        }
    }

    /// Queues everything that was sent and is still buffered to be sent
    /// again.
    pub fn retransmit_all_for_0rtt(&mut self)
        requires
            old(self).wf(),
        ensures
            final(self).wf(),
            final(self)@ == old(self)@.after_retransmit(old(self)@.base, old(self)@.unsent),
    {
        let base = self.offset - self.unacked.len() as u64;
        let unsent = self.unsent;
        self.retransmit(base, unsent);
    }

    /// Drops everything buffered; the offset stays.
    pub fn discard(&mut self)
        requires
            old(self).wf(),
        ensures
            final(self).wf(),
            final(self)@ == old(self)@.after_discard(),
    {
        self.unacked = Vec::new();
        self.unsent = self.offset;
        self.acks = RangeSet::new();
        self.retransmits = VecDeque::new();
        proof {
            lemma_total_push(Seq::empty(), (0, 0));
            assert(self.acks@ =~= Seq::empty());
        }
    }

    /// Records that the peer has received `start..end`. Returns how many of
    /// these bytes had not been acknowledged before. Bytes at the front of
    /// the buffer that are acknowledged are let go.
    pub fn ack(&mut self, start: u64, end: u64) -> (newly: u64)
        requires
            old(self).wf(),
        ensures
            final(self).wf(),
            old(self)@.ack_result(final(self)@, start, end, newly),
    {
        let base = self.offset - self.unacked.len() as u64;
        let s = Self::clamp_to(start, base, self.unsent);
        let e = Self::clamp_to(end, base, self.unsent);
        if s >= e {
            return 0;
        }
        let ghost pre = self@;
        let newly = self.acks.insert(s, e);
        let ghost mid = self.acks@;
        proof {
            lemma_acks_after_insert(pre, mid, s, e);
        }
        let first = self.acks.peek_min();
        match first {
            Some(range) => {
                if range.0 == base {
                    let _ = self.acks.pop_min();
                    let n = (range.1 - base) as usize;
                    let rest = self.unacked.split_off(n);
                    self.unacked = rest;
                    self.retransmits = Self::prune_queue(&self.retransmits, range.1);
                    proof {
                        let post = self@;
                        lemma_total_skip_first(mid);
                        lemma_prune_within(pre.retransmits, pre.base, pre.unsent, range.1);
                        assert(post.data =~= pre.data.skip(post.base - pre.base));
                        assert forall|k: int| 0 <= k < post.acks.len() implies post.base < (
                        #[trigger] post.acks[k]).0 && post.acks[k].1 <= post.unsent by {
                            assert(post.acks[k] == mid[k + 1]);
                            assert(mid[0].1 < mid[k + 1].0);
                        }
                        assert(ranges_wf(post.acks));
                        assert forall|x: int| post.acked(x) <==> (pre.acked(x) || s <= x < e) by {
                            if ranges_contain(post.acks, x) {
                                let k = choose|k: int|
                                    0 <= k < post.acks.len() && (#[trigger] post.acks[k]).0 <= x
                                        < post.acks[k].1;
                                assert(mid[k + 1] == post.acks[k]);
                                assert(mid[k + 1].0 <= x < mid[k + 1].1);
                            }
                            if ranges_contain(mid, x) {
                                let k = choose|k: int|
                                    0 <= k < mid.len() && (#[trigger] mid[k]).0 <= x < mid[k].1;
                                if k > 0 {
                                    assert(post.acks[k - 1] == mid[k]);
                                    assert(post.acks[k - 1].0 <= x < post.acks[k - 1].1);
                                }
                            }
                            if pre.base <= x < post.base {
                                assert(mid[0].0 <= x < mid[0].1);
                            }
                        }
                    }
                } else {
                    proof {
                        let post = self@;
                        lemma_prune_identity(pre.retransmits, pre.base, pre.unsent);
                        assert(post.data =~= pre.data.skip(0));
                        assert forall|k: int| 0 <= k < mid.len() implies pre.base < (
                        #[trigger] mid[k]).0 by {
                            if k > 0 {
                                assert(mid[0].1 < mid[k].0);
                                assert(mid[0].0 < mid[0].1);
                            }
                        }
                    }
                }
            },
            None => {
                proof {
                    assert(mid[0].0 <= s as int);
                }
            },
        }
        newly
    }

    /// The queue without what lies below `base`.
    fn prune_queue(q: &VecDeque<(u64, u64)>, base: u64) -> (out: VecDeque<(u64, u64)>)
        ensures
            out@ == prune(q@, base),
    {
        let mut out: VecDeque<(u64, u64)> = VecDeque::new();
        let n = q.len();
        let mut k: usize = 0;
        assert(q@.subrange(0, 0) =~= Seq::empty());
        while k < n
            invariant
                n == q@.len(),
                k <= n,
                out@ == prune(q@.subrange(0, k as int), base),
            decreases n - k,
        {
            let r = q[k];
            assert(q@.subrange(0, k + 1).drop_last() =~= q@.subrange(0, k as int));
            if r.1 > base {
                let lo = if r.0 < base {
                    base
                } else {
                    r.0
                };
                out.push_back((lo, r.1));
            }
            k += 1;
        }
        assert(q@.subrange(0, n as int) =~= q@);
        out
    }

    fn clamp_to(x: u64, lo: u64, hi: u64) -> (r: u64)
        requires
            lo <= hi,
        ensures
            r == clamp(x, lo, hi),
    {
        if x < lo {
            lo
        } else if x > hi {
            hi
        } else {
            x
        }
    }
}

} // verus!
