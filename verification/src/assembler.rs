//! Reassembly of a stream's bytes from fragments that arrive in any order.
use crate::range_set::RangeSet;
use crate::range_set::lemma_total_bounded;
use crate::range_set::lemma_total_push;
use crate::range_set::ranges_contain;
use crate::range_set::ranges_miss;
use crate::range_set::ranges_total;
use crate::range_set::ranges_wf;
use crate::wire::bytes_as_slice;
use crate::wire::bytes_contents;
use crate::wire::bytes_len;
use crate::wire::bytes_slice;
use bytes::Bytes;
use vstd::prelude::*;

verus! {

/// An ordered read was tried after an unordered one.
#[derive(Clone, Copy, Debug, PartialEq, Eq)]
pub struct IllegalOrderedRead;

/// A run of received bytes and the offset of its first byte.
pub struct Chunk {
    pub offset: u64,
    pub data: Bytes,
}

impl Chunk {
    pub open spec fn bytes(self) -> Seq<u8> {
        bytes_contents(self.data)
    }

    /// The offset after the last byte.
    pub open spec fn end(self) -> int {
        self.offset + self.bytes().len()
    }

    pub open spec fn covers(self, x: int) -> bool {
        self.offset <= x < self.end()
    }

    /// The bytes of the chunk, each at its offset.
    pub open spec fn as_map(self) -> Map<int, u8> {
        Map::new(|x: int| self.covers(x), |x: int| self.bytes()[x - self.offset])
    }
}

/// Whether some chunk holds offset `x`.
pub open spec fn chunks_cover(cs: Seq<Chunk>, x: int) -> bool {
    exists|k: int| 0 <= k < cs.len() && (#[trigger] cs[k]).covers(x)
}

/// No two chunks share an offset, and none is empty.
pub open spec fn chunks_disjoint(cs: Seq<Chunk>) -> bool {
    &&& forall|k: int| 0 <= k < cs.len() ==> (#[trigger] cs[k]).bytes().len() > 0
    &&& forall|a: int, b: int|
        0 <= a < b < cs.len() ==> (#[trigger] cs[a]).end() <= (#[trigger] cs[b]).offset
            || cs[b].end() <= cs[a].offset
}

/// Number of bytes in the chunks.
pub open spec fn chunks_total(cs: Seq<Chunk>) -> nat
    decreases cs.len(),
{
    if cs.len() == 0 {
        0
    } else {
        chunks_total(cs.drop_last()) + cs.last().bytes().len()
    }
}

/// The bytes of the chunks, each at its offset.
pub open spec fn chunks_map(cs: Seq<Chunk>) -> Map<int, u8>
    decreases cs.len(),
{
    if cs.len() == 0 {
        Map::empty()
    } else {
        chunks_map(cs.drop_last()).union_prefer_right(cs.last().as_map())
    }
}

/// The map of the chunks holds exactly the offsets that a chunk holds.
pub proof fn lemma_map_dom(cs: Seq<Chunk>, x: int)
    ensures
        chunks_map(cs).contains_key(x) <==> chunks_cover(cs, x),
    decreases cs.len(),
{
    if cs.len() > 0 {
        let p = cs.drop_last();
        lemma_map_dom(p, x);
        if chunks_cover(p, x) {
            let k = choose|k: int| 0 <= k < p.len() && (#[trigger] p[k]).covers(x);
            assert(cs[k] == p[k]);
        }
        if chunks_cover(cs, x) {
            let k = choose|k: int| 0 <= k < cs.len() && (#[trigger] cs[k]).covers(x);
            if k < p.len() {
                assert(p[k] == cs[k]);
            }
        }
        if cs.last().covers(x) {
            assert(cs[cs.len() - 1].covers(x));
        }
    }
}

/// Where chunks share no offset, the map holds at each offset the byte of
/// the chunk that holds the offset.
pub proof fn lemma_map_value(cs: Seq<Chunk>, k: int, x: int)
    requires
        chunks_disjoint(cs),
        0 <= k < cs.len(),
        cs[k].covers(x),
    ensures
        chunks_map(cs).contains_key(x),
        chunks_map(cs)[x] == cs[k].bytes()[x - cs[k].offset],
    decreases cs.len(),
{
    let p = cs.drop_last();
    if k < cs.len() - 1 {
        lemma_disjoint_drop_last(cs);
        assert(p[k] == cs[k]);
        lemma_map_value(p, k, x);
        assert(cs[k].end() <= cs[cs.len() - 1].offset || cs[cs.len() - 1].end() <= cs[k].offset);
    }
}

/// Chunks that share no offset still share none when the last is left out.
pub proof fn lemma_disjoint_drop_last(cs: Seq<Chunk>)
    requires
        chunks_disjoint(cs),
        cs.len() > 0,
    ensures
        chunks_disjoint(cs.drop_last()),
{
    let p = cs.drop_last();
    assert forall|k: int| 0 <= k < p.len() implies (#[trigger] p[k]).bytes().len() > 0 by {
        assert(p[k] == cs[k]);
    }
    assert forall|a: int, b: int| 0 <= a < b < p.len() implies (#[trigger] p[a]).end() <= (
    #[trigger] p[b]).offset || p[b].end() <= p[a].offset by {
        assert(p[a] == cs[a] && p[b] == cs[b]);
    }
}

/// Taking one chunk out takes its bytes out of the total.
pub proof fn lemma_total_remove(cs: Seq<Chunk>, k: int)
    requires
        0 <= k < cs.len(),
    ensures
        chunks_total(cs.remove(k)) + cs[k].bytes().len() == chunks_total(cs),
    decreases cs.len(),
{
    let p = cs.drop_last();
    if k < cs.len() - 1 {
        lemma_total_remove(p, k);
        assert(cs.remove(k).drop_last() =~= p.remove(k));
        assert(cs.remove(k).last() == cs.last());
        assert(p[k] == cs[k]);
    } else {
        assert(cs.remove(k) =~= p);
    }
}

/// The offsets in the first `m` ranges and in the range after them.
pub proof fn lemma_contain_take(g: Seq<(u64, u64)>, m: int, x: int)
    requires
        0 <= m < g.len(),
    ensures
        ranges_contain(g.take(m + 1), x) <==> (ranges_contain(g.take(m), x) || g[m].0 <= x
            < g[m].1),
{
    let t0 = g.take(m);
    let t1 = g.take(m + 1);
    if ranges_contain(t1, x) {
        let k = choose|k: int| 0 <= k < t1.len() && (#[trigger] t1[k]).0 <= x < t1[k].1;
        if k < m {
            assert(t0[k] == t1[k]);
        }
    }
    if ranges_contain(t0, x) {
        let k = choose|k: int| 0 <= k < t0.len() && (#[trigger] t0[k]).0 <= x < t0[k].1;
        assert(t1[k] == t0[k]);
    }
    if g[m].0 <= x < g[m].1 {
        assert(t1[m] == g[m]);
    }
}

/// Ranges whose offsets all lie below `hi` end at or below `hi`.
pub proof fn lemma_ranges_below(r: Seq<(u64, u64)>, hi: u64)
    requires
        ranges_wf(r),
        forall|x: int| ranges_contain(r, x) ==> x < hi,
    ensures
        forall|k: int| 0 <= k < r.len() ==> (#[trigger] r[k]).1 <= hi,
{
    assert forall|k: int| 0 <= k < r.len() implies (#[trigger] r[k]).1 <= hi by {
        assert(r[k].0 < r[k].1);
        let x = r[k].1 - 1;
        assert(r[k].0 <= x < r[k].1);
        assert(ranges_contain(r, x));
    }
}

/// What is left of the chunks `cs` after the first `n` bytes of chunk `k`
/// were taken: the chunk is gone, or `tail` holds the rest of it.
pub open spec fn consumed(cs: Seq<Chunk>, k: int, n: int, tail: Chunk, after: Seq<Chunk>) -> bool {
    &&& 0 <= k < cs.len()
    &&& 0 < n <= cs[k].bytes().len()
    &&& if n == cs[k].bytes().len() {
        after == cs.remove(k)
    } else {
        &&& after == cs.remove(k).push(tail)
        &&& tail.offset == cs[k].offset + n
        &&& tail.bytes() == cs[k].bytes().skip(n)
    }
}

/// The chunk of `after` at position `j` is the rest of chunk `k`, or it is
/// the chunk of `cs` at the position that this function gives.
pub open spec fn origin(k: int, j: int) -> int {
    if j < k {
        j
    } else {
        j + 1
    }
}

/// What is left after the first `n` bytes of a chunk were taken lies where
/// the chunks lay, but not where the bytes taken lay.
pub proof fn lemma_consume_shape(cs: Seq<Chunk>, k: int, n: int, tail: Chunk, after: Seq<Chunk>)
    requires
        chunks_disjoint(cs),
        consumed(cs, k, n, tail, after),
    ensures
        chunks_disjoint(after),
        cs.len() - 1 <= after.len() <= cs.len(),
        forall|j: int| 0 <= j < cs.len() - 1 ==> #[trigger] after[j] == cs[origin(k, j)],
        after.len() == cs.len() ==> after[cs.len() - 1] == tail && n < cs[k].bytes().len(),
        after.len() == cs.len() - 1 ==> n == cs[k].bytes().len(),
        forall|j: int|
            0 <= j < after.len() ==> (#[trigger] after[j]).offset >= cs[k].offset + n || after[j].end()
                <= cs[k].offset,
{
    let c = cs[k];
    let r = cs.remove(k);
    assert forall|j: int| 0 <= j < r.len() implies (#[trigger] r[j]).end() <= c.offset || c.end()
        <= r[j].offset by {
        let i = origin(k, j);
        assert(r[j] == cs[i]);
        if i < k {
            assert(cs[i].end() <= cs[k].offset || cs[k].end() <= cs[i].offset);
        } else {
            assert(cs[k].end() <= cs[i].offset || cs[i].end() <= cs[k].offset);
        }
    }
    assert forall|j: int| 0 <= j < after.len() implies (#[trigger] after[j]).bytes().len()
        > 0 by {
        if j < r.len() {
            assert(after[j] == cs[origin(k, j)]);
        }
    }
    assert forall|a: int, b: int| 0 <= a < b < after.len() implies (#[trigger] after[a]).end() <= (
    #[trigger] after[b]).offset || after[b].end() <= after[a].offset by {
        assert(after[a] == r[a]);
        if b < r.len() {
            let ia = origin(k, a);
            let ib = origin(k, b);
            assert(after[a] == cs[ia] && after[b] == cs[ib]);
            assert(cs[ia].end() <= cs[ib].offset || cs[ib].end() <= cs[ia].offset);
        } else {
            assert(r[a].end() <= c.offset || c.end() <= r[a].offset);
        }
    }
    assert forall|j: int| 0 <= j < after.len() implies (#[trigger] after[j]).offset >= c.offset
        + n || after[j].end() <= c.offset by {
        if j < r.len() {
            assert(after[j] == r[j]);
            assert(r[j].end() <= c.offset || c.end() <= r[j].offset);
        }
    }
}

/// Taking the first `n` bytes of a chunk takes their offsets, and nothing
/// else, out of the map.
pub proof fn lemma_consume(cs: Seq<Chunk>, k: int, n: int, tail: Chunk, after: Seq<Chunk>)
    requires
        chunks_disjoint(cs),
        consumed(cs, k, n, tail, after),
    ensures
        chunks_disjoint(after),
        chunks_map(after) == chunks_map(cs).remove_keys(
            Set::new(|x: int| cs[k].offset <= x < cs[k].offset + n),
        ),
        chunks_total(after) + n == chunks_total(cs),
        forall|j: int, x: int|
            0 <= j < after.len() && (#[trigger] after[j]).covers(x) ==> #[trigger] chunks_cover(
                cs,
                x,
            ) && !(cs[k].offset <= x < cs[k].offset + n),
        forall|j: int|
            0 <= j < after.len() ==> (#[trigger] after[j]).offset >= cs[k].offset + n || after[j].end()
                <= cs[k].offset,
{
    let c = cs[k];
    lemma_consume_shape(cs, k, n, tail, after);
    lemma_total_remove(cs, k);
    if n < c.bytes().len() {
        assert(after.drop_last() =~= cs.remove(k));
    }
    assert forall|j: int, x: int|
        0 <= j < after.len() && (#[trigger] after[j]).covers(x) implies #[trigger] chunks_cover(
        cs,
        x,
    ) && !(c.offset <= x < c.offset + n) by {
        if j < cs.len() - 1 {
            assert(after[j] == cs[origin(k, j)]);
            assert(cs[origin(k, j)].covers(x));
        } else {
            assert(cs[k].covers(x));
        }
    }
    let gone = Set::new(|x: int| c.offset <= x < c.offset + n);
    let lhs = chunks_map(after);
    let rhs = chunks_map(cs).remove_keys(gone);
    assert forall|x: int| #[trigger] lhs.contains_key(x) <==> rhs.contains_key(x) by {
        lemma_consume_dom(cs, k, n, tail, after, x);
    }
    assert forall|x: int| #[trigger] lhs.contains_key(x) implies lhs[x] == rhs[x] by {
        lemma_consume_value(cs, k, n, tail, after, x);
    }
    assert(lhs =~= rhs);
}

proof fn lemma_consume_dom(cs: Seq<Chunk>, k: int, n: int, tail: Chunk, after: Seq<Chunk>, x: int)
    requires
        chunks_disjoint(cs),
        consumed(cs, k, n, tail, after),
    ensures
        chunks_map(after).contains_key(x) <==> (chunks_map(cs).contains_key(x) && !(cs[k].offset
            <= x < cs[k].offset + n)),
{
    let c = cs[k];
    lemma_consume_shape(cs, k, n, tail, after);
    lemma_map_dom(after, x);
    lemma_map_dom(cs, x);
    if chunks_cover(after, x) {
        let j = choose|j: int| 0 <= j < after.len() && (#[trigger] after[j]).covers(x);
        if j < cs.len() - 1 {
            assert(after[j] == cs[origin(k, j)]);
            assert(cs[origin(k, j)].covers(x));
        } else {
            assert(cs[k].covers(x));
        }
    }
    if chunks_cover(cs, x) && !(c.offset <= x < c.offset + n) {
        let i = choose|i: int| 0 <= i < cs.len() && (#[trigger] cs[i]).covers(x);
        if i == k {
            assert(after[cs.len() - 1].covers(x));
        } else {
            let j = if i < k {
                i
            } else {
                i - 1
            };
            assert(after[j] == cs[origin(k, j)]);
            assert(after[j].covers(x));
        }
    }
}

proof fn lemma_consume_value(cs: Seq<Chunk>, k: int, n: int, tail: Chunk, after: Seq<Chunk>, x: int)
    requires
        chunks_disjoint(cs),
        consumed(cs, k, n, tail, after),
        chunks_map(after).contains_key(x),
    ensures
        chunks_map(cs).contains_key(x),
        chunks_map(after)[x] == chunks_map(cs)[x],
{
    lemma_consume_shape(cs, k, n, tail, after);
    lemma_map_dom(after, x);
    let j = choose|j: int| 0 <= j < after.len() && (#[trigger] after[j]).covers(x);
    lemma_map_value(after, j, x);
    if j < cs.len() - 1 {
        assert(after[j] == cs[origin(k, j)]);
        lemma_map_value(cs, origin(k, j), x);
    } else {
        lemma_map_value(cs, k, x);
    }
}

/// The state of a reassembly buffer.
pub struct AssemblerView {
    /// The bytes that were received and not yet read, each at its offset.
    pub buffered: Map<int, u8>,
    /// Every offset whose byte was ever buffered.
    pub received: Seq<(u64, u64)>,
    /// Number of bytes handed to the reader.
    pub bytes_read: u64,
    /// One more than the highest offset ever seen.
    pub end: u64,
    /// Whether the reader has given up; from then on nothing is buffered.
    pub stopped: bool,
    /// Whether an unordered read was made; from then on ordered reads fail.
    pub unordered: bool,
}

impl AssemblerView {
    /// What was read does not exceed what was seen, and every buffered byte
    /// lies below the highest offset seen.
    pub open spec fn inv(self) -> bool {
        &&& self.bytes_read <= self.end
        &&& forall|x: int| self.buffered.contains_key(x) ==> 0 <= x < self.end
    }

    /// Nothing is left to read and nothing is missing.
    pub open spec fn is_fully_read(self) -> bool {
        self.bytes_read == self.end && self.buffered == Map::<int, u8>::empty()
    }

    /// The bytes of `data`, placed from `offset` on, at the offsets that
    /// were never received before.
    pub open spec fn fresh_part(self, offset: u64, data: Seq<u8>) -> Map<int, u8> {
        Map::new(
            |x: int| offset <= x < offset + data.len() && !ranges_contain(self.received, x),
            |x: int| data[x - offset],
        )
    }

    /// What receiving `data` at `offset` does: `post` is the state afterwards.
    pub open spec fn insert_result(self, post: AssemblerView, offset: u64, data: Seq<u8>) -> bool {
        &&& post.bytes_read == self.bytes_read
        &&& post.stopped == self.stopped
        &&& post.unordered == self.unordered
        &&& post.end == (if offset + data.len() > self.end {
            (offset + data.len()) as u64
        } else {
            self.end
        })
        &&& if self.stopped {
            post.buffered == self.buffered && post.received == self.received
        } else {
            &&& post.buffered == self.buffered.union_prefer_right(self.fresh_part(offset, data))
            &&& forall|x: int|
                ranges_contain(post.received, x) <==> (ranges_contain(self.received, x) || offset
                    <= x < offset + data.len())
        }
    }

    /// How many bytes an ordered read into a buffer of `room` bytes gives:
    /// as many as are buffered without a hole from `bytes_read` on.
    pub open spec fn readable(self, room: int, n: int) -> bool {
        &&& 0 <= n <= room
        &&& forall|x: int|
            self.bytes_read <= x < self.bytes_read + n ==> self.buffered.contains_key(x)
        &&& n == room || !self.buffered.contains_key(self.bytes_read + n)
    }

    /// The state after `n` bytes were read in order.
    pub open spec fn after_read(self, n: int) -> AssemblerView {
        AssemblerView {
            buffered: self.buffered.remove_keys(
                Set::new(|x: int| self.bytes_read <= x < self.bytes_read + n),
            ),
            bytes_read: (self.bytes_read + n) as u64,
            ..self
        }
    }

    /// The state after the fragment of `len` bytes at `offset` was read out
    /// of order.
    pub open spec fn after_read_unordered(self, offset: u64, len: int) -> AssemblerView {
        AssemblerView {
            buffered: self.buffered.remove_keys(Set::new(|x: int| offset <= x < offset + len)),
            bytes_read: (self.bytes_read + len) as u64,
            unordered: true,
            ..self
        }
    }
}

/// The receive side's reassembly buffer.
pub struct Assembler {
    chunks: Vec<Chunk>,
    recvd: RangeSet,
    bytes_read: u64,
    end: u64,
    stopped: bool,
    unordered: bool,
}

impl View for Assembler {
    type V = AssemblerView;

    closed spec fn view(&self) -> AssemblerView {
        AssemblerView {
            buffered: chunks_map(self.chunks@),
            received: self.recvd@,
            bytes_read: self.bytes_read,
            end: self.end,
            stopped: self.stopped,
            unordered: self.unordered,
        }
    }
}

impl Assembler {
    /// What holds of the buffer between calls.
    pub open spec fn wf(&self) -> bool {
        self.consistent() && self@.inv()
    }

    /// The buffer stands for its view.
    pub closed spec fn consistent(&self) -> bool {
        &&& chunks_disjoint(self.chunks@)
        &&& self.recvd.wf()
        &&& forall|k: int, x: int|
            0 <= k < self.chunks@.len() && (#[trigger] self.chunks@[k]).covers(x)
                ==> #[trigger] ranges_contain(self.recvd@, x)
        &&& forall|k: int| 0 <= k < self.recvd@.len() ==> (#[trigger] self.recvd@[k]).1 <= self.end
        &&& self.bytes_read + chunks_total(self.chunks@) <= ranges_total(self.recvd@)
        &&& !self.unordered ==> {
            &&& forall|x: int| 0 <= x < self.bytes_read ==> ranges_contain(self.recvd@, x)
            &&& forall|k: int|
                0 <= k < self.chunks@.len() ==> (#[trigger] self.chunks@[k]).offset
                    >= self.bytes_read
        }
    }

    /// What was read never exceeds what was seen.
    proof fn lemma_view_inv(&self)
        requires
            self.consistent(),
        ensures
            self@.inv(),
    {
        if self.recvd@.len() > 0 {
            lemma_total_bounded(self.recvd@);
            assert(self.recvd@[self.recvd@.len() - 1].1 <= self.end);
        } else {
            lemma_total_push(Seq::empty(), (0, 0));
            assert(self.recvd@ =~= Seq::empty());
        }
        assert forall|x: int| self@.buffered.contains_key(x) implies 0 <= x < self@.end by {
            lemma_map_dom(self.chunks@, x);
            let k = choose|k: int| 0 <= k < self.chunks@.len() && (#[trigger] self.chunks@[k]).covers(x);
            assert(ranges_contain(self.recvd@, x));
            let q = choose|q: int|
                0 <= q < self.recvd@.len() && (#[trigger] self.recvd@[q]).0 <= x
                    < self.recvd@[q].1;
            assert(self.recvd@[q].1 <= self.end);
        }
    }

    /// What was read and what is buffered together never exceed what was
    /// seen.
    proof fn lemma_total_within_end(&self, k: int)
        requires
            self.consistent(),
            0 <= k < self.chunks@.len(),
        ensures
            self.bytes_read + self.chunks@[k].bytes().len() <= self.end,
    {
        lemma_total_remove(self.chunks@, k);
        if self.recvd@.len() > 0 {
            lemma_total_bounded(self.recvd@);
            assert(self.recvd@[self.recvd@.len() - 1].1 <= self.end);
        } else {
            lemma_total_push(Seq::empty(), (0, 0));
            assert(self.recvd@ =~= Seq::empty());
        }
    }

    pub fn new() -> (r: Assembler)
        ensures
            r.wf(),
            r@ == (AssemblerView {
                buffered: Map::empty(),
                received: Seq::empty(),
                bytes_read: 0,
                end: 0,
                stopped: false,
                unordered: false,
            }),
    {
        let r = Assembler {
            chunks: Vec::new(),
            recvd: RangeSet::new(),
            bytes_read: 0,
            end: 0,
            stopped: false,
            unordered: false,
        };
        proof {
            lemma_total_push(Seq::empty(), (0, 0));
            assert(r.recvd@ =~= Seq::empty());
            r.lemma_view_inv();
        }
        r
    }

    /// One more than the highest offset ever seen.
    pub fn end(&self) -> (r: u64)
        ensures
            r == self@.end,
    {
        self.end
    }

    /// Number of bytes handed to the reader.
    pub fn bytes_read(&self) -> (r: u64)
        ensures
            r == self@.bytes_read,
    {
        self.bytes_read
    }

    pub fn is_stopped(&self) -> (r: bool)
        ensures
            r == self@.stopped,
    {
        self.stopped
    }

    /// Whether everything seen so far was read.
    pub fn is_fully_read(&self) -> (r: bool)
        requires
            self.wf(),
        ensures
            r == self@.is_fully_read(),
    {
        proof {
            if self.chunks@.len() > 0 {
                let c = self.chunks@[0];
                assert(c.covers(c.offset as int));
                lemma_map_dom(self.chunks@, c.offset as int);
            }
        }
        self.bytes_read == self.end && self.chunks.len() == 0
    }

    /// Takes in the bytes `data` of the offsets from `offset` on. A byte
    /// whose offset was received before is dropped; once stopped, all are.
    pub fn insert(&mut self, offset: u64, data: Bytes)
        requires
            old(self).wf(),
            offset + bytes_contents(data).len() <= u64::MAX,
        ensures
            final(self).wf(),
            old(self)@.insert_result(final(self)@, offset, bytes_contents(data)),
    {
        let len = bytes_len(&data);
        let end = offset + len as u64;
        let ghost bytes = bytes_contents(data);
        if end > self.end {
            self.end = end;
        }
        if self.stopped {
            proof {
                self.lemma_view_inv();
            }
            return ;
        }
        let gaps = self.recvd.gaps(offset, end);
        let ghost pre = *self;
        let n = gaps.len();
        let mut m: usize = 0;
        proof {
            assert(chunks_map(self.chunks@) =~= chunks_map(pre.chunks@).union_prefer_right(
                Map::new(
                    |x: int| ranges_contain(gaps@.take(0), x),
                    |x: int| bytes[x - offset],
                ),
            ));
        }
        while m < n
            invariant
                n == gaps@.len(),
                m <= n,
                pre.consistent(),
                bytes == bytes_contents(data),
                bytes.len() == len,
                end == offset + bytes.len(),
                self.bytes_read == pre.bytes_read,
                self.end == pre.end >= end,
                self.stopped == pre.stopped,
                self.unordered == pre.unordered,
                ranges_wf(gaps@),
                forall|q: int|
                    0 <= q < gaps@.len() ==> offset <= (#[trigger] gaps@[q]).0 && gaps@[q].1 <= end,
                forall|x: int|
                    ranges_contain(gaps@, x) <==> (offset <= x < end && !ranges_contain(
                        pre.recvd@,
                        x,
                    )),
                chunks_disjoint(self.chunks@),
                self.recvd.wf(),
                forall|x: int|
                    ranges_contain(self.recvd@, x) <==> (ranges_contain(pre.recvd@, x)
                        || ranges_contain(gaps@.take(m as int), x)),
                forall|k: int, x: int|
                    0 <= k < self.chunks@.len() && (#[trigger] self.chunks@[k]).covers(x)
                        ==> #[trigger] ranges_contain(self.recvd@, x),
                self.bytes_read + chunks_total(self.chunks@) <= ranges_total(self.recvd@),
                !self.unordered ==> forall|k: int|
                    0 <= k < self.chunks@.len() ==> (#[trigger] self.chunks@[k]).offset
                        >= self.bytes_read,
                chunks_map(self.chunks@) == chunks_map(pre.chunks@).union_prefer_right(
                    Map::new(
                        |x: int| ranges_contain(gaps@.take(m as int), x),
                        |x: int| bytes[x - offset],
                    ),
                ),
            decreases n - m,
        {
            let gap = gaps[m];
            let ghost cs0 = self.chunks@;
            let ghost rs0 = self.recvd@;
            let ghost m0 = m as int;
            proof {
                assert(forall|x: int|
                    ranges_contain(rs0, x) <==> (ranges_contain(pre.recvd@, x) || ranges_contain(
                        gaps@.take(m0),
                        x,
                    )));
                assert(gaps@[m as int].0 < gaps@[m as int].1);
                assert forall|x: int| gap.0 <= x < gap.1 implies !ranges_contain(rs0, x) by {
                    assert(gaps@[m as int].0 <= x < gaps@[m as int].1);
                    assert(ranges_contain(gaps@, x));
                    if ranges_contain(gaps@.take(m as int), x) {
                        let q = choose|q: int|
                            0 <= q < m && (#[trigger] gaps@.take(m as int)[q]).0 <= x
                                < gaps@.take(m as int)[q].1;
                        assert(gaps@.take(m as int)[q] == gaps@[q]);
                        assert(gaps@[q].1 < gaps@[m as int].0);
                    }
                }
                assert(ranges_miss(rs0, gap.0, gap.1));
            }
            let _ = self.recvd.insert(gap.0, gap.1);
            let piece = bytes_slice(&data, (gap.0 - offset) as usize, (gap.1 - offset) as usize);
            let chunk = Chunk { offset: gap.0, data: piece };
            self.chunks.push(chunk);
            m += 1;
            proof {
                let cs1 = self.chunks@;
                let rs1 = self.recvd@;
                assert(cs1.drop_last() =~= cs0);
                assert(cs1.last() == chunk);
                assert(chunk.bytes().len() == gap.1 - gap.0);
                assert forall|x: int|
                    ranges_contain(rs1, x) <==> (ranges_contain(pre.recvd@, x) || ranges_contain(
                        gaps@.take(m as int),
                        x,
                    )) by {
                    lemma_contain_take(gaps@, m0, x);
                    assert(gaps@.take(m0 + 1) == gaps@.take(m as int));
                    assert(ranges_contain(rs0, x) <==> (ranges_contain(pre.recvd@, x)
                        || ranges_contain(gaps@.take(m0), x)));
                    assert(ranges_contain(rs1, x) <==> (ranges_contain(rs0, x) || gap.0 <= x
                        < gap.1));
                }
                assert forall|k: int| 0 <= k < cs1.len() implies (#[trigger] cs1[k]).bytes().len()
                    > 0 by {
                    if k < cs0.len() {
                        assert(cs1[k] == cs0[k]);
                    }
                }
                assert forall|a: int, b: int| 0 <= a < b < cs1.len() implies (
                #[trigger] cs1[a]).end() <= (#[trigger] cs1[b]).offset || cs1[b].end()
                    <= cs1[a].offset by {
                    assert(cs1[a] == cs0[a]);
                    if b < cs0.len() {
                        assert(cs1[b] == cs0[b]);
                    } else {
                        // An old chunk holds only offsets received before, the
                        // new one only offsets that were not.
                        let c = cs0[a];
                        if !(c.end() <= gap.0 || gap.1 <= c.offset) {
                            let x = if c.offset < gap.0 {
                                gap.0 as int
                            } else {
                                c.offset as int
                            };
                            assert(c.covers(x));
                            assert(ranges_contain(rs0, x));
                        }
                    }
                }
                assert forall|k: int, x: int|
                    0 <= k < cs1.len() && (#[trigger] cs1[k]).covers(x) implies #[trigger] ranges_contain(
                    rs1,
                    x,
                ) by {
                    if k < cs0.len() {
                        assert(cs1[k] == cs0[k]);
                        assert(ranges_contain(rs0, x));
                    }
                }
                if !self.unordered {
                    assert forall|k: int| 0 <= k < cs1.len() implies (#[trigger] cs1[k]).offset
                        >= self.bytes_read by {
                        if k < cs0.len() {
                            assert(cs1[k] == cs0[k]);
                        } else {
                            if gap.0 < self.bytes_read {
                                assert(ranges_contain(pre.recvd@, gap.0 as int));
                                assert(ranges_contain(rs0, gap.0 as int));
                            }
                        }
                    }
                }
                assert(chunks_map(cs1) =~= chunks_map(pre.chunks@).union_prefer_right(
                    Map::new(
                        |x: int| ranges_contain(gaps@.take(m as int), x),
                        |x: int| bytes[x - offset],
                    ),
                )) by {
                    assert(gaps@.take(m0 + 1) == gaps@.take(m as int));
                    assert forall|x: int| true implies (ranges_contain(gaps@.take(m as int), x)
                        <==> (ranges_contain(gaps@.take(m0), x) || gap.0 <= x < gap.1)) by {
                        lemma_contain_take(gaps@, m0, x);
                    }
                }
            }
        }
        proof {
            assert(gaps@.take(n as int) =~= gaps@);
            assert forall|x: int| ranges_contain(self.recvd@, x) implies x < self.end by {
                if ranges_contain(pre.recvd@, x) {
                    let q = choose|q: int|
                        0 <= q < pre.recvd@.len() && (#[trigger] pre.recvd@[q]).0 <= x
                            < pre.recvd@[q].1;
                    assert(pre.recvd@[q].1 <= pre.end);
                }
            }
            lemma_ranges_below(self.recvd@, self.end);
            assert forall|x: int|
                ranges_contain(self.recvd@, x) <==> (ranges_contain(old(self).recvd@, x) || offset
                    <= x < offset + bytes.len()) by {
                assert(ranges_contain(self.recvd@, x) <==> (ranges_contain(pre.recvd@, x)
                    || ranges_contain(gaps@, x)));
            }
            if !self.unordered {
                assert forall|x: int| 0 <= x < self.bytes_read implies ranges_contain(
                    self.recvd@,
                    x,
                ) by {
                    assert(ranges_contain(pre.recvd@, x));
                }
            }
            self.lemma_view_inv();
            assert(self@.buffered =~= old(self)@.buffered.union_prefer_right(
                old(self)@.fresh_part(offset, bytes),
            ));
        }
    }

    /// The position of the chunk that starts at `offset`, if there is one.
    fn find_chunk(&self, offset: u64) -> (r: Option<usize>)
        ensures
            match r {
                Some(k) => k < self.chunks@.len() && self.chunks@[k as int].offset == offset,
                None => forall|k: int|
                    0 <= k < self.chunks@.len() ==> (#[trigger] self.chunks@[k]).offset != offset,
            },
    {
        let n = self.chunks.len();
        let mut k: usize = 0;
        while k < n
            invariant
                n == self.chunks@.len(),
                k <= n,
                forall|j: int| 0 <= j < k ==> (#[trigger] self.chunks@[j]).offset != offset,
            decreases n - k,
        {
            if self.chunks[k].offset == offset {
                return Some(k);
            }
            k += 1;
        }
        None
    }

    /// Takes the first `n` bytes of chunk `k` out of the buffer, after
    /// copying them to `buf` from position `at` on.
    fn take_front(&mut self, k: usize, n: usize, buf: &mut [u8], at: usize)
        requires
            old(self).wf(),
            k < old(self).chunks@.len(),
            0 < n <= old(self).chunks@[k as int].bytes().len(),
            at + n <= old(buf)@.len(),
            !old(self).unordered,
            old(self).chunks@[k as int].offset == old(self).bytes_read,
        ensures
            final(self).wf(),
            final(self)@ == old(self)@.after_read(n as int),
            final(self).bytes_read == old(self).bytes_read + n,
            final(buf)@.len() == old(buf)@.len(),
            forall|i: int|
                0 <= i < old(buf)@.len() ==> #[trigger] final(buf)@[i] == (if at <= i < at + n {
                    old(self).chunks@[k as int].bytes()[i - at]
                } else {
                    old(buf)@[i]
                }),
    {
        let ghost cs = self.chunks@;
        let ghost c = cs[k as int];
        proof {
            self.lemma_total_within_end(k as int);
            assert(c.covers(c.end() - 1));
            assert(ranges_contain(self.recvd@, c.end() - 1));
            let q = choose|q: int|
                0 <= q < self.recvd@.len() && (#[trigger] self.recvd@[q]).0 <= c.end() - 1
                    < self.recvd@[q].1;
            assert(self.recvd@[q].1 <= self.end);
        }
        let room = buf.len();
        let chunk = self.chunks.remove(k);
        let len = bytes_len(&chunk.data);
        let src = bytes_as_slice(&chunk.data);
        let mut i: usize = 0;
        while i < n
            invariant
                i <= n <= src@.len(),
                at + n <= buf@.len() == room,
                buf@.len() == old(buf)@.len(),
                forall|j: int|
                    0 <= j < buf@.len() ==> #[trigger] buf@[j] == (if at <= j < at + i {
                        src@[j - at]
                    } else {
                        old(buf)@[j]
                    }),
            decreases n - i,
        {
            buf[at + i] = src[i];
            i += 1;
        }
        let ghost tail = chunk;
        if n < len {
            let rest = Chunk { offset: chunk.offset + n as u64, data: bytes_slice(&chunk.data, n, len) };
            proof {
                tail = rest;
            }
            self.chunks.push(rest);
        }
        self.bytes_read = self.bytes_read + n as u64;
        proof {
            let after = self.chunks@;
            assert(consumed(cs, k as int, n as int, tail, after));
            lemma_consume(cs, k as int, n as int, tail, after);
            assert forall|j: int, x: int|
                0 <= j < after.len() && (#[trigger] after[j]).covers(x) implies #[trigger] ranges_contain(
                self.recvd@,
                x,
            ) by {
                assert(chunks_cover(cs, x));
                let q = choose|q: int| 0 <= q < cs.len() && (#[trigger] cs[q]).covers(x);
                assert(ranges_contain(self.recvd@, x));
            }
            if !self.unordered {
                assert forall|x: int| 0 <= x < self.bytes_read implies ranges_contain(
                    self.recvd@,
                    x,
                ) by {
                    if x >= c.offset {
                        assert(cs[k as int].covers(x));
                    }
                }
                assert forall|j: int| 0 <= j < after.len() implies (#[trigger] after[j]).offset
                    >= self.bytes_read by {
                    assert(after[j].offset >= c.offset + n || after[j].end() <= c.offset);
                    if after[j].end() <= c.offset {
                        assert(after[j].covers(after[j].offset as int));
                        assert(chunks_cover(cs, after[j].offset as int));
                        let q = choose|q: int|
                            0 <= q < cs.len() && (#[trigger] cs[q]).covers(after[j].offset as int);
                        assert(cs[q].offset >= old(self).bytes_read);
                    }
                }
            }
            assert(self.consistent());
            self.lemma_view_inv();
        }
    }

    /// Reads in order: copies to the front of `buf` the bytes that follow
    /// those read so far, as many as are buffered without a hole and fit.
    /// Fails once an unordered read was made.
    pub fn read(&mut self, buf: &mut [u8]) -> (r: Result<usize, IllegalOrderedRead>)
        requires
            old(self).wf(),
        ensures
            final(self).wf(),
            final(buf)@.len() == old(buf)@.len(),
            old(self)@.unordered ==> r.is_err() && *final(self) == *old(self) && final(buf)@ == old(
                buf)@,
            r.is_ok() && r.unwrap() == 0 ==> *final(self) == *old(self),
            r.is_ok() ==> old(self)@.bytes_read + r.unwrap() <= old(self)@.end,
            !old(self)@.unordered ==> r.is_ok() && old(self)@.readable(
                old(buf)@.len() as int,
                r.unwrap() as int,
            ) && final(self)@ == old(self)@.after_read(r.unwrap() as int),
            r.is_ok() ==> forall|i: int|
                0 <= i < old(buf)@.len() ==> #[trigger] final(buf)@[i] == (if i < r.unwrap() {
                    old(self)@.buffered[old(self)@.bytes_read + i]
                } else {
                    old(buf)@[i]
                }),
    {
        if self.unordered {
            return Err(IllegalOrderedRead);
        }
        let ghost pre = *self;
        let mut read: usize = 0;
        let room = buf.len();
        proof {
            assert(self@.buffered =~= pre@.after_read(0).buffered);
        }
        loop
            invariant_except_break
                read < room || read == room,
            invariant
                room == old(buf)@.len(),
                buf@.len() == room,
                read <= room,
                pre.wf(),
                !pre.unordered,
                self.wf(),
                self@ == pre@.after_read(read as int),
                read == 0 ==> *self == pre,
                self.bytes_read == pre.bytes_read + read,
                forall|x: int|
                    pre.bytes_read <= x < pre.bytes_read + read ==> pre@.buffered.contains_key(x),
                forall|i: int|
                    0 <= i < room ==> #[trigger] buf@[i] == (if i < read {
                        pre@.buffered[pre.bytes_read + i]
                    } else {
                        old(buf)@[i]
                    }),
            ensures
                pre@.readable(room as int, read as int),
            decreases room - read,
        {
            if read == room {
                break ;
            }
            let found = self.find_chunk(self.bytes_read);
            match found {
                None => {
                    proof {
                        let x = self.bytes_read as int;
                        lemma_map_dom(self.chunks@, x);
                        if chunks_cover(self.chunks@, x) {
                            let k = choose|k: int|
                                0 <= k < self.chunks@.len() && (#[trigger] self.chunks@[k]).covers(
                                    x,
                                );
                            assert(self.chunks@[k].offset >= self.bytes_read);
                        }
                    }
                    break ;
                },
                Some(k) => {
                    let len = bytes_len(&self.chunks[k].data);
                    let n = if len <= room - read {
                        len
                    } else {
                        room - read
                    };
                    let ghost mid = *self;
                    let ghost c = self.chunks@[k as int];
                    let ghost buf0 = buf@;
                    proof {
                        assert(c.bytes().len() > 0);
                        assert forall|x: int| c.offset <= x < c.offset + n implies #[trigger] mid@.buffered.contains_key(
                            x,
                        ) && mid@.buffered[x] == c.bytes()[x - c.offset] by {
                            assert(c.covers(x));
                            lemma_map_value(mid.chunks@, k as int, x);
                        }
                    }
                    self.take_front(k, n, buf, read);
                    proof {
                        assert(self@.buffered =~= pre@.after_read(read + n).buffered);
                        assert forall|x: int|
                            pre.bytes_read <= x < pre.bytes_read + read + n implies pre@.buffered.contains_key(
                            x,
                        ) by {
                            if x >= pre.bytes_read + read {
                                assert(mid@.buffered.contains_key(x));
                            }
                        }
                        assert forall|i: int| 0 <= i < room implies #[trigger] buf@[i] == (if i
                            < read + n {
                            pre@.buffered[pre.bytes_read + i]
                        } else {
                            old(buf)@[i]
                        }) by {
                            assert(buf0[i] == (if i < read {
                                pre@.buffered[pre.bytes_read + i]
                            } else {
                                old(buf)@[i]
                            }));
                            if read <= i < read + n {
                                let x = pre.bytes_read + i;
                                assert(mid@.buffered.contains_key(x));
                                assert(mid@.buffered[x] == c.bytes()[x - c.offset]);
                            }
                        }
                    }
                    read = read + n;
                },
            }
        }
        Ok(read)
    }

    /// Reads out of order: hands out one buffered fragment with the offset
    /// of its first byte, or nothing when nothing is buffered. Ordered
    /// reads fail from now on.
    pub fn read_unordered(&mut self) -> (r: Option<(u64, Bytes)>)
        requires
            old(self).wf(),
        ensures
            final(self).wf(),
            match r {
                None => old(self)@.buffered == Map::<int, u8>::empty() && final(self)@ == (
                AssemblerView { unordered: true, ..old(self)@ }),
                Some((offset, data)) => {
                    &&& bytes_contents(data).len() > 0
                    &&& old(self)@.bytes_read + bytes_contents(data).len() <= old(self)@.end
                    &&& forall|x: int|
                        offset <= x < offset + bytes_contents(data).len() ==> #[trigger] old(self)@.buffered.contains_key(x) && old(self)@.buffered[x] == bytes_contents(
                            data,
                        )[x - offset]
                    &&& final(self)@ == old(self)@.after_read_unordered(
                        offset,
                        bytes_contents(data).len() as int,
                    )
                },
            },
    {
        let ghost cs = self.chunks@;
        proof {
            if cs.len() > 0 {
                self.lemma_total_within_end(cs.len() - 1);
            }
        }
        self.unordered = true;
        match self.chunks.pop() {
            None => {
                assert(cs =~= Seq::empty());
                proof {
                    self.lemma_view_inv();
                }
                None
            },
            Some(chunk) => {
                let len = bytes_len(&chunk.data);
                proof {
                    let k = cs.len() - 1;
                    assert(cs[k] == chunk);
                    assert(self.chunks@ =~= cs.remove(k));
                    assert(consumed(cs, k, len as int, chunk, self.chunks@));
                    lemma_consume(cs, k, len as int, chunk, self.chunks@);
                    assert forall|x: int|
                        chunk.offset <= x < chunk.offset + len implies #[trigger] old(self)@.buffered.contains_key(x) && old(self)@.buffered[x] == chunk.bytes()[x
                        - chunk.offset] by {
                        assert(cs[k].covers(x));
                        lemma_map_value(cs, k, x);
                    }
                    assert forall|j: int, x: int|
                        0 <= j < self.chunks@.len() && (#[trigger] self.chunks@[j]).covers(
                            x,
                        ) implies #[trigger] ranges_contain(self.recvd@, x) by {
                        assert(chunks_cover(cs, x));
                        let q = choose|q: int| 0 <= q < cs.len() && (#[trigger] cs[q]).covers(x);
                        assert(ranges_contain(self.recvd@, x));
                    }
                }
                self.bytes_read = self.bytes_read + len as u64;
                proof {
                    assert(self.consistent());
                    self.lemma_view_inv();
                }
                Some((chunk.offset, chunk.data))
            },
        }
    }

    /// Gives up reading: drops what is buffered and buffers nothing from
    /// now on.
    pub fn stop(&mut self)
        requires
            old(self).wf(),
        ensures
            final(self).wf(),
            final(self)@ == (AssemblerView {
                buffered: Map::empty(),
                stopped: true,
                ..old(self)@
            }),
    {
        self.stopped = true;
        self.chunks.clear();
        proof {
            self.lemma_view_inv();
        }
    }

    /// Drops what is buffered.
    pub fn clear(&mut self)
        requires
            old(self).wf(),
        ensures
            final(self).wf(),
            final(self)@ == (AssemblerView { buffered: Map::empty(), ..old(self)@ }),
    {
        self.chunks.clear();
        proof {
            self.lemma_view_inv();
        }
    }
}

} // verus!
