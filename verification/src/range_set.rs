//! Sets of offsets kept as sorted, separated half-open ranges.
use vstd::prelude::*;

verus! {

/// The ranges are non-empty, in increasing order, and no two touch.
pub open spec fn ranges_wf(r: Seq<(u64, u64)>) -> bool {
    &&& forall|k: int| 0 <= k < r.len() ==> (#[trigger] r[k]).0 < r[k].1
    &&& forall|a: int, b: int| 0 <= a < b < r.len() ==> (#[trigger] r[a]).1 < (#[trigger] r[b]).0
}

/// Whether some range holds `x`.
pub open spec fn ranges_contain(r: Seq<(u64, u64)>, x: int) -> bool {
    exists|k: int| 0 <= k < r.len() && (#[trigger] r[k]).0 <= x < r[k].1
}

/// Sum of the lengths of the ranges.
pub open spec fn ranges_total(r: Seq<(u64, u64)>) -> nat
    decreases r.len(),
{
    if r.len() == 0 {
        0
    } else {
        ranges_total(r.drop_last()) + (r.last().1 - r.last().0) as nat
    }
}

/// The total of a concatenation is the sum of the totals.
pub proof fn lemma_total_concat(a: Seq<(u64, u64)>, b: Seq<(u64, u64)>)
    ensures
        ranges_total(a + b) == ranges_total(a) + ranges_total(b),
    decreases b.len(),
{
    if b.len() == 0 {
        assert(a + b =~= a);
    } else {
        assert((a + b).drop_last() =~= a + b.drop_last());
        lemma_total_concat(a, b.drop_last());
    }
}

/// Appending one range adds its length to the total.
pub proof fn lemma_total_push(r: Seq<(u64, u64)>, x: (u64, u64))
    requires
        x.0 <= x.1,
    ensures
        ranges_total(r.push(x)) == ranges_total(r) + (x.1 - x.0),
        ranges_total(Seq::<(u64, u64)>::empty()) == 0,
{
    assert(r.push(x).drop_last() =~= r);
}

/// Well-formed ranges stay well-formed when the last one is left out.
pub proof fn lemma_wf_drop_last(r: Seq<(u64, u64)>)
    requires
        ranges_wf(r),
        r.len() > 0,
    ensures
        ranges_wf(r.drop_last()),
{
    let p = r.drop_last();
    assert forall|a: int, b: int| 0 <= a < b < p.len() implies (#[trigger] p[a]).1 < (
    #[trigger] p[b]).0 by {
        assert(p[a] == r[a] && p[b] == r[b]);
    }
    assert forall|k: int| 0 <= k < p.len() implies (#[trigger] p[k]).0 < p[k].1 by {
        assert(p[k] == r[k]);
    }
}

/// A sequence of well-formed ranges spans at least its total.
pub proof fn lemma_total_bounded(r: Seq<(u64, u64)>)
    requires
        ranges_wf(r),
        r.len() > 0,
    ensures
        ranges_total(r) <= r.last().1 - r.first().0,
    decreases r.len(),
{
    let p = r.drop_last();
    if r.len() > 1 {
        lemma_wf_drop_last(r);
        lemma_total_bounded(p);
        assert(p.last() == r[r.len() - 2]);
        assert(p.first() == r[0]);
        assert(r[r.len() - 2].1 < r[r.len() - 1].0);
        assert(r[r.len() - 1].0 < r[r.len() - 1].1);
    } else {
        assert(ranges_total(p) == 0);
        assert(r[0].0 < r[0].1);
    }
}

/// No offset of `start..end` is in the ranges.
pub open spec fn ranges_miss(r: Seq<(u64, u64)>, start: u64, end: u64) -> bool {
    forall|x: int| start <= x < end ==> !ranges_contain(r, x)
}

/// What `RangeSet::insert` builds: the ranges `pre[i..j]` are replaced by
/// the one range `(s, e)` that spans them and `start..end`.
pub open spec fn insert_shape(
    pre: Seq<(u64, u64)>,
    post: Seq<(u64, u64)>,
    i: int,
    j: int,
    s: u64,
    e: u64,
    start: u64,
    end: u64,
) -> bool {
    &&& ranges_wf(pre)
    &&& start < end
    &&& 0 <= i <= j <= pre.len()
    &&& post.len() == i + 1 + (pre.len() - j)
    &&& forall|m: int| 0 <= m < i ==> #[trigger] post[m] == pre[m]
    &&& post[i] == (s, e)
    &&& forall|m: int| i < m < post.len() ==> #[trigger] post[m] == pre[m - i - 1 + j]
    &&& forall|m: int| 0 <= m < i ==> (#[trigger] pre[m]).1 < start
    &&& forall|m: int| i <= m < j ==> (#[trigger] pre[m]).0 <= end && pre[m].1 >= start
    &&& forall|m: int| j <= m < pre.len() ==> (#[trigger] pre[m]).0 > end
    &&& i == j ==> s == start && e == end
    &&& i < j ==> s == (if pre[i].0 < start {
        pre[i].0
    } else {
        start
    }) && e == (if pre[j - 1].1 > end {
        pre[j - 1].1
    } else {
        end
    })
}

proof fn lemma_insert_wf(
    pre: Seq<(u64, u64)>,
    post: Seq<(u64, u64)>,
    i: int,
    j: int,
    s: u64,
    e: u64,
    start: u64,
    end: u64,
)
    requires
        insert_shape(pre, post, i, j, s, e, start, end),
    ensures
        ranges_wf(post),
{
    if i < j {
        assert(pre[i].0 < pre[i].1);
        assert(pre[j - 1].0 < pre[j - 1].1);
    }
    assert forall|m: int| 0 <= m < post.len() implies (#[trigger] post[m]).0 < post[m].1 by {
        if m < i {
            assert(post[m] == pre[m]);
            assert(pre[m].0 < pre[m].1);
        } else if m > i {
            assert(post[m] == pre[m - i - 1 + j]);
            assert(pre[m - i - 1 + j].0 < pre[m - i - 1 + j].1);
        }
    }
    assert forall|a: int, b: int| 0 <= a < b < post.len() implies (#[trigger] post[a]).1 < (
    #[trigger] post[b]).0 by {
        if b < i {
            assert(post[a] == pre[a] && post[b] == pre[b]);
            assert(pre[a].1 < pre[b].0);
        } else if a > i {
            assert(post[a] == pre[a - i - 1 + j]);
            assert(post[b] == pre[b - i - 1 + j]);
            assert(pre[a - i - 1 + j].1 < pre[b - i - 1 + j].0);
        } else if a < i && b > i {
            assert(post[a] == pre[a]);
            assert(post[b] == pre[b - i - 1 + j]);
            assert(pre[a].1 < pre[b - i - 1 + j].0);
        } else if a < i {
            assert(post[a] == pre[a]);
            assert(pre[a].1 < start);
            if i < j {
                assert(pre[a].1 < pre[i].0);
            }
        } else {
            assert(post[b] == pre[b - i - 1 + j]);
            assert(pre[b - i - 1 + j].0 > end);
            if i < j {
                assert(pre[j - 1].1 < pre[b - i - 1 + j].0);
            }
        }
    }
}

proof fn lemma_insert_contains(
    pre: Seq<(u64, u64)>,
    post: Seq<(u64, u64)>,
    i: int,
    j: int,
    s: u64,
    e: u64,
    start: u64,
    end: u64,
    x: int,
)
    requires
        insert_shape(pre, post, i, j, s, e, start, end),
    ensures
        ranges_contain(post, x) <==> (ranges_contain(pre, x) || start <= x < end),
{
    if i < j {
        assert(pre[i].0 < pre[i].1);
        assert(pre[j - 1].0 < pre[j - 1].1);
    }
    if ranges_contain(post, x) {
        let m = choose|m: int| 0 <= m < post.len() && (#[trigger] post[m]).0 <= x < post[m].1;
        if m < i {
            assert(post[m] == pre[m]);
            assert(pre[m].0 <= x < pre[m].1);
        } else if m > i {
            assert(post[m] == pre[m - i - 1 + j]);
            assert(pre[m - i - 1 + j].0 <= x < pre[m - i - 1 + j].1);
        } else if x < start {
            assert(pre[i].0 <= x < pre[i].1);
        } else if x >= end {
            assert(pre[j - 1].0 <= x < pre[j - 1].1);
        }
    }
    if ranges_contain(pre, x) {
        let m = choose|m: int| 0 <= m < pre.len() && (#[trigger] pre[m]).0 <= x < pre[m].1;
        if m < i {
            assert(post[m] == pre[m]);
            assert(post[m].0 <= x < post[m].1);
        } else if m >= j {
            assert(post[m - j + i + 1] == pre[m]);
            assert(post[m - j + i + 1].0 <= x < post[m - j + i + 1].1);
        } else {
            assert(pre[i].0 <= pre[m].0) by {
                if m > i {
                    assert(pre[i].1 < pre[m].0);
                }
            }
            assert(pre[m].1 <= pre[j - 1].1) by {
                if m < j - 1 {
                    assert(pre[m].1 < pre[j - 1].0);
                }
            }
            assert(post[i].0 <= x < post[i].1);
        }
    }
    if start <= x < end {
        assert(post[i].0 <= x < post[i].1);
    }
}

proof fn lemma_insert_total(
    pre: Seq<(u64, u64)>,
    post: Seq<(u64, u64)>,
    i: int,
    j: int,
    s: u64,
    e: u64,
    start: u64,
    end: u64,
)
    requires
        insert_shape(pre, post, i, j, s, e, start, end),
    ensures
        ranges_total(post) + ranges_total(pre.subrange(i, j)) == ranges_total(pre) + (e - s),
{
    let n = pre.len() as int;
    let head = pre.subrange(0, i);
    let body = pre.subrange(i, j);
    let tail = pre.subrange(j, n);
    if i < j {
        assert(pre[i].0 < pre[i].1);
        assert(pre[j - 1].0 < pre[j - 1].1);
    }
    assert(post =~= head + seq![(s, e)] + tail);
    assert(pre =~= head + body + tail);
    lemma_total_concat(head, seq![(s, e)]);
    lemma_total_concat(head + seq![(s, e)], tail);
    lemma_total_concat(head, body);
    lemma_total_concat(head + body, tail);
    lemma_total_push(Seq::<(u64, u64)>::empty(), (s, e));
    assert(Seq::<(u64, u64)>::empty().push((s, e)) =~= seq![(s, e)]);
}

/// What `RangeSet::gaps` has found once it has looked at everything below
/// `cursor`.
pub open spec fn gaps_upto(
    pre: Seq<(u64, u64)>,
    g: Seq<(u64, u64)>,
    start: u64,
    end: u64,
    cursor: u64,
) -> bool {
    &&& ranges_wf(g)
    &&& forall|m: int| 0 <= m < g.len() ==> start <= (#[trigger] g[m]).0 && g[m].1 <= end
    &&& g.len() > 0 ==> g.last().1 <= cursor
    &&& forall|x: int|
        ranges_contain(g, x) <==> (start <= x < cursor && x < end && !ranges_contain(pre, x))
}

/// Moving the cursor over offsets that are all in the set finds no gap.
proof fn lemma_gaps_skip(
    pre: Seq<(u64, u64)>,
    g: Seq<(u64, u64)>,
    start: u64,
    end: u64,
    c0: u64,
    c1: u64,
)
    requires
        gaps_upto(pre, g, start, end, c0),
        c0 <= c1,
        forall|x: int| c0 <= x < c1 && x < end ==> ranges_contain(pre, x),
    ensures
        gaps_upto(pre, g, start, end, c1),
{
}

/// Appending the gap `c0..hi`, none of whose offsets is in the set.
proof fn lemma_gaps_push(
    pre: Seq<(u64, u64)>,
    g: Seq<(u64, u64)>,
    start: u64,
    end: u64,
    c0: u64,
    hi: u64,
)
    requires
        gaps_upto(pre, g, start, end, c0),
        start <= c0 < hi <= end,
        g.len() > 0 ==> g.last().1 < c0,
        forall|x: int| c0 <= x < hi ==> !ranges_contain(pre, x),
    ensures
        gaps_upto(pre, g.push((c0, hi)), start, end, hi),
{
    let g1 = g.push((c0, hi));
    assert forall|a: int, b: int| 0 <= a < b < g1.len() implies (#[trigger] g1[a]).1 < (
    #[trigger] g1[b]).0 by {
        if b == g.len() {
            assert(g[a].1 <= g.last().1) by {
                if a < g.len() - 1 {
                    assert(g[a].1 < g[g.len() - 1].0);
                    assert(g[g.len() - 1].0 < g[g.len() - 1].1);
                }
            }
        } else {
            assert(g1[a] == g[a] && g1[b] == g[b]);
        }
    }
    assert forall|m: int| 0 <= m < g1.len() implies (#[trigger] g1[m]).0 < g1[m].1 && start
        <= g1[m].0 && g1[m].1 <= end by {
        if m < g.len() {
            assert(g1[m] == g[m]);
        }
    }
    assert forall|x: int|
        ranges_contain(g1, x) <==> (start <= x < hi && x < end && !ranges_contain(pre, x)) by {
        if ranges_contain(g1, x) {
            let m = choose|m: int| 0 <= m < g1.len() && (#[trigger] g1[m]).0 <= x < g1[m].1;
            if m < g.len() {
                assert(g1[m] == g[m]);
                assert(g[m].0 <= x < g[m].1);
                assert(ranges_contain(g, x));
            }
        }
        if start <= x < hi && x < end && !ranges_contain(pre, x) {
            if x < c0 {
                assert(ranges_contain(g, x));
                let m = choose|m: int| 0 <= m < g.len() && (#[trigger] g[m]).0 <= x < g[m].1;
                assert(g1[m] == g[m]);
                assert(g1[m].0 <= x < g1[m].1);
            } else {
                assert(g1[g1.len() - 1].0 <= x < g1[g1.len() - 1].1);
            }
        }
    }
}

/// A set of `u64` offsets.
pub struct RangeSet {
    ranges: Vec<(u64, u64)>,
}

impl View for RangeSet {
    type V = Seq<(u64, u64)>;

    /// The ranges, lowest first.
    closed spec fn view(&self) -> Seq<(u64, u64)> {
        self.ranges@
    }
}

impl RangeSet {
    pub open spec fn wf(&self) -> bool {
        ranges_wf(self@)
    }

    /// Number of offsets in the set.
    pub open spec fn total(&self) -> nat {
        ranges_total(self@)
    }

    pub fn new() -> (r: RangeSet)
        ensures
            r@.len() == 0,
            r.wf(),
    {
        RangeSet { ranges: Vec::new() }
    }

    pub fn is_empty(&self) -> (r: bool)
        ensures
            r == (self@.len() == 0),
    {
        self.ranges.len() == 0
    }

    /// Number of ranges.
    pub fn len(&self) -> (r: usize)
        ensures
            r == self@.len(),
    {
        self.ranges.len()
    }

    /// The range at position `k`, counted from the lowest.
    pub fn get(&self, k: usize) -> (r: (u64, u64))
        requires
            k < self@.len(),
        ensures
            r == self@[k as int],
    {
        self.ranges[k]
    }

    /// The lowest range, if any.
    pub fn peek_min(&self) -> (r: Option<(u64, u64)>)
        ensures
            r == (if self@.len() == 0 {
                None
            } else {
                Some(self@[0])
            }),
    {
        if self.ranges.len() == 0 {
            None
        } else {
            Some(self.ranges[0])
        }
    }

    /// Takes the lowest range out.
    pub fn pop_min(&mut self) -> (r: Option<(u64, u64)>)
        requires
            old(self).wf(),
        ensures
            final(self).wf(),
            old(self)@.len() == 0 ==> r.is_none() && final(self)@ == old(self)@,
            old(self)@.len() > 0 ==> r == Some(old(self)@[0]) && final(self)@ == old(self)@.skip(1),
    {
        if self.ranges.len() == 0 {
            None
        } else {
            let first = self.ranges.remove(0);
            assert(self.ranges@ =~= old(self).ranges@.skip(1));
            Some(first)
        }
    }

    /// Adds every offset from `start` up to, not including, `end`. Returns
    /// how many of them were not in the set before.
    pub fn insert(&mut self, start: u64, end: u64) -> (added: u64)
        requires
            old(self).wf(),
            start < end,
        ensures
            final(self).wf(),
            forall|x: int|
                ranges_contain(final(self)@, x) <==> (ranges_contain(old(self)@, x) || start <= x
                    < end),
            final(self).total() == old(self).total() + added,
            added <= end - start,
            ranges_miss(old(self)@, start, end) ==> added == end - start,
    {
        let ghost pre = self.ranges@;
        let n = self.ranges.len();
        let mut out: Vec<(u64, u64)> = Vec::new();
        let mut k: usize = 0;
        while k < n && self.ranges[k].1 < start
            invariant
                self.ranges@ == pre,
                n == pre.len(),
                k <= n,
                out@ == pre.subrange(0, k as int),
                forall|m: int| 0 <= m < k ==> (#[trigger] pre[m]).1 < start,
            decreases n - k,
        {
            out.push(self.ranges[k]);
            k += 1;
            assert(out@ =~= pre.subrange(0, k as int));
        }
        let i = k;
        let mut s: u64 = start;
        let mut e: u64 = end;
        let mut covered: u64 = 0;
        proof {
            lemma_total_push(Seq::<(u64, u64)>::empty(), (0, 0));
            assert(pre.subrange(i as int, i as int) =~= Seq::<(u64, u64)>::empty());
        }
        while k < n && self.ranges[k].0 <= end
            invariant
                self.ranges@ == pre,
                ranges_wf(pre),
                n == pre.len(),
                i <= k <= n,
                start < end,
                i < n ==> pre[i as int].1 >= start,
                k == i ==> s == start && e == end && covered == 0,
                k > i ==> s == (if pre[i as int].0 < start {
                    pre[i as int].0
                } else {
                    start
                }) && e == (if pre[k - 1].1 > end {
                    pre[k - 1].1
                } else {
                    end
                }) && covered <= pre[k - 1].1 - pre[i as int].0,
                covered == ranges_total(pre.subrange(i as int, k as int)),
                forall|m: int| i <= m < k ==> (#[trigger] pre[m]).0 <= end && pre[m].1 >= start,
                ranges_miss(pre, start, end) ==> covered == (start - s) + (e - end),
                covered >= (start - s) + (e - end),
                s <= start,
                e >= end,
            decreases n - k,
        {
            let r = self.ranges[k];
            proof {
                assert(pre[k as int].0 < pre[k as int].1);
                assert(pre.subrange(i as int, k + 1) =~= pre.subrange(i as int, k as int).push(r));
                lemma_total_push(pre.subrange(i as int, k as int), r);
                if k > i {
                    assert(pre[k - 1].1 < pre[k as int].0);
                    assert(pre[i as int].0 < pre[i as int].1);
                    if k - 1 > i {
                        assert(pre[i as int].1 < pre[k - 1].0);
                    }
                    assert(pre[k - 1].0 < pre[k - 1].1);
                    assert(pre[k - 1].1 >= start);
                }
                if ranges_miss(pre, start, end) {
                    // A range that shares no offset with `r` can only touch it.
                    if r.1 > start && r.0 < end {
                        let x = if r.0 < start {
                            start as int
                        } else {
                            r.0 as int
                        };
                        assert(pre[k as int].0 <= x < pre[k as int].1);
                        assert(ranges_contain(pre, x));
                    }
                }
            }
            if r.0 < s {
                s = r.0;
            }
            if r.1 > e {
                e = r.1;
            }
            covered = covered + (r.1 - r.0);
            k += 1;
        }
        let j = k;
        out.push((s, e));
        let ghost mid = out@;
        while k < n
            invariant
                self.ranges@ == pre,
                n == pre.len(),
                j <= k <= n,
                out@ == mid + pre.subrange(j as int, k as int),
            decreases n - k,
        {
            out.push(self.ranges[k]);
            k += 1;
            assert(out@ =~= mid + pre.subrange(j as int, k as int));
        }
        proof {
            let post = out@;
            assert(forall|m: int| j <= m < n ==> (#[trigger] pre[m]).0 > end) by {
                assert forall|m: int| j <= m < n implies (#[trigger] pre[m]).0 > end by {
                    if m > j {
                        assert(pre[j as int].1 < pre[m].0);
                        assert(pre[j as int].0 < pre[j as int].1);
                    }
                }
            }
            assert(insert_shape(pre, post, i as int, j as int, s, e, start, end));
            lemma_insert_wf(pre, post, i as int, j as int, s, e, start, end);
            lemma_insert_total(pre, post, i as int, j as int, s, e, start, end);
            assert forall|x: int|
                ranges_contain(post, x) <==> (ranges_contain(pre, x) || start <= x < end) by {
                lemma_insert_contains(pre, post, i as int, j as int, s, e, start, end, x);
            }
        }
        let added = (e - s) - covered;
        self.ranges = out;
        added
    }

    /// The parts of `start..end` that are not in the set, lowest first.
    pub fn gaps(&self, start: u64, end: u64) -> (g: Vec<(u64, u64)>)
        requires
            self.wf(),
            start <= end,
        ensures
            ranges_wf(g@),
            forall|m: int| 0 <= m < g@.len() ==> start <= (#[trigger] g@[m]).0 && g@[m].1 <= end,
            forall|x: int|
                ranges_contain(g@, x) <==> (start <= x < end && !ranges_contain(self@, x)),
    {
        let ghost pre = self.ranges@;
        let n = self.ranges.len();
        let mut g: Vec<(u64, u64)> = Vec::new();
        let mut cursor: u64 = start;
        let mut k: usize = 0;
        while k < n && self.ranges[k].0 < end
            invariant
                self.ranges@ == pre,
                ranges_wf(pre),
                n == pre.len(),
                k <= n,
                start <= cursor,
                start <= end,
                forall|m: int| 0 <= m < k ==> (#[trigger] pre[m]).1 <= cursor,
                gaps_upto(pre, g@, start, end, cursor),
                g@.len() > 0 ==> g@.last().1 < cursor,
            decreases n - k,
        {
            let r = self.ranges[k];
            proof {
                assert(pre[k as int].0 < pre[k as int].1);
            }
            if r.1 > cursor {
                if r.0 > cursor {
                    proof {
                        assert forall|x: int| cursor <= x < r.0 implies !ranges_contain(
                            pre,
                            x,
                        ) by {
                            if ranges_contain(pre, x) {
                                let q = choose|q: int|
                                    0 <= q < pre.len() && (#[trigger] pre[q]).0 <= x < pre[q].1;
                                if q > k {
                                    assert(pre[k as int].1 < pre[q].0);
                                }
                            }
                        }
                        lemma_gaps_push(pre, g@, start, end, cursor, r.0);
                    }
                    g.push((cursor, r.0));
                    cursor = r.0;
                }
                proof {
                    assert forall|x: int| cursor <= x < r.1 && x < end implies ranges_contain(
                        pre,
                        x,
                    ) by {
                        assert(pre[k as int].0 <= x < pre[k as int].1);
                    }
                    lemma_gaps_skip(pre, g@, start, end, cursor, r.1);
                }
                cursor = r.1;
            }
            k += 1;
        }
        if cursor < end {
            proof {
                assert forall|x: int| cursor <= x < end implies !ranges_contain(pre, x) by {
                    if ranges_contain(pre, x) {
                        let q = choose|q: int|
                            0 <= q < pre.len() && (#[trigger] pre[q]).0 <= x < pre[q].1;
                        if q > k {
                            assert(pre[k as int].1 < pre[q].0);
                            assert(pre[k as int].0 < pre[k as int].1);
                        }
                    }
                }
                lemma_gaps_push(pre, g@, start, end, cursor, end);
            }
            g.push((cursor, end));
        }
        g
    }
}

} // verus!
