//! Segment scanning and the buffer pool: splitting a byte stream into
//! newline-bounded segments with recycled buffers.

use vstd::prelude::*;

verus! {

/// A scanned segment: complete segments end at a newline; incomplete ones
/// were cut because no newline fit within the segment size.
#[derive(Debug)]
pub enum Segment {
    Complete(Vec<u8>),
    Incomplete(Vec<u8>),
}

impl Segment {
    pub open spec fn data_spec(&self) -> Seq<u8> {
        match self {
            Segment::Complete(d) => d@,
            Segment::Incomplete(d) => d@,
        }
    }

    pub fn data(&self) -> (r: &Vec<u8>)
        ensures
            r@ == self.data_spec(),
    {
        match self {
            Segment::Complete(d) => d,
            Segment::Incomplete(d) => d,
        }
    }
}

/// The bytes of a segment list, in order.
pub open spec fn segments_bytes(s: Seq<Seq<u8>>) -> Seq<u8>
    decreases s.len(),
{
    if s.len() == 0 {
        Seq::empty()
    } else {
        segments_bytes(s.drop_last()) + s.last()
    }
}

/// The stream position where segment `i` starts.
pub open spec fn prefix_len(s: Seq<Seq<u8>>, i: int) -> int
    decreases i,
{
    if i <= 0 || i > s.len() {
        0
    } else {
        prefix_len(s, i - 1) + s[i - 1].len()
    }
}

proof fn lemma_prefix_len_agree(s1: Seq<Seq<u8>>, s2: Seq<Seq<u8>>, i: int)
    requires
        i <= s1.len() && i <= s2.len(),
        forall|k: int| 0 <= k < i ==> #[trigger] s1[k] == s2[k],
    ensures
        prefix_len(s1, i) == prefix_len(s2, i),
    decreases i,
{
    if i > 0 {
        lemma_prefix_len_agree(s1, s2, i - 1);
    }
}

proof fn lemma_prefix_len_total(s: Seq<Seq<u8>>)
    ensures
        prefix_len(s, s.len() as int) == segments_bytes(s).len(),
    decreases s.len(),
{
    if s.len() > 0 {
        lemma_prefix_len_total(s.drop_last());
        lemma_prefix_len_agree(s, s.drop_last(), s.len() - 1);
    }
}

/// No newline in `stream[from..upto]`, clipped to the stream.
pub open spec fn nl_free(stream: Seq<u8>, from: int, upto: int) -> bool {
    forall|p: int| from <= p < upto && 0 <= p < stream.len() ==> stream[p] != 10
}

/// The cut of segment `i` is maximal: it ends at a newline, and the rest of
/// its window holds none; a windowful without any newline is cut whole.
pub open spec fn cut_at_last_newline(
    stream: Seq<u8>,
    views: Seq<Seq<u8>>,
    i: int,
    complete: bool,
    max_size: int,
) -> bool {
    let start = prefix_len(views, i);
    let end = prefix_len(views, i + 1);
    if complete {
        &&& views[i].len() > 0
        &&& views[i].last() == 10
        &&& nl_free(stream, end, start + max_size)
    } else {
        &&& views[i].len() == max_size
        &&& nl_free(stream, start, end)
    }
}

/// Splits a byte stream into segments of at most `max_size` bytes, cutting
/// at the last newline that fits; a stretch with no newline within
/// `max_size` bytes becomes an incomplete segment.
pub struct Scanner {
    pub max_size: usize,
    pub carry: Vec<u8>,
}

impl Scanner {
    pub fn new(max_size: usize) -> (r: Self)
        requires
            max_size > 0,
        ensures
            r.max_size == max_size,
            r.carry@.len() == 0,
    {
        Scanner { max_size, carry: Vec::new() }
    }

    /// Feeds bytes in; returns the complete or cut segments that formed.
    /// No byte is lost or duplicated: the emitted segments followed by the
    /// new carry hold exactly the old carry followed by the fed bytes, and
    /// every segment is cut at the last newline of its window, or whole
    /// when its windowful holds none.
    pub fn feed(&mut self, chunk: &[u8]) -> (r: Vec<Segment>)
        requires
            old(self).max_size > 0,
        ensures
            final(self).max_size == old(self).max_size,
            final(self).carry@.len() < old(self).max_size,
            segments_bytes(Seq::new(r@.len(), |i: int| r@[i].data_spec())) + final(self).carry@
                == old(self).carry@ + chunk@,
            forall|i: int|
                0 <= i < r@.len() ==> cut_at_last_newline(
                    old(self).carry@ + chunk@,
                    Seq::new(r@.len(), |k: int| r@[k].data_spec()),
                    i,
                    (#[trigger] r@[i]) is Complete,
                    old(self).max_size as int,
                ),
    {
        let ghost stream = old(self).carry@ + chunk@;
        let ghost max = old(self).max_size as int;
        let mut out: Vec<Segment> = Vec::new();
        self.carry.extend_from_slice(chunk);
        proof {
            assert(segments_bytes(Seq::new(0, |i: int| out@[i].data_spec())) + self.carry@
                =~= stream);
        }
        while self.carry.len() >= self.max_size
            invariant
                self.max_size == old(self).max_size,
                self.max_size > 0,
                max == old(self).max_size as int,
                stream == old(self).carry@ + chunk@,
                segments_bytes(Seq::new(out@.len(), |i: int| out@[i].data_spec())) + self.carry@
                    == stream,
                forall|i: int|
                    0 <= i < out@.len() ==> cut_at_last_newline(
                        stream,
                        Seq::new(out@.len(), |k: int| out@[k].data_spec()),
                        i,
                        (#[trigger] out@[i]) is Complete,
                        max,
                    ),
            decreases self.carry@.len(),
        {
            let window = self.max_size;
            // find the last newline within the window
            let mut cut: usize = 0;
            let mut found = false;
            let mut j: usize = 0;
            while j < window
                invariant
                    j <= window,
                    window <= self.carry@.len(),
                    found ==> 0 < cut <= j && self.carry@[cut - 1] == 10,
                    !found ==> cut == 0,
                    forall|q: int| cut <= q < j ==> self.carry@[q] != 10,
                decreases window - j,
            {
                if self.carry[j] == 10 {
                    cut = j + 1;
                    found = true;
                }
                j = j + 1;
            }
            let take = if found {
                cut
            } else {
                window
            };
            let ghost pre_carry = self.carry@;
            let mut rest = self.carry.split_off(take);
            std::mem::swap(&mut self.carry, &mut rest);
            let seg_bytes = rest;
            proof {
                assert(seg_bytes@ =~= pre_carry.take(take as int));
                assert(self.carry@ =~= pre_carry.skip(take as int));
            }
            let ghost pre_out = Seq::new(out@.len(), |i: int| out@[i].data_spec());
            let seg = if found {
                Segment::Complete(seg_bytes)
            } else {
                Segment::Incomplete(seg_bytes)
            };
            out.push(seg);
            proof {
                let cur = Seq::new(out@.len(), |i: int| out@[i].data_spec());
                assert(cur.drop_last() =~= pre_out);
                assert(cur.last() == pre_carry.take(take as int));
                assert(segments_bytes(cur) + self.carry@ =~= stream);
                // the new segment starts where the old emissions ended
                lemma_prefix_len_total(pre_out);
                lemma_prefix_len_agree(cur, pre_out, pre_out.len() as int);
                let start = prefix_len(cur, cur.len() - 1);
                assert(start == segments_bytes(pre_out).len());
                assert(prefix_len(cur, cur.len() as int) == start + take);
                // stream positions past the cut mirror the carry
                assert(segments_bytes(pre_out) + pre_carry =~= stream);
                assert(forall|q: int|
                    0 <= q < pre_carry.len() ==> stream[start + q] == #[trigger] pre_carry[q]);
                assert forall|i: int| 0 <= i < cur.len() implies cut_at_last_newline(
                    stream,
                    cur,
                    i,
                    out@[i] is Complete,
                    max,
                ) by {
                    if i < cur.len() - 1 {
                        lemma_prefix_len_agree(cur, pre_out, i);
                        lemma_prefix_len_agree(cur, pre_out, i + 1);
                        assert(cut_at_last_newline(stream, pre_out, i, out@[i] is Complete, max));
                    } else {
                        if found {
                            assert(forall|q: int|
                                take <= q < window ==> #[trigger] pre_carry[q] != 10);
                            assert(nl_free(stream, start + take, start + max));
                        } else {
                            assert(forall|q: int| 0 <= q < window ==> #[trigger] pre_carry[q] != 10);
                            assert(nl_free(stream, start, start + take));
                        }
                    }
                }
            }
        }
        out
    }

    /// Finishes the stream: the remaining carry, complete when it ends at a
    /// newline.
    pub fn finish(&mut self) -> (r: Option<Segment>)
        ensures
            final(self).carry@.len() == 0,
            final(self).max_size == old(self).max_size,
            match r {
                Some(seg) => old(self).carry@.len() > 0 && seg.data_spec() == old(self).carry@,
                None => old(self).carry@.len() == 0,
            },
    {
        if self.carry.len() == 0 {
            return None;
        }
        let mut taken: Vec<u8> = Vec::new();
        std::mem::swap(&mut self.carry, &mut taken);
        let complete = taken.len() > 0 && taken[taken.len() - 1] == 10;
        if complete {
            Some(Segment::Complete(taken))
        } else {
            Some(Segment::Incomplete(taken))
        }
    }
}

/// A pool of reusable byte buffers. A returned buffer is cleared and kept;
/// a checkout reuses one when any is free and allocates only otherwise, so
/// the buffers ever allocated never exceed the most ever outstanding at
/// once plus those free at the start.
pub struct BufPool {
    pub buf_size: usize,
    pub free: Vec<Vec<u8>>,
    pub allocated: Ghost<nat>,
    pub lent: Ghost<nat>,
    pub peak: Ghost<nat>,
}

impl BufPool {
    /// The pool accounting law: every allocated buffer is free or lent, and
    /// allocation never exceeded the peak of simultaneous checkouts.
    pub open spec fn wf(&self) -> bool {
        &&& self.allocated@ == self.free@.len() + self.lent@
        &&& self.allocated@ <= self.peak@
        &&& self.lent@ <= self.peak@
    }

    pub fn new(buf_size: usize) -> (r: Self)
        ensures
            r.wf(),
            r.buf_size == buf_size,
            r.allocated@ == 0 && r.lent@ == 0 && r.peak@ == 0,
    {
        BufPool {
            buf_size,
            free: Vec::new(),
            allocated: Ghost(0),
            lent: Ghost(0),
            peak: Ghost(0),
        }
    }

    /// Hands out a buffer, reusing a free one when possible.
    pub fn checkout(&mut self) -> (r: Vec<u8>)
        requires
            old(self).wf(),
        ensures
            final(self).wf(),
            final(self).buf_size == old(self).buf_size,
            final(self).lent@ == old(self).lent@ + 1,
            final(self).peak@ == (if old(self).lent@ + 1 > old(self).peak@ {
                old(self).lent@ + 1
            } else {
                old(self).peak@
            }),
            final(self).allocated@ == (if old(self).free@.len() > 0 {
                old(self).allocated@
            } else {
                old(self).allocated@ + 1
            }),
            r@.len() == 0,
    {
        proof {
            self.lent@ = self.lent@ + 1;
            if self.lent@ > self.peak@ {
                self.peak@ = self.lent@;
            }
        }
        match self.free.pop() {
            Some(buf) => {
                let mut buf = buf;
                buf.clear();
                buf
            },
            None => {
                proof {
                    self.allocated@ = self.allocated@ + 1;
                }
                Vec::new()
            },
        }
    }

    /// Takes a buffer back for reuse.
    pub fn checkin(&mut self, buf: Vec<u8>)
        requires
            old(self).wf(),
            old(self).lent@ > 0,
        ensures
            final(self).wf(),
            final(self).buf_size == old(self).buf_size,
            final(self).lent@ == old(self).lent@ - 1,
            final(self).allocated@ == old(self).allocated@,
            final(self).peak@ == old(self).peak@,
    {
        let mut buf = buf;
        buf.clear();
        self.free.push(buf);
        proof {
            self.lent@ = (self.lent@ - 1) as nat;
        }
    }
}

/// Law: however many checkouts and returns happen, the buffers ever
/// allocated stay bounded by the peak number lent out at once: allocation
/// happens only when nothing is free, and then every allocated buffer is
/// lent.
pub proof fn lemma_buffer_pool_non_leak(p: BufPool)
    requires
        p.wf(),
    ensures
        p.allocated@ <= p.peak@,
{
}

} // verus!
