//! The replay buffer: captures a non-seekable stream into compressed
//! fixed-size segments and serves seekable reads back out of them.

use vstd::prelude::*;

verus! {

use crate::error::Error;

/// The snappy frame encoding of a byte string.
pub uninterp spec fn snap_frame_of(data: Seq<u8>) -> Seq<u8>;

/// The byte string a snappy frame decodes to.
pub uninterp spec fn snap_unframe_of(data: Seq<u8>) -> Seq<u8>;

/// Relies on snap's `FrameEncoder`: the frame depends on the bytes alone,
/// and its own `FrameDecoder` decodes it back to exactly those bytes.
/// Writing into a `Vec` sink cannot fail, so encoding always succeeds.
#[verifier::external_body]
fn snap_compress(data: &[u8]) -> (r: Vec<u8>)
    ensures
        r@ == snap_frame_of(data@),
        snap_unframe_of(r@) == data@,
{
    let mut encoded = Vec::new();
    let mut encoder = snap::write::FrameEncoder::new(&mut encoded);
    let _ = std::io::Write::write_all(&mut encoder, data);
    drop(encoder);
    encoded
}

/// Relies on snap's `FrameDecoder`: reading `len` bytes yields the first
/// `len` bytes the frame decodes to. Over a well-formed frame holding at
/// least `len` bytes, decoding cannot fail.
#[verifier::external_body]
fn snap_decompress(data: &[u8], len: usize) -> (r: Vec<u8>)
    requires
        exists|d: Seq<u8>|
            data@ == snap_frame_of(d) && snap_unframe_of(data@) == d && len <= d.len(),
    ensures
        r@ == snap_unframe_of(data@).take(len as int),
        r@.len() == len,
{
    let mut out = vec![0u8; len];
    let mut decoder = snap::read::FrameDecoder::new(data);
    let _ = std::io::Read::read_exact(&mut decoder, &mut out);
    out
}

/// One captured segment in compressed form, remembering what it holds.
pub struct CompressedBuf {
    pub data: Vec<u8>,
    pub content: Ghost<Seq<u8>>,
    pub len: usize,
}

impl CompressedBuf {
    /// The compressed bytes decode back to the captured content.
    pub open spec fn wf(&self) -> bool {
        &&& self.data@ == snap_frame_of(self.content@)
        &&& snap_unframe_of(self.data@) == self.content@
        &&& self.len == self.content@.len()
    }

    /// Captures and compresses one segment.
    pub fn new(data: &[u8]) -> (r: Self)
        ensures
            r.wf(),
            r.content@ == data@,
    {
        let encoded = snap_compress(data);
        CompressedBuf { data: encoded, content: Ghost(data@), len: data.len() }
    }

    /// Decompresses the whole segment.
    pub fn decode(&self) -> (r: Vec<u8>)
        requires
            self.wf(),
        ensures
            r@ == self.content@,
    {
        let v = snap_decompress(self.data.as_slice(), self.len);
        proof {
            assert(snap_unframe_of(self.data@).take(self.len as int) =~= self.content@);
        }
        v
    }
}

/// The bytes of the first `n` captured segments.
pub open spec fn segments_content(segs: Seq<CompressedBuf>, n: int) -> Seq<u8>
    decreases n,
{
    if n <= 0 || n > segs.len() {
        Seq::empty()
    } else {
        segments_content(segs, n - 1) + segs[n - 1].content@
    }
}

proof fn lemma_segments_content_agree(s1: Seq<CompressedBuf>, s2: Seq<CompressedBuf>, n: int)
    requires
        n <= s1.len() && n <= s2.len(),
        forall|i: int| 0 <= i < n ==> #[trigger] s1[i] == s2[i],
    ensures
        segments_content(s1, n) == segments_content(s2, n),
    decreases n,
{
    if n > 0 {
        lemma_segments_content_agree(s1, s2, n - 1);
    }
}

/// A captured stream: compressed fixed-size segments plus its total size.
pub struct ReplayBuf {
    pub segment_size: usize,
    pub segments: Vec<CompressedBuf>,
    pub size: usize,
}

impl ReplayBuf {
    /// The captured bytes.
    pub open spec fn content(&self) -> Seq<u8> {
        segments_content(self.segments@, self.segments@.len() as int)
    }

    /// Every segment is well formed and full except possibly the last.
    pub open spec fn wf(&self) -> bool {
        &&& self.segment_size > 0
        &&& forall|i: int| 0 <= i < self.segments@.len() ==> (#[trigger] self.segments@[i]).wf()
        &&& forall|i: int|
            0 <= i < self.segments@.len() - 1 ==> (#[trigger] self.segments@[i]).content@.len()
                == self.segment_size
        &&& self.segments@.len() > 0 ==> self.segments@.last().content@.len()
            <= self.segment_size
        &&& self.size == self.content().len()
    }

    pub fn new(segment_size: usize) -> (r: Self)
        requires
            segment_size > 0,
        ensures
            r.wf(),
            r.content() == Seq::<u8>::empty(),
            r.segment_size == segment_size,
            r.segments@.len() == 0,
    {
        ReplayBuf { segment_size, segments: Vec::new(), size: 0 }
    }
}

/// Captures a stream into a replay buffer, one fixed-size segment at a
/// time.
pub struct ReplayBufCreator {
    pub buf: ReplayBuf,
    pub scratch: Vec<u8>,
}

impl ReplayBufCreator {
    /// The bytes captured so far: the sealed segments plus the open one.
    pub open spec fn content(&self) -> Seq<u8> {
        self.buf.content() + self.scratch@
    }

    pub open spec fn wf(&self) -> bool {
        &&& self.buf.wf()
        &&& self.scratch@.len() < self.buf.segment_size
        &&& self.buf.segments@.len() > 0 ==> self.buf.segments@.last().content@.len()
            == self.buf.segment_size
        &&& self.buf.content().len() + self.buf.segment_size <= usize::MAX
    }

    /// A creator with the stock segment size of 256 KiB.
    pub fn new() -> (r: Self)
        ensures
            r.wf(),
            r.content() == Seq::<u8>::empty(),
            r.buf.segment_size == 262144,
    {
        Self::with_segment_size(262144)
    }

    /// A creator with the given segment size.
    pub fn with_segment_size(segment_size: usize) -> (r: Self)
        requires
            0 < segment_size < usize::MAX / 2,
        ensures
            r.wf(),
            r.content() == Seq::<u8>::empty(),
            r.buf.segment_size == segment_size,
    {
        let r = ReplayBufCreator { buf: ReplayBuf::new(segment_size), scratch: Vec::new() };
        proof {
            assert(r.buf.content() =~= Seq::<u8>::empty());
            assert(r.content() =~= Seq::<u8>::empty());
            assert(r.buf.content().len() == 0);
            assert(r.content().len() == 0);
        }
        r
    }

    /// Captures bytes; full segments are sealed as they fill.
    pub fn write(&mut self, data: &[u8])
        requires
            old(self).wf(),
            old(self).content().len() + data@.len() + old(self).buf.segment_size <= usize::MAX,
        ensures
            final(self).wf(),
            final(self).buf.segment_size == old(self).buf.segment_size,
            final(self).content() == old(self).content() + data@,
    {
        let mut k: usize = 0;
        let n = data.len();
        while k < n
            invariant
                k <= n,
                n == data@.len(),
                self.wf(),
                self.buf.segment_size == old(self).buf.segment_size,
                self.content() == old(self).content() + data@.take(k as int),
                self.content().len() + (n - k) + self.buf.segment_size <= usize::MAX,
            decreases n - k,
        {
            let room = self.buf.segment_size - self.scratch.len();
            let take = if n - k < room {
                n - k
            } else {
                room
            };
            let ghost pre = self.content();
            self.scratch.extend_from_slice(vstd::slice::slice_subrange(data, k, k + take));
            proof {
                assert(self.content() =~= pre + data@.subrange(k as int, (k + take) as int));
                assert(old(self).content() + data@.take((k + take) as int) =~= pre + data@.subrange(
                    k as int,
                    (k + take) as int,
                ));
            }
            k = k + take;
            if self.scratch.len() == self.buf.segment_size {
                self.seal();
            }
        }
        proof {
            assert(data@.take(n as int) =~= data@);
        }
    }

    /// Seals the open segment.
    fn seal(&mut self)
        requires
            old(self).buf.wf(),
            old(self).scratch@.len() <= old(self).buf.segment_size,
            old(self).buf.segments@.len() > 0 ==> old(self).buf.segments@.last().content@.len()
                == old(self).buf.segment_size,
            old(self).buf.content().len() + old(self).buf.segment_size <= usize::MAX,
        ensures
            final(self).buf.segment_size == old(self).buf.segment_size,
            final(self).content() == old(self).content(),
            final(self).scratch@.len() == 0,
            final(self).buf.wf(),
            final(self).buf.content() == old(self).content(),
            old(self).scratch@.len() == old(self).buf.segment_size && old(self).content().len()
                + old(self).buf.segment_size <= usize::MAX ==> final(self).wf(),
    {
        if self.scratch.len() == 0 {
            proof {
                assert(self.content() =~= self.buf.content());
            }
            return ;
        }
        let ghost pre_content = self.content();
        let seg = CompressedBuf::new(self.scratch.as_slice());
        let ghost pre_segs = self.buf.segments@;
        self.buf.segments.push(seg);
        self.buf.size = self.buf.size + self.scratch.len();
        self.scratch.clear();
        proof {
            lemma_segments_content_agree(self.buf.segments@, pre_segs, pre_segs.len() as int);
            assert(self.buf.content() =~= pre_content);
            assert(self.content() =~= pre_content);
        }
    }

    /// Finishes the capture and hands over the replay buffer.
    pub fn result(self) -> (r: ReplayBuf)
        requires
            self.wf(),
        ensures
            r.wf(),
            r.content() == self.content(),
            r.segment_size == self.buf.segment_size,
    {
        let mut this = self;
        this.seal();
        this.buf
    }
}

} // verus!

verus! {

/// A cache of decompressed segments: whatever it returns for an index is
/// what was last stored for it.
pub trait Cache: Sized {
    spec fn entry(&self, index: usize) -> Option<Seq<u8>>;

    fn get(&mut self, index: usize) -> (r: Option<&Vec<u8>>)
        ensures
            final(self).entry(index) == old(self).entry(index),
            forall|j: usize| final(self).entry(j) == old(self).entry(j) || final(self).entry(j) is None,
            match r {
                Some(v) => old(self).entry(index) == Some(v@),
                None => old(self).entry(index) is None,
            },
    ;

    fn put(&mut self, index: usize, data: Vec<u8>)
        ensures
            final(self).entry(index) == Some(data@),
            forall|j: usize|
                j != index ==> final(self).entry(j) == old(self).entry(j) || final(self).entry(
                    j,
                ) is None,
    ;
}

/// A cache of one segment.
pub struct MinimalCache {
    pub data: Option<(usize, Vec<u8>)>,
}

impl MinimalCache {
    pub fn new() -> (r: Self)
        ensures
            forall|j: usize| r.entry(j) is None,
    {
        MinimalCache { data: None }
    }
}

impl Cache for MinimalCache {
    open spec fn entry(&self, index: usize) -> Option<Seq<u8>> {
        match self.data {
            Some((i, ref v)) => if i == index {
                Some(v@)
            } else {
                None
            },
            None => None,
        }
    }

    fn get(&mut self, index: usize) -> (r: Option<&Vec<u8>>) {
        match &self.data {
            Some((i, v)) => if *i == index {
                Some(v)
            } else {
                None
            },
            None => None,
        }
    }

    fn put(&mut self, index: usize, data: Vec<u8>) {
        self.data = Some((index, data));
    }
}

/// A small least-recently-used cache of decompressed segments: a hit moves
/// its segment to the most-recent end, a store replaces any older slot for
/// the same segment, and when full the least recently used slot is dropped.
pub struct LruCache {
    pub limit: usize,
    pub entries: Vec<(usize, Vec<u8>)>,
}

/// The value stored for `index`, if any: the newest slot carrying it.
pub open spec fn lru_find(entries: Seq<(usize, Vec<u8>)>, index: usize) -> Option<Seq<u8>>
    decreases entries.len(),
{
    if entries.len() == 0 {
        None
    } else if entries.last().0 == index {
        Some(entries.last().1@)
    } else {
        lru_find(entries.drop_last(), index)
    }
}

/// Dropping the oldest slot only drops entries, never changes them.
proof fn lemma_lru_drop_front(entries: Seq<(usize, Vec<u8>)>, j: usize)
    requires
        entries.len() > 0,
    ensures
        lru_find(entries.drop_first(), j) == lru_find(entries, j) || lru_find(
            entries.drop_first(),
            j,
        ) is None,
    decreases entries.len(),
{
    if entries.len() > 1 {
        assert(entries.drop_first().last() == entries.last());
        if entries.last().0 != j {
            assert(entries.drop_first().drop_last() =~= entries.drop_last().drop_first());
            lemma_lru_drop_front(entries.drop_last(), j);
        }
    }
}

impl LruCache {
    pub fn new(limit: usize) -> (r: Self)
        ensures
            r.limit == limit,
            r.entries@.len() == 0,
    {
        LruCache { limit, entries: Vec::new() }
    }

    fn find(&self, index: usize) -> (r: Option<usize>)
        ensures
            match r {
                Some(pos) => pos < self.entries@.len() && self.entries@[pos as int].0 == index
                    && lru_find(self.entries@, index) == Some(self.entries@[pos as int].1@),
                None => lru_find(self.entries@, index) is None,
            },
    {
        let n = self.entries.len();
        let mut i: usize = n;
        proof {
            assert(self.entries@.take(n as int) =~= self.entries@);
        }

        while i > 0
            invariant
                i <= n,
                n == self.entries@.len(),
                lru_find(self.entries@, index) == lru_find(self.entries@.take(i as int), index),
            decreases i,
        {
            if self.entries[i - 1].0 == index {
                proof {
                    assert(self.entries@.take(i as int).last() == self.entries@[i - 1]);
                }
                return Some(i - 1);
            }
            proof {
                assert(self.entries@.take(i as int).last() == self.entries@[i - 1]);
                assert(self.entries@.take(i as int).drop_last() =~= self.entries@.take(i - 1));
            }
            i = i - 1;
        }
        None
    }
}

/// Removing one slot of `index` leaves every other index's entry alone.
proof fn lemma_lru_remove_other(entries: Seq<(usize, Vec<u8>)>, pos: int, j: usize)
    requires
        0 <= pos < entries.len(),
        entries[pos].0 != j,
    ensures
        lru_find(entries.remove(pos), j) == lru_find(entries, j),
    decreases entries.len(),
{
    if pos == entries.len() - 1 {
        assert(entries.remove(pos) =~= entries.drop_last());
    } else {
        assert(entries.remove(pos).last() == entries.last());
        if entries.last().0 != j {
            assert(entries.remove(pos).drop_last() =~= entries.drop_last().remove(pos));
            lemma_lru_remove_other(entries.drop_last(), pos, j);
        }
    }
}

impl Cache for LruCache {
    open spec fn entry(&self, index: usize) -> Option<Seq<u8>> {
        lru_find(self.entries@, index)
    }

    fn get(&mut self, index: usize) -> (r: Option<&Vec<u8>>) {
        match self.find(index) {
            Some(pos) => {
                // promote the hit to most recently used
                let ghost pre = self.entries@;
                let e = self.entries.remove(pos);
                proof {
                    assert forall|j: usize| j != index implies lru_find(self.entries@, j)
                        == lru_find(pre, j) by {
                        lemma_lru_remove_other(pre, pos as int, j);
                    }
                }
                let ghost mid = self.entries@;
                self.entries.push(e);
                proof {
                    assert(self.entries@.last() == e);
                    assert(self.entries@.drop_last() =~= mid);
                }
                let n = self.entries.len();
                Some(&self.entries[n - 1].1)
            },
            None => None,
        }
    }

    fn put(&mut self, index: usize, data: Vec<u8>) {
        // drop any older slot with this index
        match self.find(index) {
            Some(pos) => {
                let ghost pre = self.entries@;
                self.entries.remove(pos);
                proof {
                    assert forall|j: usize| j != index implies lru_find(self.entries@, j)
                        == lru_find(pre, j) by {
                        lemma_lru_remove_other(pre, pos as int, j);
                    }
                }
            },
            None => (),
        }
        if self.entries.len() >= self.limit && self.entries.len() > 0 {
            // evict the least recently used slot
            let ghost pre = self.entries@;
            self.entries.remove(0);
            proof {
                assert(self.entries@ =~= pre.drop_first());
                assert forall|j: usize|
                    lru_find(self.entries@, j) == lru_find(pre, j) || lru_find(
                    self.entries@,
                    j,
                ) is None by {
                    lemma_lru_drop_front(pre, j);
                }
            }
        }
        let ghost mid = self.entries@;
        self.entries.push((index, data));
        proof {
            assert(self.entries@.last() == (index, data));
            assert(self.entries@.drop_last() =~= mid);
        }
    }
}

} // verus!

verus! {

/// A seek origin.
#[derive(Debug, Clone, Copy, PartialEq, Eq, Structural)]
pub enum Whence {
    Start(u64),
    Current(i64),
    End(i64),
}

/// Serves seekable reads out of a captured replay buffer, decompressing
/// segments on demand through a cache.
pub struct ReplayBufReader<C> {
    pub buf: ReplayBuf,
    pub cache: C,
    pub position: usize,
}

impl<C: Cache> ReplayBufReader<C> {
    /// Cached segments agree with the captured ones.
    pub open spec fn wf(&self) -> bool {
        &&& self.buf.wf()
        &&& forall|k: usize|
            (#[trigger] self.cache.entry(k)) matches Some(v) ==> k < self.buf.segments@.len()
                && v == self.buf.segments@[k as int].content@
    }

    pub fn segment_size(&self) -> (r: usize)
        ensures
            r == self.buf.segment_size,
    {
        self.buf.segment_size
    }

    /// The decompressed content of one segment, through the cache.
    pub fn segment(&mut self, index: usize) -> (r: Vec<u8>)
        requires
            old(self).wf(),
            index < old(self).buf.segments@.len(),
        ensures
            final(self).wf(),
            final(self).buf == old(self).buf,
            final(self).position == old(self).position,
            r@ == old(self).buf.segments@[index as int].content@,
    {
        let hit = match self.cache.get(index) {
            Some(v) => Some(vstd::slice::slice_to_vec(v.as_slice())),
            None => None,
        };
        match hit {
            Some(v) => v,
            None => {
                let v = self.buf.segments[index].decode();
                self.cache.put(index, vstd::slice::slice_to_vec(v.as_slice()));
                v
            },
        }
    }

    /// An absolute position, when it lies inside the captured bytes.
    pub fn from_start(&self, offset: u64) -> (r: Option<usize>)
        ensures
            r == (if offset <= self.buf.size as u64 {
                Some(offset as usize)
            } else {
                None::<usize>
            }),
    {
        if offset <= self.buf.size as u64 {
            Some(offset as usize)
        } else {
            None
        }
    }

    /// A position relative to the current one.
    pub fn from_current(&self, offset: i64) -> (r: Option<usize>)
        requires
            self.position <= self.buf.size,
            self.buf.size <= i64::MAX,
        ensures
            r == (if 0 <= self.position + offset <= self.buf.size as int {
                Some((self.position + offset) as usize)
            } else {
                None::<usize>
            }),
    {
        if offset >= 0 {
            let room = (self.buf.size - self.position) as u64;
            if (offset as u64) <= room {
                Some(self.position + (offset as usize))
            } else {
                None
            }
        } else if offset == i64::MIN {
            proof {
                assert(self.position + offset < 0);
            }
            None
        } else {
            let back = (-offset) as u64;
            if back <= self.position as u64 {
                Some(self.position - (back as usize))
            } else {
                None
            }
        }
    }

    /// A position relative to the end.
    pub fn from_end(&self, offset: i64) -> (r: Option<usize>)
        requires
            self.buf.size <= i64::MAX,
        ensures
            r == (if 0 <= self.buf.size - offset <= self.buf.size as int {
                Some((self.buf.size - offset) as usize)
            } else {
                None::<usize>
            }),
    {
        let sz = self.buf.size as i64;
        if offset >= 0 {
            if sz - offset >= 0 {
                Some((sz - offset) as usize)
            } else {
                None
            }
        } else {
            None
        }
    }

    /// Where a seek request lands: inside `[0, size]` or nowhere.
    pub open spec fn seek_target(size: int, position: int, whence: Whence) -> Option<int> {
        match whence {
            Whence::Start(o) => if o <= size {
                Some(o as int)
            } else {
                None
            },
            Whence::Current(o) => if 0 <= position + o <= size {
                Some(position + o)
            } else {
                None
            },
            Whence::End(o) => if 0 <= size - o <= size {
                Some(size - o)
            } else {
                None
            },
        }
    }

    /// Moves the read position: to the resolved target when it lies inside
    /// the captured bytes, and fails exactly otherwise.
    pub fn seek(&mut self, whence: Whence) -> (r: Result<usize, Error>)
        requires
            old(self).wf(),
            old(self).position <= old(self).buf.size,
            old(self).buf.size <= i64::MAX,
        ensures
            final(self).wf(),
            final(self).buf == old(self).buf,
            match r {
                Ok(p) => Self::seek_target(
                    old(self).buf.size as int,
                    old(self).position as int,
                    whence,
                ) == Some(p as int) && final(self).position == p && p <= final(self).buf.size,
                Err(_) => Self::seek_target(
                    old(self).buf.size as int,
                    old(self).position as int,
                    whence,
                ) is None && final(self).position == old(self).position,
            },
    {
        let pos = match whence {
            Whence::Start(offset) => self.from_start(offset),
            Whence::Current(offset) => self.from_current(offset),
            Whence::End(offset) => self.from_end(offset),
        };
        match pos {
            Some(p) => {
                self.position = p;
                Ok(p)
            },
            None => Err(Error::Io),
        }
    }

    /// Reads up to `want` bytes from the current position, never crossing a
    /// segment boundary; an empty result means the end was reached.
    pub fn read(&mut self, want: usize) -> (r: Vec<u8>)
        requires
            old(self).wf(),
            old(self).buf.segment_size > 0,
        ensures
            final(self).wf(),
            final(self).buf == old(self).buf,
            ({
                let k = old(self).position as int / old(self).buf.segment_size as int;
                let off = old(self).position as int % old(self).buf.segment_size as int;
                &&& (r@.len() > 0 ==> k < old(self).buf.segments@.len() && r@
                    == old(self).buf.segments@[k].content@.subrange(off, off + r@.len() as int)
                    && final(self).position == old(self).position + r@.len()
                    && final(self).position <= old(self).buf.size)
                &&& (r@.len() == 0 ==> final(self).position == old(self).position)
                &&& (old(self).position < old(self).buf.size && want > 0 && k
                    < old(self).buf.segments@.len() && off < old(
                    self,
                ).buf.segments@[k].content@.len() ==> r@.len() > 0)
            }),
    {
        if self.position >= self.buf.size || want == 0 {
            return Vec::new();
        }
        let k = self.position / self.buf.segment_size;
        let off = self.position % self.buf.segment_size;
        if k >= self.buf.segments.len() {
            return Vec::new();
        }
        let seg = self.segment(k);
        if off >= seg.len() {
            return Vec::new();
        }
        let mut n = if want < seg.len() - off {
            want
        } else {
            seg.len() - off
        };
        if n > self.buf.size - self.position {
            n = self.buf.size - self.position;
        }
        if n == 0 {
            return Vec::new();
        }
        let piece = vstd::slice::slice_to_vec(
            vstd::slice::slice_subrange(seg.as_slice(), off, off + n),
        );
        self.position = self.position + n;
        piece
    }
}

impl ReplayBufReader<MinimalCache> {
    /// A reader over a captured buffer, with the one-segment cache.
    pub fn new(buf: ReplayBuf) -> (r: Self)
        requires
            buf.wf(),
        ensures
            r.wf(),
            r.buf == buf,
            r.position == 0,
    {
        ReplayBufReader { buf, cache: MinimalCache::new(), position: 0 }
    }
}

/// Builds a reader with a chosen cache and starting position.
pub struct ReplayBufReaderBuilder<C> {
    pub buf: ReplayBuf,
    pub cache: C,
    pub position: usize,
}

impl ReplayBufReader<MinimalCache> {
    pub fn build(buf: ReplayBuf) -> (r: ReplayBufReaderBuilder<MinimalCache>)
        ensures
            r.buf == buf,
            r.position == 0,
            forall|j: usize| r.cache.entry(j) is None,
    {
        ReplayBufReaderBuilder { buf, cache: MinimalCache::new(), position: 0 }
    }
}

impl<C: Cache> ReplayBufReaderBuilder<C> {
    pub fn with_cache<C2: Cache>(self, cache: C2) -> (r: ReplayBufReaderBuilder<C2>)
        ensures
            r.buf == self.buf,
            r.position == self.position,
            r.cache == cache,
    {
        ReplayBufReaderBuilder { buf: self.buf, cache, position: self.position }
    }

    pub fn with_position(self, position: usize) -> (r: Self)
        ensures
            r.buf == self.buf,
            r.cache == self.cache,
            r.position == position,
    {
        ReplayBufReaderBuilder { buf: self.buf, cache: self.cache, position }
    }

    pub fn result(self) -> (r: ReplayBufReader<C>)
        ensures
            r.buf == self.buf,
            r.cache == self.cache,
            r.position == self.position,
    {
        ReplayBufReader { buf: self.buf, cache: self.cache, position: self.position }
    }
}

} // verus!
