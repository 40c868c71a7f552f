//! Indexed inputs: iterating the blocks of an indexed source and the lines
//! of a block in chronological order.

use vstd::prelude::*;

verus! {

use std::sync::Arc;
use crate::index::{Index, SourceBlock, ChronModel, Ts, ts_le};

/// An indexed source: its display name and its index. The byte stream itself
/// stays with the caller, which reads block bytes on demand.
#[derive(Debug)]
pub struct IndexedInput {
    pub name: Vec<u8>,
    pub index: Index,
}

impl IndexedInput {
    pub fn new(name: Vec<u8>, index: Index) -> (r: Self)
        ensures
            r.name == name && r.index == index,
    {
        IndexedInput { name, index }
    }

    /// All blocks of this input, in file order.
    pub fn into_blocks(self) -> (r: Blocks)
        ensures
            r.input.index == self.index,
            r.indexes@.len() == self.index.source.blocks@.len(),
            forall|i: int| 0 <= i < r.indexes@.len() ==> #[trigger] r.indexes@[i] == i,
            r.pos == 0,
    {
        let n = self.index.source.blocks.len();
        let mut indexes: Vec<usize> = Vec::new();
        let mut i: usize = 0;
        while i < n
            invariant
                i <= n,
                indexes@.len() == i,
                forall|j: int| 0 <= j < i ==> #[trigger] indexes@[j] == j,
            decreases n - i,
        {
            indexes.push(i);
            i = i + 1;
        }
        Blocks { input: Arc::new(self), indexes, pos: 0 }
    }
}

/// Lexicographic order on optional timestamp ranges, absent ranges first.
pub open spec fn range_le(a: Option<(Ts, Ts)>, b: Option<(Ts, Ts)>) -> bool {
    match (a, b) {
        (Option::None, _) => true,
        (Option::Some(_), Option::None) => false,
        (Option::Some(x), Option::Some(y)) => {
            if x.0 == y.0 {
                ts_le(x.1, y.1)
            } else {
                ts_le(x.0, y.0)
            }
        },
    }
}

fn range_le_exec(a: Option<(Ts, Ts)>, b: Option<(Ts, Ts)>) -> (r: bool)
    ensures
        r == range_le(a, b),
{
    match (a, b) {
        (Option::None, _) => true,
        (Option::Some(_), Option::None) => false,
        (Option::Some(x), Option::Some(y)) => {
            if x.0.0 == y.0.0 && x.0.1 == y.0.1 {
                crate::index::ts_le_exec(x.1, y.1)
            } else {
                crate::index::ts_le_exec(x.0, y.0)
            }
        },
    }
}

proof fn lemma_swap_multiset_usize(s0: Seq<usize>, s1: Seq<usize>, i: int, j: int)
    requires
        0 <= i < j < s0.len(),
        s1 == s0.update(i, s0[j]).update(j, s0[i]),
    ensures
        s0.to_multiset() == s1.to_multiset(),
{
    broadcast use vstd::seq_lib::group_to_multiset_ensures;
    broadcast use vstd::multiset::group_multiset_axioms;

    assert(s0.update(i, s0[j])[j] == s0[j]);
    assert(s1.to_multiset() =~= s0.to_multiset());
}

/// The first position of `v` in `s`.
pub open spec fn pos_of(s: Seq<usize>, v: usize) -> int
    decreases s.len(),
{
    if s.len() == 0 {
        0
    } else if s[0] == v {
        0
    } else {
        1 + pos_of(s.drop_first(), v)
    }
}

/// In a duplicate-free sequence, every element's first position is its own.
proof fn lemma_pos_of_self(s: Seq<usize>, a: int)
    requires
        0 <= a < s.len(),
        forall|i: int, j: int| 0 <= i < j < s.len() ==> #[trigger] s[i] != #[trigger] s[j],
    ensures
        pos_of(s, s[a]) == a,
    decreases a,
{
    if a == 0 {
    } else {
        assert(s[0] != s[a]);
        assert(s.drop_first()[a - 1] == s[a]);
        lemma_pos_of_self(s.drop_first(), a - 1);
    }
}

proof fn lemma_range_le_total(a: Option<(Ts, Ts)>, b: Option<(Ts, Ts)>)
    ensures
        range_le(a, b) || range_le(b, a),
{
}

proof fn lemma_range_le_trans(a: Option<(Ts, Ts)>, b: Option<(Ts, Ts)>, c: Option<(Ts, Ts)>)
    requires
        range_le(a, b),
        range_le(b, c),
    ensures
        range_le(a, c),
{
}

/// An iterator over a subset of an input's blocks, by block number.
pub struct Blocks {
    pub input: Arc<IndexedInput>,
    pub indexes: Vec<usize>,
    pub pos: usize,
}

impl Blocks {
    pub open spec fn block_key(&self, i: int) -> Option<(Ts, Ts)> {
        self.input.index.source.blocks@[self.indexes@[i] as int].stat.ts_min_max
    }

    pub fn new(input: Arc<IndexedInput>, indexes: Vec<usize>) -> (r: Self)
        ensures
            r.input == input && r.indexes == indexes && r.pos == 0,
    {
        Blocks { input, indexes, pos: 0 }
    }

    /// Reorders the remaining blocks by their timestamp extremes, ascending.
    pub fn sorted(self) -> (r: Blocks)
        requires
            self.pos == 0,
            forall|i: int|
                0 <= i < self.indexes@.len() ==> #[trigger] self.indexes@[i]
                    < self.input.index.source.blocks@.len(),
        ensures
            r.input == self.input,
            r.pos == 0,
            r.indexes@.to_multiset() == self.indexes@.to_multiset(),
            forall|i: int, j: int| 0 <= i < j < r.indexes@.len() ==> range_le(
                #[trigger] r.block_key(i),
                #[trigger] r.block_key(j),
            ),
            (forall|i: int, j: int|
                0 <= i < j < self.indexes@.len() ==> #[trigger] self.indexes@[i] != #[trigger] self.indexes@[j])
                ==> (forall|i: int, j: int|
                0 <= i < j < r.indexes@.len() && r.block_key(i) == r.block_key(j) ==> pos_of(
                    self.indexes@,
                    #[trigger] r.indexes@[i],
                ) < pos_of(self.indexes@, #[trigger] r.indexes@[j])),
    {
        broadcast use vstd::seq_lib::group_to_multiset_ensures;

        let Blocks { input, mut indexes, pos: _ } = self;
        let ghost orig = indexes@;
        let ghost blocks = input.index.source.blocks@;
        let ghost distinct = forall|i: int, j: int|
            0 <= i < j < orig.len() ==> #[trigger] orig[i] != #[trigger] orig[j];
        let n = indexes.len();
        if n == 0 {
            return Blocks { input, indexes, pos: 0 };
        }
        proof {
            if distinct {
                assert forall|a: int, b: int|
                    0 <= a < b < indexes@.len() && blocks[indexes@[a] as int].stat.ts_min_max
                        == blocks[indexes@[b] as int].stat.ts_min_max implies pos_of(
                    orig,
                    #[trigger] indexes@[a],
                ) < pos_of(orig, #[trigger] indexes@[b]) by {
                    lemma_pos_of_self(orig, a);
                    lemma_pos_of_self(orig, b);
                }
            }
        }
        let mut i: usize = 1;
        while i < n
            invariant
                1 <= i <= n,
                n == indexes@.len(),
                blocks == input.index.source.blocks@,
                indexes@.to_multiset() == orig.to_multiset(),
                forall|k: int| 0 <= k < n ==> #[trigger] indexes@[k] < blocks.len(),
                forall|k: int, l: int| 0 <= k < l < i ==> range_le(
                    #[trigger] blocks[indexes@[k] as int].stat.ts_min_max,
                    #[trigger] blocks[indexes@[l] as int].stat.ts_min_max,
                ),
                distinct ==> forall|a: int, b: int|
                    0 <= a < b < indexes@.len() && blocks[indexes@[a] as int].stat.ts_min_max
                        == blocks[indexes@[b] as int].stat.ts_min_max ==> pos_of(
                        orig,
                        #[trigger] indexes@[a],
                    ) < pos_of(orig, #[trigger] indexes@[b]),
            decreases n - i,
        {
            let x = indexes[i];
            let mut j = i;
            while j > 0
                invariant_except_break
                    0 <= j <= i < n,
                    n == indexes@.len(),
                    blocks == input.index.source.blocks@,
                    indexes@.to_multiset() == orig.to_multiset(),
                    forall|k: int| 0 <= k < n ==> #[trigger] indexes@[k] < blocks.len(),
                    indexes@[j as int] == x,
                    forall|k: int| j < k <= i ==> range_le(
                        blocks[x as int].stat.ts_min_max,
                        #[trigger] blocks[indexes@[k] as int].stat.ts_min_max,
                    ),
                    forall|k: int, l: int|
                        0 <= k < l <= i && k != j && l != j ==> range_le(
                            #[trigger] blocks[indexes@[k] as int].stat.ts_min_max,
                            #[trigger] blocks[indexes@[l] as int].stat.ts_min_max,
                        ),
                    distinct ==> forall|a: int, b: int|
                        0 <= a < b < indexes@.len() && blocks[indexes@[a] as int].stat.ts_min_max
                            == blocks[indexes@[b] as int].stat.ts_min_max ==> pos_of(
                            orig,
                            #[trigger] indexes@[a],
                        ) < pos_of(orig, #[trigger] indexes@[b]),
                ensures
                    0 <= j <= i < n,
                    n == indexes@.len(),
                    blocks == input.index.source.blocks@,
                    indexes@.to_multiset() == orig.to_multiset(),
                    forall|k: int| 0 <= k < n ==> #[trigger] indexes@[k] < blocks.len(),
                    indexes@[j as int] == x,
                    forall|k: int| j < k <= i ==> range_le(
                        blocks[x as int].stat.ts_min_max,
                        #[trigger] blocks[indexes@[k] as int].stat.ts_min_max,
                    ),
                    forall|k: int, l: int|
                        0 <= k < l <= i && k != j && l != j ==> range_le(
                            #[trigger] blocks[indexes@[k] as int].stat.ts_min_max,
                            #[trigger] blocks[indexes@[l] as int].stat.ts_min_max,
                        ),
                    j == 0 || range_le(
                        blocks[indexes@[j - 1] as int].stat.ts_min_max,
                        blocks[x as int].stat.ts_min_max,
                    ),
                    distinct ==> forall|a: int, b: int|
                        0 <= a < b < indexes@.len() && blocks[indexes@[a] as int].stat.ts_min_max
                            == blocks[indexes@[b] as int].stat.ts_min_max ==> pos_of(
                            orig,
                            #[trigger] indexes@[a],
                        ) < pos_of(orig, #[trigger] indexes@[b]),
                decreases j,
            {
                let a = indexes[j - 1];
                if range_le_exec(
                    input.index.source.blocks[a].stat.ts_min_max,
                    input.index.source.blocks[x].stat.ts_min_max,
                ) {
                    break;
                }
                proof {
                    lemma_range_le_total(
                        blocks[a as int].stat.ts_min_max,
                        blocks[x as int].stat.ts_min_max,
                    );
                }
                let ghost before = indexes@;
                let cur = indexes[j];
                indexes.set(j - 1, cur);
                indexes.set(j, a);
                proof {
                    assert(indexes@ =~= before.update(j - 1, before[j as int]).update(
                        j as int,
                        before[j - 1],
                    ));
                    lemma_swap_multiset_usize(before, indexes@, j - 1, j as int);
                    if distinct {
                        let post = indexes@;
                        assert forall|p: int, q: int|
                            0 <= p < q < post.len() && blocks[post[p] as int].stat.ts_min_max
                                == blocks[post[q] as int].stat.ts_min_max implies pos_of(
                            orig,
                            #[trigger] post[p],
                        ) < pos_of(orig, #[trigger] post[q]) by {
                            if p == j - 1 && q == j {
                                // the swapped pair has strictly unequal keys
                                assert(range_le(
                                    blocks[before[j - 1] as int].stat.ts_min_max,
                                    blocks[before[j as int] as int].stat.ts_min_max,
                                ));
                                assert(false);
                            } else {
                                let pp: int = if p == j - 1 {
                                    j as int
                                } else if p == j {
                                    j - 1
                                } else {
                                    p
                                };
                                let qq: int = if q == j - 1 {
                                    j as int
                                } else if q == j {
                                    j - 1
                                } else {
                                    q
                                };
                                assert(post[p] == before[pp] && post[q] == before[qq]);
                                assert(pp < qq);
                            }
                        }
                    }
                }
                j = j - 1;
            }
            proof {
                assert forall|k: int, l: int| 0 <= k < l <= i implies range_le(
                    #[trigger] blocks[indexes@[k] as int].stat.ts_min_max,
                    #[trigger] blocks[indexes@[l] as int].stat.ts_min_max,
                ) by {
                    if k == j {
                    } else if l == j {
                        if k < j - 1 {
                            lemma_range_le_trans(
                                blocks[indexes@[k] as int].stat.ts_min_max,
                                blocks[indexes@[j - 1] as int].stat.ts_min_max,
                                blocks[x as int].stat.ts_min_max,
                            );
                        }
                    }
                }
            }
            i = i + 1;
        }
        Blocks { input, indexes, pos: 0 }
    }

    /// The next block, in the order of this iterator.
    pub fn next(&mut self) -> (r: Option<Block>)
        ensures
            final(self).input == old(self).input,
            final(self).indexes == old(self).indexes,
            match r {
                Some(b) => old(self).pos < old(self).indexes@.len() && final(self).pos == old(
                    self,
                ).pos + 1 && b.input == old(self).input && b.index == old(self).indexes@[old(
                    self,
                ).pos as int],
                None => old(self).pos >= old(self).indexes@.len() && final(self).pos == old(
                    self,
                ).pos,
            },
    {
        if self.pos < self.indexes.len() {
            let i = self.indexes[self.pos];
            self.pos = self.pos + 1;
            Some(Block { input: self.input.clone(), index: i })
        } else {
            None
        }
    }

    /// How many blocks remain.
    pub fn size_hint(&self) -> (r: usize)
        ensures
            r as int == (if self.pos <= self.indexes@.len() {
                self.indexes@.len() - self.pos
            } else {
                0
            }),
    {
        if self.pos <= self.indexes.len() {
            self.indexes.len() - self.pos
        } else {
            0
        }
    }

    /// How many blocks remain, consuming the iterator.
    pub fn count(self) -> (r: usize)
        ensures
            r as int == (if self.pos <= self.indexes@.len() {
                self.indexes@.len() - self.pos
            } else {
                0
            }),
    {
        self.size_hint()
    }
}

/// One block of an indexed input.
pub struct Block {
    pub input: Arc<IndexedInput>,
    pub index: usize,
}

impl Block {
    pub fn new(input: Arc<IndexedInput>, index: usize) -> (r: Self)
        ensures
            r.input == input && r.index == index,
    {
        Block { input, index }
    }

    pub open spec fn wf(&self) -> bool {
        self.index < self.input.index.source.blocks@.len()
    }

    pub open spec fn source_block_spec(&self) -> SourceBlock {
        self.input.index.source.blocks@[self.index as int]
    }

    pub fn source_block(&self) -> (r: &SourceBlock)
        requires
            self.wf(),
        ensures
            r == &self.source_block_spec(),
    {
        &self.input.index.source.blocks[self.index]
    }

    pub fn offset(&self) -> (r: u64)
        requires
            self.wf(),
        ensures
            r == self.source_block_spec().offset,
    {
        self.source_block().offset
    }

    pub fn size(&self) -> (r: u32)
        requires
            self.wf(),
        ensures
            r == self.source_block_spec().size,
    {
        self.source_block().size
    }

    pub fn lines_valid(&self) -> (r: u64)
        requires
            self.wf(),
        ensures
            r == self.source_block_spec().stat.lines_valid,
    {
        self.source_block().stat.lines_valid
    }

    /// Iterates the block's lines chronologically over its loaded bytes.
    pub fn into_lines(self, buf: Vec<u8>) -> (r: BlockLines)
        requires
            self.wf(),
            self.source_block_spec().stat.lines_valid
                + self.source_block_spec().stat.lines_invalid <= usize::MAX,
        ensures
            r.block == self,
            r.buf == Arc::new(buf),
            r.total == self.source_block_spec().stat.lines_valid
                + self.source_block_spec().stat.lines_invalid,
            r.current == 0 && r.byte == 0 && r.jump == 0,
    {
        BlockLines::new(self, buf)
    }
}

} // verus!

verus! {

// Chronological line iteration.

/// Index of the first newline at or after `p`, or the buffer length.
pub open spec fn next_nl(buf: Seq<u8>, p: int) -> int
    decreases buf.len() - p,
{
    if p < 0 || p >= buf.len() {
        buf.len() as int
    } else if buf[p] == 10 {
        p
    } else {
        next_nl(buf, p + 1)
    }
}

pub proof fn lemma_next_nl(buf: Seq<u8>, p: int)
    requires
        0 <= p <= buf.len(),
    ensures
        p <= next_nl(buf, p) <= buf.len(),
    decreases buf.len() - p,
{
    if p < buf.len() && buf[p] != 10 {
        lemma_next_nl(buf, p + 1);
    }
}

/// End of the line starting at `p`: one past its newline, or the buffer end.
pub open spec fn line_end_from(buf: Seq<u8>, p: int) -> int {
    if next_nl(buf, p) < buf.len() {
        next_nl(buf, p) + 1
    } else {
        buf.len() as int
    }
}

pub open spec fn bit_set(w: u64, m: int) -> bool {
    w & (1u64 << (m as u64)) != 0
}

/// One step of the chronological cursor: on a chunk boundary reload the
/// cursor from the chunk entry; on a flagged line jump via the jump table;
/// otherwise continue from the previous line's end. Out-of-range chronology
/// entries leave the cursor unchanged.
pub open spec fn lines_step(c: ChronModel, buf: Seq<u8>, st: (int, int, int)) -> (
    (int, int),
    (int, int, int),
) {
    let cur = st.0;
    let byte0 = st.1;
    let jump0 = st.2;
    let chunk = cur / 64;
    let m = cur % 64;
    let with_chron = c.bitmap.len() != 0;
    let s1 = if with_chron && m == 0 && chunk < c.offsets.len() {
        (c.offsets[chunk].0 as int, c.offsets[chunk].1 as int)
    } else {
        (byte0, jump0)
    };
    let s2 = if with_chron && chunk < c.bitmap.len() && bit_set(c.bitmap[chunk], m) && s1.1
        < c.jumps.len() {
        (c.jumps[s1.1] as int, s1.1 + 1)
    } else {
        s1
    };
    let start = if s2.0 <= buf.len() {
        s2.0
    } else {
        buf.len() as int
    };
    let end = line_end_from(buf, start);
    ((start, end), (cur + 1, end, s2.1))
}

/// A shared view of one line of a block's bytes.
pub struct BlockLine {
    pub buf: Arc<Vec<u8>>,
    pub start: usize,
    pub end: usize,
}

impl BlockLine {
    pub open spec fn wf(&self) -> bool {
        self.start <= self.end <= self.buf@.len()
    }

    pub fn new(buf: Arc<Vec<u8>>, start: usize, end: usize) -> (r: Self)
        ensures
            r.buf == buf && r.start == start && r.end == end,
    {
        BlockLine { buf, start, end }
    }

    /// The line's bytes, newline included when present.
    pub fn bytes(&self) -> (r: &[u8])
        requires
            self.wf(),
        ensures
            r@ == self.buf@.subrange(self.start as int, self.end as int),
    {
        vstd::slice::slice_subrange((*self.buf).as_slice(), self.start, self.end)
    }

    pub fn offset(&self) -> (r: usize)
        ensures
            r == self.start,
    {
        self.start
    }

    pub fn len(&self) -> (r: usize)
        requires
            self.start <= self.end,
        ensures
            r == self.end - self.start,
    {
        self.end - self.start
    }
}

/// Iterates the lines of one block in chronological order, following the
/// block's chronology; without one, in physical order.
pub struct BlockLines {
    pub block: Block,
    pub buf: Arc<Vec<u8>>,
    pub total: usize,
    pub current: usize,
    pub byte: usize,
    pub jump: usize,
}

impl BlockLines {
    pub open spec fn chron(&self) -> ChronModel {
        self.block.source_block_spec().chronology.model()
    }

    pub fn new(block: Block, buf: Vec<u8>) -> (r: Self)
        requires
            block.wf(),
            block.source_block_spec().stat.lines_valid
                + block.source_block_spec().stat.lines_invalid <= usize::MAX,
        ensures
            r.block == block,
            r.buf == Arc::new(buf),
            r.total == block.source_block_spec().stat.lines_valid
                + block.source_block_spec().stat.lines_invalid,
            r.current == 0 && r.byte == 0 && r.jump == 0,
    {
        let stat = &block.source_block().stat;
        let total = (stat.lines_valid + stat.lines_invalid) as usize;
        BlockLines { block, buf: Arc::new(buf), total, current: 0, byte: 0, jump: 0 }
    }

    /// The next chronological line; the cursor follows `lines_step` exactly.
    pub fn next(&mut self) -> (r: Option<BlockLine>)
        requires
            old(self).block.wf(),
        ensures
            final(self).block == old(self).block,
            final(self).buf == old(self).buf,
            final(self).total == old(self).total,
            match r {
                Some(line) => {
                    let (rng, st) = lines_step(
                        old(self).chron(),
                        old(self).buf@,
                        (old(self).current as int, old(self).byte as int, old(self).jump as int),
                    );
                    &&& old(self).current < old(self).total
                    &&& line.buf == old(self).buf
                    &&& line.start == rng.0
                    &&& line.end == rng.1
                    &&& line.wf()
                    &&& final(self).current == st.0
                    &&& final(self).byte == st.1
                    &&& final(self).jump == st.2
                },
                None => old(self).current >= old(self).total && *final(self) == *old(self),
            },
    {
        if self.current >= self.total {
            return None;
        }
        let sb = self.block.source_block();
        let nbitmap = sb.chronology.bitmap.len();
        if nbitmap != 0 {
            let chunk = self.current / 64;
            let m = self.current % 64;
            if m == 0 && chunk < sb.chronology.offsets.len() {
                self.byte = sb.chronology.offsets[chunk].bytes as usize;
                self.jump = sb.chronology.offsets[chunk].jumps as usize;
            }
            if chunk < sb.chronology.bitmap.len() {
                let w = sb.chronology.bitmap[chunk];
                if w & (1u64 << (m as u64)) != 0 && self.jump < sb.chronology.jumps.len() {
                    self.byte = sb.chronology.jumps[self.jump] as usize;
                    self.jump = self.jump + 1;
                }
            }
        }
        let blen = self.buf.len();
        let start = if self.byte <= blen {
            self.byte
        } else {
            blen
        };
        let end = find_line_end((*self.buf).as_slice(), start);
        self.byte = end;
        self.current = self.current + 1;
        Some(BlockLine { buf: self.buf.clone(), start, end })
    }

    /// How many lines remain.
    pub fn size_hint(&self) -> (r: usize)
        ensures
            r as int == (if self.current <= self.total {
                self.total - self.current
            } else {
                0
            }),
    {
        if self.current <= self.total {
            self.total - self.current
        } else {
            0
        }
    }

    /// How many lines remain, consuming the iterator.
    pub fn count(self) -> (r: usize)
        ensures
            r as int == (if self.current <= self.total {
                self.total - self.current
            } else {
                0
            }),
    {
        self.size_hint()
    }
}

/// Finds the end of the line starting at `from`.
pub fn find_line_end(buf: &[u8], from: usize) -> (r: usize)
    requires
        from <= buf@.len(),
    ensures
        r == line_end_from(buf@, from as int),
        from <= r <= buf@.len(),
        from < buf@.len() ==> r > from,
{
    let n = buf.len();
    let mut i = from;
    while i < n
        invariant
            from <= i <= n,
            n == buf@.len(),
            next_nl(buf@, from as int) == next_nl(buf@, i as int),
            forall|j: int| from <= j < i ==> buf@[j] != 10,
        decreases n - i,
    {
        if buf[i] == 10 {
            proof {
                lemma_next_nl(buf@, i as int);
            }
            return i + 1;
        }
        i = i + 1;
    }
    proof {
        lemma_next_nl(buf@, n as int);
    }
    n
}

} // verus!

verus! {

use crate::index::{chron_spec, jump_flag, jump_count, jump_offsets, LineInfo, word_of};

/// The cursor state before line `k` is yielded.
pub open spec fn lines_state(c: ChronModel, buf: Seq<u8>, k: int) -> (int, int, int)
    decreases k,
{
    if k <= 0 {
        (0, 0, 0)
    } else {
        lines_step(c, buf, lines_state(c, buf, k - 1)).1
    }
}

/// The jump table holds the offset of every flagged line at its jump rank.
proof fn lemma_jump_offsets_at(s: Seq<LineInfo>, k: int, m: int)
    requires
        jump_flag(s, k),
        k < m <= s.len(),
    ensures
        jump_count(s, k) < jump_offsets(s, m).len(),
        jump_offsets(s, m)[jump_count(s, k) as int] == s[k].offset,
        jump_count(s, k) < jump_count(s, m),
    decreases m,
{
    if m == k + 1 {
        assert(jump_offsets(s, m) == jump_offsets(s, k) + seq![s[k].offset]);
        lemma_jump_offsets_len(s, k);
    } else {
        lemma_jump_offsets_at(s, k, m - 1);
        lemma_jump_offsets_len(s, m - 1);
    }
}

/// At most `k` lines before `k` are flagged.
proof fn lemma_jump_count_bound(s: Seq<LineInfo>, k: int)
    requires
        k >= 0,
    ensures
        jump_count(s, k) <= k,
    decreases k,
{
    if k > 0 {
        lemma_jump_count_bound(s, k - 1);
    }
}

/// The jump table before `k` has exactly `jump_count` entries.
proof fn lemma_jump_offsets_len(s: Seq<LineInfo>, k: int)
    ensures
        jump_offsets(s, k).len() == jump_count(s, k),
    decreases k,
{
    if k > 0 {
        lemma_jump_offsets_len(s, k - 1);
    }
}

/// Law: iterating a block through a chronology built for its sorted line
/// table yields exactly the lines of the table, in table order. The `k`-th
/// yielded line starts at the `k`-th chronological line's byte offset, so a
/// table sorted by timestamp is yielded in non-decreasing timestamp order,
/// and the yielded lines are exactly the block's physical lines.
/// The chronology step from a correct pre-state yields line `k`'s offset.
#[verifier::rlimit(100)]
#[verifier::spinoff_prover]
proof fn lemma_step_at(c: ChronModel, buf: Seq<u8>, s: Seq<LineInfo>, k: int)
    requires
        chron_spec(c, s),
        s.len() > 0,
        s.len() <= u32::MAX,
        forall|j: int| 0 <= j < s.len() ==> (#[trigger] s[j].offset) <= buf.len(),
        forall|j: int|
            0 < j < s.len() && (#[trigger] s[j].index) == s[j - 1].index + 1 ==> s[j].offset
                as int == line_end_from(buf, s[j - 1].offset as int),
        0 <= k < s.len(),
        lines_state(c, buf, k).0 == k,
        k > 0 ==> lines_state(c, buf, k).1 == line_end_from(buf, s[k - 1].offset as int),
        k % 64 != 0 ==> lines_state(c, buf, k).2 == jump_count(s, k),
    ensures
        lines_step(c, buf, lines_state(c, buf, k)).0.0 == s[k].offset,
        lines_step(c, buf, lines_state(c, buf, k)).1.1 == line_end_from(buf, s[k].offset as int),
        lines_step(c, buf, lines_state(c, buf, k)).1.0 == k + 1,
        (k + 1) % 64 != 0 ==> lines_step(c, buf, lines_state(c, buf, k)).1.2 == jump_count(
            s,
            k + 1,
        ),
{
    let n = s.len() as int;
    let nchunks = (n + 63) / 64;
    let chunk = k / 64;
    let m = k % 64;
    assert(0 <= chunk < nchunks) by (nonlinear_arith)
        requires
            0 <= k < n && chunk == k / 64 && nchunks == (n + 63) / 64,
    ;
    let chunk_len: int = if n - 64 * chunk < 64 {
        n - 64 * chunk
    } else {
        64
    };
    assert(c.bitmap[chunk] == word_of(s, chunk, chunk_len));
    assert(m < chunk_len && 0 <= m < 64 && 64 * chunk + m == k) by (nonlinear_arith)
        requires
            0 <= k < n && chunk == k / 64 && m == k % 64 && chunk_len == (if n - 64 * chunk < 64 {
                n - 64 * chunk
            } else {
                64
            }),
    ;
    crate::index::lemma_word_bit(s, chunk, chunk_len, m as u64);
    assert(bit_set(c.bitmap[chunk], m) == jump_flag(s, k));
    let st = lines_state(c, buf, k);
    if m == 0 {
        assert(c.offsets[chunk] == (s[64 * chunk].offset, jump_count(s, 64 * chunk) as u32));
        assert(64 * chunk == k);
        assert(!jump_flag(s, k));
        assert(jump_count(s, k + 1) == jump_count(s, k));
        lemma_jump_count_bound(s, k);
        assert(jump_count(s, k) as u32 as int == jump_count(s, k));
    } else {
        if jump_flag(s, k) {
            lemma_jump_offsets_at(s, k, n);
            lemma_jump_offsets_len(s, n);
            assert(c.jumps[st.2] == s[k].offset);
        } else {
            assert(s[k].index == s[k - 1].index + 1);
            assert(st.1 == line_end_from(buf, s[k - 1].offset as int));
            assert(s[k].offset as int == line_end_from(buf, s[k - 1].offset as int));
            assert(st.1 <= buf.len()) by {
                lemma_next_nl(buf, s[k - 1].offset as int);
            }
        }
    }
}

/// Law: iterating a block through a chronology built for its sorted line
/// table yields exactly the lines of the table, in table order. The `k`-th
/// yielded line starts at the `k`-th chronological line's byte offset, so a
/// table sorted by timestamp is yielded in non-decreasing timestamp order,
/// and the yielded lines are exactly the block's physical lines.
#[verifier::rlimit(100)]
#[verifier::spinoff_prover]
pub proof fn lemma_chronology_consistency(c: ChronModel, buf: Seq<u8>, s: Seq<LineInfo>, k: int)
    requires
        chron_spec(c, s),
        s.len() > 0,
        s.len() <= u32::MAX,
        forall|j: int| 0 <= j < s.len() ==> (#[trigger] s[j].offset) <= buf.len(),
        forall|j: int|
            0 < j < s.len() && (#[trigger] s[j].index) == s[j - 1].index + 1 ==> s[j].offset
                as int == line_end_from(buf, s[j - 1].offset as int),
        0 <= k < s.len(),
    ensures
        lines_step(c, buf, lines_state(c, buf, k)).0.0 == s[k].offset,
        lines_state(c, buf, k).0 == k,
        k > 0 ==> lines_state(c, buf, k).1 == line_end_from(buf, s[k - 1].offset as int),
        k % 64 != 0 ==> lines_state(c, buf, k).2 == jump_count(s, k),
    decreases k,
{
    if k == 0 {
        assert(lines_state(c, buf, 0) == (0int, 0int, 0int));
        lemma_step_at(c, buf, s, 0);
    } else {
        lemma_chronology_consistency(c, buf, s, k - 1);
        lemma_step_at(c, buf, s, k - 1);
        assert(lines_state(c, buf, k) == lines_step(c, buf, lines_state(c, buf, k - 1)).1);
        lemma_step_at(c, buf, s, k);
    }
}

} // verus!
