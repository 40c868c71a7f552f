//! The sort-mode core: ordering blocks by their timestamp extremes and the
//! k-way merge of per-block formatted lines into timestamp order.

use vstd::prelude::*;

verus! {

use vstd::multiset::Multiset;
use crate::index::{Ts, ts_le, ts_le_exec};

/// The merge key of an emitted line: timestamp, then source file, then the
/// worker ordinal of its block, then its byte offset.
#[derive(Debug, Clone, Copy)]
pub struct MergeKey {
    pub ts: Ts,
    pub file: u32,
    pub ordinal: u32,
    pub offset: usize,
}

/// Lexicographic order on merge keys: the stable tie-breaker of the merge.
pub open spec fn key_le(a: MergeKey, b: MergeKey) -> bool {
    if a.ts != b.ts {
        ts_le(a.ts, b.ts)
    } else if a.file != b.file {
        a.file < b.file
    } else if a.ordinal != b.ordinal {
        a.ordinal < b.ordinal
    } else {
        a.offset <= b.offset
    }
}

pub fn key_le_exec(a: &MergeKey, b: &MergeKey) -> (r: bool)
    ensures
        r == key_le(*a, *b),
{
    if !(a.ts.0 == b.ts.0 && a.ts.1 == b.ts.1) {
        ts_le_exec(a.ts, b.ts)
    } else if a.file != b.file {
        a.file < b.file
    } else if a.ordinal != b.ordinal {
        a.ordinal < b.ordinal
    } else {
        a.offset <= b.offset
    }
}

pub proof fn lemma_key_le_total(a: MergeKey, b: MergeKey)
    ensures
        key_le(a, b) || key_le(b, a),
{
}

pub proof fn lemma_key_le_trans(a: MergeKey, b: MergeKey, c: MergeKey)
    requires
        key_le(a, b),
        key_le(b, c),
    ensures
        key_le(a, c),
{
}

/// One formatted line awaiting the merge.
#[derive(Debug)]
pub struct MergeLine {
    pub ts: Ts,
    pub bytes: Vec<u8>,
}

/// One worker's output for one block: its source file, its ordinal in push
/// order, and its formatted lines in chronological order.
#[derive(Debug)]
pub struct OutputBlock {
    pub file_id: u32,
    pub ordinal: u32,
    pub lines: Vec<MergeLine>,
}

impl OutputBlock {
    /// The key of line `i`, its position standing in for its byte offset.
    pub open spec fn key_of(&self, i: int) -> MergeKey {
        MergeKey {
            ts: self.lines@[i].ts,
            file: self.file_id,
            ordinal: self.ordinal,
            offset: i as usize,
        }
    }

    /// Lines are in non-decreasing timestamp order, as the chronological
    /// iteration of a block yields them.
    pub open spec fn wf(&self) -> bool {
        forall|i: int, j: int|
            0 <= i < j < self.lines@.len() ==> ts_le(
                (#[trigger] self.lines@[i]).ts,
                (#[trigger] self.lines@[j]).ts,
            )
    }
}

/// Within one block the keys follow the line order.
proof fn lemma_block_keys_sorted(b: &OutputBlock, i: int, j: int)
    requires
        b.wf(),
        0 <= i < j < b.lines@.len(),
    ensures
        key_le(b.key_of(i), b.key_of(j)),
{
    assert(vstd::std_specs::vec::spec_vec_len(&b.lines) == b.lines@.len());
}

/// A pick: block number and line number within it.
pub open spec fn valid_pick(blocks: Seq<OutputBlock>, p: (int, int)) -> bool {
    0 <= p.0 < blocks.len() && 0 <= p.1 < blocks[p.0].lines@.len()
}

/// The key of a pick.
pub open spec fn pick_key(blocks: Seq<OutputBlock>, p: (int, int)) -> MergeKey {
    blocks[p.0].key_of(p.1)
}

/// The bytes of a pick sequence, in order.
pub open spec fn picked_bytes(blocks: Seq<OutputBlock>, picks: Seq<(int, int)>) -> Seq<u8>
    decreases picks.len(),
{
    if picks.len() == 0 {
        Seq::empty()
    } else {
        picked_bytes(blocks, picks.drop_last()) + (if valid_pick(blocks, picks.last()) {
            blocks[picks.last().0].lines@[picks.last().1].bytes@
        } else {
            Seq::empty()
        })
    }
}

/// The picks of one block from line `from` on.
pub open spec fn block_picks_ms(b: int, from: int, upto: int) -> Multiset<(int, int)>
    decreases upto - from,
{
    if from >= upto {
        Multiset::empty()
    } else {
        block_picks_ms(b, from + 1, upto).insert((b, from))
    }
}

/// The picks still unemitted: every block's lines from its cursor on.
pub open spec fn remaining_picks_ms(
    blocks: Seq<OutputBlock>,
    cursors: Seq<usize>,
    n: int,
) -> Multiset<(int, int)>
    decreases n,
{
    if n <= 0 || n > blocks.len() || n > cursors.len() {
        Multiset::empty()
    } else {
        remaining_picks_ms(blocks, cursors, n - 1).add(
            block_picks_ms(
                n - 1,
                cursors[n - 1] as int,
                blocks[n - 1].lines@.len() as int,
            ),
        )
    }
}

/// Every line of every block, as picks.
pub open spec fn all_picks_ms(blocks: Seq<OutputBlock>, n: int) -> Multiset<(int, int)>
    decreases n,
{
    if n <= 0 || n > blocks.len() {
        Multiset::empty()
    } else {
        all_picks_ms(blocks, n - 1).add(
            block_picks_ms(n - 1, 0, blocks[n - 1].lines@.len() as int),
        )
    }
}

proof fn lemma_picks_ms_zero(blocks: Seq<OutputBlock>, cursors: Seq<usize>, n: int)
    requires
        0 <= n <= blocks.len(),
        cursors.len() >= n,
        forall|k: int| 0 <= k < n ==> #[trigger] cursors[k] == 0,
    ensures
        remaining_picks_ms(blocks, cursors, n) == all_picks_ms(blocks, n),
    decreases n,
{
    if n > 0 {
        lemma_picks_ms_zero(blocks, cursors, n - 1);
    }
}

proof fn lemma_picks_ms_dec(
    blocks: Seq<OutputBlock>,
    pre: Seq<usize>,
    post: Seq<usize>,
    n: int,
    bi: int,
)
    requires
        0 <= bi < n <= blocks.len(),
        pre.len() >= n && post.len() >= n,
        forall|k: int| 0 <= k < n && k != bi ==> #[trigger] post[k] == pre[k],
        pre[bi] < blocks[bi].lines@.len(),
        post[bi] == pre[bi] + 1,
    ensures
        remaining_picks_ms(blocks, pre, n) == remaining_picks_ms(blocks, post, n).insert(
            (bi, pre[bi] as int),
        ),
    decreases n,
{
    broadcast use vstd::multiset::group_multiset_axioms;

    if bi == n - 1 {
        lemma_picks_ms_same(blocks, pre, post, n - 1);
        assert(block_picks_ms(bi, pre[bi] as int, blocks[bi].lines@.len() as int)
            == block_picks_ms(bi, pre[bi] + 1, blocks[bi].lines@.len() as int).insert(
            (bi, pre[bi] as int),
        ));
        assert(remaining_picks_ms(blocks, pre, n) =~= remaining_picks_ms(blocks, post, n).insert(
            (bi, pre[bi] as int),
        ));
    } else {
        lemma_picks_ms_dec(blocks, pre, post, n - 1, bi);
        assert(remaining_picks_ms(blocks, pre, n) =~= remaining_picks_ms(blocks, post, n).insert(
            (bi, pre[bi] as int),
        ));
    }
}

proof fn lemma_picks_ms_same(blocks: Seq<OutputBlock>, pre: Seq<usize>, post: Seq<usize>, n: int)
    requires
        0 <= n <= blocks.len(),
        pre.len() >= n && post.len() >= n,
        forall|k: int| 0 <= k < n ==> #[trigger] post[k] == pre[k],
    ensures
        remaining_picks_ms(blocks, post, n) == remaining_picks_ms(blocks, pre, n),
    decreases n,
{
    if n > 0 {
        lemma_picks_ms_same(blocks, pre, post, n - 1);
    }
}

proof fn lemma_picks_ms_done(blocks: Seq<OutputBlock>, cursors: Seq<usize>, n: int)
    requires
        0 <= n <= blocks.len(),
        cursors.len() >= n,
        forall|k: int| 0 <= k < n ==> #[trigger] cursors[k] == blocks[k].lines@.len(),
    ensures
        remaining_picks_ms(blocks, cursors, n) == Multiset::<(int, int)>::empty(),
    decreases n,
{
    broadcast use vstd::multiset::group_multiset_axioms;

    if n > 0 {
        lemma_picks_ms_done(blocks, cursors, n - 1);
        assert(remaining_picks_ms(blocks, cursors, n) =~= Multiset::<(int, int)>::empty());
    }
}

/// Merges the blocks' lines into one output, smallest key first.
///
/// Law: the output is exactly the blocks' lines' bytes, each line emitted
/// exactly once, ordered so the keys never decrease under the full merge
/// order: adjacent records never go backwards in time, and records with
/// equal timestamps keep the (file, ordinal, offset) order.
pub fn merge_blocks(blocks: &Vec<OutputBlock>, out: &mut Vec<u8>) -> (picks: Ghost<
    Seq<(int, int)>,
>)
    requires
        forall|b: int| 0 <= b < blocks@.len() ==> (#[trigger] blocks@[b]).wf(),
    ensures
        forall|i: int| 0 <= i < picks@.len() ==> valid_pick(blocks@, #[trigger] picks@[i]),
        final(out)@ == old(out)@ + picked_bytes(blocks@, picks@),
        forall|i: int, j: int|
            0 <= i < j < picks@.len() ==> key_le(
                pick_key(blocks@, #[trigger] picks@[i]),
                pick_key(blocks@, #[trigger] picks@[j]),
            ),
        picks@.to_multiset() == all_picks_ms(blocks@, blocks@.len() as int),
        picks@.len() == total_lines(blocks@, blocks@.len() as int),
{
    broadcast use vstd::seq_lib::group_to_multiset_ensures;
    broadcast use vstd::multiset::group_multiset_axioms;

    let n = blocks.len();
    let mut cursors: Vec<usize> = Vec::new();
    let mut i: usize = 0;
    while i < n
        invariant
            i <= n,
            cursors@.len() == i,
            forall|k: int| 0 <= k < i ==> #[trigger] cursors@[k] == 0,
        decreases n - i,
    {
        cursors.push(0);
        i = i + 1;
    }
    let ghost mut emitted: Seq<(int, int)> = Seq::empty();
    let mut last: Option<MergeKey> = None;
    proof {
        lemma_total_lines_partial_zero(blocks@, cursors@, n as int);
        lemma_picks_ms_zero(blocks@, cursors@, n as int);
        assert(emitted.to_multiset().add(remaining_picks_ms(blocks@, cursors@, n as int))
            =~= all_picks_ms(blocks@, n as int));
    }
    loop
        invariant
            n == blocks@.len(),
            cursors@.len() == n,
            forall|b: int| 0 <= b < n ==> (#[trigger] blocks@[b]).wf(),
            forall|b: int| 0 <= b < n ==> #[trigger] cursors@[b] <= blocks@[b].lines@.len(),
            forall|i2: int| 0 <= i2 < emitted.len() ==> valid_pick(blocks@, #[trigger] emitted[i2]),
            out@ == old(out)@ + picked_bytes(blocks@, emitted),
            forall|i2: int, j2: int|
                0 <= i2 < j2 < emitted.len() ==> key_le(
                    pick_key(blocks@, #[trigger] emitted[i2]),
                    pick_key(blocks@, #[trigger] emitted[j2]),
                ),
            match last {
                Some(l) => emitted.len() > 0 && pick_key(blocks@, emitted.last()) == l && (
                forall|b: int, k: int|
                    0 <= b < n && cursors@[b] <= k < blocks@[b].lines@.len() ==> key_le(
                        l,
                        #[trigger] blocks@[b].key_of(k),
                    )),
                None => emitted.len() == 0,
            },
            emitted.len() + remaining_lines(blocks@, cursors@, n as int) == total_lines(
                blocks@,
                n as int,
            ),
            emitted.to_multiset().add(remaining_picks_ms(blocks@, cursors@, n as int))
                == all_picks_ms(blocks@, n as int),
        ensures
            forall|i2: int| 0 <= i2 < emitted.len() ==> valid_pick(blocks@, #[trigger] emitted[i2]),
            out@ == old(out)@ + picked_bytes(blocks@, emitted),
            forall|i2: int, j2: int|
                0 <= i2 < j2 < emitted.len() ==> key_le(
                    pick_key(blocks@, #[trigger] emitted[i2]),
                    pick_key(blocks@, #[trigger] emitted[j2]),
                ),
            emitted.len() == total_lines(blocks@, n as int),
            emitted.to_multiset() == all_picks_ms(blocks@, n as int),
        decreases remaining_lines(blocks@, cursors@, n as int),
    {
        // find the open block with the smallest head key
        let mut best: Option<(usize, MergeKey)> = None;
        let mut b: usize = 0;
        while b < n
            invariant
                b <= n,
                n == blocks@.len(),
                cursors@.len() == n,
                forall|x: int| 0 <= x < n ==> #[trigger] cursors@[x] <= blocks@[x].lines@.len(),
                match best {
                    Some(p) => p.0 < b && cursors@[p.0 as int] < blocks@[p.0 as int].lines@.len()
                        && p.1 == blocks@[p.0 as int].key_of(cursors@[p.0 as int] as int) && (
                    forall|x: int|
                        0 <= x < b && cursors@[x] < blocks@[x].lines@.len() ==> key_le(
                            p.1,
                            #[trigger] blocks@[x].key_of(cursors@[x] as int),
                        )),
                    None => forall|x: int| 0 <= x < b ==> #[trigger] cursors@[x] == blocks@[x].lines@.len(),
                },
            decreases n - b,
        {
            let c = cursors[b];
            if c < blocks[b].lines.len() {
                let key = MergeKey {
                    ts: blocks[b].lines[c].ts,
                    file: blocks[b].file_id,
                    ordinal: blocks[b].ordinal,
                    offset: c,
                };
                match &best {
                    Some(p) => {
                        if !key_le_exec(&p.1, &key) {
                            proof {
                                lemma_key_le_total(p.1, key);
                                assert forall|x: int|
                                    0 <= x < b + 1 && cursors@[x] < blocks@[x].lines@.len()
                                        implies key_le(
                                    key,
                                    #[trigger] blocks@[x].key_of(cursors@[x] as int),
                                ) by {
                                    if x < b {
                                        lemma_key_le_trans(
                                            key,
                                            p.1,
                                            blocks@[x].key_of(cursors@[x] as int),
                                        );
                                    }
                                }
                            }
                            best = Some((b, key));
                        }
                    },
                    None => {
                        best = Some((b, key));
                    },
                }
            }
            b = b + 1;
        }
        match best {
            Some((bi, key)) => {
                let c = cursors[bi];
                proof {
                    assert(vstd::std_specs::vec::spec_vec_len(&blocks@[bi as int].lines)
                        == blocks@[bi as int].lines@.len());
                }
                let ghost pre_out = out@;
                out.extend_from_slice(blocks[bi].lines[c].bytes.as_slice());
                let ghost pre_cursors = cursors@;
                cursors.set(bi, c + 1);
                proof {
                    let pick = (bi as int, c as int);
                    assert(picked_bytes(blocks@, emitted.push(pick)) == picked_bytes(
                        blocks@,
                        emitted,
                    ) + blocks@[bi as int].lines@[c as int].bytes@) by {
                        assert(emitted.push(pick).drop_last() =~= emitted);
                    }
                    match last {
                        Some(l) => {
                            assert(key_le(l, key));
                        },
                        None => {},
                    }
                    assert forall|i2: int, j2: int|
                        0 <= i2 < j2 < emitted.push(pick).len() implies key_le(
                        pick_key(blocks@, #[trigger] emitted.push(pick)[i2]),
                        pick_key(blocks@, #[trigger] emitted.push(pick)[j2]),
                    ) by {
                        if j2 == emitted.len() {
                            if emitted.len() > 0 {
                                match last {
                                    Some(l) => {
                                        if i2 < emitted.len() - 1 {
                                            lemma_key_le_trans(
                                                pick_key(blocks@, emitted[i2]),
                                                l,
                                                key,
                                            );
                                        }
                                    },
                                    None => {},
                                }
                            }
                        }
                    }
                    lemma_picks_ms_dec(blocks@, pre_cursors, cursors@, n as int, bi as int);
                    vstd::seq_lib::to_multiset_build::<(int, int)>(emitted, pick);
                    assert(emitted.push(pick).to_multiset() == emitted.to_multiset().insert(
                        pick,
                    ));
                    assert(emitted.push(pick).to_multiset().add(
                        remaining_picks_ms(blocks@, cursors@, n as int),
                    ) =~= all_picks_ms(blocks@, n as int));
                    emitted = emitted.push(pick);
                    lemma_remaining_dec(blocks@, pre_cursors, cursors@, n as int, bi as int);
                    assert forall|b2: int, k: int|
                        0 <= b2 < n && cursors@[b2] <= k < blocks@[b2].lines@.len() implies key_le(
                        key,
                        #[trigger] blocks@[b2].key_of(k),
                    ) by {
                        if b2 == bi {
                            if k > c {
                                lemma_block_keys_sorted(&blocks@[b2], c as int, k);
                            }
                        } else {
                            if k > pre_cursors[b2] {
                                lemma_block_keys_sorted(&blocks@[b2], pre_cursors[b2] as int, k);
                                lemma_key_le_trans(
                                    key,
                                    blocks@[b2].key_of(pre_cursors[b2] as int),
                                    blocks@[b2].key_of(k),
                                );
                            }
                        }
                    }
                }
                last = Some(key);
            },
            None => {
                proof {
                    lemma_remaining_done(blocks@, cursors@, n as int);
                    lemma_picks_ms_done(blocks@, cursors@, n as int);
                    assert(emitted.to_multiset() =~= all_picks_ms(blocks@, n as int));
                }
                break ;
            },
        }
    }
    Ghost(emitted)
}

/// All lines of the first `n` blocks./// All lines of the first `n` blocks.
pub open spec fn total_lines(blocks: Seq<OutputBlock>, n: int) -> nat
    decreases n,
{
    if n <= 0 || n > blocks.len() {
        0
    } else {
        total_lines(blocks, n - 1) + blocks[n - 1].lines@.len()
    }
}

/// The lines not yet emitted.
pub open spec fn remaining_lines(blocks: Seq<OutputBlock>, cursors: Seq<usize>, n: int) -> nat
    decreases n,
{
    if n <= 0 || n > blocks.len() || n > cursors.len() {
        0
    } else {
        remaining_lines(blocks, cursors, n - 1) + (if cursors[n - 1]
            <= blocks[n - 1].lines@.len() {
            (blocks[n - 1].lines@.len() - cursors[n - 1]) as nat
        } else {
            0
        })
    }
}

proof fn lemma_total_lines_partial_zero(blocks: Seq<OutputBlock>, cursors: Seq<usize>, n: int)
    requires
        0 <= n <= blocks.len(),
        cursors.len() >= n,
        forall|k: int| 0 <= k < n ==> #[trigger] cursors[k] == 0,
    ensures
        remaining_lines(blocks, cursors, n) == total_lines(blocks, n),
    decreases n,
{
    if n > 0 {
        lemma_total_lines_partial_zero(blocks, cursors, n - 1);
    }
}

proof fn lemma_remaining_dec(
    blocks: Seq<OutputBlock>,
    pre: Seq<usize>,
    post: Seq<usize>,
    n: int,
    bi: int,
)
    requires
        0 <= bi < n <= blocks.len(),
        pre.len() >= n && post.len() >= n,
        forall|k: int| 0 <= k < n && k != bi ==> #[trigger] post[k] == pre[k],
        pre[bi] < blocks[bi].lines@.len(),
        post[bi] == pre[bi] + 1,
        forall|k: int| 0 <= k < n ==> #[trigger] pre[k] <= blocks[k].lines@.len(),
    ensures
        remaining_lines(blocks, post, n) + 1 == remaining_lines(blocks, pre, n),
    decreases n,
{
    if bi == n - 1 {
        lemma_remaining_same(blocks, pre, post, n - 1);
    } else {
        lemma_remaining_dec(blocks, pre, post, n - 1, bi);
    }
}

proof fn lemma_remaining_same(blocks: Seq<OutputBlock>, pre: Seq<usize>, post: Seq<usize>, n: int)
    requires
        0 <= n <= blocks.len(),
        pre.len() >= n && post.len() >= n,
        forall|k: int| 0 <= k < n ==> #[trigger] post[k] == pre[k],
    ensures
        remaining_lines(blocks, post, n) == remaining_lines(blocks, pre, n),
    decreases n,
{
    if n > 0 {
        lemma_remaining_same(blocks, pre, post, n - 1);
    }
}

proof fn lemma_remaining_done(blocks: Seq<OutputBlock>, cursors: Seq<usize>, n: int)
    requires
        0 <= n <= blocks.len(),
        cursors.len() >= n,
        forall|k: int| 0 <= k < n ==> #[trigger] cursors[k] == blocks[k].lines@.len(),
    ensures
        remaining_lines(blocks, cursors, n) == 0,
    decreases n,
{
    if n > 0 {
        lemma_remaining_done(blocks, cursors, n - 1);
    }
}

} // verus!
