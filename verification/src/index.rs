//! The persistent block index: per-file statistics, per-block timestamp
//! extremes and chronology, and a little-endian on-disk form that loads back
//! to exactly what was saved.

use vstd::prelude::*;

verus! {

use vstd::arithmetic::div_mod::lemma_fundamental_div_mod;

// Level and ordering flag bits of a block or file.
pub const FLAG_LEVEL_DEBUG: u64 = 1;
pub const FLAG_LEVEL_INFO: u64 = 2;
pub const FLAG_LEVEL_WARNING: u64 = 4;
pub const FLAG_LEVEL_ERROR: u64 = 8;
pub const FLAG_HAS_TIMESTAMPS: u64 = 16;
pub const FLAG_UNSORTED: u64 = 32;

pub const VALID_MAGIC: u64 = 0x5845444e492d4c48;
pub const CURRENT_VERSION: u64 = 1;

/// A timestamp as stored in the index: whole seconds and nanoseconds.
pub type Ts = (i64, u32);

/// Lexicographic order on timestamps.
pub open spec fn ts_le(a: Ts, b: Ts) -> bool {
    a.0 < b.0 || (a.0 == b.0 && a.1 <= b.1)
}

pub fn ts_le_exec(a: Ts, b: Ts) -> (r: bool)
    ensures
        r == ts_le(a, b),
{
    a.0 < b.0 || (a.0 == b.0 && a.1 <= b.1)
}

pub open spec fn ts_min_spec(a: Ts, b: Ts) -> Ts {
    if ts_le(a, b) {
        a
    } else {
        b
    }
}

pub open spec fn ts_max_spec(a: Ts, b: Ts) -> Ts {
    if ts_le(a, b) {
        b
    } else {
        a
    }
}

/// Combines two optional (min, max) timestamp ranges.
pub open spec fn min_max_opt_spec(v1: Option<(Ts, Ts)>, v2: Option<(Ts, Ts)>) -> Option<(Ts, Ts)> {
    match (v1, v2) {
        (Some(a), Some(b)) => Some((ts_min_spec(a.0, b.0), ts_max_spec(a.1, b.1))),
        (Some(a), None) => Some(a),
        (None, Some(b)) => Some(b),
        (None, None) => None,
    }
}

pub fn min_max_opt(v1: Option<(Ts, Ts)>, v2: Option<(Ts, Ts)>) -> (r: Option<(Ts, Ts)>)
    ensures
        r == min_max_opt_spec(v1, v2),
{
    match (v1, v2) {
        (Some(a), Some(b)) => {
            let mn = if ts_le_exec(a.0, b.0) {
                a.0
            } else {
                b.0
            };
            let mx = if ts_le_exec(a.1, b.1) {
                b.1
            } else {
                a.1
            };
            Some((mn, mx))
        },
        (Some(a), None) => Some(a),
        (None, Some(b)) => Some(b),
        (None, None) => None,
    }
}

/// Statistics over a block or a whole file.
#[derive(Debug, Clone, Copy, PartialEq, Eq)]
pub struct Stat {
    pub flags: u64,
    pub lines_valid: u64,
    pub lines_invalid: u64,
    pub ts_min_max: Option<(Ts, Ts)>,
}

impl Stat {
    pub fn new() -> (r: Self)
        ensures
            r.flags == 0 && r.lines_valid == 0 && r.lines_invalid == 0 && r.ts_min_max is None,
    {
        Stat { flags: 0, lines_valid: 0, lines_invalid: 0, ts_min_max: None }
    }

    /// Accounts one parsable line: its level flags, and its timestamp into
    /// the running extremes.
    pub fn add_valid(&mut self, ts: Option<Ts>, flags: u64)
        requires
            old(self).lines_valid < u64::MAX,
        ensures
            final(self).lines_valid == old(self).lines_valid + 1,
            final(self).lines_invalid == old(self).lines_invalid,
            final(self).ts_min_max == min_max_opt_spec(
                old(self).ts_min_max,
                match ts {
                    Some(t) => Some((t, t)),
                    None => None,
                },
            ),
            final(self).flags == (if final(self).ts_min_max is Some {
                old(self).flags | flags | FLAG_HAS_TIMESTAMPS
            } else {
                old(self).flags | flags
            }),
    {
        self.ts_min_max = min_max_opt(
            self.ts_min_max,
            match ts {
                Some(t) => Some((t, t)),
                None => None,
            },
        );
        self.flags = self.flags | flags;
        self.lines_valid = self.lines_valid + 1;
        if self.ts_min_max.is_some() {
            self.flags = self.flags | FLAG_HAS_TIMESTAMPS;
        }
    }

    /// Accounts one unparsable line.
    pub fn add_invalid(&mut self)
        requires
            old(self).lines_invalid < u64::MAX,
        ensures
            final(self).lines_invalid == old(self).lines_invalid + 1,
            final(self).lines_valid == old(self).lines_valid,
            final(self).flags == old(self).flags,
            final(self).ts_min_max == old(self).ts_min_max,
    {
        self.lines_invalid = self.lines_invalid + 1;
    }

    /// Merges another statistic into this one.
    pub fn merge(&mut self, other: &Self)
        requires
            old(self).lines_valid + other.lines_valid <= u64::MAX,
            old(self).lines_invalid + other.lines_invalid <= u64::MAX,
        ensures
            final(self).lines_valid == old(self).lines_valid + other.lines_valid,
            final(self).lines_invalid == old(self).lines_invalid + other.lines_invalid,
            final(self).flags == (old(self).flags | other.flags),
            final(self).ts_min_max == min_max_opt_spec(old(self).ts_min_max, other.ts_min_max),
    {
        self.lines_valid = self.lines_valid + other.lines_valid;
        self.lines_invalid = self.lines_invalid + other.lines_invalid;
        self.flags = self.flags | other.flags;
        self.ts_min_max = min_max_opt(self.ts_min_max, other.ts_min_max);
    }
}

/// The chronology of an unsorted block: a bitmap marking lines whose
/// chronological successor is not physically adjacent, per-chunk byte
/// offsets, and the jump table of byte offsets.
#[derive(Debug)]
pub struct Chronology {
    pub bitmap: Vec<u64>,
    pub offsets: Vec<OffsetPair>,
    pub jumps: Vec<u32>,
}

/// A byte offset paired with a base index into the jump table.
#[derive(Debug, Clone, Copy, PartialEq, Eq, Structural)]
pub struct OffsetPair {
    pub bytes: u32,
    pub jumps: u32,
}

/// The mathematical content of a chronology.
pub struct ChronModel {
    pub bitmap: Seq<u64>,
    pub offsets: Seq<(u32, u32)>,
    pub jumps: Seq<u32>,
}

impl Chronology {
    pub open spec fn model(&self) -> ChronModel {
        ChronModel {
            bitmap: self.bitmap@,
            offsets: Seq::new(self.offsets@.len(), |i: int| (self.offsets@[i].bytes, self.offsets@[i].jumps)),
            jumps: self.jumps@,
        }
    }

    pub open spec fn is_empty_spec(&self) -> bool {
        self.bitmap@.len() == 0 && self.offsets@.len() == 0 && self.jumps@.len() == 0
    }

    pub fn new() -> (r: Self)
        ensures
            r.is_empty_spec(),
    {
        Chronology { bitmap: Vec::new(), offsets: Vec::new(), jumps: Vec::new() }
    }
}

impl Default for Chronology {
    fn default() -> (r: Self)
        ensures
            r.is_empty_spec(),
    {
        Self::new()
    }
}

/// Index data of one block of a source file.
#[derive(Debug)]
pub struct SourceBlock {
    pub offset: u64,
    pub size: u32,
    pub stat: Stat,
    pub chronology: Chronology,
}

pub struct BlockModel {
    pub offset: u64,
    pub size: u32,
    pub stat: Stat,
    pub chronology: ChronModel,
}

impl SourceBlock {
    pub open spec fn model(&self) -> BlockModel {
        BlockModel {
            offset: self.offset,
            size: self.size,
            stat: self.stat,
            chronology: self.chronology.model(),
        }
    }

    pub fn new(offset: u64, size: u32, stat: Stat, chronology: Chronology) -> (r: Self)
        ensures
            r.offset == offset && r.size == size && r.stat == stat && r.chronology == chronology,
    {
        SourceBlock { offset, size, stat, chronology }
    }
}

/// Index data of a whole source file.
#[derive(Debug)]
pub struct SourceFile {
    pub size: u64,
    pub path: Vec<u8>,
    pub modified: Ts,
    pub stat: Stat,
    pub blocks: Vec<SourceBlock>,
}

pub struct SourceModel {
    pub size: u64,
    pub path: Seq<u8>,
    pub modified: Ts,
    pub stat: Stat,
    pub blocks: Seq<BlockModel>,
}

impl SourceFile {
    pub open spec fn model(&self) -> SourceModel {
        SourceModel {
            size: self.size,
            path: self.path@,
            modified: self.modified,
            stat: self.stat,
            blocks: Seq::new(self.blocks@.len(), |i: int| self.blocks@[i].model()),
        }
    }
}

/// The index of one source file.
#[derive(Debug)]
pub struct Index {
    pub source: SourceFile,
}

impl Index {
    pub open spec fn model(&self) -> SourceModel {
        self.source.model()
    }

    /// Index data of the source file.
    pub fn source(&self) -> (r: &SourceFile)
        ensures
            r == &self.source,
    {
        &self.source
    }
}

// Little-endian byte coding.

/// The `n`-byte little-endian form of `v` (modulo `256^n`).
pub open spec fn enc_bytes(v: nat, n: nat) -> Seq<u8>
    decreases n,
{
    if n == 0 {
        Seq::empty()
    } else {
        seq![(v % 256) as u8] + enc_bytes(v / 256, (n - 1) as nat)
    }
}

/// The value of a little-endian byte string.
pub open spec fn dec_bytes(s: Seq<u8>) -> nat
    decreases s.len(),
{
    if s.len() == 0 {
        0
    } else {
        (s[0] + 256 * dec_bytes(s.drop_first())) as nat
    }
}

pub open spec fn pow256(n: nat) -> nat
    decreases n,
{
    if n == 0 {
        1
    } else {
        256 * pow256((n - 1) as nat)
    }
}

pub proof fn lemma_enc_bytes_len(v: nat, n: nat)
    ensures
        enc_bytes(v, n).len() == n,
    decreases n,
{
    if n > 0 {
        lemma_enc_bytes_len(v / 256, (n - 1) as nat);
    }
}

/// Decoding inverts encoding for values in range.
pub proof fn lemma_dec_enc(v: nat, n: nat)
    requires
        v < pow256(n),
    ensures
        dec_bytes(enc_bytes(v, n)) == v,
    decreases n,
{
    if n == 0 {
    } else {
        let s = enc_bytes(v, n);
        lemma_enc_bytes_len(v / 256, (n - 1) as nat);
        assert(s.drop_first() =~= enc_bytes(v / 256, (n - 1) as nat));
        assert(v / 256 < pow256((n - 1) as nat)) by (nonlinear_arith)
            requires
                v < pow256(n) && pow256(n) == 256 * pow256((n - 1) as nat),
        ;
        lemma_dec_enc(v / 256, (n - 1) as nat);
        lemma_fundamental_div_mod(v as int, 256);
    }
}

pub proof fn lemma_dec_bytes_bound(s: Seq<u8>)
    ensures
        dec_bytes(s) < pow256(s.len() as nat),
    decreases s.len(),
{
    if s.len() > 0 {
        lemma_dec_bytes_bound(s.drop_first());
        assert(256 * dec_bytes(s.drop_first()) + 255 < 256 * pow256((s.len() - 1) as nat))
            by (nonlinear_arith)
            requires
                dec_bytes(s.drop_first()) < pow256((s.len() - 1) as nat),
        ;
    }
}

pub proof fn lemma_pow256_vals()
    ensures
        pow256(4) == 0x100000000,
        pow256(8) == 0x10000000000000000,
{
    reveal_with_fuel(pow256, 9);
}

/// Splitting an encoding at byte `k`.
pub proof fn lemma_enc_split(v: nat, k: nat, n: nat)
    requires
        k <= n,
    ensures
        enc_bytes(v, n) == enc_bytes(v, k) + enc_bytes(v / pow256(k), (n - k) as nat),
    decreases k,
{
    if k == 0 {
        assert(enc_bytes(v, 0) + enc_bytes(v / 1, n) =~= enc_bytes(v, n));
    } else {
        lemma_enc_split(v / 256, (k - 1) as nat, (n - 1) as nat);
        lemma_pow256_unfold(k);
        lemma_pow256_pos((k - 1) as nat);
        assert(v / 256 / pow256((k - 1) as nat) == v / pow256(k)) by (nonlinear_arith)
            requires
                pow256(k) == 256 * pow256((k - 1) as nat) && pow256((k - 1) as nat) > 0,
        {
            vstd::arithmetic::div_mod::lemma_div_denominator(
                v as int,
                256,
                pow256((k - 1) as nat) as int,
            );
        }
        lemma_pow256_pos((k - 1) as nat);
        assert(enc_bytes(v, n) =~= enc_bytes(v, k) + enc_bytes(v / pow256(k), (n - k) as nat));
    }
}

pub proof fn lemma_pow256_unfold(n: nat)
    requires
        n > 0,
    ensures
        pow256(n) == 256 * pow256((n - 1) as nat),
{
}

pub proof fn lemma_pow256_pos(n: nat)
    ensures
        pow256(n) >= 1,
    decreases n,
{
    if n > 0 {
        lemma_pow256_pos((n - 1) as nat);
    }
}

/// Appends the 8-byte little-endian form of `v`.
pub fn put_u64(buf: &mut Vec<u8>, v: u64)
    ensures
        final(buf)@ == old(buf)@ + enc_bytes(v as nat, 8),
{
    let ghost v0 = v as nat;
    let mut v = v;
    let mut k: usize = 0;
    proof {
        assert(buf@ + enc_bytes(v0, 0) =~= buf@);
        lemma_pow256_pos(0);
    }
    while k < 8
        invariant
            k <= 8,
            buf@ == old(buf)@ + enc_bytes(v0, k as nat),
            v as nat == v0 / pow256(k as nat),
        decreases 8 - k,
    {
        buf.push((v % 256) as u8);
        proof {
            lemma_enc_split(v0, k as nat, (k + 1) as nat);
            lemma_pow256_unfold((k + 1) as nat);
            lemma_pow256_pos(k as nat);
            let x = v0 / pow256(k as nat);
            assert(enc_bytes(x, 1) == seq![(x % 256) as u8] + enc_bytes(x / 256, 0));
            assert(enc_bytes(x, 1) =~= seq![(x % 256) as u8]);
            assert(old(buf)@ + enc_bytes(v0, (k + 1) as nat) =~= old(buf)@ + enc_bytes(v0, k as nat)
                + enc_bytes(v0 / pow256(k as nat), 1));
            assert(v0 / pow256(k as nat) / 256 == v0 / pow256((k + 1) as nat)) by (nonlinear_arith)
                requires
                    pow256((k + 1) as nat) == 256 * pow256(k as nat) && pow256(k as nat) > 0,
            {
                vstd::arithmetic::div_mod::lemma_div_denominator(
                    v0 as int,
                    pow256(k as nat) as int,
                    256,
                );
            }
            lemma_pow256_pos((k + 1) as nat);
        }
        v = v / 256;
        k = k + 1;
    }
}

/// Reads the 8-byte little-endian value at `pos`.
pub fn get_u64(s: &[u8], pos: usize) -> (r: u64)
    requires
        pos + 8 <= s@.len(),
    ensures
        r as nat == dec_bytes(s@.subrange(pos as int, pos + 8)),
{
    let ghost sub = s@.subrange(pos as int, pos + 8);
    let n = s.len();
    let mut acc: u64 = 0;
    let mut j: usize = 8;
    proof {
        assert(sub.skip(8) =~= Seq::<u8>::empty());
        lemma_pow256_vals();
    }
    while j > 0
        invariant
            j <= 8,
            n == s@.len(),
            pos + 8 <= n,
            sub == s@.subrange(pos as int, pos + 8),
            acc as nat == dec_bytes(sub.skip(j as int)),
            (acc as nat) < pow256((8 - j) as nat),
        decreases j,
    {
        let b = s[pos + j - 1];
        proof {
            assert(sub.skip(j - 1 as int).drop_first() =~= sub.skip(j as int));
            assert(sub.skip(j - 1 as int)[0] == sub[j - 1 as int]);
            assert(sub[j - 1 as int] == s@[pos + j - 1 as int]);
            assert(256 * (acc as nat) + 256 > 256 * (acc as nat) + (b as nat)) by (nonlinear_arith)
                requires
                    b < 256,
            ;
            assert(256 * (acc as nat) + 256 <= 256 * pow256((8 - j) as nat)) by (nonlinear_arith)
                requires
                    (acc as nat) < pow256((8 - j) as nat),
            ;
            lemma_pow256_vals();
            lemma_pow256_mono((9 - j) as nat, 8);
        }
        acc = acc * 256 + (b as u64);
        j = j - 1;
    }
    proof {
        assert(sub.skip(0) =~= sub);
    }
    acc
}

pub proof fn lemma_pow256_mono(a: nat, b: nat)
    requires
        a <= b,
    ensures
        pow256(a) <= pow256(b),
    decreases b,
{
    if a < b {
        lemma_pow256_mono(a, (b - 1) as nat);
        lemma_pow256_pos((b - 1) as nat);
    }
}

} // verus!

verus! {

// Spec-level encoders for the on-disk form.

pub open spec fn enc_u64(v: u64) -> Seq<u8> {
    enc_bytes(v as nat, 8)
}

pub open spec fn enc_u32(v: u32) -> Seq<u8> {
    enc_bytes(v as nat, 4)
}

/// Signed values are stored biased by `2^63`.
pub open spec fn enc_i64(v: i64) -> Seq<u8> {
    enc_bytes((v + 9223372036854775808) as nat, 8)
}

pub open spec fn enc_ts(t: Ts) -> Seq<u8> {
    enc_i64(t.0) + enc_u32(t.1)
}

pub open spec fn enc_stat(st: Stat) -> Seq<u8> {
    enc_u64(st.flags) + enc_u64(st.lines_valid) + enc_u64(st.lines_invalid) + (match st.ts_min_max {
        None => seq![0u8],
        Some(r) => seq![1u8] + enc_ts(r.0) + enc_ts(r.1),
    })
}

pub open spec fn enc_u64_list(s: Seq<u64>) -> Seq<u8>
    decreases s.len(),
{
    if s.len() == 0 {
        Seq::empty()
    } else {
        enc_u64(s[0]) + enc_u64_list(s.drop_first())
    }
}

pub open spec fn enc_pair_list(s: Seq<(u32, u32)>) -> Seq<u8>
    decreases s.len(),
{
    if s.len() == 0 {
        Seq::empty()
    } else {
        enc_u32(s[0].0) + enc_u32(s[0].1) + enc_pair_list(s.drop_first())
    }
}

pub open spec fn enc_u32_list(s: Seq<u32>) -> Seq<u8>
    decreases s.len(),
{
    if s.len() == 0 {
        Seq::empty()
    } else {
        enc_u32(s[0]) + enc_u32_list(s.drop_first())
    }
}

pub open spec fn enc_chron(c: ChronModel) -> Seq<u8> {
    enc_u32(c.bitmap.len() as u32) + enc_u64_list(c.bitmap) + enc_u32(c.offsets.len() as u32)
        + enc_pair_list(c.offsets) + enc_u32(c.jumps.len() as u32) + enc_u32_list(c.jumps)
}

pub open spec fn enc_block(b: BlockModel) -> Seq<u8> {
    enc_u64(b.offset) + enc_u32(b.size) + enc_stat(b.stat) + enc_chron(b.chronology)
}

pub open spec fn enc_block_list(s: Seq<BlockModel>) -> Seq<u8>
    decreases s.len(),
{
    if s.len() == 0 {
        Seq::empty()
    } else {
        enc_block(s[0]) + enc_block_list(s.drop_first())
    }
}

pub open spec fn enc_source(m: SourceModel) -> Seq<u8> {
    enc_u64(m.size) + enc_u32(m.path.len() as u32) + m.path + enc_ts(m.modified) + enc_stat(m.stat)
        + enc_u32(m.blocks.len() as u32) + enc_block_list(m.blocks)
}

/// The whole index file: header then the source record.
pub open spec fn enc_index(m: SourceModel) -> Seq<u8> {
    enc_u64(VALID_MAGIC) + enc_u64(CURRENT_VERSION) + enc_u64(0) + enc_u64(0) + enc_source(m)
}

/// List lengths must fit the 32-bit counters of the on-disk form.
pub open spec fn wf_chron_model(c: ChronModel) -> bool {
    c.bitmap.len() < 0x100000000 && c.offsets.len() < 0x100000000 && c.jumps.len() < 0x100000000
}

pub open spec fn wf_source_model(m: SourceModel) -> bool {
    &&& m.path.len() < 0x100000000
    &&& m.blocks.len() < 0x100000000
    &&& forall|i: int| 0 <= i < m.blocks.len() ==> wf_chron_model(#[trigger] m.blocks[i].chronology)
}

// Spec-level parsers: each consumes a prefix and yields the rest.

pub open spec fn p_u64(s: Seq<u8>) -> Option<(u64, Seq<u8>)> {
    if s.len() >= 8 {
        Some((dec_bytes(s.take(8)) as u64, s.skip(8)))
    } else {
        None
    }
}

pub open spec fn p_u32(s: Seq<u8>) -> Option<(u32, Seq<u8>)> {
    if s.len() >= 4 {
        Some((dec_bytes(s.take(4)) as u32, s.skip(4)))
    } else {
        None
    }
}

pub open spec fn p_i64(s: Seq<u8>) -> Option<(i64, Seq<u8>)> {
    match p_u64(s) {
        Some((v, r)) => Some(((v - 9223372036854775808) as i64, r)),
        None => None,
    }
}

pub open spec fn p_ts(s: Seq<u8>) -> Option<(Ts, Seq<u8>)> {
    match p_i64(s) {
        Some((sec, r)) => match p_u32(r) {
            Some((nsec, r2)) => Some(((sec, nsec), r2)),
            None => None,
        },
        None => None,
    }
}

pub open spec fn p_stat(s: Seq<u8>) -> Option<(Stat, Seq<u8>)> {
    match p_u64(s) {
        Some((flags, r)) => match p_u64(r) {
            Some((valid, r)) => match p_u64(r) {
                Some((invalid, r)) => {
                    if r.len() >= 1 && r[0] == 0 {
                        Some(
                            (
                                Stat {
                                    flags,
                                    lines_valid: valid,
                                    lines_invalid: invalid,
                                    ts_min_max: None,
                                },
                                r.skip(1),
                            ),
                        )
                    } else if r.len() >= 1 && r[0] == 1 {
                        match p_ts(r.skip(1)) {
                            Some((mn, r)) => match p_ts(r) {
                                Some((mx, r)) => Some(
                                    (
                                        Stat {
                                            flags,
                                            lines_valid: valid,
                                            lines_invalid: invalid,
                                            ts_min_max: Some((mn, mx)),
                                        },
                                        r,
                                    ),
                                ),
                                None => None,
                            },
                            None => None,
                        }
                    } else {
                        None
                    }
                },
                None => None,
            },
            None => None,
        },
        None => None,
    }
}

pub open spec fn p_u64_list(s: Seq<u8>, n: nat) -> Option<(Seq<u64>, Seq<u8>)>
    decreases n,
{
    if n == 0 {
        Some((Seq::empty(), s))
    } else {
        match p_u64(s) {
            Some((v, r)) => match p_u64_list(r, (n - 1) as nat) {
                Some((vs, r2)) => Some((seq![v] + vs, r2)),
                None => None,
            },
            None => None,
        }
    }
}

pub open spec fn p_pair_list(s: Seq<u8>, n: nat) -> Option<(Seq<(u32, u32)>, Seq<u8>)>
    decreases n,
{
    if n == 0 {
        Some((Seq::empty(), s))
    } else {
        match p_u32(s) {
            Some((a, r)) => match p_u32(r) {
                Some((b, r)) => match p_pair_list(r, (n - 1) as nat) {
                    Some((vs, r2)) => Some((seq![(a, b)] + vs, r2)),
                    None => None,
                },
                None => None,
            },
            None => None,
        }
    }
}

pub open spec fn p_u32_list(s: Seq<u8>, n: nat) -> Option<(Seq<u32>, Seq<u8>)>
    decreases n,
{
    if n == 0 {
        Some((Seq::empty(), s))
    } else {
        match p_u32(s) {
            Some((v, r)) => match p_u32_list(r, (n - 1) as nat) {
                Some((vs, r2)) => Some((seq![v] + vs, r2)),
                None => None,
            },
            None => None,
        }
    }
}

pub open spec fn p_chron(s: Seq<u8>) -> Option<(ChronModel, Seq<u8>)> {
    match p_u32(s) {
        Some((nb, r)) => match p_u64_list(r, nb as nat) {
            Some((bitmap, r)) => match p_u32(r) {
                Some((no, r)) => match p_pair_list(r, no as nat) {
                    Some((offsets, r)) => match p_u32(r) {
                        Some((nj, r)) => match p_u32_list(r, nj as nat) {
                            Some((jumps, r)) => Some((ChronModel { bitmap, offsets, jumps }, r)),
                            None => None,
                        },
                        None => None,
                    },
                    None => None,
                },
                None => None,
            },
            None => None,
        },
        None => None,
    }
}

pub open spec fn p_block(s: Seq<u8>) -> Option<(BlockModel, Seq<u8>)> {
    match p_u64(s) {
        Some((offset, r)) => match p_u32(r) {
            Some((size, r)) => match p_stat(r) {
                Some((stat, r)) => match p_chron(r) {
                    Some((chronology, r)) => Some(
                        (BlockModel { offset, size, stat, chronology }, r),
                    ),
                    None => None,
                },
                None => None,
            },
            None => None,
        },
        None => None,
    }
}

pub open spec fn p_block_list(s: Seq<u8>, n: nat) -> Option<(Seq<BlockModel>, Seq<u8>)>
    decreases n,
{
    if n == 0 {
        Some((Seq::empty(), s))
    } else {
        match p_block(s) {
            Some((b, r)) => match p_block_list(r, (n - 1) as nat) {
                Some((bs, r2)) => Some((seq![b] + bs, r2)),
                None => None,
            },
            None => None,
        }
    }
}

pub open spec fn p_source(s: Seq<u8>) -> Option<(SourceModel, Seq<u8>)> {
    match p_u64(s) {
        Some((size, r)) => match p_u32(r) {
            Some((plen, r)) => {
                if r.len() >= plen {
                    let path = r.take(plen as int);
                    let r = r.skip(plen as int);
                    match p_ts(r) {
                        Some((modified, r)) => match p_stat(r) {
                            Some((stat, r)) => match p_u32(r) {
                                Some((nblocks, r)) => match p_block_list(r, nblocks as nat) {
                                    Some((blocks, r)) => Some(
                                        (SourceModel { size, path, modified, stat, blocks }, r),
                                    ),
                                    None => None,
                                },
                                None => None,
                            },
                            None => None,
                        },
                        None => None,
                    }
                } else {
                    None
                }
            },
            None => None,
        },
        None => None,
    }
}

/// The whole file: a valid header, one source record, nothing after it.
pub open spec fn p_index(s: Seq<u8>) -> Option<SourceModel> {
    match p_u64(s) {
        Some((magic, r)) => match p_u64(r) {
            Some((version, r)) => match p_u64(r) {
                Some((_sz, r)) => match p_u64(r) {
                    Some((_ck, r)) => {
                        if magic == VALID_MAGIC && version == CURRENT_VERSION {
                            match p_source(r) {
                                Some((m, rest)) => {
                                    if rest.len() == 0 {
                                        Some(m)
                                    } else {
                                        None
                                    }
                                },
                                None => None,
                            }
                        } else {
                            None
                        }
                    },
                    None => None,
                },
                None => None,
            },
            None => None,
        },
        None => None,
    }
}

} // verus!

verus! {

// Parsing inverts encoding.

proof fn lemma_p_u64_enc(v: u64, rest: Seq<u8>)
    ensures
        p_u64(enc_u64(v) + rest) == Some((v, rest)),
{
    let e = enc_u64(v);
    lemma_enc_bytes_len(v as nat, 8);
    assert((e + rest).take(8) =~= e);
    assert((e + rest).skip(8) =~= rest);
    lemma_pow256_vals();
    lemma_dec_enc(v as nat, 8);
}

proof fn lemma_p_u32_enc(v: u32, rest: Seq<u8>)
    ensures
        p_u32(enc_u32(v) + rest) == Some((v, rest)),
{
    let e = enc_u32(v);
    lemma_enc_bytes_len(v as nat, 4);
    assert((e + rest).take(4) =~= e);
    assert((e + rest).skip(4) =~= rest);
    lemma_pow256_vals();
    lemma_dec_enc(v as nat, 4);
}

proof fn lemma_p_i64_enc(v: i64, rest: Seq<u8>)
    ensures
        p_i64(enc_i64(v) + rest) == Some((v, rest)),
{
    let b = (v + 9223372036854775808) as nat;
    let e = enc_bytes(b, 8);
    lemma_enc_bytes_len(b, 8);
    assert((e + rest).take(8) =~= e);
    assert((e + rest).skip(8) =~= rest);
    lemma_pow256_vals();
    lemma_dec_enc(b, 8);
}

proof fn lemma_p_ts_enc(t: Ts, rest: Seq<u8>)
    ensures
        p_ts(enc_ts(t) + rest) == Some((t, rest)),
{
    assert(enc_ts(t) + rest =~= enc_i64(t.0) + (enc_u32(t.1) + rest));
    lemma_p_i64_enc(t.0, enc_u32(t.1) + rest);
    lemma_p_u32_enc(t.1, rest);
}

#[verifier::rlimit(100)]
#[verifier::spinoff_prover]
proof fn lemma_p_stat_enc(st: Stat, rest: Seq<u8>)
    ensures
        p_stat(enc_stat(st) + rest) == Some((st, rest)),
{
    let a = enc_u64(st.flags);
    let b = enc_u64(st.lines_valid);
    let c = enc_u64(st.lines_invalid);
    match st.ts_min_max {
        None => {
            let t = seq![0u8];
            assert(enc_stat(st) + rest =~= a + (b + (c + (t + rest))));
            lemma_p_u64_enc(st.flags, b + (c + (t + rest)));
            lemma_p_u64_enc(st.lines_valid, c + (t + rest));
            lemma_p_u64_enc(st.lines_invalid, t + rest);
            assert((t + rest)[0] == 0);
            assert((t + rest).skip(1) =~= rest);
        },
        Some(r) => {
            let t = seq![1u8];
            let m1 = enc_ts(r.0);
            let m2 = enc_ts(r.1);
            assert(enc_stat(st) + rest =~= a + (b + (c + (t + (m1 + (m2 + rest))))));
            lemma_p_u64_enc(st.flags, b + (c + (t + (m1 + (m2 + rest)))));
            lemma_p_u64_enc(st.lines_valid, c + (t + (m1 + (m2 + rest))));
            lemma_p_u64_enc(st.lines_invalid, t + (m1 + (m2 + rest)));
            assert((t + (m1 + (m2 + rest)))[0] == 1);
            assert((t + (m1 + (m2 + rest))).skip(1) =~= m1 + (m2 + rest));
            lemma_p_ts_enc(r.0, m2 + rest);
            lemma_p_ts_enc(r.1, rest);
        },
    }
}

proof fn lemma_p_u64_list_enc(s: Seq<u64>, rest: Seq<u8>)
    ensures
        p_u64_list(enc_u64_list(s) + rest, s.len() as nat) == Some((s, rest)),
    decreases s.len(),
{
    if s.len() == 0 {
        assert(enc_u64_list(s) + rest =~= rest);
    } else {
        assert(enc_u64_list(s) + rest =~= enc_u64(s[0]) + (enc_u64_list(s.drop_first()) + rest));
        lemma_p_u64_enc(s[0], enc_u64_list(s.drop_first()) + rest);
        lemma_p_u64_list_enc(s.drop_first(), rest);
        assert(seq![s[0]] + s.drop_first() =~= s);
    }
}

proof fn lemma_p_pair_list_enc(s: Seq<(u32, u32)>, rest: Seq<u8>)
    ensures
        p_pair_list(enc_pair_list(s) + rest, s.len() as nat) == Some((s, rest)),
    decreases s.len(),
{
    if s.len() == 0 {
        assert(enc_pair_list(s) + rest =~= rest);
    } else {
        let tail = enc_pair_list(s.drop_first()) + rest;
        assert(enc_pair_list(s) + rest =~= enc_u32(s[0].0) + (enc_u32(s[0].1) + tail));
        lemma_p_u32_enc(s[0].0, enc_u32(s[0].1) + tail);
        lemma_p_u32_enc(s[0].1, tail);
        lemma_p_pair_list_enc(s.drop_first(), rest);
        assert(seq![(s[0].0, s[0].1)] + s.drop_first() =~= s);
    }
}

proof fn lemma_p_u32_list_enc(s: Seq<u32>, rest: Seq<u8>)
    ensures
        p_u32_list(enc_u32_list(s) + rest, s.len() as nat) == Some((s, rest)),
    decreases s.len(),
{
    if s.len() == 0 {
        assert(enc_u32_list(s) + rest =~= rest);
    } else {
        assert(enc_u32_list(s) + rest =~= enc_u32(s[0]) + (enc_u32_list(s.drop_first()) + rest));
        lemma_p_u32_enc(s[0], enc_u32_list(s.drop_first()) + rest);
        lemma_p_u32_list_enc(s.drop_first(), rest);
        assert(seq![s[0]] + s.drop_first() =~= s);
    }
}

#[verifier::rlimit(100)]
#[verifier::spinoff_prover]
proof fn lemma_p_chron_enc(c: ChronModel, rest: Seq<u8>)
    requires
        wf_chron_model(c),
    ensures
        p_chron(enc_chron(c) + rest) == Some((c, rest)),
{
    let nb = c.bitmap.len() as u32;
    let no = c.offsets.len() as u32;
    let nj = c.jumps.len() as u32;
    let t5 = enc_u32_list(c.jumps) + rest;
    let t4 = enc_u32(nj) + t5;
    let t3 = enc_pair_list(c.offsets) + t4;
    let t2 = enc_u32(no) + t3;
    let t1 = enc_u64_list(c.bitmap) + t2;
    assert(enc_chron(c) + rest =~= enc_u32(nb) + t1);
    lemma_p_u32_enc(nb, t1);
    lemma_p_u64_list_enc(c.bitmap, t2);
    lemma_p_u32_enc(no, t3);
    lemma_p_pair_list_enc(c.offsets, t4);
    lemma_p_u32_enc(nj, t5);
    lemma_p_u32_list_enc(c.jumps, rest);
}

#[verifier::rlimit(100)]
#[verifier::spinoff_prover]
proof fn lemma_p_block_enc(b: BlockModel, rest: Seq<u8>)
    requires
        wf_chron_model(b.chronology),
    ensures
        p_block(enc_block(b) + rest) == Some((b, rest)),
{
    let t3 = enc_chron(b.chronology) + rest;
    let t2 = enc_stat(b.stat) + t3;
    let t1 = enc_u32(b.size) + t2;
    assert(enc_block(b) + rest =~= enc_u64(b.offset) + t1);
    lemma_p_u64_enc(b.offset, t1);
    lemma_p_u32_enc(b.size, t2);
    lemma_p_stat_enc(b.stat, t3);
    lemma_p_chron_enc(b.chronology, rest);
}

#[verifier::rlimit(100)]
#[verifier::spinoff_prover]
proof fn lemma_p_block_list_enc(s: Seq<BlockModel>, rest: Seq<u8>)
    requires
        forall|i: int| 0 <= i < s.len() ==> wf_chron_model(#[trigger] s[i].chronology),
    ensures
        p_block_list(enc_block_list(s) + rest, s.len() as nat) == Some((s, rest)),
    decreases s.len(),
{
    if s.len() == 0 {
        assert(enc_block_list(s) + rest =~= rest);
    } else {
        assert(enc_block_list(s) + rest =~= enc_block(s[0]) + (enc_block_list(s.drop_first())
            + rest));
        lemma_p_block_enc(s[0], enc_block_list(s.drop_first()) + rest);
        assert(forall|i: int|
            0 <= i < s.drop_first().len() ==> wf_chron_model(
                #[trigger] s.drop_first()[i].chronology,
            ));
        lemma_p_block_list_enc(s.drop_first(), rest);
        assert(seq![s[0]] + s.drop_first() =~= s);
    }
}

#[verifier::rlimit(100)]
#[verifier::spinoff_prover]
proof fn lemma_p_source_enc(m: SourceModel, rest: Seq<u8>)
    requires
        wf_source_model(m),
    ensures
        p_source(enc_source(m) + rest) == Some((m, rest)),
{
    let plen = m.path.len() as u32;
    let nb = m.blocks.len() as u32;
    let t5 = enc_block_list(m.blocks) + rest;
    let t4 = enc_u32(nb) + t5;
    let t3 = enc_stat(m.stat) + t4;
    let t2 = enc_ts(m.modified) + t3;
    let t1p = m.path + t2;
    let t1 = enc_u32(plen) + t1p;
    assert(enc_source(m) + rest =~= enc_u64(m.size) + t1);
    lemma_p_u64_enc(m.size, t1);
    lemma_p_u32_enc(plen, t1p);
    assert(t1p.take(plen as int) =~= m.path);
    assert(t1p.skip(plen as int) =~= t2);
    lemma_p_ts_enc(m.modified, t3);
    lemma_p_stat_enc(m.stat, t4);
    lemma_p_u32_enc(nb, t5);
    lemma_p_block_list_enc(m.blocks, rest);
}

/// Law: loading gives back exactly what was saved, for every well-formed
/// index.
#[verifier::rlimit(100)]
#[verifier::spinoff_prover]
pub proof fn lemma_index_round_trip(m: SourceModel)
    requires
        wf_source_model(m),
    ensures
        p_index(enc_index(m)) == Some(m),
{
    let t4 = enc_source(m) + Seq::<u8>::empty();
    let t3 = enc_u64(0) + t4;
    let t2 = enc_u64(0) + t3;
    let t1 = enc_u64(CURRENT_VERSION) + t2;
    assert(enc_index(m) =~= enc_u64(VALID_MAGIC) + t1);
    lemma_p_u64_enc(VALID_MAGIC, t1);
    lemma_p_u64_enc(CURRENT_VERSION, t2);
    lemma_p_u64_enc(0, t3);
    lemma_p_u64_enc(0, t4);
    lemma_p_source_enc(m, Seq::empty());
}

/// Law: a byte string whose magic or version differ parses to nothing.
pub proof fn lemma_index_rejects_bad_header(s: Seq<u8>)
    requires
        s.len() >= 16 ==> (dec_bytes(s.take(8)) != VALID_MAGIC as nat || dec_bytes(
            s.skip(8).take(8),
        ) != CURRENT_VERSION as nat),
    ensures
        p_index(s) is None,
{
    if s.len() >= 16 {
        lemma_dec_bytes_bound(s.take(8));
        lemma_dec_bytes_bound(s.skip(8).take(8));
        lemma_pow256_vals();
    } else if s.len() >= 8 {
        assert(s.skip(8).len() < 8);
    }
}

} // verus!

verus! {

use crate::error::Error;

// Writing the on-disk form.

/// Appends the 4-byte little-endian form of `v`.
pub fn put_u32(buf: &mut Vec<u8>, v: u32)
    ensures
        final(buf)@ == old(buf)@ + enc_bytes(v as nat, 4),
{
    let ghost v0 = v as nat;
    let mut v = v;
    let mut k: usize = 0;
    proof {
        assert(buf@ + enc_bytes(v0, 0) =~= buf@);
        lemma_pow256_pos(0);
    }
    while k < 4
        invariant
            k <= 4,
            buf@ == old(buf)@ + enc_bytes(v0, k as nat),
            v as nat == v0 / pow256(k as nat),
        decreases 4 - k,
    {
        buf.push((v % 256) as u8);
        proof {
            lemma_enc_split(v0, k as nat, (k + 1) as nat);
            lemma_pow256_unfold((k + 1) as nat);
            lemma_pow256_pos(k as nat);
            let x = v0 / pow256(k as nat);
            assert(enc_bytes(x, 1) == seq![(x % 256) as u8] + enc_bytes(x / 256, 0));
            assert(enc_bytes(x, 1) =~= seq![(x % 256) as u8]);
            assert(old(buf)@ + enc_bytes(v0, (k + 1) as nat) =~= old(buf)@ + enc_bytes(v0, k as nat)
                + enc_bytes(x, 1));
            assert(v0 / pow256(k as nat) / 256 == v0 / pow256((k + 1) as nat)) by (nonlinear_arith)
                requires
                    pow256((k + 1) as nat) == 256 * pow256(k as nat) && pow256(k as nat) > 0,
            {
                vstd::arithmetic::div_mod::lemma_div_denominator(
                    v0 as int,
                    pow256(k as nat) as int,
                    256,
                );
            }
            lemma_pow256_pos((k + 1) as nat);
        }
        v = v / 256;
        k = k + 1;
    }
}

/// Appends the biased 8-byte little-endian form of `v`.
pub fn put_i64(buf: &mut Vec<u8>, v: i64)
    ensures
        final(buf)@ == old(buf)@ + enc_i64(v),
{
    let biased: u64 = if v >= 0 {
        (v as u64) + 9223372036854775808u64
    } else {
        ((v + 9223372036854775807i64) + 1) as u64
    };
    put_u64(buf, biased);
}

/// Reads the 4-byte little-endian value at `pos`.
pub fn get_u32(s: &[u8], pos: usize) -> (r: u32)
    requires
        pos + 4 <= s@.len(),
    ensures
        r as nat == dec_bytes(s@.subrange(pos as int, pos + 4)),
{
    let ghost sub = s@.subrange(pos as int, pos + 4);
    let n = s.len();
    let mut acc: u32 = 0;
    let mut j: usize = 4;
    proof {
        assert(sub.skip(4) =~= Seq::<u8>::empty());
        lemma_pow256_vals();
    }
    while j > 0
        invariant
            j <= 4,
            n == s@.len(),
            pos + 4 <= n,
            sub == s@.subrange(pos as int, pos + 4),
            acc as nat == dec_bytes(sub.skip(j as int)),
            (acc as nat) < pow256((4 - j) as nat),
        decreases j,
    {
        let b = s[pos + j - 1];
        proof {
            assert(sub.skip(j - 1 as int).drop_first() =~= sub.skip(j as int));
            assert(sub.skip(j - 1 as int)[0] == sub[j - 1 as int]);
            assert(sub[j - 1 as int] == s@[pos + j - 1 as int]);
            assert(256 * (acc as nat) + 256 > 256 * (acc as nat) + (b as nat)) by (nonlinear_arith)
                requires
                    b < 256,
            ;
            assert(256 * (acc as nat) + 256 <= 256 * pow256((4 - j) as nat)) by (nonlinear_arith)
                requires
                    (acc as nat) < pow256((4 - j) as nat),
            ;
            lemma_pow256_vals();
            lemma_pow256_mono((5 - j) as nat, 4);
            reveal_with_fuel(pow256, 5);
        }
        acc = acc * 256 + (b as u32);
        j = j - 1;
    }
    proof {
        assert(sub.skip(0) =~= sub);
    }
    acc
}

// Cursor-based readers, each tied to its spec parser.

fn read_u64(s: &[u8], pos: usize) -> (r: Option<(u64, usize)>)
    requires
        pos <= s@.len(),
    ensures
        match r {
            Some(v) => p_u64(s@.skip(pos as int)) == Some((v.0, s@.skip(v.1 as int))) && v.1 == pos
                + 8 && v.1 <= s@.len(),
            None => p_u64(s@.skip(pos as int)) is None,
        },
{
    if s.len() - pos >= 8 {
        let v = get_u64(s, pos);
        proof {
            assert(s@.skip(pos as int).take(8) =~= s@.subrange(pos as int, pos + 8));
            assert(s@.skip(pos as int).skip(8) =~= s@.skip(pos + 8));
            lemma_dec_bytes_bound(s@.subrange(pos as int, pos + 8));
            lemma_pow256_vals();
        }
        Some((v, pos + 8))
    } else {
        None
    }
}

fn read_u32(s: &[u8], pos: usize) -> (r: Option<(u32, usize)>)
    requires
        pos <= s@.len(),
    ensures
        match r {
            Some(v) => p_u32(s@.skip(pos as int)) == Some((v.0, s@.skip(v.1 as int))) && v.1 == pos
                + 4 && v.1 <= s@.len(),
            None => p_u32(s@.skip(pos as int)) is None,
        },
{
    if s.len() - pos >= 4 {
        let v = get_u32(s, pos);
        proof {
            assert(s@.skip(pos as int).take(4) =~= s@.subrange(pos as int, pos + 4));
            assert(s@.skip(pos as int).skip(4) =~= s@.skip(pos + 4));
            lemma_dec_bytes_bound(s@.subrange(pos as int, pos + 4));
            lemma_pow256_vals();
        }
        Some((v, pos + 4))
    } else {
        None
    }
}

fn read_i64(s: &[u8], pos: usize) -> (r: Option<(i64, usize)>)
    requires
        pos <= s@.len(),
    ensures
        match r {
            Some(v) => p_i64(s@.skip(pos as int)) == Some((v.0, s@.skip(v.1 as int))) && pos <= v.1
                <= s@.len(),
            None => p_i64(s@.skip(pos as int)) is None,
        },
{
    match read_u64(s, pos) {
        Some((u, p2)) => {
            let v: i64 = if u >= 9223372036854775808u64 {
                (u - 9223372036854775808u64) as i64
            } else {
                -((9223372036854775807u64 - u) as i64) - 1
            };
            Some((v, p2))
        },
        None => None,
    }
}

fn read_ts(s: &[u8], pos: usize) -> (r: Option<(Ts, usize)>)
    requires
        pos <= s@.len(),
    ensures
        match r {
            Some(v) => p_ts(s@.skip(pos as int)) == Some((v.0, s@.skip(v.1 as int))) && pos <= v.1
                <= s@.len(),
            None => p_ts(s@.skip(pos as int)) is None,
        },
{
    match read_i64(s, pos) {
        Some((sec, p2)) => match read_u32(s, p2) {
            Some((nsec, p3)) => Some(((sec, nsec), p3)),
            None => None,
        },
        None => None,
    }
}

} // verus!

verus! {

fn read_stat(s: &[u8], pos: usize) -> (r: Option<(Stat, usize)>)
    requires
        pos <= s@.len(),
    ensures
        match r {
            Some(v) => p_stat(s@.skip(pos as int)) == Some((v.0, s@.skip(v.1 as int))) && pos <= v.1
                <= s@.len(),
            None => p_stat(s@.skip(pos as int)) is None,
        },
{
    let flags = match read_u64(s, pos) {
        Some(x) => x,
        None => {
            return None;
        },
    };
    let valid = match read_u64(s, flags.1) {
        Some(x) => x,
        None => {
            return None;
        },
    };
    let invalid = match read_u64(s, valid.1) {
        Some(x) => x,
        None => {
            return None;
        },
    };
    let p = invalid.1;
    if s.len() - p < 1 {
        proof {
            assert(s@.skip(p as int).len() < 1);
        }
        return None;
    }
    let tag = s[p];
    proof {
        assert(s@.skip(p as int)[0] == s@[p as int]);
        assert(s@.skip(p as int).skip(1) =~= s@.skip(p + 1));
    }
    if tag == 0 {
        Some(
            (
                Stat {
                    flags: flags.0,
                    lines_valid: valid.0,
                    lines_invalid: invalid.0,
                    ts_min_max: None,
                },
                p + 1,
            ),
        )
    } else if tag == 1 {
        let mn = match read_ts(s, p + 1) {
            Some(x) => x,
            None => {
                return None;
            },
        };
        let mx = match read_ts(s, mn.1) {
            Some(x) => x,
            None => {
                return None;
            },
        };
        Some(
            (
                Stat {
                    flags: flags.0,
                    lines_valid: valid.0,
                    lines_invalid: invalid.0,
                    ts_min_max: Some((mn.0, mx.0)),
                },
                mx.1,
            ),
        )
    } else {
        None
    }
}

/// Relates a partially consumed list parse to the original one.
pub open spec fn p_u64_list_partial(
    orig: Option<(Seq<u64>, Seq<u8>)>,
    done: Seq<u64>,
    rest: Seq<u8>,
    remaining: nat,
) -> bool {
    match p_u64_list(rest, remaining) {
        Some(t) => orig == Some((done + t.0, t.1)),
        None => orig is None,
    }
}

fn read_u64_list(s: &[u8], pos: usize, n: u32) -> (r: Option<(Vec<u64>, usize)>)
    requires
        pos <= s@.len(),
    ensures
        match r {
            Some(v) => p_u64_list(s@.skip(pos as int), n as nat) == Some(
                (v.0@, s@.skip(v.1 as int)),
            ) && pos <= v.1 <= s@.len(),
            None => p_u64_list(s@.skip(pos as int), n as nat) is None,
        },
{
    let ghost orig = p_u64_list(s@.skip(pos as int), n as nat);
    let mut v: Vec<u64> = Vec::new();
    let mut p = pos;
    let mut i: u32 = 0;
    proof {
        assert(v@ + p_u64_list(s@.skip(pos as int), n as nat)->Some_0.0 =~= p_u64_list(
            s@.skip(pos as int),
            n as nat,
        )->Some_0.0);
    }
    while i < n
        invariant
            i <= n,
            pos <= p <= s@.len(),
            orig == p_u64_list(s@.skip(pos as int), n as nat),
            p_u64_list_partial(orig, v@, s@.skip(p as int), (n - i) as nat),
        decreases n - i,
    {
        match read_u64(s, p) {
            Some((x, p2)) => {
                let ghost pre = v@;
                v.push(x);
                proof {
                    let tail = p_u64_list(s@.skip(p2 as int), (n - i - 1) as nat);
                    if tail is Some {
                        assert(pre + (seq![x] + tail->Some_0.0) =~= pre.push(x) + tail->Some_0.0);
                    }
                }
                p = p2;
            },
            None => {
                return None;
            },
        }
        i = i + 1;
    }
    proof {
        assert(v@ + Seq::<u64>::empty() =~= v@);
    }
    Some((v, p))
}

pub open spec fn p_pair_list_partial(
    orig: Option<(Seq<(u32, u32)>, Seq<u8>)>,
    done: Seq<(u32, u32)>,
    rest: Seq<u8>,
    remaining: nat,
) -> bool {
    match p_pair_list(rest, remaining) {
        Some(t) => orig == Some((done + t.0, t.1)),
        None => orig is None,
    }
}

fn read_pair_list(s: &[u8], pos: usize, n: u32) -> (r: Option<(Vec<OffsetPair>, usize)>)
    requires
        pos <= s@.len(),
    ensures
        match r {
            Some(v) => p_pair_list(s@.skip(pos as int), n as nat) == Some(
                (Seq::new(v.0@.len(), |i: int| (v.0@[i].bytes, v.0@[i].jumps)), s@.skip(v.1 as int)),
            ) && pos <= v.1 <= s@.len(),
            None => p_pair_list(s@.skip(pos as int), n as nat) is None,
        },
{
    let ghost orig = p_pair_list(s@.skip(pos as int), n as nat);
    let mut v: Vec<OffsetPair> = Vec::new();
    let mut p = pos;
    let mut i: u32 = 0;
    proof {
        if orig is Some {
            assert(Seq::new(0, |k: int| (v@[k].bytes, v@[k].jumps)) + orig->Some_0.0
                =~= orig->Some_0.0);
        }
    }
    while i < n
        invariant
            i <= n,
            pos <= p <= s@.len(),
            orig == p_pair_list(s@.skip(pos as int), n as nat),
            p_pair_list_partial(
                orig,
                Seq::new(v@.len(), |k: int| (v@[k].bytes, v@[k].jumps)),
                s@.skip(p as int),
                (n - i) as nat,
            ),
        decreases n - i,
    {
        let a = match read_u32(s, p) {
            Some(x) => x,
            None => {
                return None;
            },
        };
        let b = match read_u32(s, a.1) {
            Some(x) => x,
            None => {
                return None;
            },
        };
        let ghost pre = Seq::new(v@.len(), |k: int| (v@[k].bytes, v@[k].jumps));
        v.push(OffsetPair { bytes: a.0, jumps: b.0 });
        proof {
            let cur = Seq::new(v@.len(), |k: int| (v@[k].bytes, v@[k].jumps));
            assert(cur =~= pre.push((a.0, b.0)));
            let tail = p_pair_list(s@.skip(b.1 as int), (n - i - 1) as nat);
            if tail is Some {
                assert(pre + (seq![(a.0, b.0)] + tail->Some_0.0) =~= pre.push((a.0, b.0))
                    + tail->Some_0.0);
            }
        }
        p = b.1;
        i = i + 1;
    }
    proof {
        assert(Seq::new(v@.len(), |k: int| (v@[k].bytes, v@[k].jumps)) + Seq::<(u32, u32)>::empty()
            =~= Seq::new(v@.len(), |k: int| (v@[k].bytes, v@[k].jumps)));
    }
    Some((v, p))
}

pub open spec fn p_u32_list_partial(
    orig: Option<(Seq<u32>, Seq<u8>)>,
    done: Seq<u32>,
    rest: Seq<u8>,
    remaining: nat,
) -> bool {
    match p_u32_list(rest, remaining) {
        Some(t) => orig == Some((done + t.0, t.1)),
        None => orig is None,
    }
}

fn read_u32_list(s: &[u8], pos: usize, n: u32) -> (r: Option<(Vec<u32>, usize)>)
    requires
        pos <= s@.len(),
    ensures
        match r {
            Some(v) => p_u32_list(s@.skip(pos as int), n as nat) == Some(
                (v.0@, s@.skip(v.1 as int)),
            ) && pos <= v.1 <= s@.len(),
            None => p_u32_list(s@.skip(pos as int), n as nat) is None,
        },
{
    let ghost orig = p_u32_list(s@.skip(pos as int), n as nat);
    let mut v: Vec<u32> = Vec::new();
    let mut p = pos;
    let mut i: u32 = 0;
    proof {
        assert(v@ + p_u32_list(s@.skip(pos as int), n as nat)->Some_0.0 =~= p_u32_list(
            s@.skip(pos as int),
            n as nat,
        )->Some_0.0);
    }
    while i < n
        invariant
            i <= n,
            pos <= p <= s@.len(),
            orig == p_u32_list(s@.skip(pos as int), n as nat),
            p_u32_list_partial(orig, v@, s@.skip(p as int), (n - i) as nat),
        decreases n - i,
    {
        match read_u32(s, p) {
            Some((x, p2)) => {
                let ghost pre = v@;
                v.push(x);
                proof {
                    let tail = p_u32_list(s@.skip(p2 as int), (n - i - 1) as nat);
                    if tail is Some {
                        assert(pre + (seq![x] + tail->Some_0.0) =~= pre.push(x) + tail->Some_0.0);
                    }
                }
                p = p2;
            },
            None => {
                return None;
            },
        }
        i = i + 1;
    }
    proof {
        assert(v@ + Seq::<u32>::empty() =~= v@);
    }
    Some((v, p))
}

fn read_chron(s: &[u8], pos: usize) -> (r: Option<(Chronology, usize)>)
    requires
        pos <= s@.len(),
    ensures
        match r {
            Some(v) => p_chron(s@.skip(pos as int)) == Some((v.0.model(), s@.skip(v.1 as int)))
                && pos <= v.1 <= s@.len(),
            None => p_chron(s@.skip(pos as int)) is None,
        },
{
    let nb = match read_u32(s, pos) {
        Some(x) => x,
        None => {
            return None;
        },
    };
    let bitmap = match read_u64_list(s, nb.1, nb.0) {
        Some(x) => x,
        None => {
            return None;
        },
    };
    let no = match read_u32(s, bitmap.1) {
        Some(x) => x,
        None => {
            return None;
        },
    };
    let offsets = match read_pair_list(s, no.1, no.0) {
        Some(x) => x,
        None => {
            return None;
        },
    };
    let nj = match read_u32(s, offsets.1) {
        Some(x) => x,
        None => {
            return None;
        },
    };
    let jumps = match read_u32_list(s, nj.1, nj.0) {
        Some(x) => x,
        None => {
            return None;
        },
    };
    Some((Chronology { bitmap: bitmap.0, offsets: offsets.0, jumps: jumps.0 }, jumps.1))
}

fn read_block(s: &[u8], pos: usize) -> (r: Option<(SourceBlock, usize)>)
    requires
        pos <= s@.len(),
    ensures
        match r {
            Some(v) => p_block(s@.skip(pos as int)) == Some((v.0.model(), s@.skip(v.1 as int)))
                && pos <= v.1 <= s@.len(),
            None => p_block(s@.skip(pos as int)) is None,
        },
{
    let offset = match read_u64(s, pos) {
        Some(x) => x,
        None => {
            return None;
        },
    };
    let size = match read_u32(s, offset.1) {
        Some(x) => x,
        None => {
            return None;
        },
    };
    let stat = match read_stat(s, size.1) {
        Some(x) => x,
        None => {
            return None;
        },
    };
    let chron = match read_chron(s, stat.1) {
        Some(x) => x,
        None => {
            return None;
        },
    };
    Some(
        (
            SourceBlock { offset: offset.0, size: size.0, stat: stat.0, chronology: chron.0 },
            chron.1,
        ),
    )
}

pub open spec fn p_block_list_partial(
    orig: Option<(Seq<BlockModel>, Seq<u8>)>,
    done: Seq<BlockModel>,
    rest: Seq<u8>,
    remaining: nat,
) -> bool {
    match p_block_list(rest, remaining) {
        Some(t) => orig == Some((done + t.0, t.1)),
        None => orig is None,
    }
}

fn read_block_list(s: &[u8], pos: usize, n: u32) -> (r: Option<(Vec<SourceBlock>, usize)>)
    requires
        pos <= s@.len(),
    ensures
        match r {
            Some(v) => p_block_list(s@.skip(pos as int), n as nat) == Some(
                (Seq::new(v.0@.len(), |i: int| v.0@[i].model()), s@.skip(v.1 as int)),
            ) && pos <= v.1 <= s@.len(),
            None => p_block_list(s@.skip(pos as int), n as nat) is None,
        },
{
    let ghost orig = p_block_list(s@.skip(pos as int), n as nat);
    let mut v: Vec<SourceBlock> = Vec::new();
    let mut p = pos;
    let mut i: u32 = 0;
    proof {
        if orig is Some {
            assert(Seq::new(0, |k: int| v@[k].model()) + orig->Some_0.0 =~= orig->Some_0.0);
        }
    }
    while i < n
        invariant
            i <= n,
            pos <= p <= s@.len(),
            orig == p_block_list(s@.skip(pos as int), n as nat),
            p_block_list_partial(
                orig,
                Seq::new(v@.len(), |k: int| v@[k].model()),
                s@.skip(p as int),
                (n - i) as nat,
            ),
        decreases n - i,
    {
        let b = match read_block(s, p) {
            Some(x) => x,
            None => {
                return None;
            },
        };
        let ghost pre = Seq::new(v@.len(), |k: int| v@[k].model());
        let ghost bm = b.0.model();
        v.push(b.0);
        proof {
            let cur = Seq::new(v@.len(), |k: int| v@[k].model());
            assert(cur =~= pre.push(bm));
            let tail = p_block_list(s@.skip(b.1 as int), (n - i - 1) as nat);
            if tail is Some {
                assert(pre + (seq![bm] + tail->Some_0.0) =~= pre.push(bm) + tail->Some_0.0);
            }
        }
        p = b.1;
        i = i + 1;
    }
    proof {
        assert(Seq::new(v@.len(), |k: int| v@[k].model()) + Seq::<BlockModel>::empty() =~= Seq::new(
            v@.len(),
            |k: int| v@[k].model(),
        ));
    }
    Some((v, p))
}

} // verus!

verus! {

// Writers, each tied to its spec encoder.

fn put_ts(buf: &mut Vec<u8>, t: Ts)
    ensures
        final(buf)@ == old(buf)@ + enc_ts(t),
{
    put_i64(buf, t.0);
    put_u32(buf, t.1);
    proof {
        assert(buf@ =~= old(buf)@ + enc_ts(t));
    }
}

fn put_stat(buf: &mut Vec<u8>, st: &Stat)
    ensures
        final(buf)@ == old(buf)@ + enc_stat(*st),
{
    put_u64(buf, st.flags);
    put_u64(buf, st.lines_valid);
    put_u64(buf, st.lines_invalid);
    match st.ts_min_max {
        None => {
            buf.push(0);
            proof {
                assert(buf@ =~= old(buf)@ + enc_stat(*st));
            }
        },
        Some((mn, mx)) => {
            buf.push(1);
            put_ts(buf, mn);
            put_ts(buf, mx);
            proof {
                assert(buf@ =~= old(buf)@ + enc_stat(*st));
            }
        },
    }
}

proof fn lemma_enc_u64_list_push(s: Seq<u64>, v: u64)
    ensures
        enc_u64_list(s.push(v)) == enc_u64_list(s) + enc_u64(v),
    decreases s.len(),
{
    if s.len() == 0 {
        assert(s.push(v).drop_first() =~= Seq::<u64>::empty());
        assert(s.push(v)[0] == v);
        assert(enc_u64_list(Seq::<u64>::empty()) == Seq::<u8>::empty());
        assert(enc_u64_list(s.push(v)) =~= enc_u64_list(s) + enc_u64(v));
    } else {
        assert(s.push(v).drop_first() =~= s.drop_first().push(v));
        assert(s.push(v)[0] == s[0]);
        lemma_enc_u64_list_push(s.drop_first(), v);
        assert(enc_u64_list(s.push(v)) =~= enc_u64_list(s) + enc_u64(v));
    }
}

proof fn lemma_enc_pair_list_push(s: Seq<(u32, u32)>, v: (u32, u32))
    ensures
        enc_pair_list(s.push(v)) == enc_pair_list(s) + enc_u32(v.0) + enc_u32(v.1),
    decreases s.len(),
{
    if s.len() == 0 {
        assert(s.push(v).drop_first() =~= Seq::<(u32, u32)>::empty());
        assert(s.push(v)[0] == v);
        assert(enc_pair_list(Seq::<(u32, u32)>::empty()) == Seq::<u8>::empty());
        assert(enc_pair_list(s.push(v)) =~= enc_pair_list(s) + enc_u32(v.0) + enc_u32(v.1));
    } else {
        assert(s.push(v).drop_first() =~= s.drop_first().push(v));
        assert(s.push(v)[0] == s[0]);
        lemma_enc_pair_list_push(s.drop_first(), v);
        assert(enc_pair_list(s.push(v)) =~= enc_pair_list(s) + enc_u32(v.0) + enc_u32(v.1));
    }
}

proof fn lemma_enc_u32_list_push(s: Seq<u32>, v: u32)
    ensures
        enc_u32_list(s.push(v)) == enc_u32_list(s) + enc_u32(v),
    decreases s.len(),
{
    if s.len() == 0 {
        assert(s.push(v).drop_first() =~= Seq::<u32>::empty());
        assert(s.push(v)[0] == v);
        assert(enc_u32_list(Seq::<u32>::empty()) == Seq::<u8>::empty());
        assert(enc_u32_list(s.push(v)) =~= enc_u32_list(s) + enc_u32(v));
    } else {
        assert(s.push(v).drop_first() =~= s.drop_first().push(v));
        assert(s.push(v)[0] == s[0]);
        lemma_enc_u32_list_push(s.drop_first(), v);
        assert(enc_u32_list(s.push(v)) =~= enc_u32_list(s) + enc_u32(v));
    }
}

proof fn lemma_enc_block_list_push(s: Seq<BlockModel>, v: BlockModel)
    ensures
        enc_block_list(s.push(v)) == enc_block_list(s) + enc_block(v),
    decreases s.len(),
{
    if s.len() == 0 {
        assert(s.push(v).drop_first() =~= Seq::<BlockModel>::empty());
        assert(s.push(v)[0] == v);
        assert(enc_block_list(Seq::<BlockModel>::empty()) == Seq::<u8>::empty());
        assert(enc_block_list(s.push(v)) =~= enc_block_list(s) + enc_block(v));
    } else {
        assert(s.push(v).drop_first() =~= s.drop_first().push(v));
        assert(s.push(v)[0] == s[0]);
        lemma_enc_block_list_push(s.drop_first(), v);
        assert(enc_block_list(s.push(v)) =~= enc_block_list(s) + enc_block(v));
    }
}

fn put_chron(buf: &mut Vec<u8>, c: &Chronology)
    requires
        wf_chron_model(c.model()),
    ensures
        final(buf)@ == old(buf)@ + enc_chron(c.model()),
{
    let ghost m = c.model();
    put_u32(buf, c.bitmap.len() as u32);
    let mut i: usize = 0;
    let nb = c.bitmap.len();
    proof {
        assert(m.bitmap.take(0) =~= Seq::<u64>::empty());
        assert(buf@ =~= old(buf)@ + enc_u32(m.bitmap.len() as u32) + enc_u64_list(m.bitmap.take(0)));
    }
    while i < nb
        invariant
            i <= nb,
            nb == c.bitmap@.len(),
            m == c.model(),
            buf@ == old(buf)@ + enc_u32(m.bitmap.len() as u32) + enc_u64_list(m.bitmap.take(i as int)),
        decreases nb - i,
    {
        put_u64(buf, c.bitmap[i]);
        proof {
            lemma_enc_u64_list_push(m.bitmap.take(i as int), m.bitmap[i as int]);
            assert(m.bitmap.take(i + 1) =~= m.bitmap.take(i as int).push(m.bitmap[i as int]));
            assert(buf@ =~= old(buf)@ + enc_u32(m.bitmap.len() as u32) + enc_u64_list(
                m.bitmap.take(i + 1),
            ));
        }
        i = i + 1;
    }
    proof {
        assert(m.bitmap.take(nb as int) =~= m.bitmap);
    }
    put_u32(buf, c.offsets.len() as u32);
    let ghost base1 = old(buf)@ + enc_u32(m.bitmap.len() as u32) + enc_u64_list(m.bitmap) + enc_u32(
        m.offsets.len() as u32,
    );
    let mut i: usize = 0;
    let no = c.offsets.len();
    proof {
        assert(m.offsets.take(0) =~= Seq::<(u32, u32)>::empty());
        assert(buf@ =~= base1 + enc_pair_list(m.offsets.take(0)));
    }
    while i < no
        invariant
            i <= no,
            no == c.offsets@.len(),
            m == c.model(),
            buf@ == base1 + enc_pair_list(m.offsets.take(i as int)),
        decreases no - i,
    {
        put_u32(buf, c.offsets[i].bytes);
        put_u32(buf, c.offsets[i].jumps);
        proof {
            lemma_enc_pair_list_push(m.offsets.take(i as int), m.offsets[i as int]);
            assert(m.offsets.take(i + 1) =~= m.offsets.take(i as int).push(m.offsets[i as int]));
            assert(buf@ =~= base1 + enc_pair_list(m.offsets.take(i + 1)));
        }
        i = i + 1;
    }
    proof {
        assert(m.offsets.take(no as int) =~= m.offsets);
    }
    put_u32(buf, c.jumps.len() as u32);
    let ghost base2 = base1 + enc_pair_list(m.offsets) + enc_u32(m.jumps.len() as u32);
    let mut i: usize = 0;
    let nj = c.jumps.len();
    proof {
        assert(m.jumps.take(0) =~= Seq::<u32>::empty());
        assert(buf@ =~= base2 + enc_u32_list(m.jumps.take(0)));
    }
    while i < nj
        invariant
            i <= nj,
            nj == c.jumps@.len(),
            m == c.model(),
            buf@ == base2 + enc_u32_list(m.jumps.take(i as int)),
        decreases nj - i,
    {
        put_u32(buf, c.jumps[i]);
        proof {
            lemma_enc_u32_list_push(m.jumps.take(i as int), m.jumps[i as int]);
            assert(m.jumps.take(i + 1) =~= m.jumps.take(i as int).push(m.jumps[i as int]));
            assert(buf@ =~= base2 + enc_u32_list(m.jumps.take(i + 1)));
        }
        i = i + 1;
    }
    proof {
        assert(m.jumps.take(nj as int) =~= m.jumps);
        assert(buf@ =~= old(buf)@ + enc_chron(m));
    }
}

fn put_block(buf: &mut Vec<u8>, b: &SourceBlock)
    requires
        wf_chron_model(b.model().chronology),
    ensures
        final(buf)@ == old(buf)@ + enc_block(b.model()),
{
    put_u64(buf, b.offset);
    put_u32(buf, b.size);
    put_stat(buf, &b.stat);
    put_chron(buf, &b.chronology);
    proof {
        assert(buf@ =~= old(buf)@ + enc_block(b.model()));
    }
}

} // verus!

verus! {

/// The fixed-size header of an index file.
#[derive(Debug, Clone, Copy, PartialEq, Eq, Structural)]
pub struct Header {
    pub magic: u64,
    pub version: u64,
    pub size: u64,
    pub checksum: u64,
}

impl Header {
    pub fn new() -> (r: Self)
        ensures
            r.magic == VALID_MAGIC && r.version == CURRENT_VERSION && r.size == 0 && r.checksum
                == 0,
    {
        Header { magic: VALID_MAGIC, version: CURRENT_VERSION, size: 0, checksum: 0 }
    }

    pub open spec fn is_valid_spec(&self) -> bool {
        self.magic == VALID_MAGIC && self.version == CURRENT_VERSION
    }

    #[verifier::when_used_as_spec(is_valid_spec)]
    pub fn is_valid(&self) -> (r: bool)
        ensures
            r == self.is_valid_spec(),
    {
        self.magic == VALID_MAGIC && self.version == CURRENT_VERSION
    }

    /// Accepts exactly the headers with the current magic and version.
    pub fn validate(&self) -> (r: Result<(), Error>)
        ensures
            r is Ok <==> self.is_valid_spec(),
            r is Err ==> r->Err_0 == Error::InvalidIndexHeader,
    {
        if self.is_valid() {
            Ok(())
        } else {
            Err(Error::InvalidIndexHeader)
        }
    }

    /// Appends the header's 32-byte form.
    pub fn save(&self, buf: &mut Vec<u8>)
        ensures
            final(buf)@ == old(buf)@ + enc_u64(self.magic) + enc_u64(self.version) + enc_u64(
                self.size,
            ) + enc_u64(self.checksum),
    {
        put_u64(buf, self.magic);
        put_u64(buf, self.version);
        put_u64(buf, self.size);
        put_u64(buf, self.checksum);
    }

    /// Reads a header from the start of `s`.
    pub fn load(s: &[u8]) -> (r: Option<(Header, usize)>)
        ensures
            match r {
                Some(v) => {
                    &&& s@.len() >= 32
                    &&& v.1 == 32
                    &&& v.0.magic as nat == dec_bytes(s@.take(8))
                    &&& v.0.version as nat == dec_bytes(s@.skip(8).take(8))
                },
                None => s@.len() < 32,
            },
    {
        let magic = match read_u64(s, 0) {
            Some(x) => x,
            None => {
                return None;
            },
        };
        let version = match read_u64(s, magic.1) {
            Some(x) => x,
            None => {
                return None;
            },
        };
        let size = match read_u64(s, version.1) {
            Some(x) => x,
            None => {
                return None;
            },
        };
        let checksum = match read_u64(s, size.1) {
            Some(x) => x,
            None => {
                return None;
            },
        };
        proof {
            assert(s@.skip(0).take(8) =~= s@.take(8));
            assert(s@.skip(0).skip(8) =~= s@.skip(8));
            lemma_dec_bytes_bound(s@.take(8));
            lemma_dec_bytes_bound(s@.skip(8).take(8));
            lemma_pow256_vals();
        }
        Some(
            (
                Header { magic: magic.0, version: version.0, size: size.0, checksum: checksum.0 },
                checksum.1,
            ),
        )
    }
}

impl Index {
    /// Serializes the index to its on-disk byte form.
    pub fn save(&self) -> (r: Vec<u8>)
        requires
            wf_source_model(self.model()),
        ensures
            r@ == enc_index(self.model()),
    {
        let ghost m = self.model();
        let mut buf: Vec<u8> = Vec::new();
        let header = Header::new();
        header.save(&mut buf);
        put_u64(&mut buf, self.source.size);
        put_u32(&mut buf, self.source.path.len() as u32);
        buf.extend_from_slice(self.source.path.as_slice());
        put_ts(&mut buf, self.source.modified);
        put_stat(&mut buf, &self.source.stat);
        put_u32(&mut buf, self.source.blocks.len() as u32);
        let ghost base = buf@;
        let n = self.source.blocks.len();
        let mut i: usize = 0;
        proof {
            assert(m.blocks.take(0) =~= Seq::<BlockModel>::empty());
            assert(buf@ =~= base + enc_block_list(m.blocks.take(0)));
        }
        while i < n
            invariant
                i <= n,
                n == self.source.blocks@.len(),
                m == self.model(),
                wf_source_model(m),
                buf@ == base + enc_block_list(m.blocks.take(i as int)),
            decreases n - i,
        {
            proof {
                assert(wf_chron_model(m.blocks[i as int].chronology));
            }
            put_block(&mut buf, &self.source.blocks[i]);
            proof {
                lemma_enc_block_list_push(m.blocks.take(i as int), m.blocks[i as int]);
                assert(m.blocks.take(i + 1) =~= m.blocks.take(i as int).push(m.blocks[i as int]));
                assert(buf@ =~= base + enc_block_list(m.blocks.take(i + 1)));
            }
            i = i + 1;
        }
        proof {
            assert(m.blocks.take(n as int) =~= m.blocks);
            assert(buf@ =~= enc_index(m));
        }
        buf
    }

    /// Parses an index from its on-disk byte form; rejects a bad header or a
    /// malformed or incomplete body.
    #[verifier::rlimit(100)]
    #[verifier::spinoff_prover]
    pub fn load(s: &[u8]) -> (r: Result<Index, Error>)
        ensures
            match r {
                Ok(ix) => p_index(s@) == Some(ix.model()),
                Err(_) => p_index(s@) is None,
            },
    {
        let header = match Header::load(s) {
            Some(x) => x,
            None => {
                proof {
                    if s@.len() >= 8 {
                        assert(s@.skip(0).take(8) =~= s@.take(8));
                        assert(s@.skip(0).skip(8) =~= s@.skip(8));
                    }
                }
                return Err(Error::InvalidIndexHeader);
            },
        };
        proof {
            assert(s@.skip(0).take(8) =~= s@.take(8));
            assert(s@.skip(0).skip(8) =~= s@.skip(8));
            assert(s@.skip(8).skip(8) =~= s@.skip(16));
            assert(s@.skip(16).skip(8) =~= s@.skip(24));
            assert(s@.skip(24).skip(8) =~= s@.skip(32));
        }
        match header.0.validate() {
            Ok(()) => (),
            Err(e) => {
                proof {
                    lemma_dec_bytes_bound(s@.take(8));
                    lemma_dec_bytes_bound(s@.skip(8).take(8));
                    lemma_pow256_vals();
                }
                return Err(e);
            },
        }
        let size = match read_u64(s, 32) {
            Some(x) => x,
            None => {
                return Err(Error::InconsistentIndex);
            },
        };
        let plen = match read_u32(s, size.1) {
            Some(x) => x,
            None => {
                return Err(Error::InconsistentIndex);
            },
        };
        let p = plen.1;
        if s.len() - p < plen.0 as usize {
            proof {
                assert(s@.skip(p as int).len() < plen.0);
            }
            return Err(Error::InconsistentIndex);
        }
        let path = vstd::slice::slice_to_vec(
            vstd::slice::slice_subrange(s, p, p + plen.0 as usize),
        );
        let p2 = p + plen.0 as usize;
        proof {
            assert(s@.skip(p as int).take(plen.0 as int) =~= s@.subrange(p as int, p2 as int));
            assert(s@.skip(p as int).skip(plen.0 as int) =~= s@.skip(p2 as int));
        }
        let modified = match read_ts(s, p2) {
            Some(x) => x,
            None => {
                return Err(Error::InconsistentIndex);
            },
        };
        let stat = match read_stat(s, modified.1) {
            Some(x) => x,
            None => {
                return Err(Error::InconsistentIndex);
            },
        };
        let nblocks = match read_u32(s, stat.1) {
            Some(x) => x,
            None => {
                return Err(Error::InconsistentIndex);
            },
        };
        let blocks = match read_block_list(s, nblocks.1, nblocks.0) {
            Some(x) => x,
            None => {
                return Err(Error::InconsistentIndex);
            },
        };
        if blocks.1 != s.len() {
            proof {
                assert(s@.skip(blocks.1 as int).len() != 0);
            }
            return Err(Error::InconsistentIndex);
        }
        proof {
            assert(s@.skip(blocks.1 as int).len() == 0);
        }
        Ok(
            Index {
                source: SourceFile {
                    size: size.0,
                    path,
                    modified: modified.0,
                    stat: stat.0,
                    blocks: blocks.0,
                },
            },
        )
    }
}

} // verus!

verus! {

// Chronology construction.

/// What the per-segment scan records for one line: its timestamp (or the
/// previous line's, for continuity), its physical position, and its byte
/// offset in the block.
#[derive(Debug, Clone, Copy, PartialEq, Eq)]
pub struct LineInfo {
    pub ts: Option<Ts>,
    pub index: u32,
    pub offset: u32,
}

pub open spec fn opt_ts_le(a: Option<Ts>, b: Option<Ts>) -> bool {
    match (a, b) {
        (Option::None, _) => true,
        (Option::Some(_), Option::None) => false,
        (Option::Some(x), Option::Some(y)) => ts_le(x, y),
    }
}

/// Chronological order on lines: by timestamp, then by physical position.
pub open spec fn line_le(a: LineInfo, b: LineInfo) -> bool {
    if a.ts == b.ts {
        a.index <= b.index
    } else {
        opt_ts_le(a.ts, b.ts)
    }
}

fn line_le_exec(a: &LineInfo, b: &LineInfo) -> (r: bool)
    ensures
        r == line_le(*a, *b),
{
    match (a.ts, b.ts) {
        (Option::None, Option::None) => a.index <= b.index,
        (Option::None, Option::Some(_)) => true,
        (Option::Some(_), Option::None) => false,
        (Option::Some(x), Option::Some(y)) => {
            if x.0 == y.0 && x.1 == y.1 {
                a.index <= b.index
            } else {
                ts_le_exec(x, y)
            }
        },
    }
}

pub open spec fn lines_sorted(s: Seq<LineInfo>) -> bool {
    forall|i: int, j: int| 0 <= i < j < s.len() ==> line_le(#[trigger] s[i], #[trigger] s[j])
}

/// Sorts lines chronologically, stably by physical position on equal
/// timestamps; the result holds exactly the given lines.
pub fn sort_lines(lines: Vec<LineInfo>) -> (r: Vec<LineInfo>)
    ensures
        lines_sorted(r@),
        r@.to_multiset() == lines@.to_multiset(),
        r@.len() == lines@.len(),
{
    broadcast use vstd::seq_lib::group_to_multiset_ensures;

    let mut lines = lines;
    let ghost orig = lines@;
    let n = lines.len();
    if n == 0 {
        return lines;
    }
    let mut i: usize = 1;
    while i < n
        invariant
            1 <= i <= n,
            n == lines@.len(),
            lines@.to_multiset() == orig.to_multiset(),
            lines_sorted(lines@.take(i as int)),
        decreases n - i,
    {
        let x = lines[i];
        proof {
            assert forall|k: int, l: int| 0 <= k < l < i implies line_le(
                #[trigger] lines@[k],
                #[trigger] lines@[l],
            ) by {
                assert(line_le(lines@.take(i as int)[k], lines@.take(i as int)[l]));
            }
        }
        let mut j = i;
        while j > 0
            invariant_except_break
                0 <= j <= i < n,
                n == lines@.len(),
                lines@.to_multiset() == orig.to_multiset(),
                lines@[j as int] == x,
                forall|k: int| j < k <= i ==> line_le(x, #[trigger] lines@[k]),
                forall|k: int, l: int|
                    0 <= k < l <= i && k != j && l != j ==> line_le(
                        #[trigger] lines@[k],
                        #[trigger] lines@[l],
                    ),
            ensures
                0 <= j <= i < n,
                n == lines@.len(),
                lines@.to_multiset() == orig.to_multiset(),
                lines@[j as int] == x,
                forall|k: int| j < k <= i ==> line_le(x, #[trigger] lines@[k]),
                forall|k: int, l: int|
                    0 <= k < l <= i && k != j && l != j ==> line_le(
                        #[trigger] lines@[k],
                        #[trigger] lines@[l],
                    ),
                j == 0 || line_le(lines@[j - 1], x),
            decreases j,
        {
            if line_le_exec(&lines[j - 1], &x) {
                break;
            }
            proof {
                lemma_line_le_total(lines@[j - 1], x);
            }
            let prev = lines[j - 1];
            let ghost before = lines@;
            lines.set(j - 1, x);
            lines.set(j, prev);
            proof {
                lemma_swap_multiset(before, lines@, j - 1, j as int);
            }
            j = j - 1;
        }
        proof {
            assert forall|k: int, l: int| 0 <= k < l <= i implies line_le(
                #[trigger] lines@[k],
                #[trigger] lines@[l],
            ) by {
                if k == j {
                    assert(line_le(x, lines@[l]));
                } else if l == j {
                    if k == j - 1 {
                        assert(line_le(lines@[k], x));
                    } else {
                        assert(line_le(lines@[k], lines@[j - 1]));
                        lemma_line_le_trans(lines@[k], lines@[j - 1], x);
                    }
                }
            }
            assert(lines_sorted(lines@.take(i + 1))) by {
                assert(forall|k: int, l: int|
                    0 <= k < l < i + 1 ==> line_le(
                        #[trigger] lines@.take(i + 1)[k],
                        #[trigger] lines@.take(i + 1)[l],
                    ));
            }
        }
        i = i + 1;
    }
    proof {
        if n > 0 {
            assert(lines@.take(n as int) =~= lines@);
        }
    }
    lines
}

/// The chronological order on lines is transitive.
proof fn lemma_line_le_trans(a: LineInfo, b: LineInfo, c: LineInfo)
    requires
        line_le(a, b),
        line_le(b, c),
    ensures
        line_le(a, c),
{
}

/// The order on lines is total.
proof fn lemma_line_le_total(a: LineInfo, b: LineInfo)
    ensures
        line_le(a, b) || line_le(b, a),
{
}

/// Swapping two positions keeps the multiset.
proof fn lemma_swap_multiset(s0: Seq<LineInfo>, s1: Seq<LineInfo>, i: int, j: int)
    requires
        0 <= i < j < s0.len(),
        s1.len() == s0.len(),
        s1[i] == s0[j],
        s1[j] == s0[i],
        forall|k: int| 0 <= k < s0.len() && k != i && k != j ==> s1[k] == #[trigger] s0[k],
    ensures
        s0.to_multiset() == s1.to_multiset(),
{
    broadcast use vstd::seq_lib::group_to_multiset_ensures;
    broadcast use vstd::multiset::group_multiset_axioms;

    let t = s0.update(i, s0[j]).update(j, s0[i]);
    assert(s1 =~= t);
    assert(s0.update(i, s0[j])[j] == s0[j]);
    assert(t.to_multiset() =~= s0.to_multiset());
}

} // verus!

verus! {

// The chronology encoding and its decoding model.

/// Line `k` needs a jump: its chronological predecessor is not its physical
/// predecessor, and it is not the first line of its chunk.
pub open spec fn jump_flag(s: Seq<LineInfo>, k: int) -> bool {
    k % 64 != 0 && 0 < k < s.len() && s[k].index != s[k - 1].index + 1
}

/// How many lines before `k` need a jump.
pub open spec fn jump_count(s: Seq<LineInfo>, k: int) -> nat
    decreases k,
{
    if k <= 0 {
        0
    } else {
        jump_count(s, k - 1) + (if jump_flag(s, k - 1) {
            1nat
        } else {
            0nat
        })
    }
}

/// The byte offsets of the jump-needing lines before `k`, in order.
pub open spec fn jump_offsets(s: Seq<LineInfo>, k: int) -> Seq<u32>
    decreases k,
{
    if k <= 0 {
        Seq::empty()
    } else {
        jump_offsets(s, k - 1) + (if jump_flag(s, k - 1) {
            seq![s[k - 1].offset]
        } else {
            Seq::empty()
        })
    }
}

/// The bitmap word of chunk `c` after its first `m` bits are decided.
pub open spec fn word_of(s: Seq<LineInfo>, c: int, m: int) -> u64
    decreases m,
{
    if m <= 0 {
        0
    } else {
        word_of(s, c, m - 1) | (if jump_flag(s, 64 * c + (m - 1)) {
            (1u64 << ((m - 1) as u64))
        } else {
            0
        })
    }
}

/// Bit `b` of a partially built word reads back exactly its jump flag.
pub proof fn lemma_word_bit(s: Seq<LineInfo>, c: int, m: int, b: u64)
    requires
        b < 64,
        0 <= m <= 64,
    ensures
        (word_of(s, c, m) & (1u64 << b) != 0) == (b < m && jump_flag(s, 64 * c + b)),
    decreases m,
{
    if m <= 0 {
        assert(0u64 & (1u64 << b) == 0) by (bit_vector);
    } else {
        lemma_word_bit(s, c, m - 1, b);
        let w = word_of(s, c, m - 1);
        let a = (m - 1) as u64;
        assert(((w | (1u64 << a)) & (1u64 << b) != 0) == ((w & (1u64 << b) != 0) || a == b))
            by (bit_vector)
            requires
                a < 64 && b < 64,
        ;
        assert((w | 0u64) == w) by (bit_vector);
    }
}

/// What the chronology of a sorted line table must hold.
pub open spec fn chron_spec(c: ChronModel, s: Seq<LineInfo>) -> bool {
    let n = s.len() as int;
    let nchunks = (n + 63) / 64;
    &&& c.offsets.len() == nchunks
    &&& c.bitmap.len() == nchunks
    &&& forall|ch: int|
        0 <= ch < nchunks ==> #[trigger] c.offsets[ch] == (
        s[64 * ch].offset,
        jump_count(s, 64 * ch) as u32,
        )
    &&& forall|ch: int|
        0 <= ch < nchunks ==> #[trigger] c.bitmap[ch] == word_of(
            s,
            ch,
            if n - 64 * ch < 64 {
                n - 64 * ch
            } else {
                64
            },
        )
    &&& c.jumps == jump_offsets(s, n)
}

/// Builds the chronology of a sorted line table: per-chunk entry offsets and
/// jump bases, the jump bitmap, and the jump table.
pub fn build_chronology(sorted: &Vec<LineInfo>) -> (r: Chronology)
    requires
        sorted@.len() <= u32::MAX,
    ensures
        chron_spec(r.model(), sorted@),
{
    let ghost s = sorted@;
    let n = sorted.len();
    let mut bitmap: Vec<u64> = Vec::new();
    let mut offsets: Vec<OffsetPair> = Vec::new();
    let mut jumps: Vec<u32> = Vec::new();
    let mut k: usize = 0;
    let mut mask: u64 = 0;
    let ghost nchunks = (n + 63) as int / 64;
    while k < n
        invariant
            0 <= k <= n,
            s == sorted@,
            n == s.len(),
            n <= u32::MAX,
            bitmap@.len() == k as int / 64,
            offsets@.len() == k as int / 64 + (if k % 64 == 0 {
                0int
            } else {
                1int
            }),
            jumps@ == jump_offsets(s, k as int),
            jumps@.len() == jump_count(s, k as int),
            mask == (if k % 64 == 0 {
                0u64
            } else {
                word_of(s, k as int / 64, k as int % 64)
            }),
            forall|ch: int|
                0 <= ch < offsets@.len() ==> (#[trigger] offsets@[ch]).bytes == s[64 * ch].offset
                    && offsets@[ch].jumps == jump_count(s, 64 * ch) as u32,
            forall|ch: int|
                0 <= ch < bitmap@.len() ==> #[trigger] bitmap@[ch] == word_of(s, ch, 64),
        decreases n - k,
    {
        let m = k % 64;
        if m == 0 {
            offsets.push(OffsetPair { bytes: sorted[k].offset, jumps: jumps.len() as u32 });
            proof {
                assert(64 * (k as int / 64) == k as int);
            }
        }
        let flagged = if m != 0 {
            sorted[k].index as u64 != sorted[k - 1].index as u64 + 1
        } else {
            false
        };
        let ghost c = k as int / 64;
        proof {
            assert(64 * c + m as int == k as int);
            assert(flagged == jump_flag(s, k as int));
        }
        if flagged {
            mask = mask | (1u64 << (m as u64));
            jumps.push(sorted[k].offset);
            proof {
                assert(jump_offsets(s, k as int + 1) =~= jump_offsets(s, k as int) + seq![s[k as int].offset]);
                assert(jumps@ =~= jump_offsets(s, k as int + 1));
            }
        } else {
            proof {
                assert(jump_offsets(s, k as int + 1) =~= jump_offsets(s, k as int));
                assert(mask | 0u64 == mask) by (bit_vector);
            }
            mask = mask | 0;
        }
        proof {
            if m == 0 {
                assert(word_of(s, c, 0) == 0);
            }
            assert(word_of(s, c, m as int + 1) == word_of(s, c, m as int) | (if jump_flag(
                s,
                64 * c + m as int,
            ) {
                (1u64 << (m as u64))
            } else {
                0u64
            }));
            assert(mask == word_of(s, c, m as int + 1));
        }
        k = k + 1;
        if k % 64 == 0 {
            proof {
                assert(m as int + 1 == 64);
            }
            bitmap.push(mask);
            mask = 0;
        } else {
            proof {
                assert(k as int / 64 == c && k as int % 64 == m as int + 1);
            }
        }
    }
    if n % 64 != 0 {
        bitmap.push(mask);
    }
    proof {
        assert(bitmap@.len() == (n + 63) as int / 64);
        assert(offsets@.len() == (n + 63) as int / 64);
        if n % 64 != 0 {
            assert(bitmap@[bitmap@.len() - 1] == word_of(
                s,
                n as int / 64,
                n as int - 64 * (n as int / 64),
            ));
        }
        assert forall|ch: int| 0 <= ch < nchunks implies (#[trigger] offsets@[ch]).bytes == s[64
            * ch].offset && offsets@[ch].jumps == jump_count(s, 64 * ch) as u32 by {}
        assert forall|ch: int| 0 <= ch < nchunks implies #[trigger] bitmap@[ch] == word_of(
            s,
            ch,
            if n as int - 64 * ch < 64 {
                n as int - 64 * ch
            } else {
                64
            },
        ) by {
            if ch < n as int / 64 {
                assert(n as int - 64 * ch >= 64);
            } else {
                assert(n as int - 64 * ch < 64);
            }
        }
    }
    Chronology { bitmap, offsets, jumps }
}

} // verus!

verus! {

use crate::model::{Parser, parse_json_object, Level};

/// The level flag bit of a recognized level.
pub open spec fn level_flag(l: Option<Level>) -> u64 {
    match l {
        Some(Level::Debug) => FLAG_LEVEL_DEBUG,
        Some(Level::Info) => FLAG_LEVEL_INFO,
        Some(Level::Warning) => FLAG_LEVEL_WARNING,
        Some(Level::Error) => FLAG_LEVEL_ERROR,
        None => 0,
    }
}

proof fn lemma_bit32_or(a: u64, b: u64)
    requires
        a & 32u64 == 0,
        b & 32u64 == 0,
    ensures
        (a | b) & 32u64 == 0,
{
    assert((a | b) & 32u64 == 0) by (bit_vector)
        requires
            a & 32u64 == 0 && b & 32u64 == 0,
    ;
}

proof fn lemma_bit32_set(a: u64)
    ensures
        (a | 32u64) & 32u64 != 0,
{
    assert((a | 32u64) & 32u64 != 0) by (bit_vector);
}

proof fn lemma_small_flags()
    ensures
        1u64 & 32u64 == 0,
        2u64 & 32u64 == 0,
        4u64 & 32u64 == 0,
        8u64 & 32u64 == 0,
        16u64 & 32u64 == 0,
        0u64 & 32u64 == 0,
{
    assert(1u64 & 32u64 == 0 && 2u64 & 32u64 == 0 && 4u64 & 32u64 == 0 && 8u64 & 32u64 == 0
        && 16u64 & 32u64 == 0 && 0u64 & 32u64 == 0) by (bit_vector);
}

/// What one line contributes to the statistics: nothing when it is blank
/// or not a JSON object; else the parsed record's epoch timestamp (when its
/// time field parses) and its level flag.
#[verifier::opaque]
pub open spec fn line_outcome(sm: crate::model::SettingsModel, content: Seq<u8>) -> Option<
    (Option<Ts>, u64),
> {
    if content.len() == 0 {
        None
    } else {
        match crate::model::json_record_of(content) {
            Some(fields) => {
                let rm = crate::model::parse_fields(sm, fields);
                Some(
                    (
                        match rm.ts {
                            Some(raw) => crate::model::ts_epoch_of(raw),
                            None => None,
                        },
                        level_flag(rm.level),
                    ),
                )
            },
            None => None,
        }
    }
}

/// The outcome of physical line `j` of the table.
#[verifier::opaque]
pub open spec fn phys_outcome(
    sm: crate::model::SettingsModel,
    data: Seq<u8>,
    phys: Seq<LineInfo>,
    j: int,
) -> Option<(Option<Ts>, u64)> {
    line_outcome(
        sm,
        crate::cat::strip_crlf(
            data.subrange(
                phys[j].offset as int,
                crate::input::line_end_from(data, phys[j].offset as int),
            ),
        ),
    )
}

/// How many of the first `j` lines parse as records.
#[verifier::opaque]
pub open spec fn valid_count(
    sm: crate::model::SettingsModel,
    data: Seq<u8>,
    phys: Seq<LineInfo>,
    j: int,
) -> int
    decreases j,
{
    if j <= 0 || j > phys.len() {
        0
    } else {
        valid_count(sm, data, phys, j - 1) + (if phys_outcome(sm, data, phys, j - 1) is Some {
            1int
        } else {
            0int
        })
    }
}

/// The union of the level flags of the first `j` lines, with the
/// has-timestamps bit for every line whose timestamp parses.
#[verifier::opaque]
pub open spec fn flags_fold(
    sm: crate::model::SettingsModel,
    data: Seq<u8>,
    phys: Seq<LineInfo>,
    j: int,
) -> u64
    decreases j,
{
    if j <= 0 || j > phys.len() {
        0
    } else {
        flags_fold(sm, data, phys, j - 1) | (match phys_outcome(sm, data, phys, j - 1) {
            Some(o) => o.1 | (if o.0 is Some {
                FLAG_HAS_TIMESTAMPS
            } else {
                0
            }),
            None => 0,
        })
    }
}

/// The (min, max) hull of the parsed timestamps of the first `j` lines.
#[verifier::opaque]
pub open spec fn hull_fold(
    sm: crate::model::SettingsModel,
    data: Seq<u8>,
    phys: Seq<LineInfo>,
    j: int,
) -> Option<(Ts, Ts)>
    decreases j,
{
    if j <= 0 || j > phys.len() {
        None
    } else {
        min_max_opt_spec(
            hull_fold(sm, data, phys, j - 1),
            match phys_outcome(sm, data, phys, j - 1) {
                Some(o) => match o.0 {
                    Some(t) => Some((t, t)),
                    None => None,
                },
                None => None,
            },
        )
    }
}

/// Whether some parsed timestamp among the first `j` lines falls behind its
/// predecessor's carried timestamp.
#[verifier::opaque]
pub open spec fn regression(
    sm: crate::model::SettingsModel,
    data: Seq<u8>,
    phys: Seq<LineInfo>,
    j: int,
) -> bool
    decreases j,
{
    if j <= 0 || j > phys.len() {
        false
    } else {
        regression(sm, data, phys, j - 1) || {
            let k = j - 1;
            match phys_outcome(sm, data, phys, k) {
                Some(o) => match o.0 {
                    Some(t) => k > 0 && (match phys[k - 1].ts {
                        Some(p) => !ts_le(p, t),
                        None => false,
                    }),
                    None => false,
                },
                None => false,
            }
        }
    }
}

/// The carried timestamp of physical line `j`: its own parsed timestamp,
/// else its predecessor's.
#[verifier::opaque]
pub open spec fn carried_ts(
    sm: crate::model::SettingsModel,
    data: Seq<u8>,
    phys: Seq<LineInfo>,
    j: int,
) -> Option<Ts> {
    match phys_outcome(sm, data, phys, j) {
        Some(o) => match o.0 {
            Some(t) => Some(t),
            None => if j == 0 {
                None
            } else {
                phys[j - 1].ts
            },
        },
        None => if j == 0 {
            None
        } else {
            phys[j - 1].ts
        },
    }
}

/// The physical line table of a segment: entry `j` starts where line `j - 1`
/// ends, the first at zero, the last ending at the segment's end, each
/// carrying the running timestamp.
pub open spec fn phys_table(
    sm: crate::model::SettingsModel,
    data: Seq<u8>,
    phys: Seq<LineInfo>,
) -> bool {
    &&& (phys.len() == 0 <==> data.len() == 0)
    &&& forall|j: int| 0 <= j < phys.len() ==> (#[trigger] phys[j].index) == j
    &&& phys.len() > 0 ==> phys[0].offset == 0
    &&& forall|j: int|
        0 < j < phys.len() ==> (#[trigger] phys[j].offset) as int == crate::input::line_end_from(
            data,
            phys[j - 1].offset as int,
        )
    &&& phys.len() > 0 ==> crate::input::line_end_from(
        data,
        phys.last().offset as int,
    ) == data.len()
    &&& forall|j: int|
        0 <= j < phys.len() ==> (#[trigger] phys[j].ts) == carried_ts(sm, data, phys, j)
}

/// Folds over a line-table prefix see only that prefix.
proof fn lemma_folds_agree(
    sm: crate::model::SettingsModel,
    data: Seq<u8>,
    p1: Seq<LineInfo>,
    p2: Seq<LineInfo>,
    j: int,
)
    requires
        j <= p1.len() && j <= p2.len(),
        forall|k: int| 0 <= k < j ==> #[trigger] p1[k] == p2[k],
    ensures
        valid_count(sm, data, p1, j) == valid_count(sm, data, p2, j),
        flags_fold(sm, data, p1, j) == flags_fold(sm, data, p2, j),
        hull_fold(sm, data, p1, j) == hull_fold(sm, data, p2, j),
        regression(sm, data, p1, j) == regression(sm, data, p2, j),
    decreases j,
{
    reveal(valid_count);
    reveal(flags_fold);
    reveal(hull_fold);
    reveal(regression);
    reveal(phys_outcome);
    if j > 0 {
        lemma_folds_agree(sm, data, p1, p2, j - 1);
    }
}

/// Builds per-file indices from scanned segments.
#[derive(Debug)]
pub struct Indexer {
    pub concurrency: usize,
    pub buffer_size: u32,
    pub dir: Vec<u8>,
}

impl Indexer {
    /// A new indexer with the given worker count, segment size, and cache
    /// directory path.
    pub fn new(concurrency: usize, buffer_size: u32, dir: Vec<u8>) -> (r: Self)
        ensures
            r.concurrency == concurrency && r.buffer_size == buffer_size && r.dir == dir,
    {
        Indexer { concurrency, buffer_size, dir }
    }

    /// Scans one complete segment: parses each line, accumulates statistics,
    /// and, when the segment's timestamps are not already in order, builds a
    /// chronology satisfying `chron_spec` over a sorted line table that meets
    /// the premises of the chronology consistency law. The returned tables
    /// pin the scan: the last ghost value is the segment's physical line
    /// table (`phys_table`), the other holds the same lines, chronologically
    /// sorted when a chronology was built; the statistics are the exact
    /// per-line folds over that table.
    #[verifier::rlimit(100)]
    #[verifier::spinoff_prover]
    pub fn process_segment(&self, parser: &Parser, data: &[u8]) -> (r: (
        Stat,
        Chronology,
        Ghost<Seq<LineInfo>>,
        Ghost<Seq<LineInfo>>,
    ))
        requires
            data@.len() <= u32::MAX,
        ensures
            phys_table(parser.settings.model(), data@, r.3@),
            r.2@.to_multiset() == r.3@.to_multiset(),
            r.2@.len() == r.3@.len(),
            r.0.lines_valid == valid_count(
                parser.settings.model(),
                data@,
                r.3@,
                r.3@.len() as int,
            ),
            r.0.lines_valid + r.0.lines_invalid == r.3@.len(),
            r.0.ts_min_max == hull_fold(parser.settings.model(), data@, r.3@, r.3@.len() as int),
            r.0.flags == flags_fold(parser.settings.model(), data@, r.3@, r.3@.len() as int) | (
            if regression(parser.settings.model(), data@, r.3@, r.3@.len() as int) {
                FLAG_UNSORTED
            } else {
                0u64
            }),
            (r.0.flags & FLAG_UNSORTED != 0) == regression(
                parser.settings.model(),
                data@,
                r.3@,
                r.3@.len() as int,
            ),
            lines_sorted(r.2@),
            r.2@.len() <= u32::MAX,
            forall|j: int| 0 <= j < r.2@.len() ==> (#[trigger] r.2@[j].offset) <= data@.len(),
            forall|j: int|
                0 < j < r.2@.len() && (#[trigger] r.2@[j].index) == r.2@[j - 1].index + 1
                    ==> r.2@[j].offset as int == crate::input::line_end_from(
                    data@,
                    r.2@[j - 1].offset as int,
                ),
            r.0.flags & FLAG_UNSORTED != 0 ==> chron_spec(r.1.model(), r.2@),
            r.0.flags & FLAG_UNSORTED == 0 ==> r.1.is_empty_spec(),
    {
        let ghost sm = parser.settings.model();
        let mut stat = Stat::new();
        let mut sorted_so_far = true;
        let mut prev_ts: Option<Ts> = None;
        let mut lines: Vec<LineInfo> = Vec::new();
        let mut pos: usize = 0;
        let n = data.len();
        let mut i: u32 = 0;
        proof {
            lemma_small_flags();
            reveal(valid_count);
            reveal(flags_fold);
            reveal(hull_fold);
            reveal(regression);
            assert(valid_count(sm, data@, lines@, 0) == 0);
            assert(flags_fold(sm, data@, lines@, 0) == 0);
            assert(hull_fold(sm, data@, lines@, 0) is None);
            assert(!regression(sm, data@, lines@, 0));
        }
        while pos < n
            invariant
                pos <= n,
                n == data@.len(),
                n <= u32::MAX,
                sm == parser.settings.model(),
                i as int == lines@.len(),
                stat.lines_valid == valid_count(sm, data@, lines@, i as int),
                stat.lines_valid + stat.lines_invalid == lines@.len(),
                stat.lines_invalid <= lines@.len(),
                stat.ts_min_max == hull_fold(sm, data@, lines@, i as int),
                stat.flags == flags_fold(sm, data@, lines@, i as int),
                stat.flags & 32u64 == 0,
                stat.ts_min_max is Some ==> stat.flags & 16u64 == 16u64,
                sorted_so_far == !regression(sm, data@, lines@, i as int),
                forall|j: int| 0 <= j < lines@.len() ==> (#[trigger] lines@[j].offset) <= n,
                forall|j: int| 0 <= j < lines@.len() ==> (#[trigger] lines@[j].index) == j,
                lines@.len() > 0 ==> lines@[0].offset == 0,
                forall|j: int|
                    0 < j < lines@.len() ==> (#[trigger] lines@[j].offset) as int
                        == crate::input::line_end_from(data@, lines@[j - 1].offset as int),
                forall|j: int|
                    0 <= j < lines@.len() ==> (#[trigger] lines@[j].ts) == carried_ts(
                        sm,
                        data@,
                        lines@,
                        j,
                    ),
                lines@.len() > 0 ==> pos as int == crate::input::line_end_from(
                    data@,
                    lines@[lines@.len() - 1].offset as int,
                ),
                lines@.len() == 0 ==> pos == 0,
                lines@.len() <= pos,
                prev_ts == (if lines@.len() == 0 {
                    None::<Ts>
                } else {
                    lines@[lines@.len() - 1].ts
                }),
                sorted_so_far ==> lines_sorted(lines@),
                sorted_so_far ==> forall|j: int|
                    0 <= j < lines@.len() ==> opt_ts_le(#[trigger] lines@[j].ts, prev_ts)
                        || lines@[j].ts == prev_ts,
            decreases n - pos,
        {
            let start = pos;
            let end = crate::input::find_line_end(data, pos);
            let line = vstd::slice::slice_subrange(data, start, end);
            let content = crate::strip(crate::strip(line, 10), 13);
            let ghost gcontent = crate::cat::strip_crlf(
                data@.subrange(start as int, crate::input::line_end_from(data@, start as int)),
            );
            proof {
                assert(content@ =~= gcontent);
            }
            let mut ts: Option<Ts> = None;
            let mut flags: u64 = 0;
            let mut ok = false;
            if content.len() != 0 {
                match parse_json_object(content) {
                    Some(raw) => {
                        let rec = parser.parse(raw);
                        flags = match rec.level {
                            Some(Level::Debug) => FLAG_LEVEL_DEBUG,
                            Some(Level::Info) => FLAG_LEVEL_INFO,
                            Some(Level::Warning) => FLAG_LEVEL_WARNING,
                            Some(Level::Error) => FLAG_LEVEL_ERROR,
                            None => 0,
                        };
                        ts = match &rec.ts {
                            Some(t) => t.parse(),
                            None => None,
                        };
                        ok = true;
                    },
                    None => (),
                }
            }
            let ghost outcome = line_outcome(sm, gcontent);
            proof {
                reveal(line_outcome);
                if ok {
                    assert(outcome == Some((ts, flags)));
                } else {
                    assert(outcome is None);
                }
            }
            let mut regressed = false;
            if let Some(t) = ts {
                if let Some(p) = prev_ts {
                    if !ts_le_exec(p, t) {
                        regressed = true;
                        sorted_so_far = false;
                    }
                }
            }
            let ghost pre_stat = stat;
            if ok {
                let ghost pre_flags = stat.flags;
                stat.add_valid(ts, flags);
                proof {
                    lemma_small_flags();
                    lemma_bit32_or(pre_flags, flags);
                    lemma_bit32_or(pre_flags | flags, 16u64);
                    lemma_bit16_grow(pre_flags, flags);
                }
            } else {
                stat.add_invalid();
            }
            let eff_ts = match ts {
                Some(t) => Some(t),
                None => prev_ts,
            };
            let ghost pre = lines@;
            lines.push(LineInfo { ts: eff_ts, index: i, offset: start as u32 });
            proof {
                lemma_folds_agree(sm, data@, pre, lines@, i as int);
                assert(phys_outcome(sm, data@, lines@, i as int) == outcome) by {
                    reveal(phys_outcome);
                }
                assert(lines@[i as int].ts == carried_ts(sm, data@, lines@, i as int)) by {
                    reveal(carried_ts);
                }
                assert forall|j: int|
                    0 <= j < lines@.len() implies (#[trigger] lines@[j].ts) == carried_ts(
                    sm,
                    data@,
                    lines@,
                    j,
                ) by {
                    reveal(carried_ts);
                    reveal(phys_outcome);
                    if j < i {
                        assert(pre[j].ts == carried_ts(sm, data@, pre, j));
                        assert(phys_outcome(sm, data@, lines@, j) == phys_outcome(
                            sm,
                            data@,
                            pre,
                            j,
                        ));
                    }
                }
                // the new stat values are the folds one step further
                assert(valid_count(sm, data@, lines@, i + 1) == valid_count(sm, data@, lines@, i as int)
                    + (if outcome is Some { 1int } else { 0int })) by {
                    reveal(valid_count);
                }
                assert(flags_fold(sm, data@, lines@, i + 1) == (flags_fold(sm, data@, lines@, i as int)
                    | (match outcome {
                    Some(o) => o.1 | (if o.0 is Some { FLAG_HAS_TIMESTAMPS } else { 0u64 }),
                    None => 0u64,
                }))) by {
                    reveal(flags_fold);
                }
                assert(hull_fold(sm, data@, lines@, i + 1) == min_max_opt_spec(
                    hull_fold(sm, data@, lines@, i as int),
                    match outcome {
                        Some(o) => match o.0 {
                            Some(t) => Some((t, t)),
                            None => None,
                        },
                        None => None,
                    },
                )) by {
                    reveal(hull_fold);
                }
                let pf = pre_stat.flags;
                let fl = flags;
                assert((pf | (fl | 0u64)) == (pf | fl)) by (bit_vector);
                assert((pf | 0u64) == pf) by (bit_vector);
                if ok && ts is Some {
                    assert((pf | (fl | 16u64)) == ((pf | fl) | 16u64)) by (bit_vector);
                }
                if ok && ts is None {
                    if pre_stat.ts_min_max is Some {
                        assert(pre_stat.flags & 16u64 == 16u64);
                        assert(((pf | fl) | 16u64) == (pf | fl)) by (bit_vector)
                            requires
                                pf & 16u64 == 16u64,
                        ;
                    }
                }
                assert(regression(sm, data@, lines@, i + 1) == (regression(sm, data@, lines@, i as int)
                    || regressed)) by {
                    reveal(regression);
                }
                if sorted_so_far {
                    assert forall|a: int, b: int|
                        0 <= a < b < lines@.len() implies line_le(
                        #[trigger] lines@[a],
                        #[trigger] lines@[b],
                    ) by {
                        if b < lines@.len() - 1 {
                            assert(line_le(pre[a], pre[b]));
                        } else {
                            assert(opt_ts_le(pre[a].ts, prev_ts) || pre[a].ts == prev_ts);
                        }
                    }
                }
            }
            prev_ts = eff_ts;
            pos = end;
            i = i + 1;
        }
        let ghost phys = lines@;
        proof {
            assert(phys_table(sm, data@, phys));
        }
        if sorted_so_far {
            proof {
                let f = stat.flags;
                assert((f | 0u64) == f) by (bit_vector);
            }
            (stat, Chronology::new(), Ghost(lines@), Ghost(phys))
        } else {
            let ghost lines_g = lines@;
            let sorted = sort_lines(lines);
            proof {
                broadcast use vstd::seq_lib::group_to_multiset_ensures;

                assert forall|k: int| 0 <= k < sorted@.len() implies (#[trigger] sorted@[k]).index
                    < lines_g.len() && sorted@[k] == lines_g[sorted@[k].index as int] by {
                    assert(sorted@.contains(sorted@[k]));
                    assert(sorted@.to_multiset().count(sorted@[k]) > 0);
                    assert(lines_g.to_multiset().count(sorted@[k]) > 0);
                    assert(lines_g.contains(sorted@[k]));
                    let i2 = choose|i2: int| 0 <= i2 < lines_g.len() && lines_g[i2] == sorted@[k];
                    assert(lines_g[i2].index == i2);
                }
                assert forall|j: int|
                    0 < j < sorted@.len() && (#[trigger] sorted@[j].index) == sorted@[j - 1].index
                        + 1 implies sorted@[j].offset as int == crate::input::line_end_from(
                    data@,
                    sorted@[j - 1].offset as int,
                ) by {
                    let ij = sorted@[j].index as int;
                    assert(sorted@[j] == lines_g[ij]);
                    assert(sorted@[j - 1] == lines_g[sorted@[j - 1].index as int]);
                    assert(sorted@[j - 1].index as int == ij - 1);
                    assert(lines_g[ij].offset as int == crate::input::line_end_from(
                        data@,
                        lines_g[ij - 1].offset as int,
                    ));
                }
            }
            let chron = build_chronology(&sorted);
            let ghost pre_flags = stat.flags;
            stat.flags = stat.flags | FLAG_UNSORTED;
            proof {
                lemma_bit32_set(pre_flags);
                assert((pre_flags | 32u64) & 32u64 != 0) by (bit_vector);
            }
            (stat, chron, Ghost(sorted@), Ghost(phys))
        }
    }
}

proof fn lemma_bit16_grow(a: u64, b: u64)
    ensures
        ((a | b) | 16u64) & 16u64 == 16u64,
        a & 16u64 == 16u64 ==> (a | b) & 16u64 == 16u64,
{
    assert(((a | b) | 16u64) & 16u64 == 16u64) by (bit_vector);
    assert(a & 16u64 == 16u64 ==> (a | b) & 16u64 == 16u64) by (bit_vector);
}

} // verus!

verus! {

/// The SHA-256 digest of a byte string.
pub uninterp spec fn sha256_of(data: Seq<u8>) -> Seq<u8>;

/// Relies on sha2's `Sha256`: the digest depends on the bytes alone and is
/// 32 bytes long.
#[verifier::external_body]
pub fn sha256(bytes: &[u8]) -> (r: Vec<u8>)
    ensures
        r@ == sha256_of(bytes@),
        r@.len() == 32,
{
    let mut hasher = <sha2::Sha256 as sha2::Digest>::new();
    sha2::Digest::update(&mut hasher, bytes);
    sha2::Digest::finalize(hasher).to_vec()
}

/// One lower-case hex digit.
pub open spec fn hex_digit_of(n: int) -> u8 {
    if n < 10 {
        (48 + n) as u8
    } else {
        (87 + n) as u8
    }
}

/// The lower-case hex form of a byte string: two digits per byte, high
/// digit first.
pub open spec fn hex_bytes(data: Seq<u8>) -> Seq<u8> {
    Seq::new(
        (2 * data.len()) as nat,
        |i: int|
            if i % 2 == 0 {
                hex_digit_of(data[i / 2] as int / 16)
            } else {
                hex_digit_of(data[i / 2] as int % 16)
            },
    )
}

/// Relies on hex::encode: two lower-case hex digits per input byte, high
/// digit first, from the digit table `0123456789abcdef`.
#[verifier::external_body]
pub fn hex_encode(bytes: &[u8]) -> (r: Vec<u8>)
    ensures
        r@ == hex_bytes(bytes@),
{
    hex::encode(bytes).into_bytes()
}

impl Indexer {
    /// The cache file name of a source path: the hex form of its SHA-256.
    pub fn cache_file_name(&self, source_path: &[u8]) -> (r: Vec<u8>)
        ensures
            r@ == hex_bytes(sha256_of(source_path@)),
            r@.len() == 64,
    {
        let digest = sha256(source_path);
        hex_encode(digest.as_slice())
    }
}

} // verus!

verus! {

impl Index {
    /// Assembles a file's index from its per-segment results in stream
    /// order, as the aggregation stage of the index build does: blocks get
    /// consecutive offsets, and the file statistic is the merge of all
    /// block statistics. It fails exactly when a summed line count or the
    /// summed size leaves the 64-bit range.
    pub fn from_segments(
        path: Vec<u8>,
        modified: Ts,
        results: Vec<(u32, Stat, Chronology)>,
    ) -> (r: Result<Index, Error>)
        ensures
            r is Ok <==> valid_sum(results@, results@.len() as int) <= u64::MAX && invalid_sum(
                results@,
                results@.len() as int,
            ) <= u64::MAX && block_offset(results@, results@.len() as int) <= u64::MAX,
            r matches Ok(ix) ==> {
                &&& ix.source.path == path
                &&& ix.source.modified == modified
                &&& ix.source.blocks@.len() == results@.len()
                &&& forall|i: int|
                    0 <= i < results@.len() ==> {
                        &&& (#[trigger] ix.source.blocks@[i]).size == results@[i].0
                        &&& ix.source.blocks@[i].stat == results@[i].1
                        &&& ix.source.blocks@[i].offset == block_offset(results@, i)
                    }
                &&& ix.source.size == block_offset(results@, results@.len() as int)
            },
    {
        let ghost all = results@;
        let mut remaining = results;
        let mut blocks: Vec<SourceBlock> = Vec::new();
        let mut stat = Stat::new();
        let mut offset: u64 = 0;
        let n = remaining.len();
        let mut i: usize = 0;
        proof {
            assert(all.take(0) =~= Seq::<(u32, Stat, Chronology)>::empty());
        }
        while i < n
            invariant
                i <= n,
                n == all.len(),
                all == results@,
                remaining@ == all.skip(i as int),
                blocks@.len() == i,
                offset == block_offset(all, i as int),
                stat.lines_valid == valid_sum(all, i as int),
                stat.lines_invalid == invalid_sum(all, i as int),
                forall|j: int|
                    0 <= j < i ==> {
                        &&& (#[trigger] blocks@[j]).size == all[j].0
                        &&& blocks@[j].stat == all[j].1
                        &&& blocks@[j].offset == block_offset(all, j)
                    },
            decreases n - i,
        {
            let ghost pre = remaining@;
            let (size, bstat, chronology) = remaining.remove(0);
            proof {
                assert(remaining@ =~= all.skip(i + 1));
                assert(pre[0] == all[i as int]);
            }
            if stat.lines_valid > u64::MAX - bstat.lines_valid {
                proof {
                    assert(valid_sum(all, i + 1) == valid_sum(all, i as int) + all[i as int].1.lines_valid);
                    lemma_valid_sum_mono(all, i + 1, n as int);
                }
                return Err(Error::InconsistentIndex);
            }
            if stat.lines_invalid > u64::MAX - bstat.lines_invalid {
                proof {
                    assert(invalid_sum(all, i + 1) == invalid_sum(all, i as int) + all[i as int].1.lines_invalid);
                    lemma_invalid_sum_mono(all, i + 1, n as int);
                }
                return Err(Error::InconsistentIndex);
            }
            stat.merge(&bstat);
            if offset > u64::MAX - size as u64 {
                proof {
                    assert(block_offset(all, i + 1) == block_offset(all, i as int)
                        + all[i as int].0);
                    lemma_block_offset_mono(all, i + 1, n as int);
                }
                return Err(Error::InconsistentIndex);
            }
            blocks.push(SourceBlock::new(offset, size, bstat, chronology));
            offset = offset + size as u64;
            proof {
                assert(block_offset(all, i + 1) == block_offset(all, i as int) + all[i as int].0);
            }
            i = i + 1;
        }
        proof {
            assert(all.skip(n as int).len() == 0);
        }
        Ok(
            Index {
                source: SourceFile { size: offset, path, modified, stat, blocks },
            },
        )
    }
}

/// The byte offset of block `i`: the sizes of all blocks before it.
pub open spec fn block_offset(results: Seq<(u32, Stat, Chronology)>, i: int) -> int
    decreases i,
{
    if i <= 0 || i > results.len() {
        0
    } else {
        block_offset(results, i - 1) + results[i - 1].0
    }
}

/// The parseable lines of the first `i` segments.
pub open spec fn valid_sum(results: Seq<(u32, Stat, Chronology)>, i: int) -> int
    decreases i,
{
    if i <= 0 || i > results.len() {
        0
    } else {
        valid_sum(results, i - 1) + results[i - 1].1.lines_valid
    }
}

/// The unparseable lines of the first `i` segments.
pub open spec fn invalid_sum(results: Seq<(u32, Stat, Chronology)>, i: int) -> int
    decreases i,
{
    if i <= 0 || i > results.len() {
        0
    } else {
        invalid_sum(results, i - 1) + results[i - 1].1.lines_invalid
    }
}

proof fn lemma_valid_sum_mono(results: Seq<(u32, Stat, Chronology)>, i: int, n: int)
    requires
        0 <= i <= n <= results.len(),
    ensures
        valid_sum(results, i) <= valid_sum(results, n),
    decreases n - i,
{
    if i < n {
        lemma_valid_sum_mono(results, i + 1, n);
    }
}

proof fn lemma_invalid_sum_mono(results: Seq<(u32, Stat, Chronology)>, i: int, n: int)
    requires
        0 <= i <= n <= results.len(),
    ensures
        invalid_sum(results, i) <= invalid_sum(results, n),
    decreases n - i,
{
    if i < n {
        lemma_invalid_sum_mono(results, i + 1, n);
    }
}

proof fn lemma_block_offset_mono(results: Seq<(u32, Stat, Chronology)>, i: int, n: int)
    requires
        0 <= i <= n <= results.len(),
    ensures
        block_offset(results, i) <= block_offset(results, n),
    decreases n - i,
{
    if i < n {
        lemma_block_offset_mono(results, i + 1, n);
    }
}

} // verus!
