//! The streaming pipeline core: per-segment processing of lines into
//! formatted output, order preservation, and level-filter commutativity.

use vstd::prelude::*;

verus! {

use crate::model::{Parser, Filter, Level, RecordModel, json_record_of, record_matches,
    parse_fields, SettingsModel};
use crate::format::{RecordFormatter, plain_record_rendering, mnemonic};
use crate::input::{line_end_from, next_nl, find_line_end};
use crate::datefmt::FormatItem;

/// The formatting parameters a rendering depends on.
pub struct RenderParams {
    pub items: Seq<FormatItem>,
    pub width: int,
    pub hide: bool,
    pub unescape: bool,
    pub depth: nat,
}

/// What one input line contributes to the output: empty lines echo a
/// newline; a JSON object line renders when it passes the filter; anything
/// else passes through verbatim when no filter is set.
pub open spec fn line_rendering(
    s: SettingsModel,
    level: Option<Level>,
    p: RenderParams,
    line: Seq<u8>,
) -> Seq<u8> {
    let content = strip_crlf(line);
    if content.len() == 0 {
        seq![10u8]
    } else {
        match json_record_of(content) {
            Some(fields) => {
                let rm = parse_fields(s, fields);
                if record_matches(rm, level) {
                    plain_record_rendering(rm, p.items, p.width, p.hide, p.unescape, p.depth)
                } else {
                    Seq::empty()
                }
            },
            None => {
                if level is None {
                    content + seq![10u8]
                } else {
                    Seq::empty()
                }
            },
        }
    }
}

/// A line without its trailing newline and carriage return.
pub open spec fn strip_crlf(line: Seq<u8>) -> Seq<u8> {
    let a = if line.len() > 0 && line.last() == 10 {
        line.drop_last()
    } else {
        line
    };
    if a.len() > 0 && a.last() == 13 {
        a.drop_last()
    } else {
        a
    }
}

/// The output of processing `data` from `pos` on, line by line.
pub open spec fn cat_rendering_from(
    s: SettingsModel,
    level: Option<Level>,
    p: RenderParams,
    data: Seq<u8>,
    pos: int,
) -> Seq<u8>
    decreases data.len() - pos,
{
    if pos < 0 || pos >= data.len() {
        Seq::empty()
    } else {
        let e = line_end_from(data, pos);
        if e <= pos {
            Seq::empty()
        } else {
            line_rendering(s, level, p, data.subrange(pos, e)) + cat_rendering_from(
                s,
                level,
                p,
                data,
                e,
            )
        }
    }
}

/// Processes complete segments: parses each line, filters, and formats.
pub struct SegmentProcesor<'a> {
    pub parser: &'a Parser,
    pub formatter: &'a RecordFormatter,
    pub filter: &'a Filter,
}

impl<'a> SegmentProcesor<'a> {
    pub fn new(parser: &'a Parser, formatter: &'a RecordFormatter, filter: &'a Filter) -> (r:
        Self)
        ensures
            r.parser == parser && r.formatter == formatter && r.filter == filter,
    {
        SegmentProcesor { parser, formatter, filter }
    }

    pub open spec fn params(&self) -> RenderParams {
        RenderParams {
            items: self.formatter.ts_formatter.format.items@,
            width: self.formatter.ts_width as int,
            hide: self.formatter.hide_empty_fields,
            unescape: self.formatter.unescape_fields,
            depth: crate::format::VALUE_DEPTH as nat,
        }
    }

    /// Processes one segment's bytes into formatted output. Under the
    /// colorless theme the output is pinned exactly, line by line.
    #[verifier::rlimit(100)]
    #[verifier::spinoff_prover]
    pub fn run(&self, data: &[u8], buf: &mut Vec<u8>)
        requires
            self.formatter.theme.wf(),
        ensures
            self.formatter.theme.is_plain() ==> final(buf)@ == old(buf)@ + cat_rendering_from(
                self.parser.settings.model(),
                self.filter.level,
                self.params(),
                data@,
                0,
            ),
    {
        let ghost plain = self.formatter.theme.is_plain();
        let ghost sm = self.parser.settings.model();
        let ghost pr = self.params();
        let n = data.len();
        let mut pos: usize = 0;
        let ghost whole = cat_rendering_from(sm, self.filter.level, pr, data@, 0);
        proof {
            if plain {
                assert(buf@ + cat_rendering_from(sm, self.filter.level, pr, data@, 0) =~= old(
                    buf,
                )@ + whole);
            }
        }
        while pos < n
            invariant
                pos <= n,
                n == data@.len(),
                sm == self.parser.settings.model(),
                pr == self.params(),
                self.formatter.theme.wf(),
                plain == self.formatter.theme.is_plain(),
                whole == cat_rendering_from(sm, self.filter.level, pr, data@, 0),
                plain ==> buf@ + cat_rendering_from(sm, self.filter.level, pr, data@, pos as int)
                    == old(buf)@ + whole,
            decreases n - pos,
        {
            let end = find_line_end(data, pos);
            let line = vstd::slice::slice_subrange(data, pos, end);
            let content = crate::strip(crate::strip(line, 10), 13);
            let ghost pre = buf@;
            if content.len() == 0 {
                buf.push(10);
                proof {
                    if plain {
                        assert(buf@ =~= pre + line_rendering(
                            sm,
                            self.filter.level,
                            pr,
                            data@.subrange(pos as int, end as int),
                        ));
                    }
                }
            } else {
                match crate::model::parse_json_object(content) {
                    Some(raw) => {
                        let rec = self.parser.parse(raw);
                        if rec.matches(self.filter) {
                            self.formatter.format_record(buf, &rec);
                            proof {
                                if plain {
                                    assert(buf@ =~= pre + line_rendering(
                                        sm,
                                        self.filter.level,
                                        pr,
                                        data@.subrange(pos as int, end as int),
                                    ));
                                }
                            }
                        } else {
                            proof {
                                if plain {
                                    assert(buf@ =~= pre + line_rendering(
                                        sm,
                                        self.filter.level,
                                        pr,
                                        data@.subrange(pos as int, end as int),
                                    ));
                                }
                            }
                        }
                    },
                    None => {
                        if self.filter.is_empty() {
                            buf.extend_from_slice(content);
                            buf.push(10);
                            proof {
                                if plain {
                                    assert(buf@ =~= pre + line_rendering(
                                        sm,
                                        self.filter.level,
                                        pr,
                                        data@.subrange(pos as int, end as int),
                                    ));
                                }
                            }
                        } else {
                            proof {
                                if plain {
                                    assert(buf@ =~= pre + line_rendering(
                                        sm,
                                        self.filter.level,
                                        pr,
                                        data@.subrange(pos as int, end as int),
                                    ));
                                }
                            }
                        }
                    },
                }
            }
            proof {
                if plain {
                    assert(cat_rendering_from(sm, self.filter.level, pr, data@, pos as int)
                        == line_rendering(sm, self.filter.level, pr, data@.subrange(
                        pos as int,
                        end as int,
                    )) + cat_rendering_from(sm, self.filter.level, pr, data@, end as int));
                    assert(buf@ + cat_rendering_from(sm, self.filter.level, pr, data@, end as int)
                        =~= old(buf)@ + whole);
                }
            }
            pos = end;
        }
        proof {
            if plain {
                assert(buf@ =~= old(buf)@ + whole);
            }
        }
    }
}

/// Trims one trailing line separator, as the raw-segment path does.
pub fn rtrim<'b>(s: &'b [u8], c: u8) -> (r: &'b [u8])
    ensures
        r@ == (if s@.len() > 0 && s@.last() == c {
            s@.drop_last()
        } else {
            s@
        }),
{
    crate::strip(s, c)
}

} // verus!

verus! {

proof fn lemma_next_nl_shift(a: Seq<u8>, b: Seq<u8>, q: int)
    requires
        0 <= q <= b.len(),
    ensures
        next_nl(a + b, a.len() + q) == a.len() + next_nl(b, q),
    decreases b.len() - q,
{
    if q < b.len() {
        assert((a + b)[a.len() + q] == b[q]);
        if b[q] != 10 {
            lemma_next_nl_shift(a, b, q + 1);
        }
    }
}

proof fn lemma_next_nl_within(a: Seq<u8>, b: Seq<u8>, p: int)
    requires
        0 <= p < a.len(),
        a.last() == 10,
    ensures
        next_nl(a + b, p) == next_nl(a, p),
        next_nl(a, p) < a.len(),
    decreases a.len() - p,
{
    assert((a + b)[p] == a[p]);
    if a[p] != 10 {
        if p + 1 < a.len() {
            lemma_next_nl_within(a, b, p + 1);
        } else {
            assert(a[p] == a.last());
        }
    }
}

/// Shifted suffixes of a concatenation render like the second part.
proof fn lemma_cat_shift(
    s: SettingsModel,
    level: Option<Level>,
    p: RenderParams,
    a: Seq<u8>,
    b: Seq<u8>,
    q: int,
)
    requires
        0 <= q <= b.len(),
    ensures
        cat_rendering_from(s, level, p, a + b, a.len() + q) == cat_rendering_from(
            s,
            level,
            p,
            b,
            q,
        ),
    decreases b.len() - q,
{
    if q < b.len() {
        lemma_next_nl_shift(a, b, q);
        crate::input::lemma_next_nl(b, q);
        let e = line_end_from(b, q);
        assert(line_end_from(a + b, a.len() + q) == a.len() + e);
        assert((a + b).subrange(a.len() + q, a.len() + e) =~= b.subrange(q, e));
        if e > q {
            lemma_cat_shift(s, level, p, a, b, e);
        }
    }
}

/// Law: output order is preserved over segmentation. Processing a stream
/// that splits at a newline into two segments yields exactly the first
/// segment's output followed by the second's, so per-segment processing in
/// stripe order equals a single-threaded pass over the whole input.
pub proof fn lemma_cat_order_preservation(
    s: SettingsModel,
    level: Option<Level>,
    p: RenderParams,
    a: Seq<u8>,
    b: Seq<u8>,
)
    requires
        a.len() > 0,
        a.last() == 10,
    ensures
        cat_rendering_from(s, level, p, a + b, 0) == cat_rendering_from(s, level, p, a, 0)
            + cat_rendering_from(s, level, p, b, 0),
{
    lemma_cat_split_at(s, level, p, a, b, 0);
}

proof fn lemma_cat_split_at(
    s: SettingsModel,
    level: Option<Level>,
    p: RenderParams,
    a: Seq<u8>,
    b: Seq<u8>,
    pos: int,
)
    requires
        a.len() > 0,
        a.last() == 10,
        0 <= pos <= a.len(),
    ensures
        cat_rendering_from(s, level, p, a + b, pos) == cat_rendering_from(s, level, p, a, pos)
            + cat_rendering_from(s, level, p, b, 0),
    decreases a.len() - pos,
{
    if pos == a.len() {
        lemma_cat_shift(s, level, p, a, b, 0);
        assert(cat_rendering_from(s, level, p, a, pos) + cat_rendering_from(s, level, p, b, 0)
            =~= cat_rendering_from(s, level, p, b, 0));
    } else {
        lemma_next_nl_within(a, b, pos);
        crate::input::lemma_next_nl(a, pos);
        let e = line_end_from(a, pos);
        assert(line_end_from(a + b, pos) == e);
        assert(e <= a.len());
        assert((a + b).subrange(pos, e) =~= a.subrange(pos, e));
        if e > pos {
            lemma_cat_split_at(s, level, p, a, b, e);
            assert(cat_rendering_from(s, level, p, a + b, pos) =~= cat_rendering_from(
                s,
                level,
                p,
                a,
                pos,
            ) + cat_rendering_from(s, level, p, b, 0));
        }
    }
}

} // verus!

verus! {

use crate::fmtx::{aligned_left_spec, aligned_center_spec, clipped, pad_seq};
use crate::format::time_rendering;

proof fn lemma_pad_len(pad: u8, n: int)
    ensures
        pad_seq(pad, n).len() == (if n > 0 {
            n
        } else {
            0
        }),
{
}

proof fn lemma_aligned_len(content: Seq<u8>, w: int, pad: u8)
    requires
        w >= 0,
    ensures
        aligned_left_spec(content, w, pad).len() == w,
        aligned_center_spec(content, w, pad).len() == w,
{
    let c = clipped(content, w);
    assert(c.len() <= w);
    lemma_pad_len(pad, w - c.len());
    let space = w - c.len();
    lemma_pad_len(pad, space / 2);
    lemma_pad_len(pad, space - space / 2);
}

/// The time column is exactly as wide as requested.
proof fn lemma_time_len(ts: Option<Seq<u8>>, items: Seq<FormatItem>, w: int)
    requires
        w >= 0,
    ensures
        time_rendering(ts, items, w).len() == w,
{
    match ts {
        None => {
            lemma_aligned_len(seq![45u8, 45u8, 45u8], w, 32);
        },
        Some(raw) => {
            let content = if raw.len() >= 2 && raw[0] == 34 && raw.last() == 34
                && crate::datefmt::rfc3339_shape(raw.subrange(1, raw.len() - 1)) {
                crate::datefmt::reformat_rendering(items, raw.subrange(1, raw.len() - 1))
            } else {
                raw
            };
            lemma_aligned_len(content, w, 32);
        },
    }
}

/// The level a formatted line shows at the fixed mnemonic position.
pub open spec fn line_level_of(line: Seq<u8>, w: int) -> Option<Option<Level>> {
    if w >= 0 && line.len() >= w + 5 {
        let m = line.subrange(w + 2, w + 5);
        if m == mnemonic(Some(Level::Debug)) {
            Some(Some(Level::Debug))
        } else if m == mnemonic(Some(Level::Info)) {
            Some(Some(Level::Info))
        } else if m == mnemonic(Some(Level::Warning)) {
            Some(Some(Level::Warning))
        } else if m == mnemonic(Some(Level::Error)) {
            Some(Some(Level::Error))
        } else if m == mnemonic(None) {
            Some(None)
        } else {
            None
        }
    } else {
        None
    }
}

/// The line-level filter: a line passes when the level its mnemonic shows
/// passes, lines with no recognized level included.
pub open spec fn line_passes(line: Seq<u8>, w: int, min: Level) -> bool {
    match line_level_of(line, w) {
        Some(lv) => match lv {
            None => true,
            Some(x) => x.index_spec() >= min.index_spec(),
        },
        None => false,
    }
}

/// A formatted line shows exactly its record's level at the mnemonic
/// position.
proof fn lemma_line_shows_level(m: RecordModel, p: RenderParams, min: Level)
    requires
        p.width >= 0,
    ensures
        line_passes(
            plain_record_rendering(m, p.items, p.width, p.hide, p.unescape, p.depth),
            p.width,
            min,
        ) == record_matches(m, Some(min)),
{
    let line = plain_record_rendering(m, p.items, p.width, p.hide, p.unescape, p.depth);
    let w = p.width;
    lemma_time_len(m.ts, p.items, w);
    assert(line.subrange(w + 2, w + 5) =~= mnemonic(m.level));
    let mm = line.subrange(w + 2, w + 5);
    assert(mnemonic(Some(Level::Debug))[0] == 68 && mnemonic(Some(Level::Info))[0] == 73
        && mnemonic(Some(Level::Warning))[0] == 87 && mnemonic(Some(Level::Error))[0] == 69
        && mnemonic(None)[0] == 40);
    assert(line_level_of(line, w) == Some(m.level));
}

/// Law: filtering by level commutes with formatting. Formatting the records
/// that pass the filter gives exactly the formatted lines that a line-level
/// filter on the mnemonic keeps.
pub proof fn lemma_level_filter_commutativity(recs: Seq<RecordModel>, min: Level, p: RenderParams)
    requires
        p.width >= 0,
    ensures
        recs.filter(|r: RecordModel| record_matches(r, Some(min))).map_values(
            |r: RecordModel| plain_record_rendering(r, p.items, p.width, p.hide, p.unescape, p.depth),
        ) == recs.map_values(
            |r: RecordModel| plain_record_rendering(r, p.items, p.width, p.hide, p.unescape, p.depth),
        ).filter(|line: Seq<u8>| line_passes(line, p.width, min)),
    decreases recs.len(),
{
    let pass = |r: RecordModel| record_matches(r, Some(min));
    let render = |r: RecordModel|
        plain_record_rendering(r, p.items, p.width, p.hide, p.unescape, p.depth);
    let lpass = |line: Seq<u8>| line_passes(line, p.width, min);
    if recs.len() == 0 {
        assert(recs.filter(pass) =~= Seq::<RecordModel>::empty());
        assert(recs.filter(pass).map_values(render) =~= Seq::<Seq<u8>>::empty());
        assert(recs.map_values(render) =~= Seq::<Seq<u8>>::empty());
        assert(recs.map_values(render).filter(lpass) =~= Seq::<Seq<u8>>::empty());
    } else {
        let dl = recs.drop_last();
        let r = recs.last();
        lemma_level_filter_commutativity(dl, min, p);
        lemma_line_shows_level(r, p, min);
        assert(recs.map_values(render) =~= dl.map_values(render).push(render(r)));
        assert(recs.map_values(render).drop_last() =~= dl.map_values(render));
        assert(recs.map_values(render).last() == render(r));
        reveal_with_fuel(Seq::filter, 2);
        if pass(r) {
            assert(recs.filter(pass) == dl.filter(pass).push(r));
            assert(recs.filter(pass).map_values(render) =~= dl.filter(pass).map_values(
                render,
            ).push(render(r)));
            assert(recs.map_values(render).filter(lpass) == dl.map_values(render).filter(
                lpass,
            ).push(render(r)));
        } else {
            assert(recs.filter(pass) == dl.filter(pass));
            assert(recs.map_values(render).filter(lpass) == dl.map_values(render).filter(lpass));
        }
    }
}

} // verus!
