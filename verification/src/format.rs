//! The record formatter: turns a parsed record into one line of styled
//! output bytes. Under the colorless theme the output is pinned exactly.

use vstd::prelude::*;

verus! {

use std::sync::Arc;
use crate::model::{Level, Record, RecordModel, json_unescaped_of, json_record_of, json_array_of,
    ascii_lower, all_digits, digits_val, is_digit};
use crate::theme::{Theme, Styler, Element};
use crate::datefmt::{DateTimeFormatter, reformat_rendering, rfc3339_shape};
use crate::fmtx::{aligned_left_spec, aligned_center_spec};

/// The three-letter level mnemonic.
pub open spec fn mnemonic(l: Option<Level>) -> Seq<u8> {
    match l {
        Some(Level::Debug) => seq![68u8, 66u8, 71u8],
        Some(Level::Info) => seq![73u8, 78u8, 70u8],
        Some(Level::Warning) => seq![87u8, 82u8, 78u8],
        Some(Level::Error) => seq![69u8, 82u8, 82u8],
        None => seq![40u8, 63u8, 41u8],
    }
}

/// A field key as printed: lower-cased, underscores as dashes.
pub open spec fn key_bytes(k: Seq<char>) -> Seq<u8> {
    vstd::utf8::encode_utf8(k).map_values(
        |b: u8|
            if b == 95 {
                45u8
            } else {
                ascii_lower(b)
            },
    )
}

/// A raw value that counts as empty for field hiding.
pub open spec fn is_empty_value(v: Seq<u8>) -> bool {
    v == seq![34u8, 34u8] || v == seq![110u8, 117u8, 108u8, 108u8] || v == seq![123u8, 125u8] || v
        == seq![91u8, 93u8]
}

/// Whether an array renders as a byte string: every element is one to three
/// digits valuing at most 255.
pub open spec fn is_byte_string(items: Seq<Seq<u8>>) -> bool {
    forall|i: int|
        0 <= i < items.len() ==> {
            &&& all_digits(#[trigger] items[i])
            &&& 1 <= items[i].len() <= 3
            &&& digits_val(items[i]) <= 255
        }
}

pub open spec fn hex_digit(n: int) -> u8 {
    if n < 10 {
        (48 + n) as u8
    } else {
        (87 + n) as u8
    }
}

/// One byte of a byte string: printable ASCII stays, the rest is `\xHH`.
pub open spec fn byte_char_rendering(b: nat) -> Seq<u8> {
    if 32 <= b <= 126 {
        seq![b as u8]
    } else {
        seq![92u8, 120u8, hex_digit(b as int / 16), hex_digit(b as int % 16)]
    }
}

pub open spec fn byte_string_rendering(items: Seq<Seq<u8>>, i: int) -> Seq<u8>
    decreases items.len() - i,
{
    if i < 0 || i >= items.len() {
        Seq::empty()
    } else {
        byte_char_rendering(digits_val(items[i])) + byte_string_rendering(items, i + 1)
    }
}

/// A field value as printed: strings in single quotes unescaped, numbers,
/// booleans and nulls verbatim, objects and arrays recursively, byte-string
/// arrays as `b'...'`; unparsable payloads verbatim. `d` bounds nesting.
pub open spec fn val_rendering(v: Seq<u8>, d: nat) -> Seq<u8>
    decreases d, 0int, 0int,
{
    if v.len() == 0 {
        v
    } else if d == 0 {
        v
    } else if v[0] == 34 {
        seq![39u8] + (match json_unescaped_of(v) {
            Some(u) => u,
            None => v,
        }) + seq![39u8]
    } else if v[0] == 123 {
        match json_record_of(v) {
            Some(fs) => seq![123u8] + obj_rendering(fs, 0, (d - 1) as nat) + (if fs.len() > 0 {
                seq![32u8]
            } else {
                Seq::<u8>::empty()
            }) + seq![125u8],
            None => v,
        }
    } else if v[0] == 91 {
        match json_array_of(v) {
            Some(items) => {
                if is_byte_string(items) {
                    seq![98u8, 39u8] + byte_string_rendering(items, 0) + seq![39u8]
                } else {
                    seq![91u8] + arr_rendering(items, 0, (d - 1) as nat) + seq![93u8]
                }
            },
            None => v,
        }
    } else {
        v
    }
}

/// Nested object fields: space, key, equals, value, for every field.
pub open spec fn obj_rendering(fs: Seq<(Seq<char>, Seq<u8>)>, i: int, d: nat) -> Seq<u8>
    decreases d, 2int, fs.len() - i,
{
    if i < 0 || i >= fs.len() {
        Seq::empty()
    } else {
        seq![32u8] + key_bytes(fs[i].0) + seq![61u8] + val_rendering(fs[i].1, d) + obj_rendering(
            fs,
            i + 1,
            d,
        )
    }
}

/// Array elements separated by commas.
pub open spec fn arr_rendering(items: Seq<Seq<u8>>, i: int, d: nat) -> Seq<u8>
    decreases d, 2int, items.len() - i,
{
    if i < 0 || i >= items.len() {
        Seq::empty()
    } else if i == 0 {
        val_rendering(items[i], d) + arr_rendering(items, i + 1, d)
    } else {
        seq![44u8] + val_rendering(items[i], d) + arr_rendering(items, i + 1, d)
    }
}

/// A message as printed: a string's content unescaped and unquoted;
/// everything else as a value.
pub open spec fn msg_rendering(v: Seq<u8>, d: nat) -> Seq<u8> {
    if v.len() > 0 && v[0] == 34 && d > 0 {
        match json_unescaped_of(v) {
            Some(u) => u,
            None => v,
        }
    } else {
        val_rendering(v, d)
    }
}

/// The record's residual fields, optionally hiding empty ones.
pub open spec fn top_fields_rendering(
    fs: Seq<(Seq<char>, Seq<u8>)>,
    i: int,
    d: nat,
    hide: bool,
    unescape: bool,
) -> Seq<u8>
    decreases fs.len() - i,
{
    if i < 0 || i >= fs.len() {
        Seq::empty()
    } else {
        (if hide && is_empty_value(fs[i].1) {
            Seq::<u8>::empty()
        } else {
            seq![32u8] + key_bytes(fs[i].0) + seq![61u8] + (if unescape {
                val_rendering(fs[i].1, d)
            } else {
                fs[i].1
            })
        }) + top_fields_rendering(fs, i + 1, d, hide, unescape)
    }
}

/// The time field: the reformatted RFC-3339 text (or the raw payload when it
/// cannot be reformatted) left-aligned, or a centered `---` marker.
pub open spec fn time_rendering(
    ts: Option<Seq<u8>>,
    items: Seq<crate::datefmt::FormatItem>,
    width: int,
) -> Seq<u8> {
    match ts {
        None => aligned_center_spec(seq![45u8, 45u8, 45u8], width, 32),
        Some(raw) => {
            let content = if raw.len() >= 2 && raw[0] == 34 && raw.last() == 34 && rfc3339_shape(
                raw.subrange(1, raw.len() - 1),
            ) {
                reformat_rendering(items, raw.subrange(1, raw.len() - 1))
            } else {
                raw
            };
            aligned_left_spec(content, width, 32)
        },
    }
}

/// One whole formatted record under the colorless theme.
pub open spec fn plain_record_rendering(
    m: RecordModel,
    items: Seq<crate::datefmt::FormatItem>,
    width: int,
    hide: bool,
    unescape: bool,
    d: nat,
) -> Seq<u8> {
    time_rendering(m.ts, items, width) + seq![32u8, 124u8] + mnemonic(m.level) + seq![124u8] + (
    match m.logger {
        Some(l) => seq![32u8] + l + seq![58u8],
        None => Seq::<u8>::empty(),
    }) + (match m.message {
        Some(v) => seq![32u8] + msg_rendering(v, d),
        None => Seq::<u8>::empty(),
    }) + top_fields_rendering(m.fields, 0, d, hide, unescape) + (match m.caller {
        Some(c) => seq![32u8, 64u8, 32u8] + c,
        None => Seq::<u8>::empty(),
    }) + seq![10u8]
}

/// The nesting depth the formatter follows into objects and arrays.
pub const VALUE_DEPTH: u32 = 16;

/// Formats parsed records into output lines.
#[derive(Debug, Clone)]
pub struct RecordFormatter {
    pub theme: Arc<Theme>,
    pub ts_formatter: DateTimeFormatter,
    pub ts_width: usize,
    pub hide_empty_fields: bool,
    pub unescape_fields: bool,
}

} // verus!

verus! {

use crate::theme::StylePack;

/// A style pack that styles nothing.
pub open spec fn pack_plain(p: &StylePack) -> bool {
    forall|i: int| 0 <= i < p.elements@.len() ==> (#[trigger] p.elements@[i]) is None
}

/// A styler that has not left the unstyled state.
pub open spec fn styler_clean(s: &Styler) -> bool {
    s.current is None && s.synced is None
}

fn parse_byte(v: &[u8]) -> (r: Option<u8>)
    ensures
        match r {
            Some(b) => all_digits(v@) && 1 <= v@.len() <= 3 && digits_val(v@) <= 255 && b
                == digits_val(v@),
            None => !(all_digits(v@) && 1 <= v@.len() <= 3 && digits_val(v@) <= 255),
        },
{
    let n = v.len();
    if n < 1 || n > 3 {
        return None;
    }
    let mut acc: u32 = 0;
    let mut i: usize = 0;
    while i < n
        invariant
            i <= n,
            n == v@.len(),
            n <= 3,
            all_digits(v@.take(i as int)),
            acc == digits_val(v@.take(i as int)),
            i == 0 ==> acc == 0,
            i == 1 ==> acc <= 9,
            i == 2 ==> acc <= 99,
            acc <= 999,
        decreases n - i,
    {
        let c = v[i];
        if c < 48 || c > 57 {
            proof {
                assert(!is_digit(v@[i as int]));
            }
            return None;
        }
        proof {
            assert(v@.take(i + 1).drop_last() =~= v@.take(i as int));
            assert(v@.take(i + 1).last() == v@[i as int]);
        }
        acc = acc * 10 + ((c - 48) as u32);
        i = i + 1;
    }
    proof {
        assert(v@.take(n as int) =~= v@);
    }
    if acc <= 255 {
        Some(acc as u8)
    } else {
        None
    }
}

/// The worst-case reference timestamp text the time column is sized from.
pub open spec fn reference_ts() -> Seq<u8> {
    seq![
        50u8, 48u8, 50u8, 48u8, 45u8, 49u8, 50u8, 45u8, 51u8, 48u8, 84u8, 50u8, 51u8, 58u8, 53u8,
        57u8, 58u8, 52u8, 57u8, 46u8, 57u8, 57u8, 57u8, 57u8, 57u8, 57u8, 57u8, 57u8, 57u8,
    ]
}

impl RecordFormatter {
    /// A formatter for the given theme and time format; the time column is
    /// exactly as wide as the reformatted reference timestamp.
    pub fn new(
        theme: Arc<Theme>,
        ts_formatter: DateTimeFormatter,
        hide_empty_fields: bool,
    ) -> (r: Self)
        requires
            theme.wf(),
        ensures
            r.theme == theme,
            r.ts_formatter == ts_formatter,
            r.hide_empty_fields == hide_empty_fields,
            r.unescape_fields == true,
            r.ts_width == crate::datefmt::reformat_rendering(
                ts_formatter.format.items@,
                reference_ts(),
            ).len(),
    {
        let mut reference: Vec<u8> = Vec::new();
        let digits: [u8; 29] = [
            50, 48, 50, 48, 45, 49, 50, 45, 51, 48, 84, 50, 51, 58, 53, 57, 58, 52, 57, 46, 57,
            57, 57, 57, 57, 57, 57, 57, 57,
        ];
        reference.extend_from_slice(digits.as_slice());
        proof {
            assert(reference@ =~= reference_ts());
        }
        let mut probe: Vec<u8> = Vec::new();
        let ok = ts_formatter.reformat_rfc3339(&mut probe, reference.as_slice());
        proof {
            if !ok {
                assert(rfc3339_shape(reference_ts()));
                assert(false);
            }
        }
        let ts_width = probe.len();
        RecordFormatter {
            theme,
            ts_formatter,
            ts_width,
            hide_empty_fields,
            unescape_fields: true,
        }
    }

    /// Switches raw (non-unescaping) field rendering on or off.
    pub fn with_field_unescaping(self, value: bool) -> (r: Self)
        ensures
            r.theme == self.theme,
            r.ts_formatter == self.ts_formatter,
            r.ts_width == self.ts_width,
            r.hide_empty_fields == self.hide_empty_fields,
            r.unescape_fields == value,
    {
        RecordFormatter {
            theme: self.theme,
            ts_formatter: self.ts_formatter,
            ts_width: self.ts_width,
            hide_empty_fields: self.hide_empty_fields,
            unescape_fields: value,
        }
    }

    /// Renders one field value.
    fn format_value(&self, styler: &mut Styler, out: &mut Vec<u8>, v: &[u8], d: u32)
        requires
            old(styler).wf(),
        ensures
            final(styler).wf(),
            final(styler).pack == old(styler).pack,
            pack_plain(old(styler).pack) && styler_clean(old(styler)) ==> styler_clean(
                final(styler),
            ) && final(out)@ == old(out)@ + val_rendering(v@, d as nat),
        decreases d, 0int, 0int,
    {
        let ghost plain = pack_plain(old(styler).pack) && styler_clean(old(styler));
        if v.len() == 0 || d == 0 {
            let saved = styler.element_begin(Element::String);
            styler.batch(out, v);
            styler.element_end(saved);
            proof {
                if plain {
                    assert(out@ =~= old(out)@ + val_rendering(v@, d as nat));
                }
            }
            return ;
        }
        let c = v[0];
        if c == 34 {
            let saved = styler.element_begin(Element::Quote);
            styler.batch(out, &[39u8]);
            styler.element_end(saved);
            let saved = styler.element_begin(Element::String);
            match crate::model::json_unescape(v) {
                Some(u) => styler.batch(out, u.as_slice()),
                None => styler.batch(out, v),
            }
            styler.element_end(saved);
            let saved = styler.element_begin(Element::Quote);
            styler.batch(out, &[39u8]);
            styler.element_end(saved);
            proof {
                if plain {
                    assert(out@ =~= old(out)@ + val_rendering(v@, d as nat));
                }
            }
        } else if c == 123 {
            match crate::model::parse_json_object(v) {
                Some(raw) => {
                    let saved = styler.element_begin(Element::Brace);
                    styler.batch(out, &[123u8]);
                    styler.element_end(saved);
                    let has = raw.fields.len() > 0;
                    self.format_obj_fields(styler, out, &raw, d - 1);
                    if has {
                        let saved = styler.element_begin(Element::Whitespace);
                        styler.batch(out, &[32u8]);
                        styler.element_end(saved);
                    }
                    let saved = styler.element_begin(Element::Brace);
                    styler.batch(out, &[125u8]);
                    styler.element_end(saved);
                    proof {
                        if plain {
                            assert(out@ =~= old(out)@ + val_rendering(v@, d as nat));
                        }
                    }
                },
                None => {
                    let saved = styler.element_begin(Element::String);
                    styler.batch(out, v);
                    styler.element_end(saved);
                    proof {
                        if plain {
                            assert(out@ =~= old(out)@ + val_rendering(v@, d as nat));
                        }
                    }
                },
            }
        } else if c == 91 {
            match crate::model::parse_json_array(v) {
                Some(items) => {
                    let bytes = self.try_byte_string(styler, out, &items);
                    if !bytes {
                        let saved = styler.element_begin(Element::Brace);
                        styler.batch(out, &[91u8]);
                        styler.element_end(saved);
                        self.format_arr_items(styler, out, &items, d - 1);
                        let saved = styler.element_begin(Element::Brace);
                        styler.batch(out, &[93u8]);
                        styler.element_end(saved);
                    }
                    proof {
                        if plain {
                            assert(out@ =~= old(out)@ + val_rendering(v@, d as nat));
                        }
                    }
                },
                None => {
                    let saved = styler.element_begin(Element::String);
                    styler.batch(out, v);
                    styler.element_end(saved);
                    proof {
                        if plain {
                            assert(out@ =~= old(out)@ + val_rendering(v@, d as nat));
                        }
                    }
                },
            }
        } else {
            let e = if c == 116 || c == 102 {
                Element::Boolean
            } else if c == 110 {
                Element::Null
            } else if c == 45 || c == 43 || c == 46 || (48 <= c && c <= 57) {
                Element::Number
            } else {
                Element::String
            };
            let saved = styler.element_begin(e);
            styler.batch(out, v);
            styler.element_end(saved);
            proof {
                if plain {
                    assert(out@ =~= old(out)@ + val_rendering(v@, d as nat));
                }
            }
        }
    }

    /// Renders an array as a byte string when every element is a small
    /// number; reports whether it did.
    fn try_byte_string(&self, styler: &mut Styler, out: &mut Vec<u8>, items: &Vec<Vec<u8>>) -> (r:
        bool)
        requires
            old(styler).wf(),
        ensures
            final(styler).wf(),
            final(styler).pack == old(styler).pack,
            r == is_byte_string(items.deep_view()),
            pack_plain(old(styler).pack) && styler_clean(old(styler)) ==> styler_clean(
                final(styler),
            ) && final(out)@ == old(out)@ + (if is_byte_string(items.deep_view()) {
                seq![98u8, 39u8] + byte_string_rendering(items.deep_view(), 0) + seq![39u8]
            } else {
                Seq::<u8>::empty()
            }),
    {
        let ghost plain = pack_plain(old(styler).pack) && styler_clean(old(styler));
        let ghost m = items.deep_view();
        let n = items.len();
        let mut bytes: Vec<u8> = Vec::new();
        let mut i: usize = 0;
        proof {
            assert(m.len() == items@.len());
        }
        while i < n
            invariant
                i <= n,
                n == items@.len(),
                m == items.deep_view(),
                m.len() == n,
                *styler == *old(styler),
                styler.wf(),
                out@ == old(out)@,
                forall|j: int|
                    0 <= j < i ==> {
                        &&& all_digits(#[trigger] m[j])
                        &&& 1 <= m[j].len() <= 3
                        &&& digits_val(m[j]) <= 255
                    },
                bytes@ == byte_partial(m, i as int),
            decreases n - i,
        {
            proof {
                assert(m[i as int] == items@[i as int]@);
            }
            match parse_byte(items[i].as_slice()) {
                Some(b) => {
                    if 32 <= b && b <= 126 {
                        bytes.push(b);
                    } else {
                        bytes.push(92);
                        bytes.push(120);
                        let hi = b / 16;
                        let lo = b % 16;
                        bytes.push(
                            if hi < 10 {
                                48 + hi
                            } else {
                                87 + hi
                            },
                        );
                        bytes.push(
                            if lo < 10 {
                                48 + lo
                            } else {
                                87 + lo
                            },
                        );
                    }
                    proof {
                        assert(byte_partial(m, i + 1) =~= byte_partial(m, i as int)
                            + byte_char_rendering(digits_val(m[i as int])));
                        assert(bytes@ =~= byte_partial(m, i + 1));
                    }
                },
                None => {
                    proof {
                        assert(!(all_digits(m[i as int]) && 1 <= m[i as int].len() <= 3
                            && digits_val(m[i as int]) <= 255));
                        assert(!is_byte_string(m));
                        assert(out@ =~= out@ + Seq::<u8>::empty());
                    }
                    return false;
                },
            }
            i = i + 1;
        }
        let saved = styler.element_begin(Element::Quote);
        styler.batch(out, &[98u8, 39u8]);
        styler.element_end(saved);
        let saved = styler.element_begin(Element::Message);
        styler.batch(out, bytes.as_slice());
        styler.element_end(saved);
        let saved = styler.element_begin(Element::Quote);
        styler.batch(out, &[39u8]);
        styler.element_end(saved);
        proof {
            lemma_byte_partial_full(m);
            if plain {
                assert(out@ =~= old(out)@ + (seq![98u8, 39u8] + byte_string_rendering(m, 0)
                    + seq![39u8]));
            }
        }
        true
    }

    /// Renders the fields of a nested object.
    fn format_obj_fields(
        &self,
        styler: &mut Styler,
        out: &mut Vec<u8>,
        raw: &crate::model::RawRecord,
        d: u32,
    )
        requires
            old(styler).wf(),
        ensures
            final(styler).wf(),
            final(styler).pack == old(styler).pack,
            pack_plain(old(styler).pack) && styler_clean(old(styler)) ==> styler_clean(
                final(styler),
            ) && final(out)@ == old(out)@ + obj_rendering(raw.model(), 0, d as nat),
        decreases d, 2int, 0int,
    {
        let ghost plain = pack_plain(old(styler).pack) && styler_clean(old(styler));
        let ghost m = raw.model();
        let n = raw.fields.len();
        let mut i: usize = 0;
        proof {
            if plain {
                assert(out@ =~= old(out)@ + obj_suffix_diff(m, 0, 0, d as nat));
            }
        }
        while i < n
            invariant
                i <= n,
                n == raw.fields@.len(),
                m == raw.model(),
                styler.wf(),
                styler.pack == old(styler).pack,
                plain == (pack_plain(old(styler).pack) && styler_clean(old(styler))),
                plain ==> styler_clean(styler) && out@ == old(out)@ + obj_suffix_diff(
                    m,
                    0,
                    i as int,
                    d as nat,
                ),
            decreases n - i, 1int, 1int,
        {
            let saved = styler.element_begin(Element::Whitespace);
            styler.batch(out, &[32u8]);
            styler.element_end(saved);
            let key = key_lower(raw.fields[i].0.as_str().as_bytes());
            let saved = styler.element_begin(Element::FieldKey);
            styler.batch(out, key.as_slice());
            styler.element_end(saved);
            let saved = styler.element_begin(Element::EqualSign);
            styler.batch(out, &[61u8]);
            styler.element_end(saved);
            self.format_value(styler, out, raw.fields[i].1.as_slice(), d);
            proof {
                if plain {
                    lemma_obj_suffix_step(m, 0, i as int, d as nat);
                    assert(out@ =~= old(out)@ + obj_suffix_diff(m, 0, i + 1, d as nat));
                }
            }
            i = i + 1;
        }
        proof {
            if plain {
                lemma_obj_suffix_done(m, 0, d as nat);
            }
        }
    }

    /// Renders array elements separated by commas.
    fn format_arr_items(
        &self,
        styler: &mut Styler,
        out: &mut Vec<u8>,
        items: &Vec<Vec<u8>>,
        d: u32,
    )
        requires
            old(styler).wf(),
        ensures
            final(styler).wf(),
            final(styler).pack == old(styler).pack,
            pack_plain(old(styler).pack) && styler_clean(old(styler)) ==> styler_clean(
                final(styler),
            ) && final(out)@ == old(out)@ + arr_rendering(items.deep_view(), 0, d as nat),
        decreases d, 2int, 1int,
    {
        let ghost plain = pack_plain(old(styler).pack) && styler_clean(old(styler));
        let ghost m = items.deep_view();
        let n = items.len();
        let mut i: usize = 0;
        proof {
            assert(m.len() == items@.len());
            if plain {
                assert(out@ =~= old(out)@ + arr_diff(m, 0, d as nat));
            }
        }
        while i < n
            invariant
                i <= n,
                n == items@.len(),
                m == items.deep_view(),
                m.len() == n,
                styler.wf(),
                styler.pack == old(styler).pack,
                plain == (pack_plain(old(styler).pack) && styler_clean(old(styler))),
                plain ==> styler_clean(styler) && out@ == old(out)@ + arr_diff(m, i as int, d as nat),
            decreases n - i, 1int, 1int,
        {
            if i > 0 {
                let saved = styler.element_begin(Element::Comma);
                styler.batch(out, &[44u8]);
                styler.element_end(saved);
            }
            proof {
                assert(m[i as int] == items@[i as int]@);
            }
            self.format_value(styler, out, items[i].as_slice(), d);
            proof {
                if plain {
                    lemma_arr_diff_step(m, i as int, d as nat);
                    assert(out@ =~= old(out)@ + arr_diff(m, i + 1, d as nat));
                }
            }
            i = i + 1;
        }
        proof {
            if plain {
                lemma_arr_diff_done(m, d as nat);
            }
        }
    }
}

/// The object rendering of fields `[from, upto)`.
pub open spec fn obj_suffix_diff(fs: Seq<(Seq<char>, Seq<u8>)>, from: int, upto: int, d: nat) -> Seq<
    u8,
>
    decreases upto - from,
{
    if from >= upto || from < 0 || upto > fs.len() {
        Seq::empty()
    } else {
        obj_suffix_diff(fs, from, upto - 1, d) + seq![32u8] + key_bytes(fs[upto - 1].0) + seq![61u8]
            + val_rendering(fs[upto - 1].1, d)
    }
}

proof fn lemma_obj_suffix_step(fs: Seq<(Seq<char>, Seq<u8>)>, from: int, i: int, d: nat)
    requires
        0 <= from <= i < fs.len(),
    ensures
        obj_suffix_diff(fs, from, i + 1, d) == obj_suffix_diff(fs, from, i, d) + seq![32u8]
            + key_bytes(fs[i].0) + seq![61u8] + val_rendering(fs[i].1, d),
{
}

/// Rendering fields `[from, len)` equals the whole-suffix rendering.
proof fn lemma_obj_suffix_done(fs: Seq<(Seq<char>, Seq<u8>)>, from: int, d: nat)
    ensures
        obj_suffix_diff(fs, from, fs.len() as int, d) == obj_rendering(fs, from, d),
    decreases fs.len() - from,
{
    if 0 <= from < fs.len() {
        lemma_obj_suffix_prepend(fs, from, fs.len() as int, d);
        lemma_obj_suffix_done(fs, from + 1, d);
    }
}

proof fn lemma_obj_suffix_prepend(fs: Seq<(Seq<char>, Seq<u8>)>, from: int, upto: int, d: nat)
    requires
        0 <= from < upto <= fs.len(),
    ensures
        obj_suffix_diff(fs, from, upto, d) == seq![32u8] + key_bytes(fs[from].0) + seq![61u8]
            + val_rendering(fs[from].1, d) + obj_suffix_diff(fs, from + 1, upto, d),
    decreases upto - from,
{
    if from + 1 < upto {
        lemma_obj_suffix_prepend(fs, from, upto - 1, d);
        assert(obj_suffix_diff(fs, from + 1, upto, d) == obj_suffix_diff(fs, from + 1, upto - 1, d)
            + seq![32u8] + key_bytes(fs[upto - 1].0) + seq![61u8] + val_rendering(
            fs[upto - 1].1,
            d,
        ));
        assert(obj_suffix_diff(fs, from, upto, d) =~= seq![32u8] + key_bytes(fs[from].0)
            + seq![61u8] + val_rendering(fs[from].1, d) + obj_suffix_diff(fs, from + 1, upto, d));
    } else {
        assert(obj_suffix_diff(fs, from, from, d) == Seq::<u8>::empty());
        assert(obj_suffix_diff(fs, from + 1, upto, d) == Seq::<u8>::empty());
        assert(obj_suffix_diff(fs, from, upto, d) =~= seq![32u8] + key_bytes(fs[from].0)
            + seq![61u8] + val_rendering(fs[from].1, d) + obj_suffix_diff(fs, from + 1, upto, d));
    }
}

/// The array rendering of elements `[0, i)`.
pub open spec fn arr_diff(items: Seq<Seq<u8>>, i: int, d: nat) -> Seq<u8>
    decreases i,
{
    if i <= 0 || i > items.len() {
        Seq::empty()
    } else if i == 1 {
        val_rendering(items[0], d)
    } else {
        arr_diff(items, i - 1, d) + seq![44u8] + val_rendering(items[i - 1], d)
    }
}

proof fn lemma_arr_diff_step(items: Seq<Seq<u8>>, i: int, d: nat)
    requires
        0 <= i < items.len(),
    ensures
        arr_diff(items, i + 1, d) == arr_diff(items, i, d) + (if i == 0 {
            Seq::<u8>::empty()
        } else {
            seq![44u8]
        }) + val_rendering(items[i], d),
{
    if i == 0 {
        assert(arr_diff(items, 1, d) =~= arr_diff(items, 0, d) + Seq::<u8>::empty()
            + val_rendering(items[0], d));
    }
}

proof fn lemma_arr_diff_done(items: Seq<Seq<u8>>, d: nat)
    ensures
        arr_diff(items, items.len() as int, d) == arr_rendering(items, 0, d),
{
    lemma_arr_diff_mid(items, items.len() as int, d);
}

proof fn lemma_arr_diff_mid(items: Seq<Seq<u8>>, i: int, d: nat)
    requires
        0 <= i <= items.len(),
    ensures
        arr_diff(items, i, d) + arr_rendering(items, i, d) == arr_rendering(items, 0, d),
    decreases items.len() - i,
{
    if i == 0 {
        assert(arr_diff(items, 0, d) + arr_rendering(items, 0, d) =~= arr_rendering(items, 0, d));
    } else {
        lemma_arr_diff_mid_rec(items, i, d);
    }
}

proof fn lemma_arr_diff_mid_rec(items: Seq<Seq<u8>>, i: int, d: nat)
    requires
        0 < i <= items.len(),
    ensures
        arr_diff(items, i, d) + arr_rendering(items, i, d) == arr_rendering(items, 0, d),
    decreases i,
{
    if i == 1 {
        assert(arr_diff(items, 1, d) + arr_rendering(items, 1, d) =~= arr_rendering(items, 0, d));
    } else {
        lemma_arr_diff_mid_rec(items, i - 1, d);
        assert(arr_rendering(items, i - 1, d) =~= seq![44u8] + val_rendering(items[i - 1], d)
            + arr_rendering(items, i, d)) by {
            assert(i - 1 > 0);
        }
        assert(arr_diff(items, i, d) + arr_rendering(items, i, d) =~= arr_diff(items, i - 1, d)
            + arr_rendering(items, i - 1, d));
    }
}

/// The byte-string rendering of elements `[0, i)`.
pub open spec fn byte_partial(items: Seq<Seq<u8>>, i: int) -> Seq<u8>
    decreases i,
{
    if i <= 0 || i > items.len() {
        Seq::empty()
    } else {
        byte_partial(items, i - 1) + byte_char_rendering(digits_val(items[i - 1]))
    }
}

proof fn lemma_byte_partial_full(items: Seq<Seq<u8>>)
    ensures
        byte_partial(items, items.len() as int) == byte_string_rendering(items, 0),
{
    lemma_byte_partial_mid(items, items.len() as int);
}

proof fn lemma_byte_partial_mid(items: Seq<Seq<u8>>, i: int)
    requires
        0 <= i <= items.len(),
    ensures
        byte_partial(items, i) + byte_string_rendering(items, i) == byte_string_rendering(
            items,
            0,
        ),
    decreases i,
{
    if i == 0 {
        assert(byte_partial(items, 0) + byte_string_rendering(items, 0) =~= byte_string_rendering(
            items,
            0,
        ));
    } else {
        lemma_byte_partial_mid(items, i - 1);
        assert(byte_string_rendering(items, i - 1) =~= byte_char_rendering(
            digits_val(items[i - 1]),
        ) + byte_string_rendering(items, i));
        assert(byte_partial(items, i) + byte_string_rendering(items, i) =~= byte_partial(
            items,
            i - 1,
        ) + byte_string_rendering(items, i - 1));
    }
}

/// Lower-cases a key and turns underscores into dashes.
fn key_lower(k: &[u8]) -> (r: Vec<u8>)
    ensures
        r@ == k@.map_values(
            |b: u8|
                if b == 95 {
                    45u8
                } else {
                    ascii_lower(b)
                },
        ),
{
    let mut r: Vec<u8> = Vec::new();
    let n = k.len();
    let mut i: usize = 0;
    while i < n
        invariant
            i <= n,
            n == k@.len(),
            r@ == k@.take(i as int).map_values(
                |b: u8|
                    if b == 95 {
                        45u8
                    } else {
                        ascii_lower(b)
                    },
            ),
        decreases n - i,
    {
        let b = k[i];
        let o = if b == 95 {
            45
        } else if 65 <= b && b <= 90 {
            b + 32
        } else {
            b
        };
        r.push(o);
        proof {
            assert(r@ =~= k@.take(i + 1).map_values(
                |b: u8|
                    if b == 95 {
                        45u8
                    } else {
                        ascii_lower(b)
                    },
            ));
        }
        i = i + 1;
    }
    proof {
        assert(k@.take(n as int) =~= k@);
    }
    r
}

} // verus!

verus! {

impl RecordFormatter {
    /// Renders the message: a string's content unescaped, everything else
    /// as a value.
    fn format_message(&self, styler: &mut Styler, out: &mut Vec<u8>, v: &[u8], d: u32)
        requires
            old(styler).wf(),
        ensures
            final(styler).wf(),
            final(styler).pack == old(styler).pack,
            pack_plain(old(styler).pack) && styler_clean(old(styler)) ==> styler_clean(
                final(styler),
            ) && final(out)@ == old(out)@ + msg_rendering(v@, d as nat),
    {
        let ghost plain = pack_plain(old(styler).pack) && styler_clean(old(styler));
        if v.len() > 0 && v[0] == 34 && d > 0 {
            let saved = styler.element_begin(Element::Message);
            match crate::model::json_unescape(v) {
                Some(u) => styler.batch(out, u.as_slice()),
                None => styler.batch(out, v),
            }
            styler.element_end(saved);
            proof {
                if plain {
                    assert(out@ =~= old(out)@ + msg_rendering(v@, d as nat));
                }
            }
        } else {
            self.format_value(styler, out, v, d);
        }
    }

    /// Renders the time column.
    fn format_time(&self, styler: &mut Styler, buf: &mut Vec<u8>, rec: &Record)
        requires
            old(styler).wf(),
        ensures
            final(styler).wf(),
            final(styler).pack == old(styler).pack,
            pack_plain(old(styler).pack) && styler_clean(old(styler)) ==> styler_clean(
                final(styler),
            ) && final(buf)@ == old(buf)@ + time_rendering(
                rec.model().ts,
                self.ts_formatter.format.items@,
                self.ts_width as int,
            ),
    {
        let ghost plain = pack_plain(old(styler).pack) && styler_clean(old(styler));
        let saved = styler.element_begin(Element::Time);
        let mut field: Vec<u8> = Vec::new();
        let mut centered_marker = false;
        match &rec.ts {
            Some(ts) => {
                let mut done = false;
                match ts.as_rfc3339() {
                    Some(inner) => {
                        done = self.ts_formatter.reformat_rfc3339(&mut field, inner);
                    },
                    None => (),
                }
                if !done {
                    field.clear();
                    field.extend_from_slice(ts.raw.as_slice());
                    proof {
                        assert(field@ =~= ts.raw@);
                    }
                }
            },
            None => {
                centered_marker = true;
            },
        }
        let mut time_bytes: Vec<u8> = Vec::new();
        if centered_marker {
            crate::fmtx::centered(&mut time_bytes, self.ts_width, 32, &[45u8, 45u8, 45u8]);
        } else {
            crate::fmtx::aligned_left(&mut time_bytes, self.ts_width, 32, field.as_slice());
        }
        styler.batch(buf, time_bytes.as_slice());
        styler.element_end(saved);
        proof {
            if plain {
                assert(buf@ =~= old(buf)@ + time_rendering(
                    rec.model().ts,
                    self.ts_formatter.format.items@,
                    self.ts_width as int,
                ));
            }
        }
    }

    /// Renders the record's residual fields.
    #[verifier::rlimit(50)]
    fn format_top_fields(&self, styler: &mut Styler, buf: &mut Vec<u8>, rec: &Record)
        requires
            old(styler).wf(),
        ensures
            final(styler).wf(),
            final(styler).pack == old(styler).pack,
            pack_plain(old(styler).pack) && styler_clean(old(styler)) ==> styler_clean(
                final(styler),
            ) && final(buf)@ == old(buf)@ + top_fields_rendering(
                rec.model().fields,
                0,
                VALUE_DEPTH as nat,
                self.hide_empty_fields,
                self.unescape_fields,
            ),
    {
        let ghost plain = pack_plain(old(styler).pack) && styler_clean(old(styler));
        let ghost fm = rec.model().fields;
        let n = rec.fields.len();
        let mut i: usize = 0;
        proof {
            if plain {
                assert(buf@ =~= old(buf)@ + fields_partial(
                    fm,
                    0,
                    VALUE_DEPTH as nat,
                    self.hide_empty_fields,
                    self.unescape_fields,
                ));
            }
        }
        while i < n
            invariant
                i <= n,
                n == rec.fields@.len(),
                fm == rec.model().fields,
                fm.len() == n,
                styler.wf(),
                styler.pack == old(styler).pack,
                plain == (pack_plain(old(styler).pack) && styler_clean(old(styler))),
                plain ==> styler_clean(styler) && buf@ == old(buf)@ + fields_partial(
                    fm,
                    i as int,
                    VALUE_DEPTH as nat,
                    self.hide_empty_fields,
                    self.unescape_fields,
                ),
            decreases n - i,
        {
            proof {
                assert(fm[i as int] == (rec.fields@[i as int].0@, rec.fields@[i as int].1@));
            }
            let v = &rec.fields[i].1;
            let mut skip = false;
            if self.hide_empty_fields {
                if is_empty_value_exec(v.as_slice()) {
                    skip = true;
                }
            }
            if !skip {
                let saved = styler.element_begin(Element::Whitespace);
                styler.batch(buf, &[32u8]);
                styler.element_end(saved);
                let key = key_lower(rec.fields[i].0.as_str().as_bytes());
                let saved = styler.element_begin(Element::FieldKey);
                styler.batch(buf, key.as_slice());
                styler.element_end(saved);
                let saved = styler.element_begin(Element::EqualSign);
                styler.batch(buf, &[61u8]);
                styler.element_end(saved);
                if self.unescape_fields {
                    self.format_value(styler, buf, v.as_slice(), VALUE_DEPTH);
                } else {
                    let saved = styler.element_begin(Element::String);
                    styler.batch(buf, v.as_slice());
                    styler.element_end(saved);
                }
            }
            proof {
                if plain {
                    lemma_fields_partial_step(
                        fm,
                        i as int,
                        VALUE_DEPTH as nat,
                        self.hide_empty_fields,
                        self.unescape_fields,
                    );
                    assert(buf@ =~= old(buf)@ + fields_partial(
                        fm,
                        i + 1,
                        VALUE_DEPTH as nat,
                        self.hide_empty_fields,
                        self.unescape_fields,
                    ));
                }
            }
            i = i + 1;
        }
        proof {
            if plain {
                lemma_fields_partial_done(
                    fm,
                    VALUE_DEPTH as nat,
                    self.hide_empty_fields,
                    self.unescape_fields,
                );
            }
        }
    }

    /// Renders the level separator block, the logger and the message.
    #[verifier::rlimit(50)]
    fn format_middle(&self, styler: &mut Styler, buf: &mut Vec<u8>, rec: &Record)
        requires
            old(styler).wf(),
        ensures
            final(styler).wf(),
            final(styler).pack == old(styler).pack,
            pack_plain(old(styler).pack) && styler_clean(old(styler)) ==> styler_clean(
                final(styler),
            ) && final(buf)@ == old(buf)@ + middle_rendering(rec.model(), VALUE_DEPTH as nat),
    {
        let ghost plain = pack_plain(old(styler).pack) && styler_clean(old(styler));
        let saved = styler.element_begin(Element::Whitespace);
        styler.batch(buf, &[32u8]);
        styler.element_end(saved);
        let saved = styler.element_begin(Element::Delimiter);
        styler.batch(buf, &[124u8]);
        styler.element_end(saved);
        let saved = styler.element_begin(Element::Level);
        let mne: [u8; 3] = match rec.level {
            Some(Level::Debug) => [68, 66, 71],
            Some(Level::Info) => [73, 78, 70],
            Some(Level::Warning) => [87, 82, 78],
            Some(Level::Error) => [69, 82, 82],
            None => [40, 63, 41],
        };
        styler.batch(buf, mne.as_slice());
        styler.element_end(saved);
        let saved = styler.element_begin(Element::Delimiter);
        styler.batch(buf, &[124u8]);
        styler.element_end(saved);
        proof {
            if plain {
                assert(buf@ =~= old(buf)@ + (seq![32u8, 124u8] + mnemonic(rec.model().level)
                    + seq![124u8]));
            }
        }
        let ghost after_level = buf@;
        match &rec.logger {
            Some(logger) => {
                let saved = styler.element_begin(Element::Whitespace);
                styler.batch(buf, &[32u8]);
                styler.element_end(saved);
                let saved = styler.element_begin(Element::Logger);
                styler.batch(buf, logger.as_slice());
                styler.batch(buf, &[58u8]);
                styler.element_end(saved);
                proof {
                    if plain {
                        assert(buf@ =~= after_level + (seq![32u8] + logger@ + seq![58u8]));
                    }
                }
            },
            None => {
                proof {
                    if plain {
                        assert(buf@ =~= after_level + Seq::<u8>::empty());
                    }
                }
            },
        }
        let ghost after_logger = buf@;
        match &rec.message {
            Some(text) => {
                let saved = styler.element_begin(Element::Whitespace);
                styler.batch(buf, &[32u8]);
                styler.element_end(saved);
                self.format_message(styler, buf, text.as_slice(), VALUE_DEPTH);
                proof {
                    if plain {
                        assert(buf@ =~= after_logger + (seq![32u8] + msg_rendering(
                            text@,
                            VALUE_DEPTH as nat,
                        )));
                    }
                }
            },
            None => {
                proof {
                    if plain {
                        assert(buf@ =~= after_logger + Seq::<u8>::empty());
                    }
                }
            },
        }
        proof {
            if plain {
                assert(buf@ =~= old(buf)@ + middle_rendering(rec.model(), VALUE_DEPTH as nat));
            }
        }
    }

    /// Formats one record as one output line; under a colorless theme the
    /// line is exactly the plain rendering.
    #[verifier::rlimit(100)]
    #[verifier::spinoff_prover]
    pub fn format_record(&self, buf: &mut Vec<u8>, rec: &Record)
        requires
            self.theme.wf(),
        ensures
            self.theme.is_plain() ==> final(buf)@ == old(buf)@ + plain_record_rendering(
                rec.model(),
                self.ts_formatter.format.items@,
                self.ts_width as int,
                self.hide_empty_fields,
                self.unescape_fields,
                VALUE_DEPTH as nat,
            ),
    {
        let pack = self.theme.apply(&rec.level);
        let mut styler = Styler::new(pack);
        let ghost plain = self.theme.is_plain();
        proof {
            if plain {
                assert(pack_plain(styler.pack));
            }
        }
        self.format_time(&mut styler, buf, rec);
        let ghost after_time = buf@;
        self.format_middle(&mut styler, buf, rec);
        let ghost after_message = buf@;
        self.format_top_fields(&mut styler, buf, rec);
        let ghost after_fields = buf@;
        // caller
        match &rec.caller {
            Some(text) => {
                let saved = styler.element_begin(Element::AtSign);
                styler.batch(buf, &[32u8, 64u8, 32u8]);
                styler.element_end(saved);
                let saved = styler.element_begin(Element::Caller);
                styler.batch(buf, text.as_slice());
                styler.element_end(saved);
                proof {
                    if plain {
                        assert(buf@ =~= after_fields + (seq![32u8, 64u8, 32u8] + text@));
                    }
                }
            },
            None => {
                proof {
                    if plain {
                        assert(buf@ =~= after_fields + Seq::<u8>::empty());
                    }
                }
            },
        }
        // end of line
        buf.push(10);
        proof {
            if plain {
                assert(middle_rendering(rec.model(), VALUE_DEPTH as nat) == seq![32u8, 124u8]
                    + mnemonic(rec.model().level) + seq![124u8] + (match rec.model().logger {
                    Some(l) => seq![32u8] + l + seq![58u8],
                    None => Seq::<u8>::empty(),
                }) + (match rec.model().message {
                    Some(v) => seq![32u8] + msg_rendering(v, VALUE_DEPTH as nat),
                    None => Seq::<u8>::empty(),
                }));
                assert(buf@ =~= old(buf)@ + plain_record_rendering(
                    rec.model(),
                    self.ts_formatter.format.items@,
                    self.ts_width as int,
                    self.hide_empty_fields,
                    self.unescape_fields,
                    VALUE_DEPTH as nat,
                ));
            }
        }
    }
}

/// The level, logger and message portion of a line.
pub open spec fn middle_rendering(m: RecordModel, d: nat) -> Seq<u8> {
    seq![32u8, 124u8] + mnemonic(m.level) + seq![124u8] + (match m.logger {
        Some(l) => seq![32u8] + l + seq![58u8],
        None => Seq::<u8>::empty(),
    }) + (match m.message {
        Some(v) => seq![32u8] + msg_rendering(v, d),
        None => Seq::<u8>::empty(),
    })
}

/// The top-level field rendering of fields `[0, i)`.
pub open spec fn fields_partial(
    fs: Seq<(Seq<char>, Seq<u8>)>,
    i: int,
    d: nat,
    hide: bool,
    unescape: bool,
) -> Seq<u8>
    decreases i,
{
    if i <= 0 || i > fs.len() {
        Seq::empty()
    } else {
        fields_partial(fs, i - 1, d, hide, unescape) + (if hide && is_empty_value(fs[i - 1].1) {
            Seq::<u8>::empty()
        } else {
            seq![32u8] + key_bytes(fs[i - 1].0) + seq![61u8] + (if unescape {
                val_rendering(fs[i - 1].1, d)
            } else {
                fs[i - 1].1
            })
        })
    }
}

proof fn lemma_fields_partial_step(
    fs: Seq<(Seq<char>, Seq<u8>)>,
    i: int,
    d: nat,
    hide: bool,
    unescape: bool,
)
    requires
        0 <= i < fs.len(),
    ensures
        fields_partial(fs, i + 1, d, hide, unescape) == fields_partial(fs, i, d, hide, unescape)
            + (if hide && is_empty_value(fs[i].1) {
            Seq::<u8>::empty()
        } else {
            seq![32u8] + key_bytes(fs[i].0) + seq![61u8] + (if unescape {
                val_rendering(fs[i].1, d)
            } else {
                fs[i].1
            })
        }),
{
}

proof fn lemma_fields_partial_done(fs: Seq<(Seq<char>, Seq<u8>)>, d: nat, hide: bool, unescape: bool)
    ensures
        fields_partial(fs, fs.len() as int, d, hide, unescape) == top_fields_rendering(
            fs,
            0,
            d,
            hide,
            unescape,
        ),
{
    lemma_fields_partial_mid(fs, fs.len() as int, d, hide, unescape);
}

proof fn lemma_fields_partial_mid(
    fs: Seq<(Seq<char>, Seq<u8>)>,
    i: int,
    d: nat,
    hide: bool,
    unescape: bool,
)
    requires
        0 <= i <= fs.len(),
    ensures
        fields_partial(fs, i, d, hide, unescape) + top_fields_rendering(fs, i, d, hide, unescape)
            == top_fields_rendering(fs, 0, d, hide, unescape),
    decreases i,
{
    if i == 0 {
        assert(fields_partial(fs, 0, d, hide, unescape) + top_fields_rendering(
            fs,
            0,
            d,
            hide,
            unescape,
        ) =~= top_fields_rendering(fs, 0, d, hide, unescape));
    } else {
        lemma_fields_partial_mid(fs, i - 1, d, hide, unescape);
        assert(top_fields_rendering(fs, i - 1, d, hide, unescape) =~= (if hide && is_empty_value(
            fs[i - 1].1,
        ) {
            Seq::<u8>::empty()
        } else {
            seq![32u8] + key_bytes(fs[i - 1].0) + seq![61u8] + (if unescape {
                val_rendering(fs[i - 1].1, d)
            } else {
                fs[i - 1].1
            })
        }) + top_fields_rendering(fs, i, d, hide, unescape));
        assert(fields_partial(fs, i, d, hide, unescape) + top_fields_rendering(
            fs,
            i,
            d,
            hide,
            unescape,
        ) =~= fields_partial(fs, i - 1, d, hide, unescape) + top_fields_rendering(
            fs,
            i - 1,
            d,
            hide,
            unescape,
        ));
    }
}

/// Whether a raw value counts as empty for field hiding.
fn is_empty_value_exec(v: &[u8]) -> (r: bool)
    ensures
        r == is_empty_value(v@),
{
    let ghost g = v@;
    if v.len() == 2 {
        proof {
            assert(g.len() == 2);
            assert((g == seq![34u8, 34u8]) == (g[0] == 34 && g[1] == 34)) by {
                if g[0] == 34 && g[1] == 34 {
                    assert(g =~= seq![34u8, 34u8]);
                }
            }
            assert((g == seq![123u8, 125u8]) == (g[0] == 123 && g[1] == 125)) by {
                if g[0] == 123 && g[1] == 125 {
                    assert(g =~= seq![123u8, 125u8]);
                }
            }
            assert((g == seq![91u8, 93u8]) == (g[0] == 91 && g[1] == 93)) by {
                if g[0] == 91 && g[1] == 93 {
                    assert(g =~= seq![91u8, 93u8]);
                }
            }
            assert(g != seq![110u8, 117u8, 108u8, 108u8]);
        }
        (v[0] == 34 && v[1] == 34) || (v[0] == 123 && v[1] == 125) || (v[0] == 91 && v[1] == 93)
    } else if v.len() == 4 {
        proof {
            assert((g == seq![110u8, 117u8, 108u8, 108u8]) == (g[0] == 110 && g[1] == 117 && g[2]
                == 108 && g[3] == 108)) by {
                if g[0] == 110 && g[1] == 117 && g[2] == 108 && g[3] == 108 {
                    assert(g =~= seq![110u8, 117u8, 108u8, 108u8]);
                }
            }
            assert(g != seq![34u8, 34u8] && g != seq![123u8, 125u8] && g != seq![91u8, 93u8]);
        }
        v[0] == 110 && v[1] == 117 && v[2] == 108 && v[3] == 108
    } else {
        proof {
            assert(g.len() != 2 && g.len() != 4);
        }
        false
    }
}

} // verus!
