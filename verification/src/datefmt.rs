//! Timestamp formatting: strftime-like templates compiled to opcodes, and a
//! fast reformatter that copies digit runs straight from RFC-3339 text.

use vstd::prelude::*;

verus! {

use crate::model::is_digit;

/// One compiled piece of a timestamp format.
#[derive(Debug, Clone, PartialEq, Eq)]
pub enum FormatItem {
    /// A literal byte.
    Literal(u8),
    /// `%Y`: the four-digit year.
    Year,
    /// `%y`: the two-digit year.
    ShortYear,
    /// `%m`: the two-digit month.
    Month,
    /// `%d`: the two-digit day.
    Day,
    /// `%H`: the two-digit hour.
    Hour,
    /// `%M`: the two-digit minute.
    Minute,
    /// `%S`: the two-digit second.
    Second,
    /// `%T`: `HH:MM:SS`.
    TimeOfDay,
    /// `%3N`, `%6N`, `%9N` or `%N`: that many fraction digits, zero padded.
    Fraction(u8),
}

/// A compiled timestamp format.
#[derive(Debug, Clone, PartialEq, Eq)]
pub struct DateTimeFormat {
    pub items: Vec<FormatItem>,
}

/// The items a template compiles to, read from position `i` on: `%`
/// introduces a specifier of the fast path; anything unrecognized stays
/// literal.
pub open spec fn compile_items(t: Seq<u8>, i: int) -> Seq<FormatItem>
    decreases t.len() - i,
{
    if i < 0 || i >= t.len() {
        Seq::empty()
    } else if t[i] == 37 && i + 1 < t.len() {
        let d = t[i + 1];
        if d == 89 {
            seq![FormatItem::Year] + compile_items(t, i + 2)
        } else if d == 121 {
            seq![FormatItem::ShortYear] + compile_items(t, i + 2)
        } else if d == 109 {
            seq![FormatItem::Month] + compile_items(t, i + 2)
        } else if d == 100 {
            seq![FormatItem::Day] + compile_items(t, i + 2)
        } else if d == 72 {
            seq![FormatItem::Hour] + compile_items(t, i + 2)
        } else if d == 77 {
            seq![FormatItem::Minute] + compile_items(t, i + 2)
        } else if d == 83 {
            seq![FormatItem::Second] + compile_items(t, i + 2)
        } else if d == 84 {
            seq![FormatItem::TimeOfDay] + compile_items(t, i + 2)
        } else if d == 78 {
            seq![FormatItem::Fraction(9)] + compile_items(t, i + 2)
        } else if (d == 51 || d == 54 || d == 57) && i + 2 < t.len() && t[i + 2] == 78 {
            seq![FormatItem::Fraction((d - 48) as u8)] + compile_items(t, i + 3)
        } else if d == 37 {
            seq![FormatItem::Literal(37)] + compile_items(t, i + 2)
        } else {
            seq![FormatItem::Literal(37), FormatItem::Literal(d)] + compile_items(t, i + 2)
        }
    } else {
        seq![FormatItem::Literal(t[i])] + compile_items(t, i + 1)
    }
}

/// Compiles a strftime-like template. The specifiers of the fast path are
/// recognized; anything else stays literal.
pub struct LinuxDateFormat {
    pub spec: Vec<u8>,
}

impl LinuxDateFormat {
    pub fn new(spec: &[u8]) -> (r: Self)
        ensures
            r.spec@ == spec@,
    {
        LinuxDateFormat { spec: vstd::slice::slice_to_vec(spec) }
    }

    /// Compiles the template into format items.
    pub fn compile(&self) -> (r: DateTimeFormat)
        ensures
            r.items@ == compile_items(self.spec@, 0),
    {
        let ghost t = self.spec@;
        let mut items: Vec<FormatItem> = Vec::new();
        let n = self.spec.len();
        let mut i: usize = 0;
        while i < n
            invariant
                i <= n,
                n == self.spec@.len(),
                t == self.spec@,
                items@ + compile_items(t, i as int) == compile_items(t, 0),
            decreases n - i,
        {
            let ghost pre = items@;
            let ghost old_i = i;
            let c = self.spec[i];
            if c == 37 && i + 1 < n {
                let d = self.spec[i + 1];
                let mut consumed: usize = 2;
                if d == 89 {
                    items.push(FormatItem::Year);
                } else if d == 121 {
                    items.push(FormatItem::ShortYear);
                } else if d == 109 {
                    items.push(FormatItem::Month);
                } else if d == 100 {
                    items.push(FormatItem::Day);
                } else if d == 72 {
                    items.push(FormatItem::Hour);
                } else if d == 77 {
                    items.push(FormatItem::Minute);
                } else if d == 83 {
                    items.push(FormatItem::Second);
                } else if d == 84 {
                    items.push(FormatItem::TimeOfDay);
                } else if d == 78 {
                    items.push(FormatItem::Fraction(9));
                } else if (d == 51 || d == 54 || d == 57) && i + 2 < n && self.spec[i + 2] == 78 {
                    items.push(FormatItem::Fraction(d - 48));
                    consumed = 3;
                } else if d == 37 {
                    items.push(FormatItem::Literal(37));
                } else {
                    items.push(FormatItem::Literal(37));
                    items.push(FormatItem::Literal(d));
                }
                i = i + consumed;
            } else {
                items.push(FormatItem::Literal(c));
                i = i + 1;
            }
            proof {
                assert(items@ + compile_items(t, i as int) =~= pre + compile_items(
                    t,
                    old_i as int,
                ));
            }
        }
        proof {
            assert(compile_items(t, n as int) == Seq::<FormatItem>::empty());
            assert(items@ =~= compile_items(t, 0));
        }
        DateTimeFormat { items }
    }
}

/// Whether `src` has the RFC-3339 date-time shape up to the seconds field:
/// `DDDD-DD-DDTDD:DD:DD` with digits at the digit positions.
pub open spec fn rfc3339_shape(src: Seq<u8>) -> bool {
    &&& src.len() >= 19
    &&& is_digit(src[0]) && is_digit(src[1]) && is_digit(src[2]) && is_digit(src[3])
    &&& src[4] == 45
    &&& is_digit(src[5]) && is_digit(src[6])
    &&& src[7] == 45
    &&& is_digit(src[8]) && is_digit(src[9])
    &&& (src[10] == 84 || src[10] == 116 || src[10] == 32)
    &&& is_digit(src[11]) && is_digit(src[12])
    &&& src[13] == 58
    &&& is_digit(src[14]) && is_digit(src[15])
    &&& src[16] == 58
    &&& is_digit(src[17]) && is_digit(src[18])
}

/// The fraction digits of an RFC-3339 text: the digit run after a dot at
/// position 19.
pub open spec fn rfc3339_frac(src: Seq<u8>) -> Seq<u8> {
    if src.len() > 20 && src[19] == 46 {
        src.subrange(20, 20 + frac_digit_run(src, 20))
    } else {
        Seq::empty()
    }
}

/// The length of the digit run starting at `p`.
pub open spec fn frac_digit_run(src: Seq<u8>, p: int) -> int
    decreases src.len() - p,
{
    if p < 0 || p >= src.len() || !is_digit(src[p]) {
        0
    } else {
        1 + frac_digit_run(src, p + 1)
    }
}

pub proof fn lemma_frac_digit_run(src: Seq<u8>, p: int)
    requires
        0 <= p <= src.len(),
    ensures
        0 <= frac_digit_run(src, p) <= src.len() - p,
    decreases src.len() - p,
{
    if p < src.len() && is_digit(src[p]) {
        lemma_frac_digit_run(src, p + 1);
    }
}

/// `n` fraction digits: the run's first `n` digits, zero padded at the end.
pub open spec fn frac_field(src: Seq<u8>, n: int) -> Seq<u8> {
    let f = rfc3339_frac(src);
    if f.len() >= n {
        f.take(n)
    } else {
        f + Seq::new((n - f.len()) as nat, |i: int| 48u8)
    }
}

/// The bytes one format item copies out of an RFC-3339 text.
pub open spec fn item_rendering(item: FormatItem, src: Seq<u8>) -> Seq<u8> {
    match item {
        FormatItem::Literal(b) => seq![b],
        FormatItem::Year => src.subrange(0, 4),
        FormatItem::ShortYear => src.subrange(2, 4),
        FormatItem::Month => src.subrange(5, 7),
        FormatItem::Day => src.subrange(8, 10),
        FormatItem::Hour => src.subrange(11, 13),
        FormatItem::Minute => src.subrange(14, 16),
        FormatItem::Second => src.subrange(17, 19),
        FormatItem::TimeOfDay => src.subrange(11, 19),
        FormatItem::Fraction(n) => frac_field(src, n as int),
    }
}

/// The reformatted text: each item's bytes in order.
pub open spec fn reformat_rendering(items: Seq<FormatItem>, src: Seq<u8>) -> Seq<u8>
    decreases items.len(),
{
    if items.len() == 0 {
        Seq::empty()
    } else {
        reformat_rendering(items.drop_last(), src) + item_rendering(items.last(), src)
    }
}

/// Formats timestamps; the fast path copies digit runs from RFC-3339 text.
#[derive(Debug, Clone)]
pub struct DateTimeFormatter {
    pub format: DateTimeFormat,
}

impl DateTimeFormatter {
    pub fn new(format: DateTimeFormat) -> (r: Self)
        ensures
            r.format == format,
    {
        DateTimeFormatter { format }
    }

    /// Reformats an RFC-3339 text by copying its digit runs; nothing when
    /// the text does not have the RFC-3339 shape.
    pub fn reformat_rfc3339(&self, out: &mut Vec<u8>, src: &[u8]) -> (r: bool)
        ensures
            r ==> rfc3339_shape(src@) && final(out)@ == old(out)@ + reformat_rendering(
                self.format.items@,
                src@,
            ),
            !r ==> final(out)@ == old(out)@ && !rfc3339_shape(src@),
    {
        if !rfc3339_shape_exec(src) {
            return false;
        }
        // locate the fraction digits
        let n = src.len();
        let mut fstart: usize = 0;
        let mut fend: usize = 0;
        if n > 20 && src[19] == 46 {
            fstart = 20;
            fend = 20;
            while fend < n && src[fend] >= 48 && src[fend] <= 57
                invariant
                    20 <= fend <= n,
                    n == src@.len(),
                    frac_digit_run(src@, 20) == frac_digit_run(src@, fend as int) + (fend - 20),
                    forall|j: int| 20 <= j < fend ==> is_digit(#[trigger] src@[j]),
                decreases n - fend,
            {
                fend = fend + 1;
            }
            proof {
                lemma_frac_digit_run(src@, fend as int);
                assert(frac_digit_run(src@, fend as int) == 0);
            }
        }
        let ghost frac = rfc3339_frac(src@);
        proof {
            if n > 20 && src@[19] == 46 {
                assert(frac =~= src@.subrange(20, fend as int));
            } else {
                assert(frac =~= Seq::<u8>::empty());
            }
        }
        let m = self.format.items.len();
        let mut i: usize = 0;
        while i < m
            invariant
                i <= m,
                m == self.format.items@.len(),
                n == src@.len(),
                rfc3339_shape(src@),
                frac == rfc3339_frac(src@),
                20 <= fstart <= fend <= n || (fstart == 0 && fend == 0),
                frac == (if fstart == 20 {
                    src@.subrange(20, fend as int)
                } else {
                    Seq::<u8>::empty()
                }),
                fstart == 20 || fstart == 0,
                out@ == old(out)@ + reformat_rendering(self.format.items@.take(i as int), src@),
            decreases m - i,
        {
            let ghost pre = out@;
            match self.format.items[i] {
                FormatItem::Literal(b) => {
                    out.push(b);
                },
                FormatItem::Year => copy_range(out, src, 0, 4),
                FormatItem::ShortYear => copy_range(out, src, 2, 4),
                FormatItem::Month => copy_range(out, src, 5, 7),
                FormatItem::Day => copy_range(out, src, 8, 10),
                FormatItem::Hour => copy_range(out, src, 11, 13),
                FormatItem::Minute => copy_range(out, src, 14, 16),
                FormatItem::Second => copy_range(out, src, 17, 19),
                FormatItem::TimeOfDay => copy_range(out, src, 11, 19),
                FormatItem::Fraction(k) => {
                    let have = fend - fstart;
                    let want = k as usize;
                    if have >= want {
                        copy_range(out, src, fstart, fstart + want);
                        proof {
                            assert(frac.take(want as int) =~= src@.subrange(
                                fstart as int,
                                fstart + want,
                            ));
                        }
                    } else {
                        copy_range(out, src, fstart, fend);
                        let mut z: usize = have;
                        while z < want
                            invariant
                                have <= z <= want,
                                out@ == pre + frac + Seq::new((z - have) as nat, |x: int| 48u8),
                                frac == (if fstart == 20 {
                                    src@.subrange(20, fend as int)
                                } else {
                                    Seq::<u8>::empty()
                                }),
                                have == fend - fstart,
                                fstart == 20 || (fstart == 0 && fend == 0),
                            decreases want - z,
                        {
                            out.push(48);
                            proof {
                                assert(out@ =~= pre + frac + Seq::new(
                                    (z + 1 - have) as nat,
                                    |x: int| 48u8,
                                ));
                            }
                            z = z + 1;
                        }
                        proof {
                            assert(frac_field(src@, k as int) =~= frac + Seq::new(
                                (k - frac.len()) as nat,
                                |x: int| 48u8,
                            ));
                        }
                    }
                },
            }
            proof {
                let t = self.format.items@.take(i + 1);
                assert(t.drop_last() =~= self.format.items@.take(i as int));
                assert(t.last() == self.format.items@[i as int]);
                assert(out@ =~= pre + item_rendering(self.format.items@[i as int], src@));
            }
            i = i + 1;
        }
        proof {
            assert(self.format.items@.take(m as int) =~= self.format.items@);
        }
        true
    }
}

fn rfc3339_shape_exec(src: &[u8]) -> (r: bool)
    ensures
        r == rfc3339_shape(src@),
{
    if src.len() < 19 {
        return false;
    }
    let d = |b: u8| -> (x: bool)
        ensures
            x == is_digit(b),
        { 48 <= b && b <= 57 };
    d(src[0]) && d(src[1]) && d(src[2]) && d(src[3]) && src[4] == 45 && d(src[5]) && d(src[6])
        && src[7] == 45 && d(src[8]) && d(src[9]) && (src[10] == 84 || src[10] == 116 || src[10]
        == 32) && d(src[11]) && d(src[12]) && src[13] == 58 && d(src[14]) && d(src[15]) && src[16]
        == 58 && d(src[17]) && d(src[18])
}

/// Copies `src[from..to]` to `out`.
fn copy_range(out: &mut Vec<u8>, src: &[u8], from: usize, to: usize)
    requires
        from <= to <= src@.len(),
    ensures
        final(out)@ == old(out)@ + src@.subrange(from as int, to as int),
{
    out.extend_from_slice(vstd::slice::slice_subrange(src, from, to));
}

} // verus!
