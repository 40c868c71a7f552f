//! The record data model: levels, timestamps, raw records parsed from JSON
//! lines, and the projection of raw records onto typed records.

use vstd::prelude::*;

verus! {

/// Severity level of a log record.
#[derive(Clone, Copy, Debug, PartialEq, Eq, Hash, Structural)]
pub enum Level {
    Debug,
    Info,
    Warning,
    Error,
}

impl Level {
    /// Severity rank: higher means more severe.
    pub open spec fn index_spec(self) -> u8 {
        match self {
            Level::Debug => 0,
            Level::Info => 1,
            Level::Warning => 2,
            Level::Error => 3,
        }
    }

    #[verifier::when_used_as_spec(index_spec)]
    pub fn index(self) -> (r: u8)
        ensures
            r == self.index_spec(),
    {
        match self {
            Level::Debug => 0,
            Level::Info => 1,
            Level::Warning => 2,
            Level::Error => 3,
        }
    }
}

// Byte utilities.

pub open spec fn is_digit(b: u8) -> bool {
    48 <= b <= 57
}

pub open spec fn all_digits(s: Seq<u8>) -> bool {
    forall|i: int| 0 <= i < s.len() ==> is_digit(#[trigger] s[i])
}

/// The value of a string of decimal digits.
pub open spec fn digits_val(s: Seq<u8>) -> nat
    decreases s.len(),
{
    if s.len() == 0 {
        0
    } else {
        digits_val(s.drop_last()) * 10 + (if s.last() >= 48 {
            (s.last() - 48) as nat
        } else {
            0
        })
    }
}

pub open spec fn pow10(n: nat) -> nat
    decreases n,
{
    if n == 0 {
        1
    } else {
        10 * pow10((n - 1) as nat)
    }
}

/// Extending a digit string never decreases its value.
pub proof fn lemma_digits_val_extend(s: Seq<u8>, i: int)
    requires
        0 <= i <= s.len(),
    ensures
        digits_val(s) >= digits_val(s.take(i)),
    decreases s.len() - i,
{
    if i < s.len() {
        assert(s.take(i + 1).drop_last() =~= s.take(i));
        assert(digits_val(s.take(i + 1)) >= digits_val(s.take(i)));
        lemma_digits_val_extend(s, i + 1);
        assert(s.take(s.len() as int) =~= s);
    } else {
        assert(s.take(i) =~= s);
    }
}

/// Lower-cases one ASCII byte.
pub open spec fn ascii_lower(b: u8) -> u8 {
    if 65 <= b <= 90 {
        (b + 32) as u8
    } else {
        b
    }
}

pub open spec fn lower_bytes(s: Seq<u8>) -> Seq<u8> {
    s.map_values(|b: u8| ascii_lower(b))
}

/// Compares two byte strings ASCII-case-insensitively.
pub fn bytes_eq_ignore_case(a: &[u8], b: &[u8]) -> (r: bool)
    ensures
        r == (lower_bytes(a@) == lower_bytes(b@)),
{
    if a.len() != b.len() {
        assert(lower_bytes(a@).len() != lower_bytes(b@).len());
        return false;
    }
    let n = a.len();
    let mut i: usize = 0;
    while i < n
        invariant
            i <= n,
            n == a@.len() && n == b@.len(),
            forall|j: int| 0 <= j < i ==> ascii_lower(a@[j]) == ascii_lower(b@[j]),
        decreases n - i,
    {
        let x = a[i];
        let y = b[i];
        let xl = if 65 <= x && x <= 90 {
            x + 32
        } else {
            x
        };
        let yl = if 65 <= y && y <= 90 {
            y + 32
        } else {
            y
        };
        if xl != yl {
            assert(lower_bytes(a@)[i as int] != lower_bytes(b@)[i as int]);
            return false;
        }
        i = i + 1;
    }
    proof {
        assert(lower_bytes(a@) =~= lower_bytes(b@));
    }
    true
}

/// Compares two byte strings.
pub fn bytes_eq(a: &[u8], b: &[u8]) -> (r: bool)
    ensures
        r == (a@ == b@),
{
    if a.len() != b.len() {
        return false;
    }
    let n = a.len();
    let mut i: usize = 0;
    while i < n
        invariant
            i <= n,
            n == a@.len() && n == b@.len(),
            forall|j: int| 0 <= j < i ==> a@[j] == b@[j],
        decreases n - i,
    {
        if a[i] != b[i] {
            return false;
        }
        i = i + 1;
    }
    proof {
        assert(a@ =~= b@);
    }
    true
}

// Trusted views of the outside JSON and date crates.

/// The fields of the JSON object in `line`, in their original order, each
/// value in its raw textual form; nothing when `line` is not one JSON object.
pub uninterp spec fn json_record_of(line: Seq<u8>) -> Option<Seq<(Seq<char>, Seq<u8>)>>;

/// The elements of the JSON array in `payload`, each in its raw textual form.
pub uninterp spec fn json_array_of(payload: Seq<u8>) -> Option<Seq<Seq<u8>>>;

/// The decoded content of the JSON string in `payload`, as UTF-8 bytes.
pub uninterp spec fn json_unescaped_of(payload: Seq<u8>) -> Option<Seq<u8>>;

/// The Unix epoch instant denoted by the RFC-3339 text, as whole seconds and
/// subsecond nanoseconds.
pub uninterp spec fn rfc3339_epoch_of(s: Seq<u8>) -> Option<(i64, u32)>;

/// An untyped parsed record: ordered (key, raw JSON payload) pairs.
#[derive(Debug, Clone)]
pub struct RawRecord {
    pub fields: Vec<(String, Vec<u8>)>,
}

impl RawRecord {
    /// The mathematical content: keys and raw payloads in order.
    pub open spec fn model(&self) -> Seq<(Seq<char>, Seq<u8>)> {
        Seq::new(self.fields@.len(), |i: int| (self.fields@[i].0@, self.fields@[i].1@))
    }
}

/// Relies on serde_json (with indexmap for order-preserving maps): parses one
/// JSON object, keeping its fields in order and each value as raw text.
#[verifier::external_body]
pub fn parse_json_object(data: &[u8]) -> (r: Option<RawRecord>)
    ensures
        match r {
            Some(rec) => json_record_of(data@) == Some(rec.model()),
            None => json_record_of(data@) is None,
        },
{
    let map: indexmap::IndexMap<String, Box<serde_json::value::RawValue>> =
        match serde_json::from_slice(data) {
            Ok(m) => m,
            Err(_) => return None,
        };
    let mut fields = Vec::new();
    for (k, v) in map {
        fields.push((k, v.get().as_bytes().to_vec()));
    }
    Some(RawRecord { fields })
}

/// Relies on serde_json: parses one JSON array, keeping each element as raw
/// text.
#[verifier::external_body]
pub fn parse_json_array(data: &[u8]) -> (r: Option<Vec<Vec<u8>>>)
    ensures
        match r {
            Some(items) => json_array_of(data@) == Some(items.deep_view()),
            None => json_array_of(data@) is None,
        },
{
    let items: Vec<Box<serde_json::value::RawValue>> = match serde_json::from_slice(data) {
        Ok(v) => v,
        Err(_) => return None,
    };
    Some(items.into_iter().map(|v| v.get().as_bytes().to_vec()).collect())
}

/// Relies on serde_json: decodes one JSON string payload to its content.
#[verifier::external_body]
pub fn json_unescape(data: &[u8]) -> (r: Option<Vec<u8>>)
    ensures
        match r {
            Some(v) => json_unescaped_of(data@) == Some(v@),
            None => json_unescaped_of(data@) is None,
        },
{
    let s: String = match serde_json::from_slice(data) {
        Ok(s) => s,
        Err(_) => return None,
    };
    Some(s.into_bytes())
}

/// Relies on chrono's `DateTime::parse_from_rfc3339`, `timestamp` and
/// `timestamp_subsec_nanos`: the instant depends on the text alone; the
/// subsecond part is below one second except during a leap second, when
/// chrono reports it below two seconds.
#[verifier::external_body]
pub fn parse_rfc3339(data: &[u8]) -> (r: Option<(i64, u32)>)
    ensures
        r == rfc3339_epoch_of(data@),
        r matches Some(t) ==> t.1 < 2000000000,
{
    let s = match core::str::from_utf8(data) {
        Ok(s) => s,
        Err(_) => return None,
    };
    let dt = match chrono::DateTime::parse_from_rfc3339(s) {
        Ok(dt) => dt,
        Err(_) => return None,
    };
    Some((dt.timestamp(), dt.timestamp_subsec_nanos()))
}

} // verus!

verus! {

// Timestamps.

/// Index of the first `.` in `s`, or `s.len()` when there is none.
pub open spec fn dot_pos(s: Seq<u8>) -> int
    decreases s.len(),
{
    if s.len() == 0 {
        0
    } else if s[0] == 46 {
        0
    } else {
        1 + dot_pos(s.drop_first())
    }
}

pub proof fn lemma_dot_pos(s: Seq<u8>)
    ensures
        0 <= dot_pos(s) <= s.len(),
        forall|i: int| 0 <= i < dot_pos(s) ==> s[i] != 46,
        dot_pos(s) < s.len() ==> s[dot_pos(s)] == 46,
    decreases s.len(),
{
    if s.len() > 0 && s[0] != 46 {
        lemma_dot_pos(s.drop_first());
        assert forall|i: int| 0 <= i < dot_pos(s) implies s[i] != 46 by {
            if i > 0 {
                assert(s.drop_first()[i - 1] != 46);
            }
        }
        if dot_pos(s) < s.len() {
            assert(s.drop_first()[dot_pos(s.drop_first())] == 46);
            assert(s[dot_pos(s)] == 46);
        }
    }
}

/// The nanoseconds denoted by a fraction-digit string: its first nine digits,
/// scaled up when there are fewer.
pub open spec fn frac_nanos(s: Seq<u8>) -> nat {
    if s.len() >= 9 {
        digits_val(s.take(9))
    } else {
        digits_val(s) * pow10((9 - s.len()) as nat)
    }
}

/// Magnitude dispatch for whole-number epoch timestamps: values at or above
/// 1e18 are nanoseconds, 1e15 microseconds, 1e12 milliseconds, else seconds.
pub open spec fn epoch_of_magnitude(n: nat) -> (int, nat) {
    if n >= 1000000000000000000 {
        ((n / 1000000000) as int, n % 1000000000)
    } else if n >= 1000000000000000 {
        ((n / 1000000) as int, (n % 1000000) * 1000)
    } else if n >= 1000000000000 {
        ((n / 1000) as int, (n % 1000) * 1000000)
    } else {
        (n as int, 0)
    }
}

/// The epoch instant denoted by a decimal timestamp: an optional sign, whole
/// digits, and an optional fraction. Whole numbers beyond `i64::MAX` and
/// malformed text denote nothing. A signed or fractional value is seconds;
/// an unsigned whole number goes through magnitude dispatch.
pub open spec fn numeric_ts_of(s: Seq<u8>) -> Option<(i64, u32)> {
    if s.len() == 0 {
        None
    } else {
        let neg = s[0] == 45;
        let body = if s[0] == 45 || s[0] == 43 {
            s.drop_first()
        } else {
            s
        };
        let p = dot_pos(body);
        let whole = body.take(p);
        let frac = if p < body.len() {
            body.skip(p + 1)
        } else {
            Seq::empty()
        };
        if whole.len() == 0 || !all_digits(whole) || !all_digits(frac) {
            None
        } else {
            let n = digits_val(whole);
            let f = frac_nanos(frac);
            if n > i64::MAX {
                None
            } else if neg {
                if f == 0 {
                    Some(((-(n as int)) as i64, 0))
                } else {
                    Some(((-(n as int) - 1) as i64, (1000000000 - f) as u32))
                }
            } else if p < body.len() {
                Some((n as i64, f as u32))
            } else {
                let (sec, nsec) = epoch_of_magnitude(n);
                Some((sec as i64, nsec as u32))
            }
        }
    }
}

/// The epoch instant denoted by a raw timestamp payload: a quoted payload is
/// RFC-3339 text, anything else is a decimal timestamp. A leap-second excess
/// in the subsecond part is clamped to stay below one second.
pub open spec fn ts_epoch_of(raw: Seq<u8>) -> Option<(i64, u32)> {
    if raw.len() >= 2 && raw[0] == 34 && raw.last() == 34 {
        match rfc3339_epoch_of(raw.subrange(1, raw.len() - 1)) {
            Some(t) => Some(
                (t.0, if t.1 >= 1000000000 {
                    999999999
                } else {
                    t.1
                }),
            ),
            None => None,
        }
    } else if raw.len() > 0 && raw[0] != 34 {
        numeric_ts_of(raw)
    } else {
        None
    }
}

/// A record timestamp in its raw textual form.
#[derive(Debug, Clone)]
pub struct Timestamp {
    pub raw: Vec<u8>,
}

impl Timestamp {
    pub fn new(raw: Vec<u8>) -> (r: Self)
        ensures
            r.raw == raw,
    {
        Timestamp { raw }
    }

    pub fn raw(&self) -> (r: &[u8])
        ensures
            r@ == self.raw@,
    {
        self.raw.as_slice()
    }

    /// The RFC-3339 text of a quoted timestamp payload.
    pub fn as_rfc3339(&self) -> (r: Option<&[u8]>)
        ensures
            match r {
                Some(s) => self.raw@.len() >= 2 && self.raw@[0] == 34 && self.raw@.last() == 34
                    && s@ == self.raw@.subrange(1, self.raw@.len() - 1),
                None => !(self.raw@.len() >= 2 && self.raw@[0] == 34 && self.raw@.last() == 34),
            },
    {
        let n = self.raw.len();
        if n >= 2 && self.raw[0] == 34 && self.raw[n - 1] == 34 {
            Some(vstd::slice::slice_subrange(self.raw.as_slice(), 1, n - 1))
        } else {
            None
        }
    }

    /// Parses the raw payload to whole seconds and subsecond nanoseconds.
    pub fn parse(&self) -> (r: Option<(i64, u32)>)
        ensures
            r == ts_epoch_of(self.raw@),
            r matches Some(t) ==> t.1 < 1000000000,
    {
        let n = self.raw.len();
        if n >= 2 && self.raw[0] == 34 && self.raw[n - 1] == 34 {
            let inner = vstd::slice::slice_subrange(self.raw.as_slice(), 1, n - 1);
            match parse_rfc3339(inner) {
                Some((sec, nsec)) => Some(
                    (sec, if nsec >= 1000000000 {
                        999999999
                    } else {
                        nsec
                    }),
                ),
                None => None,
            }
        } else if n > 0 && self.raw[0] != 34 {
            parse_numeric_ts(self.raw.as_slice())
        } else {
            None
        }
    }
}

/// Parses a decimal timestamp, dispatching whole numbers on magnitude.
pub fn parse_numeric_ts(s: &[u8]) -> (r: Option<(i64, u32)>)
    requires
        s@.len() > 0,
    ensures
        r == numeric_ts_of(s@),
        r matches Some(t) ==> t.1 < 1000000000,
{
    let n = s.len();
    let first = s[0];
    let neg = first == 45;
    let start: usize = if first == 45 || first == 43 {
        1
    } else {
        0
    };
    let ghost body = if first == 45 || first == 43 {
        s@.drop_first()
    } else {
        s@
    };
    proof {
        assert(body =~= s@.skip(start as int));
    }
    // scan the whole part
    let mut i = start;
    let mut acc: u64 = 0;
    let max: u64 = 9223372036854775807;
    while i < n && s[i] != 46
        invariant
            start <= i <= n,
            start <= 1,
            n == s@.len(),
            n > 0,
            (start == 1) == (s@[0] == 45 || s@[0] == 43),
            neg == (s@[0] == 45),
            max == 9223372036854775807,
            body == s@.skip(start as int),
            body == (if s@[0] == 45 || s@[0] == 43 {
                s@.drop_first()
            } else {
                s@
            }),

            forall|j: int| start <= j < i ==> s@[j] != 46,
            all_digits(s@.subrange(start as int, i as int)),
            acc == digits_val(s@.subrange(start as int, i as int)),
            acc <= max,
        decreases n - i,
    {
        let c = s[i];
        let ghost pre = s@.subrange(start as int, i as int);
        let ghost cur = s@.subrange(start as int, i + 1 as int);
        proof {
            assert(cur.drop_last() =~= pre);
        }
        if c < 48 || c > 57 {
            // not a digit: the whole part is malformed
            proof {
                lemma_dot_pos(body);
                assert(i - start < dot_pos(body)) by {
                    if dot_pos(body) <= i - start {
                        assert(body[dot_pos(body)] == 46);
                        assert(body[dot_pos(body)] == s@[dot_pos(body) + start]);
                    }
                }
                assert(body.take(dot_pos(body))[i - start] == s@[i as int]);
                assert(!all_digits(body.take(dot_pos(body))));
            }
            return None;
        }
        let d = (c - 48) as u64;
        if acc > (max - d) / 10 {
            // the whole part exceeds the supported range
            proof {
                assert(digits_val(cur) == acc * 10 + d);
                assert(digits_val(cur) > max) by (nonlinear_arith)
                    requires
                        acc > (max - d) / 10 && digits_val(cur) == acc * 10 + d && d <= 9 && max
                            == 9223372036854775807,
                ;
                lemma_dot_pos(body);
                assert(i + 1 - start <= dot_pos(body)) by {
                    if dot_pos(body) <= i - start {
                        assert(body[dot_pos(body)] == 46);
                        assert(body[dot_pos(body)] == s@[dot_pos(body) + start]);
                    }
                }
                assert(cur =~= body.take(dot_pos(body)).take(i + 1 - start));
                lemma_digits_val_extend(body.take(dot_pos(body)), i + 1 - start);
            }
            return None;
        }
        acc = acc * 10 + d;
        proof {
            assert(all_digits(cur));
        }
        i = i + 1;
    }
    let whole_end = i;
    proof {
        assert(dot_pos(body) == whole_end - start) by {
            if whole_end < n {
                assert(body[whole_end - start] == 46);
                lemma_dot_pos_exact(body, whole_end - start);
            } else {
                lemma_dot_pos_none(body);
            }
        }
        assert(body.take(dot_pos(body)) =~= s@.subrange(start as int, whole_end as int));
    }
    if whole_end == start {
        return None;
    }
    // scan the fraction
    let mut f: u64 = 0;
    let mut fdigits: usize = 0;
    let has_frac = whole_end < n;
    let mut j = if has_frac {
        whole_end + 1
    } else {
        whole_end
    };
    let ghost frac = if dot_pos(body) < body.len() {
        body.skip(dot_pos(body) + 1)
    } else {
        Seq::<u8>::empty()
    };
    proof {
        if has_frac {
            assert(frac =~= s@.subrange(whole_end + 1 as int, n as int));
        } else {
            assert(frac =~= Seq::<u8>::empty());
        }
        reveal_with_fuel(pow10, 10);
    }
    while j < n
        invariant
            whole_end < j <= n || (j == whole_end && whole_end == n),
            n == s@.len(),
            n > 0,
            start <= whole_end,
            start <= 1,
            (start == 1) == (s@[0] == 45 || s@[0] == 43),
            body == s@.skip(start as int),
            body == (if s@[0] == 45 || s@[0] == 43 {
                s@.drop_first()
            } else {
                s@
            }),
            dot_pos(body) == whole_end - start,
            body.take(dot_pos(body)) == s@.subrange(start as int, whole_end as int),
            all_digits(body.take(dot_pos(body))),
            body.take(dot_pos(body)).len() > 0,
            has_frac == (whole_end < n),
            frac == (if has_frac {
                s@.subrange(whole_end + 1 as int, n as int)
            } else {
                Seq::<u8>::empty()
            }),
            frac == (if dot_pos(body) < body.len() {
                body.skip(dot_pos(body) + 1)
            } else {
                Seq::<u8>::empty()
            }),
            fdigits == (if has_frac {
                j - whole_end - 1
            } else {
                0
            }),
            all_digits(frac.take(fdigits as int)),
            fdigits <= 9 ==> f == digits_val(frac.take(fdigits as int)),
            fdigits > 9 ==> f == digits_val(frac.take(9)),
            f <= 999999999,
        decreases n - j,
    {
        let c = s[j];
        if c < 48 || c > 57 {
            proof {
                assert(!is_digit(frac[(j - whole_end - 1) as int]));
            }
            return None;
        }
        let ghost fpre = frac.take(fdigits as int);
        let ghost fcur = frac.take(fdigits + 1 as int);
        proof {
            assert(fcur.drop_last() =~= fpre);
            assert(fcur.last() == frac[(j - whole_end - 1) as int]);
        }
        if fdigits < 9 {
            proof {
                lemma_digits_val_bound(fpre);
                lemma_pow10_mono(fpre.len() as nat, 8);
                reveal_with_fuel(pow10, 10);
            }
            f = f * 10 + ((c - 48) as u64);
            proof {
                assert(digits_val(fcur) == digits_val(fpre) * 10 + (c - 48));
                if fdigits + 1 == 9 {
                    assert(fcur =~= frac.take(9));
                }
            }
        } else {
            proof {
                assert(frac.take(9) =~= fcur.take(9));
            }
        }
        fdigits = fdigits + 1;
        j = j + 1;
    }
    proof {
        assert(frac.take(fdigits as int) =~= frac);
    }
    // scale the fraction to nanoseconds
    let nanos: u64 = if fdigits >= 9 {
        proof {
            if fdigits == 9 {
                assert(frac.take(9) =~= frac.take(fdigits as int));
            }
        }
        f
    } else {
        proof {
            assert(frac.take(fdigits as int) =~= frac);
            lemma_digits_val_bound(frac);
            lemma_pow10_mul_bound(frac.len() as nat);
            assert(digits_val(frac) * pow10((9 - frac.len()) as nat) < pow10(
                frac.len() as nat,
            ) * pow10((9 - frac.len()) as nat)) by (nonlinear_arith)
                requires
                    digits_val(frac) < pow10(frac.len() as nat) && pow10(
                        (9 - frac.len()) as nat,
                    ) > 0,
            ;
            assert(pow10((9 - frac.len()) as nat) > 0) by {
                lemma_pow10_pos((9 - frac.len()) as nat);
            }
        }
        let mut k = fdigits;
        let mut scaled = f;
        proof {
            assert(pow10(0) == 1);
            assert(digits_val(frac) * 1 == digits_val(frac)) by (nonlinear_arith);
        }
        while k < 9
            invariant
                fdigits <= k <= 9,
                fdigits < 9,
                fdigits == frac.len(),
                all_digits(frac),
                scaled == digits_val(frac) * pow10((k - fdigits) as nat),
                digits_val(frac) * pow10((9 - fdigits) as nat) < 1000000000,
            decreases 9 - k,
        {
            proof {
                lemma_pow10_step(digits_val(frac), (k - fdigits) as nat, (9 - fdigits) as nat);
            }
            scaled = scaled * 10;
            k = k + 1;
        }
        scaled
    };
    proof {
        assert(nanos == frac_nanos(frac));
        assert(nanos < 1000000000) by {
            lemma_frac_nanos_bound(frac);
        }
    }
    if neg {
        if nanos == 0 {
            Some((-(acc as i64), 0))
        } else {
            Some((-(acc as i64) - 1, 1000000000 - (nanos as u32)))
        }
    } else if has_frac {
        Some((acc as i64, nanos as u32))
    } else {
        if acc >= 1000000000000000000 {
            Some(((acc / 1000000000) as i64, (acc % 1000000000) as u32))
        } else if acc >= 1000000000000000 {
            Some(((acc / 1000000) as i64, ((acc % 1000000) * 1000) as u32))
        } else if acc >= 1000000000000 {
            Some(((acc / 1000) as i64, ((acc % 1000) * 1000000) as u32))
        } else {
            Some((acc as i64, 0))
        }
    }
}

proof fn lemma_pow10_pos(n: nat)
    ensures
        pow10(n) >= 1,
    decreases n,
{
    if n > 0 {
        lemma_pow10_pos((n - 1) as nat);
    }
}

proof fn lemma_pow10_mono(a: nat, b: nat)
    requires
        a <= b,
    ensures
        pow10(a) <= pow10(b),
    decreases b,
{
    if a < b {
        lemma_pow10_mono(a, (b - 1) as nat);
        lemma_pow10_pos((b - 1) as nat);
    }
}

proof fn lemma_dot_pos_exact(s: Seq<u8>, p: int)
    requires
        0 <= p < s.len(),
        s[p] == 46,
        forall|j: int| 0 <= j < p ==> s[j] != 46,
    ensures
        dot_pos(s) == p,
    decreases p,
{
    if p > 0 {
        lemma_dot_pos_exact(s.drop_first(), p - 1);
    }
}

proof fn lemma_dot_pos_none(s: Seq<u8>)
    requires
        forall|j: int| 0 <= j < s.len() ==> s[j] != 46,
    ensures
        dot_pos(s) == s.len(),
    decreases s.len(),
{
    if s.len() > 0 {
        lemma_dot_pos_none(s.drop_first());
    }
}

proof fn lemma_pow10_step(v: nat, k: nat, m: nat)
    requires
        k < m,
    ensures
        v * pow10(k) * 10 == v * pow10(k + 1),
        v * pow10(k + 1) <= v * pow10(m),
    decreases m - k,
{
    assert(pow10(k + 1) == 10 * pow10(k));
    assert(v * pow10(k) * 10 == v * (pow10(k) * 10)) by (nonlinear_arith);
    assert(pow10(k) * 10 == 10 * pow10(k));
    if k + 1 < m {
        lemma_pow10_step(v, k + 1, m);
        assert(v * pow10(k + 1) * 10 == v * pow10(k + 2));
        assert(v * pow10(k + 1) <= v * pow10(k + 1) * 10) by (nonlinear_arith)
            requires
                pow10(k + 1) >= 0 && v >= 0,
        ;
    }
}

proof fn lemma_frac_nanos_bound(s: Seq<u8>)
    requires
        all_digits(s),
    ensures
        frac_nanos(s) < 1000000000,
{
    if s.len() >= 9 {
        assert(all_digits(s.take(9))) by {
            assert(forall|i: int| 0 <= i < 9 ==> s.take(9)[i] == s[i]);
        }
        lemma_digits_val_bound(s.take(9));
        assert(pow10(9) == 1000000000) by {
            reveal_with_fuel(pow10, 10);
        }
    } else {
        lemma_digits_val_bound(s);
        lemma_pow10_mul_bound(s.len() as nat);
        assert(digits_val(s) * pow10((9 - s.len()) as nat) < pow10(s.len() as nat) * pow10(
            (9 - s.len()) as nat,
        )) by (nonlinear_arith)
            requires
                digits_val(s) < pow10(s.len() as nat) && pow10((9 - s.len()) as nat) >= 1,
        ;
        lemma_pow10_pos((9 - s.len()) as nat);
    }
}

/// A string of `n` digits is below `10^n`.
proof fn lemma_digits_val_bound(s: Seq<u8>)
    requires
        all_digits(s),
    ensures
        digits_val(s) < pow10(s.len() as nat),
    decreases s.len(),
{
    if s.len() > 0 {
        assert(all_digits(s.drop_last())) by {
            assert(forall|i: int| 0 <= i < s.len() - 1 ==> s.drop_last()[i] == s[i]);
        }
        lemma_digits_val_bound(s.drop_last());
        assert(digits_val(s) == digits_val(s.drop_last()) * 10 + (s.last() - 48));
        assert(digits_val(s.drop_last()) * 10 + 9 < pow10((s.len() - 1) as nat) * 10)
            by (nonlinear_arith)
            requires
                digits_val(s.drop_last()) < pow10((s.len() - 1) as nat),
        ;
        assert(pow10(s.len() as nat) == 10 * pow10((s.len() - 1) as nat));
        assert(pow10((s.len() - 1) as nat) * 10 == 10 * pow10((s.len() - 1) as nat));
    }
}

proof fn lemma_pow10_mul_bound(k: nat)
    requires
        k < 9,
    ensures
        pow10(k) * pow10((9 - k) as nat) == 1000000000,
    decreases k,
{
    if k == 0 {
        assert(pow10(9) == 1000000000) by {
            reveal_with_fuel(pow10, 10);
        }
    } else {
        lemma_pow10_mul_bound((k - 1) as nat);
        assert(pow10(k) == 10 * pow10((k - 1) as nat));
        assert((10 * pow10((k - 1) as nat)) * pow10((9 - k) as nat) == 10 * (pow10(
            (k - 1) as nat,
        ) * pow10((9 - k) as nat))) by (nonlinear_arith);
        assert(pow10((9 - k + 1) as nat) == 10 * pow10((9 - k) as nat));
        assert(pow10((k - 1) as nat) * pow10((10 - k) as nat) == 1000000000);
        assert(pow10((k - 1) as nat) * (10 * pow10((9 - k) as nat)) == 10 * (pow10(
            (k - 1) as nat,
        ) * pow10((9 - k) as nat))) by (nonlinear_arith);
    }
}

} // verus!

verus! {

// The typed record and its parser.

/// A raw JSON string payload with its quotes removed; anything else unchanged.
pub open spec fn unquoted(v: Seq<u8>) -> Seq<u8> {
    if v.len() >= 2 && v[0] == 34 && v.last() == 34 {
        v.subrange(1, v.len() - 1)
    } else {
        v
    }
}

/// A parsed log record: recognized slots plus the residue of other fields.
#[derive(Debug, Clone)]
pub struct Record {
    pub ts: Option<Timestamp>,
    pub level: Option<Level>,
    pub message: Option<Vec<u8>>,
    pub logger: Option<Vec<u8>>,
    pub caller: Option<Vec<u8>>,
    pub fields: Vec<(String, Vec<u8>)>,
}

/// The mathematical content of a record.
pub struct RecordModel {
    pub ts: Option<Seq<u8>>,
    pub level: Option<Level>,
    pub message: Option<Seq<u8>>,
    pub logger: Option<Seq<u8>>,
    pub caller: Option<Seq<u8>>,
    pub fields: Seq<(Seq<char>, Seq<u8>)>,
}

impl Record {
    pub open spec fn model(&self) -> RecordModel {
        RecordModel {
            ts: match self.ts {
                Some(ref t) => Some(t.raw@),
                None => None,
            },
            level: self.level,
            message: match self.message {
                Some(ref m) => Some(m@),
                None => None,
            },
            logger: match self.logger {
                Some(ref l) => Some(l@),
                None => None,
            },
            caller: match self.caller {
                Some(ref c) => Some(c@),
                None => None,
            },
            fields: Seq::new(self.fields@.len(), |i: int| (self.fields@[i].0@, self.fields@[i].1@)),
        }
    }

    pub fn ts(&self) -> (r: Option<&Timestamp>)
        ensures
            match r {
                Some(t) => self.ts matches Some(t2) && t == &t2,
                None => self.ts is None,
            },
    {
        self.ts.as_ref()
    }

    /// Whether the record passes the level filter: a record without a
    /// recognized level always passes.
    pub fn matches(&self, filter: &Filter) -> (r: bool)
        ensures
            r == record_matches(self.model(), filter.level),
    {
        match filter.level {
            None => true,
            Some(min) => match self.level {
                None => true,
                Some(l) => l.index() >= min.index(),
            },
        }
    }
}

/// A record filter; only the level bound is interpreted here.
#[derive(Debug, Clone)]
pub struct Filter {
    pub level: Option<Level>,
}

impl Filter {
    pub fn new(level: Option<Level>) -> (r: Self)
        ensures
            r.level == level,
    {
        Filter { level }
    }

    pub fn is_empty(&self) -> (r: bool)
        ensures
            r == (self.level is None),
    {
        self.level.is_none()
    }
}

pub open spec fn record_matches(m: RecordModel, min: Option<Level>) -> bool {
    match min {
        None => true,
        Some(l) => match m.level {
            None => true,
            Some(rl) => rl.index_spec() >= l.index_spec(),
        },
    }
}

// Settings models.

pub struct VariantModel {
    pub names: Seq<Seq<char>>,
    pub values: Seq<(Level, Seq<Seq<u8>>)>,
}

pub struct SettingsModel {
    pub time: Seq<Seq<char>>,
    pub variants: Seq<VariantModel>,
    pub message: Seq<Seq<char>>,
    pub logger: Seq<Seq<char>>,
    pub caller: Seq<Seq<char>>,
    pub ignore: Seq<Seq<char>>,
}

pub open spec fn strings_model(s: Seq<String>) -> Seq<Seq<char>> {
    s.map_values(|x: String| x@)
}

pub open spec fn spellings_model(s: Seq<String>) -> Seq<Seq<u8>> {
    s.map_values(|x: String| vstd::utf8::encode_utf8(x@))
}

impl crate::settings::LevelFieldVariant {
    pub open spec fn model(&self) -> VariantModel {
        VariantModel {
            names: strings_model(self.names@),
            values: Seq::new(
                self.values@.len(),
                |i: int| (self.values@[i].0, spellings_model(self.values@[i].1@)),
            ),
        }
    }
}

/// The parser's configuration, reduced to plain name lists.
#[derive(Debug, Clone)]
pub struct ParserSettings {
    pub time: Vec<String>,
    pub variants: Vec<crate::settings::LevelFieldVariant>,
    pub message: Vec<String>,
    pub logger: Vec<String>,
    pub caller: Vec<String>,
    pub ignore: Vec<String>,
    pub need_unix_timestamp: bool,
}

impl ParserSettings {
    pub open spec fn model(&self) -> SettingsModel {
        SettingsModel {
            time: strings_model(self.time@),
            variants: Seq::new(self.variants@.len(), |i: int| self.variants@[i].model()),
            message: strings_model(self.message@),
            logger: strings_model(self.logger@),
            caller: strings_model(self.caller@),
            ignore: strings_model(self.ignore@),
        }
    }

    /// Draws the parser's name lists from the field settings.
    pub fn new(fields: crate::settings::Fields, need_unix_timestamp: bool) -> (r: Self)
        ensures
            r.time == fields.predefined.time.0.names,
            r.variants == fields.predefined.level.variants,
            r.message == fields.predefined.message.0.names,
            r.logger == fields.predefined.logger.0.names,
            r.caller == fields.predefined.caller.0.names,
            r.ignore == fields.ignore,
            r.need_unix_timestamp == need_unix_timestamp,
    {
        ParserSettings {
            time: fields.predefined.time.0.names,
            variants: fields.predefined.level.variants,
            message: fields.predefined.message.0.names,
            logger: fields.predefined.logger.0.names,
            caller: fields.predefined.caller.0.names,
            ignore: fields.ignore,
            need_unix_timestamp,
        }
    }
}

// Matching.

pub open spec fn name_in(names: Seq<Seq<char>>, key: Seq<char>) -> bool {
    exists|i: int| 0 <= i < names.len() && names[i] == key
}

pub open spec fn spelling_match(spellings: Seq<Seq<u8>>, v: Seq<u8>) -> bool {
    exists|i: int| 0 <= i < spellings.len() && lower_bytes(spellings[i]) == lower_bytes(v)
}

/// The first level whose spellings contain the value, case-folded.
pub open spec fn spell_level(values: Seq<(Level, Seq<Seq<u8>>)>, v: Seq<u8>) -> Option<Level>
    decreases values.len(),
{
    if values.len() == 0 {
        None
    } else if spelling_match(values[0].1, v) {
        Some(values[0].0)
    } else {
        spell_level(values.drop_first(), v)
    }
}

/// The first level-field variant whose names contain the key.
pub open spec fn variant_for(variants: Seq<VariantModel>, key: Seq<char>) -> Option<VariantModel>
    decreases variants.len(),
{
    if variants.len() == 0 {
        None
    } else if name_in(variants[0].names, key) {
        Some(variants[0])
    } else {
        variant_for(variants.drop_first(), key)
    }
}

fn key_in(names: &Vec<String>, key: &String) -> (r: bool)
    ensures
        r == name_in(strings_model(names@), key@),
{
    let n = names.len();
    let mut i: usize = 0;
    while i < n
        invariant
            i <= n,
            n == names@.len(),
            forall|j: int| 0 <= j < i ==> strings_model(names@)[j] != key@,
        decreases n - i,
    {
        if names[i] == *key {
            assert(strings_model(names@)[i as int] == key@);
            return true;
        }
        i = i + 1;
    }
    false
}

fn unquote(v: &[u8]) -> (r: &[u8])
    ensures
        r@ == unquoted(v@),
{
    let n = v.len();
    if n >= 2 && v[0] == 34 && v[n - 1] == 34 {
        vstd::slice::slice_subrange(v, 1, n - 1)
    } else {
        v
    }
}

fn match_spelling(spellings: &Vec<String>, v: &[u8]) -> (r: bool)
    ensures
        r == spelling_match(spellings_model(spellings@), v@),
{
    let n = spellings.len();
    let mut i: usize = 0;
    while i < n
        invariant
            i <= n,
            n == spellings@.len(),
            forall|j: int|
                0 <= j < i ==> lower_bytes(spellings_model(spellings@)[j]) != lower_bytes(v@),
        decreases n - i,
    {
        if bytes_eq_ignore_case(spellings[i].as_str().as_bytes(), v) {
            assert(spellings_model(spellings@)[i as int] == vstd::utf8::encode_utf8(
                spellings@[i as int]@,
            ));
            return true;
        }
        i = i + 1;
    }
    false
}

fn match_variant_level(values: &Vec<(Level, Vec<String>)>, v: &[u8]) -> (r: Option<Level>)
    ensures
        r == spell_level(
            Seq::new(values@.len(), |i: int| (values@[i].0, spellings_model(values@[i].1@))),
            v@,
        ),
{
    let ghost m = Seq::new(
        values@.len(),
        |i: int| (values@[i].0, spellings_model(values@[i].1@)),
    );
    let n = values.len();
    let mut i: usize = 0;
    proof {
        assert(m.skip(0) =~= m);
    }
    while i < n
        invariant
            i <= n,
            n == values@.len(),
            m == Seq::new(
                values@.len(),
                |k: int| (values@[k].0, spellings_model(values@[k].1@)),
            ),
            spell_level(m, v@) == spell_level(m.skip(i as int), v@),
            forall|j: int| 0 <= j < i ==> !spelling_match(m[j].1, v@),
        decreases n - i,
    {
        if match_spelling(&values[i].1, v) {
            proof {
                assert(m.skip(i as int)[0] == m[i as int]);
            }
            return Some(values[i].0);
        }
        proof {
            assert(m.skip(i as int)[0] == m[i as int]);
            assert(m.skip(i as int).drop_first() =~= m.skip(i + 1));
        }
        i = i + 1;
    }
    proof {
        assert(m.skip(n as int).len() == 0);
    }
    None
}

} // verus!

verus! {

pub open spec fn empty_record_model() -> RecordModel {
    RecordModel {
        ts: None,
        level: None,
        message: None,
        logger: None,
        caller: None,
        fields: Seq::empty(),
    }
}

/// What one raw field does to the record under construction: the first
/// unfilled slot whose name list holds the key takes the value; a key naming
/// a level variant is consumed even when no spelling matches; ignored keys
/// vanish; everything else joins the residue in order.
pub open spec fn parse_step(
    s: SettingsModel,
    acc: RecordModel,
    key: Seq<char>,
    value: Seq<u8>,
) -> RecordModel {
    if acc.ts is None && name_in(s.time, key) {
        RecordModel {
            ts: Some(value),
            level: acc.level,
            message: acc.message,
            logger: acc.logger,
            caller: acc.caller,
            fields: acc.fields,
        }
    } else if acc.level is None && variant_for(s.variants, key) is Some {
        RecordModel {
            ts: acc.ts,
            level: spell_level(variant_for(s.variants, key)->Some_0.values, unquoted(value)),
            message: acc.message,
            logger: acc.logger,
            caller: acc.caller,
            fields: acc.fields,
        }
    } else if acc.message is None && name_in(s.message, key) {
        RecordModel {
            ts: acc.ts,
            level: acc.level,
            message: Some(value),
            logger: acc.logger,
            caller: acc.caller,
            fields: acc.fields,
        }
    } else if acc.logger is None && name_in(s.logger, key) {
        RecordModel {
            ts: acc.ts,
            level: acc.level,
            message: acc.message,
            logger: Some(unquoted(value)),
            caller: acc.caller,
            fields: acc.fields,
        }
    } else if acc.caller is None && name_in(s.caller, key) {
        RecordModel {
            ts: acc.ts,
            level: acc.level,
            message: acc.message,
            logger: acc.logger,
            caller: Some(unquoted(value)),
            fields: acc.fields,
        }
    } else if name_in(s.ignore, key) {
        acc
    } else {
        RecordModel {
            ts: acc.ts,
            level: acc.level,
            message: acc.message,
            logger: acc.logger,
            caller: acc.caller,
            fields: acc.fields.push((key, value)),
        }
    }
}

/// The record that a raw field sequence parses to, fields applied in order.
pub open spec fn parse_fields(s: SettingsModel, fields: Seq<(Seq<char>, Seq<u8>)>) -> RecordModel
    decreases fields.len(),
{
    if fields.len() == 0 {
        empty_record_model()
    } else {
        parse_step(s, parse_fields(s, fields.drop_last()), fields.last().0, fields.last().1)
    }
}

fn find_variant<'a>(variants: &'a Vec<crate::settings::LevelFieldVariant>, key: &String) -> (r:
    Option<&'a crate::settings::LevelFieldVariant>)
    ensures
        match r {
            Some(v) => variant_for(
                Seq::new(variants@.len(), |i: int| variants@[i].model()),
                key@,
            ) == Some(v.model()),
            None => variant_for(
                Seq::new(variants@.len(), |i: int| variants@[i].model()),
                key@,
            ) is None,
        },
{
    let ghost m = Seq::new(variants@.len(), |i: int| variants@[i].model());
    let n = variants.len();
    let mut i: usize = 0;
    proof {
        assert(m.skip(0) =~= m);
    }
    while i < n
        invariant
            i <= n,
            n == variants@.len(),
            m == Seq::new(variants@.len(), |k: int| variants@[k].model()),
            variant_for(m, key@) == variant_for(m.skip(i as int), key@),
        decreases n - i,
    {
        if key_in(&variants[i].names, key) {
            proof {
                assert(m.skip(i as int)[0] == m[i as int]);
            }
            return Some(&variants[i]);
        }
        proof {
            assert(m.skip(i as int)[0] == m[i as int]);
            assert(m.skip(i as int).drop_first() =~= m.skip(i + 1));
        }
        i = i + 1;
    }
    proof {
        assert(m.skip(n as int).len() == 0);
    }
    None
}

/// Projects raw records onto typed records, as the settings direct.
#[derive(Debug, Clone)]
pub struct Parser {
    pub settings: ParserSettings,
}

impl Parser {
    pub fn new(settings: ParserSettings) -> (r: Self)
        ensures
            r.settings == settings,
    {
        Parser { settings }
    }

    /// Projects one raw record onto a typed record.
    pub fn parse(&self, rec: RawRecord) -> (r: Record)
        ensures
            r.model() == parse_fields(self.settings.model(), rec.model()),
    {
        let ghost all = rec.model();
        let ghost sm = self.settings.model();
        let mut fields = rec.fields;
        let mut out = Record {
            ts: None,
            level: None,
            message: None,
            logger: None,
            caller: None,
            fields: Vec::new(),
        };
        proof {
            assert(all.take(0) =~= Seq::<(Seq<char>, Seq<u8>)>::empty());
            assert(out.model().fields =~= Seq::<(Seq<char>, Seq<u8>)>::empty());
        }
        while fields.len() > 0
            invariant
                fields@.len() <= all.len(),
                sm == self.settings.model(),
                Seq::new(fields@.len(), |k: int| (fields@[k].0@, fields@[k].1@)) == all.skip(
                    all.len() - fields@.len(),
                ),
                out.model() == parse_fields(sm, all.take(all.len() - fields@.len())),
            decreases fields@.len(),
        {
            let ghost i = all.len() - fields@.len();
            let ghost pre = out.model();
            let ghost f0 = fields@;
            let (key, value) = fields.remove(0);
            proof {
                let g0 = Seq::new(f0.len(), |k: int| (f0[k].0@, f0[k].1@));
                assert(g0 == all.skip(i));
                assert((key@, value@) == g0[0]);
                assert(all.skip(i)[0] == all[i]);
                assert((key@, value@) == all[i]);
                assert(Seq::new(fields@.len(), |k: int| (fields@[k].0@, fields@[k].1@))
                    =~= g0.drop_first());
                assert(g0.drop_first() =~= all.skip(i + 1));
            }
            if out.ts.is_none() && key_in(&self.settings.time, &key) {
                out.ts = Some(Timestamp::new(value));
            } else {
                let is_level = out.level.is_none();
                let variant = if is_level {
                    find_variant(&self.settings.variants, &key)
                } else {
                    None
                };
                match variant {
                    Some(v) => {
                        out.level = match_variant_level(&v.values, unquote(value.as_slice()));
                    },
                    None => {
                        if out.message.is_none() && key_in(&self.settings.message, &key) {
                            out.message = Some(value);
                        } else if out.logger.is_none() && key_in(&self.settings.logger, &key) {
                            out.logger = Some(vstd::slice::slice_to_vec(unquote(value.as_slice())));
                        } else if out.caller.is_none() && key_in(&self.settings.caller, &key) {
                            out.caller = Some(vstd::slice::slice_to_vec(unquote(value.as_slice())));
                        } else if key_in(&self.settings.ignore, &key) {
                        } else {
                            out.fields.push((key, value));
                        }
                    },
                }
            }
            proof {
                assert(all.take(i + 1).drop_last() =~= all.take(i));
                assert(all.take(i + 1).last() == all[i]);
                assert(out.model().fields =~= parse_step(sm, pre, key@, value@).fields);
                assert(out.model() == parse_step(sm, pre, key@, value@));
            }
        }
        proof {
            assert(all.take(all.len() as int) =~= all);
        }
        out
    }
}

} // verus!
