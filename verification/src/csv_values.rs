//! Reading CSV fields as values of their column's type: integers,
//! booleans, dates, timestamps, intervals, blobs, and list, struct and map
//! literals.

use crate::csv_reader::{
    blob_bytes, naive_date_to_epoch_days, epoch_days, parse_blob, quoted_fields,
    split_csv_respecting_quotes, split_top_level, string_views, top_level_fields, CsvReaderError,
};
use crate::npy_reader::{all_digits, digits_value, find_chars, find_from, is_digit, starts_with, sub_chars, same_chars};
use crate::text::{chars_of, eq_ascii_case, eq_ignore_ascii_case, string_from, trim, trim_bounds, is_white_space};
use crate::value_codec::{vview, Value, ValueView};
use vstd::prelude::*;

verus! {

// ------------------------------------------------------------------
// Integer text
// ------------------------------------------------------------------

/// The number decimal digits `d` write, if `d` is one or more digits.
pub open spec fn digits_number(d: Seq<char>) -> Option<int> {
    if d.len() > 0 && all_digits(d) {
        Some(digits_value(d) as int)
    } else {
        None
    }
}

/// The integer `s` writes as `str::parse` reads integers: an optional
/// sign (`-` only for signed types), then one or more decimal digits.
pub open spec fn int_text(s: Seq<char>, signed: bool) -> Option<int> {
    if s.len() == 0 {
        None
    } else if (s[0] == '+' || s[0] == '-') && s.len() == 1 {
        None
    } else if s[0] == '+' {
        digits_number(s.drop_first())
    } else if s[0] == '-' && signed {
        match digits_number(s.drop_first()) {
            Some(v) => Some(-v),
            None => None,
        }
    } else {
        digits_number(s)
    }
}

/// What `str::parse` gives for an integer type of range `[min, max]`.
pub open spec fn parse_int(s: Seq<char>, signed: bool, min: int, max: int) -> Option<int> {
    match int_text(s, signed) {
        Some(v) => if min <= v <= max {
            Some(v)
        } else {
            None
        },
        None => None,
    }
}

/// Magnitudes beyond this are out of the range of every integer type.
pub const MAGNITUDE_CAP: u128 = 0x2_0000_0000_0000_0000;

fn digits_in(s: &[char], lo: usize, hi: usize) -> (r: Option<u128>)
    requires
        lo <= hi <= s@.len(),
    ensures
        ({
            let d = s@.subrange(lo as int, hi as int);
            match r {
                Some(v) => digits_number(d) is Some && (v <= MAGNITUDE_CAP ==> v == digits_number(d)->0)
                    && (v > MAGNITUDE_CAP ==> digits_number(d)->0 > MAGNITUDE_CAP),
                None => digits_number(d) is None,
            }
        }),
{
    let ghost d = s@.subrange(lo as int, hi as int);
    if lo == hi {
        return None;
    }
    let mut acc: u128 = 0;
    let mut k = lo;
    while k < hi
        invariant
            lo <= k <= hi <= s@.len(),
            d == s@.subrange(lo as int, hi as int),
            forall|i: int| lo <= i < k ==> is_digit(#[trigger] s@[i]),
            acc <= MAGNITUDE_CAP + 1,
            acc <= MAGNITUDE_CAP ==> acc == digits_value(s@.subrange(lo as int, k as int)),
            acc > MAGNITUDE_CAP ==> digits_value(s@.subrange(lo as int, k as int)) > MAGNITUDE_CAP,
        decreases hi - k,
    {
        let c = s[k];
        if c < '0' || c > '9' {
            proof {
                assert(d[k - lo] == c);
                assert(!is_digit(d[k - lo]));
            }
            return None;
        }
        let x = ((c as u32) - 48) as u128;
        proof {
            let q = s@.subrange(lo as int, k + 1);
            assert(q.drop_last() =~= s@.subrange(lo as int, k as int));
            assert(q.last() == c);
        }
        if acc <= MAGNITUDE_CAP {
            let next = acc * 10 + x;
            acc = if next > MAGNITUDE_CAP {
                MAGNITUDE_CAP + 1
            } else {
                next
            };
        }
        k = k + 1;
    }
    proof {
        assert(s@.subrange(lo as int, k as int) =~= d);
        assert forall|i: int| 0 <= i < d.len() implies is_digit(#[trigger] d[i]) by {
            assert(d[i] == s@[lo + i]);
        }
    }
    Some(acc)
}

/// `s[lo..hi]` read as an integer of range `[min, max]`, as `str::parse`
/// reads it.
pub fn parse_int_in(s: &[char], lo: usize, hi: usize, signed: bool, min: i128, max: i128) -> (r:
    Option<i128>)
    requires
        lo <= hi <= s@.len(),
        -MAGNITUDE_CAP <= min,
        max <= MAGNITUDE_CAP,
    ensures
        r == (match parse_int(s@.subrange(lo as int, hi as int), signed, min as int, max as int) {
            Some(v) => Some(v as i128),
            None => None::<i128>,
        }),
{
    let ghost t = s@.subrange(lo as int, hi as int);
    if lo == hi {
        return None;
    }
    let first = s[lo];
    if (first == '+' || first == '-') && hi - lo == 1 {
        return None;
    }
    let negative = first == '-' && signed;
    let start = if first == '+' || negative {
        lo + 1
    } else {
        lo
    };
    proof {
        if start == lo + 1 {
            assert(t.drop_first() =~= s@.subrange(start as int, hi as int));
        } else {
            assert(t =~= s@.subrange(start as int, hi as int));
        }
    }
    let mag = match digits_in(s, start, hi) {
        Some(m) => m,
        None => {
            return None;
        },
    };
    if mag > MAGNITUDE_CAP {
        return None;
    }
    let v: i128 = if negative {
        -(mag as i128)
    } else {
        mag as i128
    };
    if v < min || v > max {
        return None;
    }
    Some(v)
}

// ------------------------------------------------------------------
// Splitting on a character
// ------------------------------------------------------------------

/// The pieces of `s` between occurrences of `c`, from the piece that starts
/// at `start`, scanning from `k` (as `str::split` with a character).
pub open spec fn split_from(s: Seq<char>, c: char, start: int, k: int) -> Seq<Seq<char>>
    decreases s.len() - k,
{
    if k < 0 || k >= s.len() {
        seq![s.subrange(start, s.len() as int)]
    } else if s[k] == c {
        seq![s.subrange(start, k)] + split_from(s, c, k + 1, k + 1)
    } else {
        split_from(s, c, start, k + 1)
    }
}

/// The pieces of `s` between occurrences of `c`.
pub open spec fn split_on(s: Seq<char>, c: char) -> Seq<Seq<char>> {
    split_from(s, c, 0, 0)
}

/// The views of a sequence of character vectors.
pub open spec fn char_views(v: Seq<Vec<char>>) -> Seq<Seq<char>> {
    v.map_values(|x: Vec<char>| x@)
}

/// The pieces of `s` between occurrences of `c`.
pub fn split_char(s: &[char], c: char) -> (r: Vec<Vec<char>>)
    ensures
        char_views(r@) == split_on(s@, c),
{
    let mut out: Vec<Vec<char>> = Vec::new();
    let mut start: usize = 0;
    let mut k: usize = 0;
    while k < s.len()
        invariant
            start <= k <= s@.len(),
            char_views(out@) + split_from(s@, c, start as int, k as int) == split_on(s@, c),
        decreases s@.len() - k,
    {
        if s[k] == c {
            let piece = sub_chars(s, start, k);
            let ghost before = out@;
            out.push(piece);
            proof {
                assert(char_views(out@) =~= char_views(before).push(piece@));
                assert(char_views(before) + (seq![s@.subrange(start as int, k as int)] + split_from(
                    s@,
                    c,
                    k + 1,
                    k + 1,
                )) =~= char_views(out@) + split_from(s@, c, k + 1, k + 1));
            }
            start = k + 1;
        }
        k = k + 1;
    }
    let piece = sub_chars(s, start, k);
    let ghost before = out@;
    out.push(piece);
    proof {
        assert(char_views(out@) =~= char_views(before).push(piece@));
        assert(char_views(out@) =~= split_on(s@, c));
    }
    out
}

// ------------------------------------------------------------------
// Lower case
// ------------------------------------------------------------------

/// The lower case of a text, as `str::to_lowercase` makes it.
pub uninterp spec fn lowercase(s: Seq<char>) -> Seq<char>;

/// `str::to_lowercase` (std): the text in lower case (Unicode lower-case
/// mapping); its result is named, not stated.
#[verifier::external_body]
fn to_lowercase(s: &str) -> (r: String)
    ensures
        r@ == lowercase(s@),
{
    s.to_lowercase()
}

// ------------------------------------------------------------------
// Coercion errors
// ------------------------------------------------------------------

/// Whether `e` is the coercion error with these parts.
pub open spec fn is_coercion_error(
    e: CsvReaderError,
    value: Seq<char>,
    line: usize,
    column: usize,
    column_name: Seq<char>,
    expected_type: Seq<char>,
    message: Seq<char>,
) -> bool {
    match e {
        CsvReaderError::TypeCoercion {
            line: l,
            column: c,
            column_name: n,
            value: v,
            expected_type: t,
            message: m,
        } => l == line && c == column && n@ == column_name && v@ == value && t@ == expected_type
            && m@ == message,
        _ => false,
    }
}

/// The error of a field that cannot be read as its type.
pub fn coercion_err(
    value: &str,
    line: usize,
    column: usize,
    column_name: &str,
    expected_type: &str,
    message: &str,
) -> (e: CsvReaderError)
    ensures
        is_coercion_error(e, value@, line, column, column_name@, expected_type@, message@),
{
    CsvReaderError::TypeCoercion {
        line,
        column,
        column_name: column_name.to_owned(),
        value: value.to_owned(),
        expected_type: expected_type.to_owned(),
        message: message.to_owned(),
    }
}

// ------------------------------------------------------------------
// Booleans and integers
// ------------------------------------------------------------------

/// The boolean a lower-case text names.
pub open spec fn bool_text(l: Seq<char>) -> Option<bool> {
    if l == "true"@ || l == "1"@ || l == "yes"@ || l == "t"@ {
        Some(true)
    } else if l == "false"@ || l == "0"@ || l == "no"@ || l == "f"@ {
        Some(false)
    } else {
        None
    }
}

/// A field read as a boolean: its lower case must be one of
/// true/1/yes/t or false/0/no/f; refused with the lower-cased text.
pub fn coerce_bool(s: &str, line: usize, column: usize, column_name: &str) -> (r: Result<
    Value,
    CsvReaderError,
>)
    ensures
        match bool_text(lowercase(s@)) {
            Some(b) => r is Ok && vview(r->Ok_0) == ValueView::Bool(b),
            None => r is Err && is_coercion_error(
                r->Err_0,
                lowercase(s@),
                line,
                column,
                column_name@,
                "BOOL"@,
                "expected true/false, 1/0, yes/no, or t/f"@,
            ),
        },
{
    let l = to_lowercase(s);
    let lc = chars_of(l.as_str());
    if same_chars(&lc, "true") || same_chars(&lc, "1") || same_chars(&lc, "yes") || same_chars(
        &lc,
        "t",
    ) {
        Ok(Value::Bool(true))
    } else if same_chars(&lc, "false") || same_chars(&lc, "0") || same_chars(&lc, "no")
        || same_chars(&lc, "f") {
        Ok(Value::Bool(false))
    } else {
        Err(
            coercion_err(
                l.as_str(),
                line,
                column,
                column_name,
                "BOOL",
                "expected true/false, 1/0, yes/no, or t/f",
            ),
        )
    }
}

/// The message of a number that does not parse.
pub open spec fn cannot_parse_message(s: Seq<char>, type_label: Seq<char>) -> Seq<char> {
    "cannot parse '"@ + s + "' as "@ + type_label
}

/// A field read as an integer of range `[min, max]` named `type_label`.
pub fn coerce_parse(
    s: &str,
    line: usize,
    column: usize,
    column_name: &str,
    type_label: &str,
    signed: bool,
    min: i128,
    max: i128,
) -> (r: Result<i128, CsvReaderError>)
    requires
        -MAGNITUDE_CAP <= min,
        max <= MAGNITUDE_CAP,
    ensures
        match parse_int(s@, signed, min as int, max as int) {
            Some(v) => r == Ok::<i128, CsvReaderError>(v as i128),
            None => r is Err && is_coercion_error(
                r->Err_0,
                s@,
                line,
                column,
                column_name@,
                type_label@,
                cannot_parse_message(s@, type_label@),
            ),
        },
{
    let cs = chars_of(s);
    proof {
        assert(cs@.subrange(0, cs@.len() as int) =~= cs@);
    }
    match parse_int_in(&cs, 0, cs.len(), signed, min, max) {
        Some(v) => Ok(v),
        None => {
            let mut message = String::new();
            crate::text::push_str(&mut message, "cannot parse '");
            crate::text::push_str(&mut message, s);
            crate::text::push_str(&mut message, "' as ");
            crate::text::push_str(&mut message, type_label);
            proof {
                reveal_strlit("cannot parse '");
                reveal_strlit("' as ");
                assert(message@ =~= cannot_parse_message(s@, type_label@));
            }
            Err(coercion_err(s, line, column, column_name, type_label, message.as_str()))
        },
    }
}

// ------------------------------------------------------------------
// Dates
// ------------------------------------------------------------------

/// Whether a year, month and day form a calendar date.
pub open spec fn month_day_ok(y: int, m: int, d: int) -> bool {
    crate::csv_reader::valid_date(y, m, d)
}

/// The days since the epoch that a `YYYY-MM-DD` text names, or the reason
/// it names none.
pub open spec fn date_days(s: Seq<char>) -> Result<i32, Seq<char>> {
    let parts = split_on(s, '-');
    if parts.len() != 3 {
        Err("expected YYYY-MM-DD format"@)
    } else {
        match parse_int(parts[0], true, i32::MIN as int, i32::MAX as int) {
            None => Err("invalid year"@),
            Some(y) => match parse_int(parts[1], false, 0, u32::MAX as int) {
                None => Err("invalid month"@),
                Some(m) => match parse_int(parts[2], false, 0, u32::MAX as int) {
                    None => Err("invalid day"@),
                    Some(d) => if month_day_ok(y, m, d) {
                        Ok(epoch_days(y, m, d) as i32)
                    } else {
                        Err("invalid calendar date"@)
                    },
                },
            },
        }
    }
}

/// A field read as a date `YYYY-MM-DD` (days since 1970-01-01).
pub fn coerce_date(s: &str, line: usize, column: usize, column_name: &str) -> (r: Result<
    Value,
    CsvReaderError,
>)
    ensures
        match date_days(s@) {
            Ok(d) => r is Ok && vview(r->Ok_0) == ValueView::Date(d),
            Err(m) => r is Err && is_coercion_error(
                r->Err_0,
                s@,
                line,
                column,
                column_name@,
                "DATE"@,
                m,
            ),
        },
{
    let cs = chars_of(s);
    let parts = split_char(&cs, '-');
    proof {
        assert(char_views(parts@).len() == parts@.len());
    }
    if parts.len() != 3 {
        return Err(coercion_err(s, line, column, column_name, "DATE", "expected YYYY-MM-DD format"));
    }
    proof {
        assert(char_views(parts@)[0] == parts@[0]@);
        assert(char_views(parts@)[1] == parts@[1]@);
        assert(char_views(parts@)[2] == parts@[2]@);
        assert(parts@[0]@.subrange(0, parts@[0]@.len() as int) =~= parts@[0]@);
        assert(parts@[1]@.subrange(0, parts@[1]@.len() as int) =~= parts@[1]@);
        assert(parts@[2]@.subrange(0, parts@[2]@.len() as int) =~= parts@[2]@);
    }
    let year = match parse_int_in(&parts[0], 0, parts[0].len(), true, i32::MIN as i128, i32::MAX as i128) {
        Some(v) => v as i32,
        None => {
            return Err(coercion_err(s, line, column, column_name, "DATE", "invalid year"));
        },
    };
    let month = match parse_int_in(&parts[1], 0, parts[1].len(), false, 0, u32::MAX as i128) {
        Some(v) => v as u32,
        None => {
            return Err(coercion_err(s, line, column, column_name, "DATE", "invalid month"));
        },
    };
    let day = match parse_int_in(&parts[2], 0, parts[2].len(), false, 0, u32::MAX as i128) {
        Some(v) => v as u32,
        None => {
            return Err(coercion_err(s, line, column, column_name, "DATE", "invalid day"));
        },
    };
    match naive_date_to_epoch_days(year, month, day) {
        Some(days) => Ok(Value::Date(days)),
        None => Err(coercion_err(s, line, column, column_name, "DATE", "invalid calendar date")),
    }
}

// ------------------------------------------------------------------
// Timestamps
// ------------------------------------------------------------------

/// The date and time parts of a timestamp text: split at its first space,
/// or the whole text and midnight.
pub open spec fn ts_parts(s: Seq<char>) -> (Seq<char>, Seq<char>) {
    let t = trim(s);
    match find_from(t, seq![' '], 0) {
        Some(i) => (t.subrange(0, i), t.subrange(i + 1, t.len() as int)),
        None => (t, "00:00:00"@),
    }
}

/// The days since the epoch of a `YYYY-MM-DD` text.
pub open spec fn date_of(dp: Seq<char>) -> Option<i32> {
    let parts = split_on(dp, '-');
    if parts.len() != 3 {
        None
    } else {
        match (
            parse_int(parts[0], true, i32::MIN as int, i32::MAX as int),
            parse_int(parts[1], false, 0, u32::MAX as int),
            parse_int(parts[2], false, 0, u32::MAX as int),
        ) {
            (Some(y), Some(m), Some(d)) => if month_day_ok(y, m, d) {
                Some(epoch_days(y, m, d) as i32)
            } else {
                None
            },
            _ => None,
        }
    }
}

/// Whether the first six characters of a fraction (or all, if fewer) are
/// digits.
pub open spec fn frac_digits_ok(f: Seq<char>) -> bool {
    forall|i: int| 0 <= i < f.len() && i < 6 ==> is_digit(#[trigger] f[i])
}

/// A fraction of a second cut or padded with zeros to six digits.
pub open spec fn padded6(f: Seq<char>) -> Seq<char> {
    if f.len() >= 6 {
        f.subrange(0, 6)
    } else {
        f + Seq::new((6 - f.len()) as nat, |i: int| '0')
    }
}

/// The seconds and microseconds of the time parts `tp` (`HH:MM` or
/// `HH:MM:SS[.ffffff]`).
pub open spec fn seconds_of(tp: Seq<Seq<char>>) -> Option<(int, int)> {
    if tp.len() == 3 {
        let ss = tp[2];
        match find_from(ss, seq!['.'], 0) {
            Some(j) => {
                let f = ss.subrange(j + 1, ss.len() as int);
                match parse_int(ss.subrange(0, j), false, 0, u32::MAX as int) {
                    Some(sec) => if frac_digits_ok(f) {
                        Some((sec, digits_value(padded6(f)) as int))
                    } else {
                        None
                    },
                    None => None,
                }
            },
            None => match parse_int(ss, false, 0, u32::MAX as int) {
                Some(sec) => Some((sec, 0)),
                None => None,
            },
        }
    } else {
        Some((0, 0))
    }
}

/// The hour, minute, second and microseconds of a time text.
pub open spec fn time_of(tpart: Seq<char>) -> Option<(int, int, int, int)> {
    let tp = split_on(tpart, ':');
    if tp.len() < 2 || tp.len() > 3 {
        None
    } else {
        match (
            parse_int(tp[0], false, 0, u32::MAX as int),
            parse_int(tp[1], false, 0, u32::MAX as int),
            seconds_of(tp),
        ) {
            (Some(h), Some(mi), Some((sec, us))) => Some((h, mi, sec, us)),
            _ => None,
        }
    }
}

/// Microseconds since the epoch that a `YYYY-MM-DD[ HH:MM[:SS[.ffffff]]]`
/// text names, when they fit an `i64`.
pub open spec fn timestamp_micros(s: Seq<char>) -> Option<i64> {
    let (dp, tpart) = ts_parts(s);
    match date_of(dp) {
        None => None,
        Some(days) => match time_of(tpart) {
            Some((h, mi, sec, us)) => {
                let total = days * 86_400_000_000 + h * 3_600_000_000 + mi * 60_000_000 + sec
                    * 1_000_000 + us;
                if i64::MIN <= total <= i64::MAX {
                    Some(total as i64)
                } else {
                    None
                }
            },
            None => None,
        },
    }
}

fn whole_u32(v: &Vec<char>) -> (r: Option<u32>)
    ensures
        r == (match parse_int(v@, false, 0, u32::MAX as int) {
            Some(x) => Some(x as u32),
            None => None::<u32>,
        }),
{
    proof {
        assert(v@.subrange(0, v@.len() as int) =~= v@);
    }
    match parse_int_in(v, 0, v.len(), false, 0, u32::MAX as i128) {
        Some(x) => Some(x as u32),
        None => None,
    }
}

fn date_days_of(dp: &[char]) -> (r: Option<i32>)
    ensures
        r == date_of(dp@),
{
    let parts = split_char(dp, '-');
    proof {
        assert(char_views(parts@).len() == parts@.len());
    }
    if parts.len() != 3 {
        return None;
    }
    proof {
        assert(char_views(parts@)[0] == parts@[0]@);
        assert(char_views(parts@)[1] == parts@[1]@);
        assert(char_views(parts@)[2] == parts@[2]@);
        assert(parts@[0]@.subrange(0, parts@[0]@.len() as int) =~= parts@[0]@);
    }
    let y = parse_int_in(&parts[0], 0, parts[0].len(), true, i32::MIN as i128, i32::MAX as i128);
    let m = whole_u32(&parts[1]);
    let d = whole_u32(&parts[2]);
    match (y, m, d) {
        (Some(y), Some(m), Some(d)) => naive_date_to_epoch_days(y as i32, m, d),
        _ => None,
    }
}

/// Ten to the power `i`.
pub open spec fn ten_pow(i: int) -> int
    decreases i,
{
    if i <= 0 {
        1
    } else {
        10 * ten_pow(i - 1)
    }
}

proof fn lemma_ten_pow_mono(i: int, j: int)
    requires
        0 <= i <= j,
    ensures
        1 <= ten_pow(i) <= ten_pow(j),
    decreases j - i,
{
    if i < j {
        lemma_ten_pow_mono(i, j - 1);
    } else {
        lemma_ten_pow_pos(i);
    }
}

proof fn lemma_ten_pow_pos(i: int)
    ensures
        ten_pow(i) >= 1,
    decreases i,
{
    if i > 0 {
        lemma_ten_pow_pos(i - 1);
    }
}

fn fraction_micros(f: &[char]) -> (r: Option<u64>)
    ensures
        r == (if frac_digits_ok(f@) {
            Some(digits_value(padded6(f@)) as u64)
        } else {
            None::<u64>
        }),
{
    let ghost p = padded6(f@);
    proof {
        assert(p.len() == 6);
        assert forall|i: int| 0 <= i < 6 implies #[trigger] p[i] == (if i < f@.len() {
            f@[i]
        } else {
            '0'
        }) by {}
    }
    let mut acc: u64 = 0;
    let mut i: usize = 0;
    while i < 6
        invariant
            i <= 6,
            p == padded6(f@),
            p.len() == 6,
            forall|j: int| 0 <= j < 6 ==> #[trigger] p[j] == (if j < f@.len() {
                f@[j]
            } else {
                '0'
            }),
            forall|j: int| 0 <= j < i && j < f@.len() ==> is_digit(#[trigger] f@[j]),
            acc == digits_value(p.subrange(0, i as int)),
            acc < ten_pow(i as int),
            ten_pow(i as int) <= 1_000_000,
        decreases 6 - i,
    {
        let d: u64 = if i < f.len() {
            let c = f[i];
            if c < '0' || c > '9' {
                proof {
                    assert(!is_digit(f@[i as int]));
                }
                return None;
            }
            ((c as u32) - 48) as u64
        } else {
            0
        };
        proof {
            let q = p.subrange(0, i + 1);
            assert(q.drop_last() =~= p.subrange(0, i as int));
            assert(q.last() == p[i as int]);
            assert(ten_pow(i + 1) == 10 * ten_pow(i as int));
            assert(ten_pow(6) == 1_000_000) by {
                reveal_with_fuel(ten_pow, 7);
            }
            lemma_ten_pow_mono(i + 1, 6);
        }
        acc = acc * 10 + d;
        i = i + 1;
    }
    proof {
        assert(p.subrange(0, 6) =~= p);
    }
    Some(acc)
}

fn split_timestamp(s: &str) -> (r: (Vec<char>, Vec<char>))
    ensures
        (r.0@, r.1@) == ts_parts(s@),
{
    let cs0 = chars_of(s);
    let (a, b) = trim_bounds(&cs0, 0, cs0.len());
    let t = sub_chars(&cs0, a, b);
    proof {
        assert(cs0@.subrange(0, cs0@.len() as int) =~= cs0@);
    }
    let mut space: Vec<char> = Vec::new();
    space.push(' ');
    proof {
        assert(space@ =~= seq![' ']);
    }
    match find_chars(&t, &space, 0) {
        Some(i) => {
            proof {
                crate::npy_reader::lemma_find_from_found(t@, space@, 0, i as int);
            }
            (sub_chars(&t, 0, i), sub_chars(&t, i + 1, t.len()))
        },
        None => {
            proof {
                assert(t@.subrange(0, t@.len() as int) =~= t@);
            }
            (sub_chars(&t, 0, t.len()), chars_of("00:00:00"))
        },
    }
}

fn seconds_in(ss: &Vec<char>) -> (r: Option<(u32, u64)>)
    ensures
        match seconds_of(seq![Seq::<char>::empty(), Seq::<char>::empty(), ss@]) {
            Some((sec, us)) => r == Some((sec as u32, us as u64)) && 0 <= sec <= u32::MAX && 0 <= us < 1_000_000,
            None => r is None,
        },
{
    let ghost tp = seq![Seq::<char>::empty(), Seq::<char>::empty(), ss@];
    assert(tp[2] == ss@);
    let mut dot: Vec<char> = Vec::new();
    dot.push('.');
    proof {
        assert(dot@ =~= seq!['.']);
    }
    match find_chars(ss, &dot, 0) {
        Some(j) => {
            proof {
                crate::npy_reader::lemma_find_from_found(ss@, dot@, 0, j as int);
                assert(j + 1 <= ss.len());
            }
            let whole = sub_chars(ss, 0, j);
            let frac = sub_chars(ss, j + 1, ss.len());
            match whole_u32(&whole) {
                Some(sec) => match fraction_micros(&frac) {
                    Some(us) => {
                        proof {
                            lemma_padded6_bound(frac@);
                        }
                        Some((sec, us))
                    },
                    None => None,
                },
                None => None,
            }
        },
        None => match whole_u32(ss) {
            Some(sec) => Some((sec, 0)),
            None => None,
        },
    }
}

proof fn lemma_padded6_bound(f: Seq<char>)
    requires
        frac_digits_ok(f),
    ensures
        digits_value(padded6(f)) < 1_000_000,
{
    let p = padded6(f);
    assert(p.len() == 6);
    assert forall|i: int| 0 <= i < 6 implies is_digit(#[trigger] p[i]) by {
        if i < f.len() {
        } else {
        }
    }
    lemma_digits_below(p);
    assert(ten_pow(6) == 1_000_000) by {
                reveal_with_fuel(ten_pow, 7);
            }
}

proof fn lemma_digits_below(d: Seq<char>)
    requires
        forall|i: int| 0 <= i < d.len() ==> is_digit(#[trigger] d[i]),
    ensures
        digits_value(d) < ten_pow(d.len() as int),
    decreases d.len(),
{
    if d.len() > 0 {
        let e = d.drop_last();
        assert forall|i: int| 0 <= i < e.len() implies is_digit(#[trigger] e[i]) by {
            assert(e[i] == d[i]);
        }
        lemma_digits_below(e);
        assert(is_digit(d[d.len() - 1]));
    }
}

fn time_in(tpart: &[char]) -> (r: Option<(u32, u32, u32, u64)>)
    ensures
        match time_of(tpart@) {
            Some((h, mi, sec, us)) => r == Some((h as u32, mi as u32, sec as u32, us as u64)) && 0
                <= h <= u32::MAX && 0 <= mi <= u32::MAX && 0 <= sec <= u32::MAX && 0 <= us < 1_000_000,
            None => r is None,
        },
{
    let tp = split_char(tpart, ':');
    proof {
        assert(char_views(tp@).len() == tp@.len());
    }
    if tp.len() < 2 || tp.len() > 3 {
        return None;
    }
    proof {
        assert(char_views(tp@)[0] == tp@[0]@);
        assert(char_views(tp@)[1] == tp@[1]@);
    }
    let hour = whole_u32(&tp[0]);
    let minute = whole_u32(&tp[1]);
    let secs: Option<(u32, u64)> = if tp.len() == 3 {
        proof {
            assert(char_views(tp@)[2] == tp@[2]@);
            assert(seq![Seq::<char>::empty(), Seq::<char>::empty(), tp@[2]@][2] == char_views(tp@)[2]);
        }
        seconds_in(&tp[2])
    } else {
        Some((0, 0))
    };
    match (hour, minute, secs) {
        (Some(h), Some(mi), Some((sec, us))) => Some((h, mi, sec, us)),
        _ => None,
    }
}

/// Microseconds since the epoch of a `YYYY-MM-DD[ HH:MM[:SS[.ffffff]]]`
/// text: the date alone stands for its midnight; at most six fraction
/// digits are read (the rest is ignored).
pub fn parse_timestamp_micros(s: &str) -> (r: Option<i64>)
    ensures
        r == timestamp_micros(s@),
{
    let (dp, tpart) = split_timestamp(s);
    let days = match date_days_of(&dp) {
        Some(d) => d,
        None => {
            return None;
        },
    };
    match time_in(&tpart) {
        Some((h, mi, sec, us)) => {
            let total: i128 = days as i128 * 86_400_000_000 + h as i128 * 3_600_000_000 + mi as i128
                * 60_000_000 + sec as i128 * 1_000_000 + us as i128;
            if total < i64::MIN as i128 || total > i64::MAX as i128 {
                None
            } else {
                Some(total as i64)
            }
        },
        None => None,
    }
}

/// The format message of timestamp fields.
pub open spec fn timestamp_format_message() -> Seq<char> {
    "expected YYYY-MM-DD HH:MM:SS[.ffffff] format"@
}

/// A field read as a timestamp in microseconds.
pub fn coerce_timestamp(s: &str, line: usize, column: usize, column_name: &str) -> (r: Result<
    Value,
    CsvReaderError,
>)
    ensures
        match timestamp_micros(s@) {
            Some(t) => r is Ok && vview(r->Ok_0) == ValueView::Timestamp(t),
            None => r is Err && is_coercion_error(
                r->Err_0,
                s@,
                line,
                column,
                column_name@,
                "TIMESTAMP"@,
                timestamp_format_message(),
            ),
        },
{
    match parse_timestamp_micros(s) {
        Some(t) => Ok(Value::Timestamp(t)),
        None => Err(
            coercion_err(
                s,
                line,
                column,
                column_name,
                "TIMESTAMP",
                "expected YYYY-MM-DD HH:MM:SS[.ffffff] format",
            ),
        ),
    }
}

/// A field read as a timestamp in whole seconds (microseconds divided by a
/// million, rounded toward zero).
pub fn coerce_timestamp_sec(s: &str, line: usize, column: usize, column_name: &str) -> (r: Result<
    Value,
    CsvReaderError,
>)
    ensures
        match timestamp_micros(s@) {
            Some(t) => r is Ok && vview(r->Ok_0) == ValueView::TimestampSec(
                crate::csv_reader::div_trunc(t as int, 1_000_000) as i64,
            ),
            None => r is Err && is_coercion_error(
                r->Err_0,
                s@,
                line,
                column,
                column_name@,
                "TIMESTAMP_SEC"@,
                timestamp_format_message(),
            ),
        },
{
    match parse_timestamp_micros(s) {
        Some(t) => Ok(Value::TimestampSec(t / 1_000_000)),
        None => Err(
            coercion_err(
                s,
                line,
                column,
                column_name,
                "TIMESTAMP_SEC",
                "expected YYYY-MM-DD HH:MM:SS[.ffffff] format",
            ),
        ),
    }
}

/// A field read as a timestamp in nanoseconds; refused, like an unreadable
/// text, when the nanoseconds do not fit an `i64`.
pub fn coerce_timestamp_ns(s: &str, line: usize, column: usize, column_name: &str) -> (r: Result<
    Value,
    CsvReaderError,
>)
    ensures
        match timestamp_micros(s@) {
            Some(t) if i64::MIN <= t * 1000 <= i64::MAX => r is Ok && vview(r->Ok_0)
                == ValueView::TimestampNs((t * 1000) as i64),
            _ => r is Err && is_coercion_error(
                r->Err_0,
                s@,
                line,
                column,
                column_name@,
                "TIMESTAMP_NS"@,
                timestamp_format_message(),
            ),
        },
{
    match parse_timestamp_micros(s) {
        Some(t) => match t.checked_mul(1000) {
            Some(ns) => {
                return Ok(Value::TimestampNs(ns));
            },
            None => {},
        },
        None => {},
    }
    Err(
        coercion_err(
            s,
            line,
            column,
            column_name,
            "TIMESTAMP_NS",
            "expected YYYY-MM-DD HH:MM:SS[.ffffff] format",
        ),
    )
}

/// A field read as a timestamp with time zone, in microseconds.
pub fn coerce_timestamp_tz(s: &str, line: usize, column: usize, column_name: &str) -> (r: Result<
    Value,
    CsvReaderError,
>)
    ensures
        match timestamp_micros(s@) {
            Some(t) => r is Ok && vview(r->Ok_0) == ValueView::TimestampTz(t),
            None => r is Err && is_coercion_error(
                r->Err_0,
                s@,
                line,
                column,
                column_name@,
                "TIMESTAMP_TZ"@,
                timestamp_format_message(),
            ),
        },
{
    match parse_timestamp_micros(s) {
        Some(t) => Ok(Value::TimestampTz(t)),
        None => Err(
            coercion_err(
                s,
                line,
                column,
                column_name,
                "TIMESTAMP_TZ",
                "expected YYYY-MM-DD HH:MM:SS[.ffffff] format",
            ),
        ),
    }
}

// ------------------------------------------------------------------
// Intervals
// ------------------------------------------------------------------

/// A span of months, days and microseconds.
#[derive(Debug, Clone, Copy, PartialEq, Eq, Structural)]
pub struct Interval {
    pub months: i32,
    pub days: i32,
    pub micros: i64,
}

/// The words of `s` (its maximal runs of characters that are not white
/// space), the word in progress being `cur`, scanning from `k`.
pub open spec fn words_from(s: Seq<char>, k: int, cur: Seq<char>) -> Seq<Seq<char>>
    decreases s.len() - k,
{
    if k < 0 || k >= s.len() {
        if cur.len() > 0 {
            seq![cur]
        } else {
            Seq::empty()
        }
    } else if is_white_space(s[k]) {
        (if cur.len() > 0 {
            seq![cur]
        } else {
            Seq::empty()
        }) + words_from(s, k + 1, Seq::empty())
    } else {
        words_from(s, k + 1, cur.push(s[k]))
    }
}

/// The words of `s`, as `str::split_whitespace` gives them.
pub open spec fn words(s: Seq<char>) -> Seq<Seq<char>> {
    words_from(s, 0, Seq::empty())
}

/// Whether `p` occurs in `u`.
pub open spec fn contains_text(u: Seq<char>, p: Seq<char>) -> bool {
    find_from(u, p, 0) is Some
}

/// Whether an integer fits an `i32`.
pub open spec fn fits_i32(x: int) -> bool {
    i32::MIN <= x <= i32::MAX
}

/// Whether an integer fits an `i64`.
pub open spec fn fits_i64(x: int) -> bool {
    i64::MIN <= x <= i64::MAX
}

/// `us + v * k`, when both steps fit an `i64`.
pub open spec fn add_scaled(us: int, v: i64, k: int) -> Option<int> {
    if fits_i64(v * k) && fits_i64(us + v * k) {
        Some(us + v * k)
    } else {
        None
    }
}

/// The span after adding `v` of the unit `u` (unknown units change
/// nothing), or none when a total does not fit its type.
pub open spec fn unit_step(u: Seq<char>, v: i64, acc: (int, int, int)) -> Option<(int, int, int)> {
    let (m, d, us) = acc;
    if starts_with(u, "year"@) {
        let t = (v as i32) * 12;
        if fits_i32(t) && fits_i32(m + t) {
            Some((m + t, d, us))
        } else {
            None
        }
    } else if starts_with(u, "month"@) {
        if fits_i32(m + (v as i32)) {
            Some((m + (v as i32), d, us))
        } else {
            None
        }
    } else if starts_with(u, "day"@) {
        if fits_i32(d + (v as i32)) {
            Some((m, d + (v as i32), us))
        } else {
            None
        }
    } else if starts_with(u, "hour"@) {
        match add_scaled(us, v, 3_600_000_000) {
            Some(x) => Some((m, d, x)),
            None => None,
        }
    } else if starts_with(u, "minute"@) {
        match add_scaled(us, v, 60_000_000) {
            Some(x) => Some((m, d, x)),
            None => None,
        }
    } else if starts_with(u, "second"@) && !contains_text(u, "milli"@) && !contains_text(u, "micro"@) {
        match add_scaled(us, v, 1_000_000) {
            Some(x) => Some((m, d, x)),
            None => None,
        }
    } else if starts_with(u, "millisecond"@) {
        match add_scaled(us, v, 1_000) {
            Some(x) => Some((m, d, x)),
            None => None,
        }
    } else if starts_with(u, "microsecond"@) || u == "us"@ {
        match add_scaled(us, v, 1) {
            Some(x) => Some((m, d, x)),
            None => None,
        }
    } else {
        Some(acc)
    }
}

/// The span of the (number, unit) pairs of `tokens` from pair `i` on,
/// added to `acc`; a lone last token is ignored.
pub open spec fn interval_from(tokens: Seq<Seq<char>>, i: int, acc: (int, int, int)) -> Option<
    (int, int, int),
>
    decreases tokens.len() - i,
{
    if i < 0 || i + 1 >= tokens.len() {
        Some(acc)
    } else {
        match parse_int(tokens[i], true, i64::MIN as int, i64::MAX as int) {
            None => None,
            Some(v) => match unit_step(tokens[i + 1], v as i64, acc) {
                None => None,
                Some(a2) => interval_from(tokens, i + 2, a2),
            },
        }
    }
}

/// The span a text such as `1 year 2 months 3 days` names.
pub open spec fn interval_of(s: Seq<char>) -> Option<(int, int, int)> {
    interval_from(words(lowercase(trim(s))), 0, (0, 0, 0))
}

/// The words of `s`.
pub fn split_whitespace(s: &[char]) -> (r: Vec<Vec<char>>)
    ensures
        char_views(r@) == words(s@),
{
    let mut out: Vec<Vec<char>> = Vec::new();
    let mut cur: Vec<char> = Vec::new();
    let mut k: usize = 0;
    while k < s.len()
        invariant
            k <= s@.len(),
            char_views(out@) + words_from(s@, k as int, cur@) == words(s@),
        decreases s@.len() - k,
    {
        if crate::text::is_whitespace(s[k]) {
            if cur.len() > 0 {
                let ghost before = out@;
                let mut w: Vec<char> = Vec::new();
                std::mem::swap(&mut w, &mut cur);
                out.push(w);
                proof {
                    assert(char_views(out@) =~= char_views(before) + seq![w@]);
                    assert(char_views(before) + (seq![w@] + words_from(s@, k + 1, Seq::empty()))
                        =~= char_views(out@) + words_from(s@, k + 1, Seq::empty()));
                    assert(cur@ =~= Seq::<char>::empty());
                }
            } else {
                proof {
                    assert(Seq::<Seq<char>>::empty() + words_from(s@, k + 1, Seq::empty())
                        =~= words_from(s@, k + 1, Seq::empty()));
                    assert(cur@ =~= Seq::<char>::empty());
                }
            }
        } else {
            cur.push(s[k]);
        }
        k = k + 1;
    }
    if cur.len() > 0 {
        let ghost before = out@;
        out.push(cur);
        proof {
            assert(char_views(out@) =~= char_views(before) + seq![cur@]);
        }
    } else {
        proof {
            assert(char_views(out@) + Seq::<Seq<char>>::empty() =~= char_views(out@));
        }
    }
    out
}

fn starts_with_text(u: &[char], p: &str) -> (b: bool)
    ensures
        b == starts_with(u@, p@),
{
    let pv = chars_of(p);
    if pv.len() > u.len() {
        return false;
    }
    let head = sub_chars(u, 0, pv.len());
    same_chars(&head, p)
}

fn contains_chars(u: &[char], p: &str) -> (b: bool)
    ensures
        b == contains_text(u@, p@),
{
    let pv = chars_of(p);
    find_chars(u, &pv, 0).is_some()
}

fn scaled_add(us: i64, v: i64, k: i64) -> (r: Option<i64>)
    ensures
        r == (match add_scaled(us as int, v, k as int) {
            Some(x) => Some(x as i64),
            None => None::<i64>,
        }),
{
    match v.checked_mul(k) {
        Some(p) => us.checked_add(p),
        None => None,
    }
}

fn apply_unit(u: &[char], v: i64, acc: Interval) -> (r: Option<Interval>)
    ensures
        match unit_step(u@, v, (acc.months as int, acc.days as int, acc.micros as int)) {
            Some((m, d, us)) => r == Some(
                Interval { months: m as i32, days: d as i32, micros: us as i64 },
            ),
            None => r is None,
        },
{
    let Interval { months, days, micros } = acc;
    proof {
        reveal_strlit("us");
    }
    if starts_with_text(u, "year") {
        match (v as i32).checked_mul(12) {
            Some(t) => match months.checked_add(t) {
                Some(m) => Some(Interval { months: m, days, micros }),
                None => None,
            },
            None => None,
        }
    } else if starts_with_text(u, "month") {
        match months.checked_add(v as i32) {
            Some(m) => Some(Interval { months: m, days, micros }),
            None => None,
        }
    } else if starts_with_text(u, "day") {
        match days.checked_add(v as i32) {
            Some(d) => Some(Interval { months, days: d, micros }),
            None => None,
        }
    } else if starts_with_text(u, "hour") {
        match scaled_add(micros, v, 3_600_000_000) {
            Some(x) => Some(Interval { months, days, micros: x }),
            None => None,
        }
    } else if starts_with_text(u, "minute") {
        match scaled_add(micros, v, 60_000_000) {
            Some(x) => Some(Interval { months, days, micros: x }),
            None => None,
        }
    } else if starts_with_text(u, "second") && !contains_chars(u, "milli") && !contains_chars(
        u,
        "micro",
    ) {
        match scaled_add(micros, v, 1_000_000) {
            Some(x) => Some(Interval { months, days, micros: x }),
            None => None,
        }
    } else if starts_with_text(u, "millisecond") {
        match scaled_add(micros, v, 1_000) {
            Some(x) => Some(Interval { months, days, micros: x }),
            None => None,
        }
    } else if starts_with_text(u, "microsecond") || same_chars(u, "us") {
        match scaled_add(micros, v, 1) {
            Some(x) => Some(Interval { months, days, micros: x }),
            None => None,
        }
    } else {
        Some(acc)
    }
}

/// The span a text such as `1 year 2 months 3 days 4 hours 5 minutes 6
/// seconds` names, read case-insensitively as (number, unit) pairs. A unit
/// is known by its start (`year`, `month`, `day`, `hour`, `minute`,
/// `second`, `millisecond`, `microsecond`) or is exactly `us`; other units
/// add nothing. A number that does not parse, or a total that does not fit
/// its type, gives none.
pub fn parse_interval_str(s: &str) -> (r: Option<Interval>)
    ensures
        match interval_of(s@) {
            Some((m, d, us)) => r == Some(Interval { months: m as i32, days: d as i32, micros: us as i64 }),
            None => r is None,
        },
{
    let cs = chars_of(s);
    let (a, b) = trim_bounds(&cs, 0, cs.len());
    let t = string_from(&cs, a, b);
    proof {
        assert(cs@.subrange(0, cs@.len() as int) =~= cs@);
    }
    let lower = to_lowercase(t.as_str());
    let lc = chars_of(lower.as_str());
    let tokens = split_whitespace(&lc);
    proof {
        assert(char_views(tokens@).len() == tokens@.len());
    }
    let mut acc = Interval { months: 0, days: 0, micros: 0 };
    let mut i: usize = 0;
    while i < tokens.len() && i + 1 < tokens.len()
        invariant
            i <= tokens@.len(),
            char_views(tokens@) == words(lowercase(trim(s@))),
            interval_of(s@) == interval_from(
                char_views(tokens@),
                i as int,
                (acc.months as int, acc.days as int, acc.micros as int),
            ),
        decreases tokens@.len() - i,
    {
        proof {
            assert(char_views(tokens@)[i as int] == tokens@[i as int]@);
            assert(char_views(tokens@)[i + 1] == tokens@[i + 1]@);
            assert(tokens@[i as int]@.subrange(0, tokens@[i as int]@.len() as int) =~= tokens@[i as int]@);
        }
        let v = match parse_int_in(&tokens[i], 0, tokens[i].len(), true, i64::MIN as i128, i64::MAX as i128) {
            Some(v) => v as i64,
            None => {
                return None;
            },
        };
        acc = match apply_unit(&tokens[i + 1], v, acc) {
            Some(a2) => a2,
            None => {
                return None;
            },
        };
        i = i + 2;
    }
    Some(acc)
}

/// A field read as an interval.
pub fn coerce_interval(s: &str, line: usize, column: usize, column_name: &str) -> (r: Result<
    Value,
    CsvReaderError,
>)
    ensures
        match interval_of(s@) {
            Some((m, d, us)) => r is Ok && vview(r->Ok_0) == ValueView::Interval(
                m as i32,
                d as i32,
                us as i64,
            ),
            None => r is Err && is_coercion_error(
                r->Err_0,
                s@,
                line,
                column,
                column_name@,
                "INTERVAL"@,
                "expected duration format (e.g. '1 year 2 months 3 days 4 hours 5 minutes 6 seconds')"@,
            ),
        },
{
    match parse_interval_str(s) {
        Some(iv) => Ok(Value::Interval { months: iv.months, days: iv.days, micros: iv.micros }),
        None => Err(
            coercion_err(
                s,
                line,
                column,
                column_name,
                "INTERVAL",
                "expected duration format (e.g. '1 year 2 months 3 days 4 hours 5 minutes 6 seconds')",
            ),
        ),
    }
}

// ------------------------------------------------------------------
// List, struct and map literals
// ------------------------------------------------------------------

/// A trimmed field text as a value: NULL when empty or `null` (any ASCII
/// case), else the text.
pub open spec fn text_or_null(t: Seq<char>) -> ValueView {
    if t.len() == 0 || eq_ascii_case(t, "null"@) {
        ValueView::Null
    } else {
        ValueView::String(t)
    }
}

fn text_value(t: String) -> (v: Value)
    ensures
        vview(v) == text_or_null(t@),
{
    if t.as_str().unicode_len() == 0 || eq_ignore_ascii_case(t.as_str(), "null") {
        Value::Null
    } else {
        Value::String(t)
    }
}

/// A text without its surrounding `open` and `close` characters, when it
/// has both.
pub open spec fn strip_pair(t: Seq<char>, open: char, close: char) -> Seq<char> {
    if t.len() >= 2 && t[0] == open && t.last() == close {
        t.subrange(1, t.len() - 1)
    } else {
        t
    }
}

/// The text inside a literal's brackets, trimmed of nothing; `None` when
/// the literal is empty, is just the two brackets, or holds only white
/// space.
pub open spec fn literal_inner(s: Seq<char>, open: char, close: char) -> Option<Seq<char>> {
    let t = trim(s);
    if t.len() == 0 || t == seq![open, close] {
        None
    } else {
        let inner = strip_pair(t, open, close);
        if trim(inner).len() == 0 {
            None
        } else {
            Some(inner)
        }
    }
}

fn inner_of(s: &str, open: char, close: char) -> (r: Option<String>)
    requires
        open != close,
    ensures
        match r {
            Some(i) => literal_inner(s@, open, close) == Some(i@) && i@.len() <= s@.len(),
            None => literal_inner(s@, open, close) is None,
        },
{
    let cs = chars_of(s);
    let (a, b) = trim_bounds(&cs, 0, cs.len());
    let t = sub_chars(&cs, a, b);
    proof {
        assert(cs@.subrange(0, cs@.len() as int) =~= cs@);
    }
    if t.len() == 0 {
        return None;
    }
    if t.len() == 2 && t[0] == open && t[1] == close {
        proof {
            assert(t@ =~= seq![open, close]);
        }
        return None;
    }
    proof {
        if t@ == seq![open, close] {
            assert(t@[0] == open && t@[1] == close);
        }
    }
    let inner = if t.len() >= 2 && t[0] == open && t[t.len() - 1] == close {
        sub_chars(&t, 1, t.len() - 1)
    } else {
        sub_chars(&t, 0, t.len())
    };
    proof {
        assert(t@.subrange(0, t@.len() as int) =~= t@);
    }
    let (ia, ib) = trim_bounds(&inner, 0, inner.len());
    proof {
        assert(inner@.subrange(0, inner@.len() as int) =~= inner@);
    }
    if ia == ib {
        return None;
    }
    Some(string_from(&inner, 0, inner.len()))
}

/// Item texts read as text or NULL.
pub open spec fn list_values(fs: Seq<Seq<char>>) -> Seq<ValueView>
    decreases fs.len(),
{
    if fs.len() == 0 {
        Seq::empty()
    } else {
        list_values(fs.drop_last()).push(text_or_null(trim(fs.last())))
    }
}

/// The items of a list literal `[a, b, ...]`: split at commas outside
/// double quotes, each read as text or NULL.
pub open spec fn list_items(s: Seq<char>) -> Seq<ValueView> {
    match literal_inner(s, '[', ']') {
        None => Seq::empty(),
        Some(inner) => list_values(quoted_fields(inner, ',')),
    }
}

/// The views of a sequence of values.
pub open spec fn value_views(v: Seq<Value>) -> Seq<ValueView> {
    v.map_values(|x: Value| vview(x))
}

/// The items of a list literal, as text values.
pub fn parse_list(s: &str) -> (r: Vec<Value>)
    ensures
        value_views(r@) == list_items(s@),
{
    let inner = match inner_of(s, '[', ']') {
        Some(i) => i,
        None => {
            proof {
                assert(value_views(Seq::<Value>::empty()) =~= Seq::<ValueView>::empty());
            }
            return Vec::new();
        },
    };
    let items = split_csv_respecting_quotes(inner.as_str(), ',');
    let ghost fs = string_views(items@);
    let mut out: Vec<Value> = Vec::new();
    let mut i: usize = 0;
    while i < items.len()
        invariant
            i <= items@.len(),
            fs == string_views(items@),
            fs == quoted_fields(inner@, ','),
            value_views(out@) == list_values(fs.subrange(0, i as int)),
        decreases items@.len() - i,
    {
        let ic = chars_of(items[i].as_str());
        let t = crate::text::trimmed(&ic, 0, ic.len());
        proof {
            assert(ic@.subrange(0, ic@.len() as int) =~= ic@);
            assert(fs[i as int] == items@[i as int]@);
        }
        let v = text_value(t);
        let ghost before = out@;
        out.push(v);
        proof {
            assert(value_views(out@) =~= value_views(before).push(vview(v)));
            assert(fs.subrange(0, i + 1).drop_last() =~= fs.subrange(0, i as int));
            assert(fs.subrange(0, i + 1).last() == fs[i as int]);
        }
        i = i + 1;
    }
    proof {
        assert(fs.subrange(0, fs.len() as int) =~= fs);
    }
    out
}

/// A struct field `key: value`: the trimmed key and the value as text or
/// NULL; a field without `:` is a key with a NULL value; an empty field is
/// dropped.
pub open spec fn struct_field(f: Seq<char>) -> Option<(Seq<char>, ValueView)> {
    let t = trim(f);
    if t.len() == 0 {
        None
    } else {
        match find_from(t, seq![':'], 0) {
            Some(i) => Some(
                (trim(t.subrange(0, i)), text_or_null(trim(t.subrange(i + 1, t.len() as int)))),
            ),
            None => Some((t, ValueView::Null)),
        }
    }
}

/// The fields of a sequence of field texts, empty ones dropped.
pub open spec fn struct_fields_of(fs: Seq<Seq<char>>) -> Seq<(Seq<char>, ValueView)>
    decreases fs.len(),
{
    if fs.len() == 0 {
        Seq::empty()
    } else {
        struct_fields_of(fs.drop_last()) + match struct_field(fs.last()) {
            Some(p) => seq![p],
            None => Seq::empty(),
        }
    }
}

/// The fields of a struct literal `{k1: v1, k2: v2, ...}`, split at commas
/// at nesting depth zero and outside quotes.
pub open spec fn struct_fields(s: Seq<char>) -> Seq<(Seq<char>, ValueView)> {
    match literal_inner(s, '{', '}') {
        None => Seq::empty(),
        Some(inner) => struct_fields_of(top_level_fields(inner, ',')),
    }
}

/// A map entry `key=value`: both trimmed and read as text or NULL; an
/// entry without `=` is its whole text (as text) with a NULL value; an
/// empty entry is dropped.
pub open spec fn map_entry(f: Seq<char>) -> Option<(ValueView, ValueView)> {
    let t = trim(f);
    if t.len() == 0 {
        None
    } else {
        match find_from(t, seq!['='], 0) {
            Some(i) => Some(
                (
                    text_or_null(trim(t.subrange(0, i))),
                    text_or_null(trim(t.subrange(i + 1, t.len() as int))),
                ),
            ),
            None => Some((ValueView::String(t), ValueView::Null)),
        }
    }
}

/// The entries of a sequence of entry texts, empty ones dropped.
pub open spec fn map_entries_of(fs: Seq<Seq<char>>) -> Seq<(ValueView, ValueView)>
    decreases fs.len(),
{
    if fs.len() == 0 {
        Seq::empty()
    } else {
        map_entries_of(fs.drop_last()) + match map_entry(fs.last()) {
            Some(p) => seq![p],
            None => Seq::empty(),
        }
    }
}

/// The entries of a map literal `{k1=v1, k2=v2, ...}`.
pub open spec fn map_entries(s: Seq<char>) -> Seq<(ValueView, ValueView)> {
    match literal_inner(s, '{', '}') {
        None => Seq::empty(),
        Some(inner) => map_entries_of(top_level_fields(inner, ',')),
    }
}

/// The trimmed text before and after the first `sep` of a trimmed field.
fn split_field(t: &[char], sep: char) -> (r: Option<(String, String)>)
    ensures
        match (find_from(t@, seq![sep], 0), r) {
            (Some(i), Some((k, v))) => k@ == trim(t@.subrange(0, i)) && v@ == trim(
                t@.subrange(i + 1, t@.len() as int),
            ),
            (None, None) => true,
            _ => false,
        },
{
    let mut sv: Vec<char> = Vec::new();
    sv.push(sep);
    proof {
        assert(sv@ =~= seq![sep]);
    }
    match find_chars(t, &sv, 0) {
        Some(i) => {
            proof {
                crate::npy_reader::lemma_find_from_found(t@, sv@, 0, i as int);
                assert(i + 1 <= t.len());
            }
            Some((crate::text::trimmed(t, 0, i), crate::text::trimmed(t, i + 1, t.len())))
        },
        None => None,
    }
}

/// The fields of a struct literal, values as text or NULL.
pub fn parse_struct(s: &str) -> (r: Vec<(String, Value)>)
    requires
        s@.len() <= i32::MAX,
    ensures
        r@.len() == struct_fields(s@).len(),
        forall|i: int|
            0 <= i < r@.len() ==> (#[trigger] r@[i]).0@ == struct_fields(s@)[i].0 && vview(r@[i].1)
                == struct_fields(s@)[i].1,
{
    let inner = match inner_of(s, '{', '}') {
        Some(i) => i,
        None => {
            return Vec::new();
        },
    };
    let fields = split_top_level(inner.as_str(), ',');
    let ghost fs = string_views(fields@);
    let mut out: Vec<(String, Value)> = Vec::new();
    let mut i: usize = 0;
    while i < fields.len()
        invariant
            i <= fields@.len(),
            fs == string_views(fields@),
            fs == top_level_fields(inner@, ','),
            out@.len() == struct_fields_of(fs.subrange(0, i as int)).len(),
            forall|j: int|
                0 <= j < out@.len() ==> (#[trigger] out@[j]).0@ == struct_fields_of(
                    fs.subrange(0, i as int),
                )[j].0 && vview(out@[j].1) == struct_fields_of(fs.subrange(0, i as int))[j].1,
        decreases fields@.len() - i,
    {
        let fc = chars_of(fields[i].as_str());
        let (a, b) = trim_bounds(&fc, 0, fc.len());
        let t = sub_chars(&fc, a, b);
        proof {
            assert(fc@.subrange(0, fc@.len() as int) =~= fc@);
            assert(fs[i as int] == fields@[i as int]@);
            assert(fs.subrange(0, i + 1).drop_last() =~= fs.subrange(0, i as int));
            assert(fs.subrange(0, i + 1).last() == fs[i as int]);
        }
        let ghost prev = struct_fields_of(fs.subrange(0, i as int));
        if t.len() > 0 {
            let entry = match split_field(&t, ':') {
                Some((k, v)) => (k, text_value(v)),
                None => (string_from(&t, 0, t.len()), Value::Null),
            };
            proof {
                assert(t@.subrange(0, t@.len() as int) =~= t@);
            }
            out.push(entry);
        }
        proof {
            assert(struct_fields_of(fs.subrange(0, i + 1)) == prev + match struct_field(fs[i as int]) {
                Some(p) => seq![p],
                None => Seq::<(Seq<char>, ValueView)>::empty(),
            });
        }
        i = i + 1;
    }
    proof {
        assert(fs.subrange(0, fs.len() as int) =~= fs);
    }
    out
}

/// The entries of a map literal, keys and values as text or NULL.
pub fn parse_map(s: &str) -> (r: Vec<(Value, Value)>)
    requires
        s@.len() <= i32::MAX,
    ensures
        r@.len() == map_entries(s@).len(),
        forall|i: int|
            0 <= i < r@.len() ==> vview((#[trigger] r@[i]).0) == map_entries(s@)[i].0 && vview(
                r@[i].1,
            ) == map_entries(s@)[i].1,
{
    let inner = match inner_of(s, '{', '}') {
        Some(i) => i,
        None => {
            return Vec::new();
        },
    };
    let fields = split_top_level(inner.as_str(), ',');
    let ghost fs = string_views(fields@);
    let mut out: Vec<(Value, Value)> = Vec::new();
    let mut i: usize = 0;
    while i < fields.len()
        invariant
            i <= fields@.len(),
            fs == string_views(fields@),
            fs == top_level_fields(inner@, ','),
            out@.len() == map_entries_of(fs.subrange(0, i as int)).len(),
            forall|j: int|
                0 <= j < out@.len() ==> vview((#[trigger] out@[j]).0) == map_entries_of(
                    fs.subrange(0, i as int),
                )[j].0 && vview(out@[j].1) == map_entries_of(fs.subrange(0, i as int))[j].1,
        decreases fields@.len() - i,
    {
        let fc = chars_of(fields[i].as_str());
        let (a, b) = trim_bounds(&fc, 0, fc.len());
        let t = sub_chars(&fc, a, b);
        proof {
            assert(fc@.subrange(0, fc@.len() as int) =~= fc@);
            assert(fs[i as int] == fields@[i as int]@);
            assert(fs.subrange(0, i + 1).drop_last() =~= fs.subrange(0, i as int));
            assert(fs.subrange(0, i + 1).last() == fs[i as int]);
        }
        let ghost prev = map_entries_of(fs.subrange(0, i as int));
        if t.len() > 0 {
            let entry = match split_field(&t, '=') {
                Some((k, v)) => (text_value(k), text_value(v)),
                None => (Value::String(string_from(&t, 0, t.len())), Value::Null),
            };
            proof {
                assert(t@.subrange(0, t@.len() as int) =~= t@);
            }
            out.push(entry);
        }
        proof {
            assert(map_entries_of(fs.subrange(0, i + 1)) == prev + match map_entry(fs[i as int]) {
                Some(p) => seq![p],
                None => Seq::<(ValueView, ValueView)>::empty(),
            });
        }
        i = i + 1;
    }
    proof {
        assert(fs.subrange(0, fs.len() as int) =~= fs);
    }
    out
}

// ------------------------------------------------------------------
// Reading a field as its column's type
// ------------------------------------------------------------------

/// The type of a CSV column.
#[derive(Debug, Clone, Copy, PartialEq, Eq, Structural)]
pub enum LogicalTypeID {
    Bool,
    Int64,
    Serial,
    Int32,
    Int16,
    Int8,
    UInt64,
    UInt32,
    UInt16,
    UInt8,
    Double,
    Float,
    String,
    Date,
    Timestamp,
    TimestampMs,
    TimestampSec,
    TimestampNs,
    TimestampTz,
    Interval,
    Blob,
    List,
    MapType,
    Struct,
    Node,
    Rel,
    /// Any other type: the field is kept as text.
    Other,
}

/// An integer field's outcome: the value, or the coercion error's value,
/// type and message.
pub open spec fn int_outcome(
    t: Seq<char>,
    label: Seq<char>,
    signed: bool,
    min: int,
    max: int,
) -> Result<int, (Seq<char>, Seq<char>, Seq<char>)> {
    match parse_int(t, signed, min, max) {
        Some(v) => Ok(v),
        None => Err((t, label, cannot_parse_message(t, label))),
    }
}

/// What a trimmed, non-NULL field reads as in a column of type `target`
/// (not a floating-point type): the value, or the coercion error's value,
/// type and message.
pub open spec fn coerced(t: Seq<char>, target: LogicalTypeID) -> Result<
    ValueView,
    (Seq<char>, Seq<char>, Seq<char>),
> {
    match target {
        LogicalTypeID::Bool => match bool_text(lowercase(t)) {
            Some(b) => Ok(ValueView::Bool(b)),
            None => Err((lowercase(t), "BOOL"@, "expected true/false, 1/0, yes/no, or t/f"@)),
        },
        LogicalTypeID::Int64 | LogicalTypeID::Serial => match int_outcome(
            t,
            "INT64"@,
            true,
            i64::MIN as int,
            i64::MAX as int,
        ) {
            Ok(v) => Ok(ValueView::Int64(v as i64)),
            Err(e) => Err(e),
        },
        LogicalTypeID::Int32 => match int_outcome(t, "INT32"@, true, i32::MIN as int, i32::MAX as int) {
            Ok(v) => Ok(ValueView::Int32(v as i32)),
            Err(e) => Err(e),
        },
        LogicalTypeID::Int16 => match int_outcome(t, "INT16"@, true, i16::MIN as int, i16::MAX as int) {
            Ok(v) => Ok(ValueView::Int16(v as i16)),
            Err(e) => Err(e),
        },
        LogicalTypeID::Int8 => match int_outcome(t, "INT8"@, true, i8::MIN as int, i8::MAX as int) {
            Ok(v) => Ok(ValueView::Int8(v as i8)),
            Err(e) => Err(e),
        },
        LogicalTypeID::UInt64 => match int_outcome(t, "UINT64"@, false, 0, u64::MAX as int) {
            Ok(v) => Ok(ValueView::UInt64(v as u64)),
            Err(e) => Err(e),
        },
        LogicalTypeID::UInt32 => match int_outcome(t, "UINT32"@, false, 0, u32::MAX as int) {
            Ok(v) => Ok(ValueView::UInt32(v as u32)),
            Err(e) => Err(e),
        },
        LogicalTypeID::UInt16 => match int_outcome(t, "UINT16"@, false, 0, u16::MAX as int) {
            Ok(v) => Ok(ValueView::UInt16(v as u16)),
            Err(e) => Err(e),
        },
        LogicalTypeID::UInt8 => match int_outcome(t, "UINT8"@, false, 0, u8::MAX as int) {
            Ok(v) => Ok(ValueView::UInt8(v as u8)),
            Err(e) => Err(e),
        },
        LogicalTypeID::Date => match date_days(t) {
            Ok(d) => Ok(ValueView::Date(d)),
            Err(m) => Err((t, "DATE"@, m)),
        },
        LogicalTypeID::Timestamp | LogicalTypeID::TimestampMs => match timestamp_micros(t) {
            Some(x) => Ok(ValueView::Timestamp(x)),
            None => Err((t, "TIMESTAMP"@, timestamp_format_message())),
        },
        LogicalTypeID::TimestampSec => match timestamp_micros(t) {
            Some(x) => Ok(ValueView::TimestampSec(crate::csv_reader::div_trunc(x as int, 1_000_000) as i64)),
            None => Err((t, "TIMESTAMP_SEC"@, timestamp_format_message())),
        },
        LogicalTypeID::TimestampNs => match timestamp_micros(t) {
            Some(x) if fits_i64(x * 1000) => Ok(ValueView::TimestampNs((x * 1000) as i64)),
            _ => Err((t, "TIMESTAMP_NS"@, timestamp_format_message())),
        },
        LogicalTypeID::TimestampTz => match timestamp_micros(t) {
            Some(x) => Ok(ValueView::TimestampTz(x)),
            None => Err((t, "TIMESTAMP_TZ"@, timestamp_format_message())),
        },
        LogicalTypeID::Interval => match interval_of(t) {
            Some((m, d, us)) => Ok(ValueView::Interval(m as i32, d as i32, us as i64)),
            None => Err(
                (
                    t,
                    "INTERVAL"@,
                    "expected duration format (e.g. '1 year 2 months 3 days 4 hours 5 minutes 6 seconds')"@,
                ),
            ),
        },
        LogicalTypeID::Blob => Ok(ValueView::Blob(blob_bytes(trim(t)))),
        LogicalTypeID::List => Ok(ValueView::List(list_items(t))),
        LogicalTypeID::MapType => Ok(ValueView::MapValue(map_entries(t))),
        LogicalTypeID::Struct | LogicalTypeID::Node | LogicalTypeID::Rel => Ok(
            ValueView::Struct(struct_fields(t)),
        ),
        _ => Ok(ValueView::String(t)),
    }
}

/// Whether a column type is a floating-point type.
pub open spec fn is_float_type(target: LogicalTypeID) -> bool {
    target == LogicalTypeID::Double || target == LogicalTypeID::Float
}

/// The text of a field, trimmed; `None` when it stands for NULL (empty,
/// or `null` in any ASCII case).
pub fn field_text(field: &str) -> (r: Option<String>)
    ensures
        match r {
            Some(t) => t@ == trim(field@) && !(trim(field@).len() == 0 || eq_ascii_case(
                trim(field@),
                "null"@,
            )),
            None => trim(field@).len() == 0 || eq_ascii_case(trim(field@), "null"@),
        },
{
    let cs = chars_of(field);
    let t = crate::text::trimmed(&cs, 0, cs.len());
    proof {
        assert(cs@.subrange(0, cs@.len() as int) =~= cs@);
    }
    if t.as_str().unicode_len() == 0 || eq_ignore_ascii_case(t.as_str(), "null") {
        None
    } else {
        Some(t)
    }
}

/// Read a CSV field as a value of its column's type (floating-point
/// columns excepted): NULL when the trimmed field is empty or `null`,
/// else as `coerced` says, errors naming the line, column and column name.
pub fn coerce_string_to_value(
    field: &str,
    target: LogicalTypeID,
    line: usize,
    column: usize,
    column_name: &str,
) -> (r: Result<Value, CsvReaderError>)
    requires
        !is_float_type(target),
        field@.len() <= i32::MAX,
    ensures
        ({
            let t = trim(field@);
            if t.len() == 0 || eq_ascii_case(t, "null"@) {
                r is Ok && vview(r->Ok_0) == ValueView::Null
            } else {
                match coerced(t, target) {
                    Ok(v) => r is Ok && vview(r->Ok_0) == v,
                    Err((value, label, message)) => r is Err && is_coercion_error(
                        r->Err_0,
                        value,
                        line,
                        column,
                        column_name@,
                        label,
                        message,
                    ),
                }
            }
        }),
{
    let t = match field_text(field) {
        Some(t) => t,
        None => {
            return Ok(Value::Null);
        },
    };
    let ts = t.as_str();
    proof {
        lemma_trim_len(field@);
    }
    match target {
        LogicalTypeID::Bool => coerce_bool(ts, line, column, column_name),
        LogicalTypeID::Int64 | LogicalTypeID::Serial => match coerce_parse(
            ts,
            line,
            column,
            column_name,
            "INT64",
            true,
            i64::MIN as i128,
            i64::MAX as i128,
        ) {
            Ok(v) => Ok(Value::Int64(v as i64)),
            Err(e) => Err(e),
        },
        LogicalTypeID::Int32 => match coerce_parse(
            ts,
            line,
            column,
            column_name,
            "INT32",
            true,
            i32::MIN as i128,
            i32::MAX as i128,
        ) {
            Ok(v) => Ok(Value::Int32(v as i32)),
            Err(e) => Err(e),
        },
        LogicalTypeID::Int16 => match coerce_parse(
            ts,
            line,
            column,
            column_name,
            "INT16",
            true,
            i16::MIN as i128,
            i16::MAX as i128,
        ) {
            Ok(v) => Ok(Value::Int16(v as i16)),
            Err(e) => Err(e),
        },
        LogicalTypeID::Int8 => match coerce_parse(
            ts,
            line,
            column,
            column_name,
            "INT8",
            true,
            i8::MIN as i128,
            i8::MAX as i128,
        ) {
            Ok(v) => Ok(Value::Int8(v as i8)),
            Err(e) => Err(e),
        },
        LogicalTypeID::UInt64 => match coerce_parse(
            ts,
            line,
            column,
            column_name,
            "UINT64",
            false,
            0,
            u64::MAX as i128,
        ) {
            Ok(v) => Ok(Value::UInt64(v as u64)),
            Err(e) => Err(e),
        },
        LogicalTypeID::UInt32 => match coerce_parse(
            ts,
            line,
            column,
            column_name,
            "UINT32",
            false,
            0,
            u32::MAX as i128,
        ) {
            Ok(v) => Ok(Value::UInt32(v as u32)),
            Err(e) => Err(e),
        },
        LogicalTypeID::UInt16 => match coerce_parse(
            ts,
            line,
            column,
            column_name,
            "UINT16",
            false,
            0,
            u16::MAX as i128,
        ) {
            Ok(v) => Ok(Value::UInt16(v as u16)),
            Err(e) => Err(e),
        },
        LogicalTypeID::UInt8 => match coerce_parse(
            ts,
            line,
            column,
            column_name,
            "UINT8",
            false,
            0,
            u8::MAX as i128,
        ) {
            Ok(v) => Ok(Value::UInt8(v as u8)),
            Err(e) => Err(e),
        },
        LogicalTypeID::Date => coerce_date(ts, line, column, column_name),
        LogicalTypeID::Timestamp | LogicalTypeID::TimestampMs => coerce_timestamp(
            ts,
            line,
            column,
            column_name,
        ),
        LogicalTypeID::TimestampSec => coerce_timestamp_sec(ts, line, column, column_name),
        LogicalTypeID::TimestampNs => coerce_timestamp_ns(ts, line, column, column_name),
        LogicalTypeID::TimestampTz => coerce_timestamp_tz(ts, line, column, column_name),
        LogicalTypeID::Interval => coerce_interval(ts, line, column, column_name),
        LogicalTypeID::Blob => Ok(Value::Blob(parse_blob(ts))),
        LogicalTypeID::List => {
            let items = parse_list(ts);
            let v = Value::List(items);
            proof {
                assert(value_views(items@).len() == items@.len());
                assert(vview(v) == ValueView::List(list_items(ts@))) by {
                    let l = vview(v)->List_0;
                    assert(l.len() == items@.len());
                    assert forall|i: int| 0 <= i < l.len() implies l[i] == list_items(ts@)[i] by {
                        assert(value_views(items@)[i] == vview(items@[i]));
                    }
                    assert(l =~= list_items(ts@));
                }
            }
            Ok(v)
        },
        LogicalTypeID::MapType => {
            let entries = parse_map(ts);
            let v = Value::MapValue(entries);
            proof {
                assert(vview(v) == ValueView::MapValue(map_entries(ts@))) by {
                    let l = vview(v)->MapValue_0;
                    assert(l.len() == entries@.len());
                    assert forall|i: int| 0 <= i < l.len() implies l[i] == map_entries(ts@)[i] by {
                        assert(vview((#[trigger] entries@[i]).0) == map_entries(ts@)[i].0);
                    }
                    assert(l =~= map_entries(ts@));
                }
            }
            Ok(v)
        },
        LogicalTypeID::Struct | LogicalTypeID::Node | LogicalTypeID::Rel => {
            let fields = parse_struct(ts);
            let v = Value::Struct(fields);
            proof {
                assert(vview(v) == ValueView::Struct(struct_fields(ts@))) by {
                    let l = vview(v)->Struct_0;
                    assert(l.len() == fields@.len());
                    assert forall|i: int| 0 <= i < l.len() implies l[i] == struct_fields(ts@)[i] by {
                        assert((#[trigger] fields@[i]).0@ == struct_fields(ts@)[i].0);
                    }
                    assert(l =~= struct_fields(ts@));
                }
            }
            Ok(v)
        },
        _ => Ok(Value::String(t)),
    }
}

proof fn lemma_trim_len(s: Seq<char>)
    ensures
        trim(s).len() <= s.len(),
{
    crate::text::lemma_trim_start_len(s);
    crate::text::lemma_trim_end_len(crate::text::trim_start(s));
}

/// Refuse a row whose number of fields is not the number of columns.
pub fn check_field_count(line: usize, expected: usize, actual: usize) -> (r: Result<(), CsvReaderError>)
    ensures
        expected == actual ==> r is Ok,
        expected != actual ==> (r matches Err(
            CsvReaderError::ColumnCountMismatch { line: l, expected: e, actual: a },
        ) && l == line && e == expected && a == actual),
{
    if expected != actual {
        Err(CsvReaderError::ColumnCountMismatch { line, expected, actual })
    } else {
        Ok(())
    }
}

} // verus!
