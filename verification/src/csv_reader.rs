//! CSV reading helpers for COPY FROM: reader options, calendar dates,
//! hex blobs and the splitting of nested list/struct/map literals.

use crate::text::{chars_of, eq_ascii_case, eq_ignore_ascii_case, push_utf8, trim, trim_bounds, trimmed, utf8};
use crate::csv_values::{cannot_parse_message, coerced, is_coercion_error, is_float_type, LogicalTypeID};
use crate::node_group::decimal;
use crate::value_codec::{vview, Value, ValueView};
use std::collections::HashMap;
use vstd::prelude::*;

verus! {

/// Configuration for reading a CSV file.
#[derive(Debug, Clone)]
pub struct CsvReaderConfig {
    /// Field delimiter byte (default `,`).
    pub delimiter: u8,
    /// Whether the first row is a header row (default true).
    pub has_header: bool,
    /// Quote byte (default `"`).
    pub quote: u8,
    /// Escape byte (default `\\`).
    pub escape: u8,
    /// Text standing for NULL (default empty).
    pub null_str: String,
}

/// Errors of CSV reading.
#[derive(Debug)]
pub enum CsvReaderError {
    /// I/O error (file not found, permission denied, ...).
    IoError(std::io::Error),
    /// Format error from the CSV parser.
    CsvError(String),
    /// A field that cannot be read as its column's type.
    TypeCoercion {
        line: usize,
        column: usize,
        column_name: String,
        value: String,
        expected_type: String,
        message: String,
    },
    /// A row with another number of fields than the schema has columns.
    ColumnCountMismatch { line: usize, expected: usize, actual: usize },
}

impl Default for CsvReaderConfig {
    fn default() -> (c: Self)
        ensures
            c.delimiter == 0x2cu8,
            c.has_header,
            c.quote == 0x22u8,
            c.escape == 0x5cu8,
            c.null_str@ == Seq::<char>::empty(),
    {
        CsvReaderConfig {
            delimiter: 0x2cu8,
            has_header: true,
            quote: 0x22u8,
            escape: 0x5cu8,
            null_str: String::new(),
        }
    }
}

/// The value stored under the key whose text is `key`, if any.
pub open spec fn lookup(m: Map<String, String>, key: Seq<char>) -> Option<Seq<char>> {
    if exists|k: String| m.contains_key(k) && k@ == key {
        Some(m[choose|k: String| m.contains_key(k) && k@ == key]@)
    } else {
        None
    }
}

/// The value under the first of two keys that is present.
pub open spec fn lookup_either(m: Map<String, String>, k1: Seq<char>, k2: Seq<char>) -> Option<
    Seq<char>,
> {
    if lookup(m, k1) is Some {
        lookup(m, k1)
    } else {
        lookup(m, k2)
    }
}

/// `HashMap::get` on string keys (std), cloning the value found.
///
/// Looks `key` up by content and returns a copy of the value stored under
/// the key with that text, or `None` when no key has that text.
#[verifier::external_body]
fn get_option(options: &HashMap<String, String>, key: &str) -> (r: Option<String>)
    ensures
        match r {
            Some(v) => lookup(options@, key@) == Some(v@),
            None => lookup(options@, key@) is None,
        },
{
    options.get(key).cloned()
}

fn get_either(options: &HashMap<String, String>, k1: &str, k2: &str) -> (r: Option<String>)
    ensures
        match r {
            Some(v) => lookup_either(options@, k1@, k2@) == Some(v@),
            None => lookup_either(options@, k1@, k2@) is None,
        },
{
    match get_option(options, k1) {
        Some(v) => Some(v),
        None => get_option(options, k2),
    }
}

/// The byte of the first character of an option's text (its low 8 bits),
/// or `dflt` when the option is absent or empty.
pub open spec fn first_byte_or(o: Option<Seq<char>>, dflt: u8) -> u8 {
    match o {
        Some(v) => if v.len() > 0 {
            (v[0] as u32) as u8
        } else {
            dflt
        },
        None => dflt,
    }
}

fn first_byte(v: &String, dflt: u8) -> (b: u8)
    ensures
        b == first_byte_or(Some(v@), dflt),
{
    let chars = chars_of(v.as_str());
    if chars.len() > 0 {
        let c = chars[0];
        (c as u32) as u8
    } else {
        dflt
    }
}

impl CsvReaderConfig {
    /// A configuration from COPY options: `HEADER` (true when its value is
    /// "true" in any case), `DELIM`/`delim`/`DELIMITER`, `QUOTE`, `ESCAPE`
    /// (their first character) and `NULL`; lower-case keys are accepted too.
    /// Absent options keep their defaults.
    pub fn from_options(options: &HashMap<String, String>) -> (c: Self)
        ensures
            c.has_header == match lookup_either(options@, seq!['H', 'E', 'A', 'D', 'E', 'R'], seq!['h', 'e', 'a', 'd', 'e', 'r']) {
                Some(v) => eq_ascii_case(v, seq!['t', 'r', 'u', 'e']),
                None => true,
            },
            c.delimiter == first_byte_or(
                if lookup_either(options@, seq!['D', 'E', 'L', 'I', 'M'], seq!['d', 'e', 'l', 'i', 'm']) is Some {
                    lookup_either(options@, seq!['D', 'E', 'L', 'I', 'M'], seq!['d', 'e', 'l', 'i', 'm'])
                } else {
                    lookup(options@, seq!['D', 'E', 'L', 'I', 'M', 'I', 'T', 'E', 'R'])
                },
                0x2cu8,
            ),
            c.quote == first_byte_or(lookup_either(options@, seq!['Q', 'U', 'O', 'T', 'E'], seq!['q', 'u', 'o', 't', 'e']), 0x22u8),
            c.escape == first_byte_or(lookup_either(options@, seq!['E', 'S', 'C', 'A', 'P', 'E'], seq!['e', 's', 'c', 'a', 'p', 'e']), 0x5cu8),
            c.null_str@ == match lookup_either(options@, seq!['N', 'U', 'L', 'L'], seq!['n', 'u', 'l', 'l']) {
                Some(v) => v,
                None => Seq::<char>::empty(),
            },
    {
        let mut config = CsvReaderConfig::default();
        proof {
            reveal_strlit("HEADER");
            reveal_strlit("header");
            reveal_strlit("true");
            reveal_strlit("DELIM");
            reveal_strlit("delim");
            reveal_strlit("DELIMITER");
            reveal_strlit("QUOTE");
            reveal_strlit("quote");
            reveal_strlit("ESCAPE");
            reveal_strlit("escape");
            reveal_strlit("NULL");
            reveal_strlit("null");
            assert("HEADER"@ =~= seq!['H', 'E', 'A', 'D', 'E', 'R']);
            assert("header"@ =~= seq!['h', 'e', 'a', 'd', 'e', 'r']);
            assert("true"@ =~= seq!['t', 'r', 'u', 'e']);
            assert("DELIM"@ =~= seq!['D', 'E', 'L', 'I', 'M']);
            assert("delim"@ =~= seq!['d', 'e', 'l', 'i', 'm']);
            assert("DELIMITER"@ =~= seq!['D', 'E', 'L', 'I', 'M', 'I', 'T', 'E', 'R']);
            assert("QUOTE"@ =~= seq!['Q', 'U', 'O', 'T', 'E']);
            assert("quote"@ =~= seq!['q', 'u', 'o', 't', 'e']);
            assert("ESCAPE"@ =~= seq!['E', 'S', 'C', 'A', 'P', 'E']);
            assert("escape"@ =~= seq!['e', 's', 'c', 'a', 'p', 'e']);
            assert("NULL"@ =~= seq!['N', 'U', 'L', 'L']);
            assert("null"@ =~= seq!['n', 'u', 'l', 'l']);
        }
        if let Some(d) = get_either(options, "HEADER", "header") {
            config.has_header = eq_ignore_ascii_case(d.as_str(), "true");
        }
        let delim = match get_either(options, "DELIM", "delim") {
            Some(d) => Some(d),
            None => get_option(options, "DELIMITER"),
        };
        if let Some(d) = delim {
            config.delimiter = first_byte(&d, config.delimiter);
        }
        if let Some(q) = get_either(options, "QUOTE", "quote") {
            config.quote = first_byte(&q, config.quote);
        }
        if let Some(e) = get_either(options, "ESCAPE", "escape") {
            config.escape = first_byte(&e, config.escape);
        }
        if let Some(n) = get_either(options, "NULL", "null") {
            config.null_str = n;
        }
        config
    }
}

/// Quotient of `a` by a positive `b`, rounded toward zero.
pub open spec fn div_trunc(a: int, b: int) -> int {
    if a >= 0 {
        a / b
    } else {
        -((-a) / b)
    }
}

/// Days since 1970-01-01 of a civil date, for a month in 1..=12 and a day
/// in 1..=31 (days past the end of a month count on into the next).
pub open spec fn epoch_days(year: int, month: int, day: int) -> int {
    let y = if month <= 2 {
        year - 1
    } else {
        year
    };
    let m = if month <= 2 {
        month + 12
    } else {
        month
    };
    let era = div_trunc(
        if y >= 0 {
            y
        } else {
            y - 399
        },
        400,
    );
    let yoe = y - era * 400;
    let doy = div_trunc(153 * (m - 3) + 2, 5) + day;
    let doe = yoe * 365 + div_trunc(yoe, 4) - div_trunc(yoe, 100) + doy;
    era * 146097 + doe - 719469
}

/// Whether `year` is a leap year of the Gregorian calendar (divisible by
/// 4, and not by 100 unless by 400).
pub open spec fn leap_year(year: int) -> bool {
    let a = if year < 0 {
        -year
    } else {
        year
    };
    a % 4 == 0 && (a % 100 != 0 || a % 400 == 0)
}

/// The number of days of `month` (1..=12) in `year`.
pub open spec fn days_in_month(year: int, month: int) -> int {
    if month == 2 {
        if leap_year(year) {
            29
        } else {
            28
        }
    } else if month == 4 || month == 6 || month == 9 || month == 11 {
        30
    } else {
        31
    }
}

/// Whether `year`-`month`-`day` is a calendar date.
pub open spec fn valid_date(year: int, month: int, day: int) -> bool {
    1 <= month <= 12 && 1 <= day <= days_in_month(year, month)
}

/// Days from 0000-03-01 to the first of March of year `y` (years
/// counted from March).
spec fn march_days(y: int) -> int {
    let era = div_trunc(
        if y >= 0 {
            y
        } else {
            y - 399
        },
        400,
    );
    let yoe = y - era * 400;
    era * 146097 + yoe * 365 + div_trunc(yoe, 4) - div_trunc(yoe, 100)
}

proof fn lemma_era(y: int)
    ensures
        div_trunc(
            if y >= 0 {
                y
            } else {
                y - 399
            },
            400,
        ) == y / 400,
{
    if y < 0 {
        let q = y / 400;
        let r = y % 400;
        assert(y == q * 400 + r);
        vstd::arithmetic::div_mod::lemma_fundamental_div_mod_converse(399 - y, 400, -q, 399 - r);
    }
}

/// Divisibility of `-y` by 4, 100 and 400 is that of `y`.
proof fn lemma_neg_divisible(y: int)
    ensures
        ((-y) % 4 == 0) == (y % 4 == 0),
        ((-y) % 100 == 0) == (y % 100 == 0),
        ((-y) % 400 == 0) == (y % 400 == 0),
{
    let (q4, r4) = (y / 4, y % 4);
    if r4 == 0 {
        vstd::arithmetic::div_mod::lemma_fundamental_div_mod_converse(-y, 4, -q4, 0);
    } else {
        vstd::arithmetic::div_mod::lemma_fundamental_div_mod_converse(-y, 4, -q4 - 1, 4 - r4);
    }
    let (q1, r1) = (y / 100, y % 100);
    if r1 == 0 {
        vstd::arithmetic::div_mod::lemma_fundamental_div_mod_converse(-y, 100, -q1, 0);
    } else {
        vstd::arithmetic::div_mod::lemma_fundamental_div_mod_converse(-y, 100, -q1 - 1, 100 - r1);
    }
    let (q2, r2) = (y / 400, y % 400);
    if r2 == 0 {
        vstd::arithmetic::div_mod::lemma_fundamental_div_mod_converse(-y, 400, -q2, 0);
    } else {
        vstd::arithmetic::div_mod::lemma_fundamental_div_mod_converse(-y, 400, -q2 - 1, 400 - r2);
    }
}

/// A March-to-March year has 366 days exactly when it ends in a leap
/// February.
proof fn lemma_march_year(y: int)
    ensures
        march_days(y) - march_days(y - 1) == if leap_year(y) {
            366int
        } else {
            365int
        },
{
    lemma_era(y);
    lemma_era(y - 1);
    lemma_neg_divisible(y);
    let q = y / 400;
    let r = y % 400;
    assert(y == q * 400 + r);
    if r >= 1 {
        vstd::arithmetic::div_mod::lemma_fundamental_div_mod_converse(y - 1, 400, q, r - 1);
        assert(y % 4 == r % 4) by {
            vstd::arithmetic::div_mod::lemma_fundamental_div_mod_converse(y, 4, q * 100 + r / 4, r % 4);
        }
        assert(y % 100 == r % 100) by {
            vstd::arithmetic::div_mod::lemma_fundamental_div_mod_converse(y, 100, q * 4 + r / 100, r % 100);
        }
    } else {
        vstd::arithmetic::div_mod::lemma_fundamental_div_mod_converse(y - 1, 400, q - 1, 399);
        assert(y % 4 == 0 && y % 100 == 0) by {
            vstd::arithmetic::div_mod::lemma_fundamental_div_mod_converse(y, 4, q * 100, 0);
            vstd::arithmetic::div_mod::lemma_fundamental_div_mod_converse(y, 100, q * 4, 0);
        }
    }
}

/// The calendar: January, March, May, July, August, October and December
/// have 31 days; April, June, September and November 30; February 29 in a
/// leap year (divisible by 4, and not by 100 unless by 400) and 28
/// otherwise. A date is valid exactly when its month is 1..=12 and its day
/// lies within that month.
pub proof fn law_month_lengths(y: int, m: int, d: int)
    ensures
        (m == 1 || m == 3 || m == 5 || m == 7 || m == 8 || m == 10 || m == 12) ==> days_in_month(y, m) == 31,
        (m == 4 || m == 6 || m == 9 || m == 11) ==> days_in_month(y, m) == 30,
        m == 2 ==> days_in_month(y, m) == if y % 4 == 0 && (y % 100 != 0 || y % 400 == 0) {
            29int
        } else {
            28int
        },
        valid_date(y, m, d) == (1 <= m <= 12 && 1 <= d <= days_in_month(y, m)),
{
    lemma_neg_divisible(y);
}

/// Day counts run on without gaps: 1970-01-01 is day 0, the next day of a
/// month is one day later, the first of a month follows the last day of
/// the month before, and January 1st follows December 31st.
pub proof fn law_epoch_days_consecutive(y: int, m: int, d: int)
    ensures
        epoch_days(1970, 1, 1) == 0,
        1 <= m <= 12 && 1 <= d < days_in_month(y, m) ==> epoch_days(y, m, d + 1) == epoch_days(y, m, d) + 1,
        1 <= m < 12 ==> epoch_days(y, m + 1, 1) == epoch_days(y, m, days_in_month(y, m)) + 1,
        epoch_days(y + 1, 1, 1) == epoch_days(y, 12, 31) + 1,
{
    lemma_era(1969);
    assert(epoch_days(1970, 1, 1) == 0);
    if 1 <= m < 12 {
        if m == 2 {
            lemma_march_year(y);
            assert(epoch_days(y, 3, 1) == march_days(y) + 1 - 719469);
            assert(epoch_days(y, 2, days_in_month(y, 2)) == march_days(y - 1) + 337 + days_in_month(y, 2) - 719469);
        }
    }
}

fn month_length(year: i32, month: u32) -> (n: u32)
    requires
        1 <= month <= 12,
    ensures
        n == days_in_month(year as int, month as int),
{
    if month == 2 {
        let a: i64 = if year < 0 {
            -(year as i64)
        } else {
            year as i64
        };
        if a % 4 == 0 && (a % 100 != 0 || a % 400 == 0) {
            29
        } else {
            28
        }
    } else if month == 4 || month == 6 || month == 9 || month == 11 {
        30
    } else {
        31
    }
}

/// Days since the Unix epoch of `year`-`month`-`day`; `None` when that is
/// no calendar date (the month not in 1..=12, or the day not within the
/// month, leap years counted). The result is the low 32 bits of the day
/// count.
pub fn naive_date_to_epoch_days(year: i32, month: u32, day: u32) -> (r: Option<i32>)
    ensures
        valid_date(year as int, month as int, day as int) ==> r == Some(
            epoch_days(year as int, month as int, day as int) as i32,
        ),
        !valid_date(year as int, month as int, day as int) ==> r is None,
{
    if month < 1 || month > 12 || day < 1 || day > month_length(year, month) {
        return None;
    }
    let y: i64 = if month <= 2 {
        year as i64 - 1
    } else {
        year as i64
    };
    let m: i64 = if month <= 2 {
        month as i64 + 12
    } else {
        month as i64
    };
    let shifted: i64 = if y >= 0 {
        y
    } else {
        y - 399
    };
    let era: i64 = shifted / 400;
    proof {
        assert(era == div_trunc(shifted as int, 400));
    }
    let yoe: i64 = y - era * 400;
    let doy: i64 = (153 * (m - 3) + 2) / 5 + day as i64;
    let doe: i64 = yoe * 365 + yoe / 4 - yoe / 100 + doy;
    let days: i64 = era * 146097 + doe - 719469;
    Some(days as i32)
}

// ------------------------------------------------------------------
// Blobs
// ------------------------------------------------------------------

/// Value of a hexadecimal digit.
pub open spec fn hex_digit(c: char) -> Option<u8> {
    if '0' <= c <= '9' {
        Some((c as u32 - '0' as u32) as u8)
    } else if 'a' <= c <= 'f' {
        Some((c as u32 - 'a' as u32 + 10) as u8)
    } else if 'A' <= c <= 'F' {
        Some((c as u32 - 'A' as u32 + 10) as u8)
    } else {
        None
    }
}

/// The UTF-8 encoding of a sequence of characters.
pub open spec fn utf8_all(s: Seq<char>) -> Seq<u8>
    decreases s.len(),
{
    if s.len() == 0 {
        Seq::empty()
    } else {
        utf8(s[0]) + utf8_all(s.drop_first())
    }
}

/// The byte read from the up to two characters after `\x`: two hex digits,
/// or a plus sign and one hex digit (radix-16 parsing of a two-byte text);
/// `None` for anything else.
pub open spec fn hex_escape_byte(h: Seq<char>) -> Option<u8> {
    if h.len() == 2 && h[0] == '+' && hex_digit(h[1]) is Some {
        hex_digit(h[1])
    } else if h.len() == 2 && hex_digit(h[0]) is Some && hex_digit(h[1]) is Some {
        Some((16 * (hex_digit(h[0])->0 as nat) + hex_digit(h[1])->0 as nat) as u8)
    } else {
        None
    }
}

/// Bytes of a blob literal: `\xHH` escapes become the byte they spell,
/// other characters their UTF-8 bytes; an escape that does not spell a
/// byte is kept literally.
pub open spec fn blob_bytes(v: Seq<char>) -> Seq<u8>
    decreases v.len(),
{
    if v.len() == 0 {
        Seq::empty()
    } else if v.len() >= 2 && v[0] == '\\' && v[1] == 'x' {
        let end = if v.len() < 4 {
            v.len() as int
        } else {
            4
        };
        let h = v.subrange(2, end);
        let head = match hex_escape_byte(h) {
            Some(b) => seq![b],
            None => seq![0x5cu8, 0x78u8] + utf8_all(h),
        };
        head + blob_bytes(v.subrange(end, v.len() as int))
    } else {
        utf8(v[0]) + blob_bytes(v.drop_first())
    }
}

fn hex_digit_of(c: char) -> (r: Option<u8>)
    ensures
        r == hex_digit(c),
{
    if '0' <= c && c <= '9' {
        Some(((c as u32) - ('0' as u32)) as u8)
    } else if 'a' <= c && c <= 'f' {
        Some(((c as u32) - ('a' as u32) + 10) as u8)
    } else if 'A' <= c && c <= 'F' {
        Some(((c as u32) - ('A' as u32) + 10) as u8)
    } else {
        None
    }
}

proof fn lemma_utf8_all_two(a: char, b: char)
    ensures
        utf8_all(seq![a, b]) == utf8(a) + utf8(b),
{
    assert(seq![a, b].drop_first() =~= seq![b]);
    lemma_utf8_all_one(b);
}

proof fn lemma_utf8_all_one(a: char)
    ensures
        utf8_all(seq![a]) == utf8(a),
{
    assert(seq![a].drop_first() =~= Seq::<char>::empty());
    assert(utf8_all(Seq::<char>::empty()) == Seq::<u8>::empty());
    assert(utf8_all(seq![a]) == utf8(a) + utf8_all(Seq::<char>::empty()));
    assert(utf8(a) + Seq::<u8>::empty() =~= utf8(a));
}

/// Bytes of a blob literal (surrounding white space ignored): `\xHH` hex
/// escapes give the byte, any other character its UTF-8 bytes.
pub fn parse_blob(s: &str) -> (r: Vec<u8>)
    ensures
        r@ == blob_bytes(trim(s@)),
{
    let chars = chars_of(s);
    let (lo, hi) = trim_bounds(chars.as_slice(), 0, chars.len());
    proof {
        assert(chars@.subrange(0, chars@.len() as int) =~= chars@);
    }
    let ghost v = chars@.subrange(lo as int, hi as int);
    let mut result: Vec<u8> = Vec::new();
    let mut i = lo;
    while i < hi
        invariant
            lo <= i <= hi,
            hi <= chars@.len(),
            v == chars@.subrange(lo as int, hi as int),
            result@ + blob_bytes(chars@.subrange(i as int, hi as int)) == blob_bytes(v),
        decreases hi - i,
    {
        let ghost rest = chars@.subrange(i as int, hi as int);
        let ghost before = result@;
        if chars[i] == '\\' && i + 1 < hi && chars[i + 1] == 'x' {
            let j = i + 2;
            let end = if hi - j < 2 {
                hi
            } else {
                j + 2
            };
            proof {
                assert(rest[0] == '\\' && rest[1] == 'x');
                let rend = if rest.len() < 4 { rest.len() as int } else { 4 };
                assert(rend == end - i);
                assert(rest.subrange(2, rend) =~= chars@.subrange(j as int, end as int));
                assert(rest.subrange(rend, rest.len() as int) =~= chars@.subrange(end as int, hi as int));
            }
            let mut byte: Option<u8> = None;
            if end - j == 2 {
                if chars[j] == '+' {
                    match hex_digit_of(chars[j + 1]) {
                        Some(d) => {
                            byte = Some(d);
                        },
                        None => {},
                    }
                } else {
                    match (hex_digit_of(chars[j]), hex_digit_of(chars[j + 1])) {
                        (Some(d1), Some(d2)) => {
                            byte = Some(16 * d1 + d2);
                        },
                        _ => {},
                    }
                }
            }
            proof {
                let h = chars@.subrange(j as int, end as int);
                if end - j == 2 {
                    assert(h[0] == chars@[j as int] && h[1] == chars@[j + 1]);
                }
                assert(byte == hex_escape_byte(h));
            }
            match byte {
                Some(b) => {
                    result.push(b);
                },
                None => {
                    result.push(0x5cu8);
                    result.push(0x78u8);
                    let mut k = j;
                    while k < end
                        invariant
                            j <= k <= end,
                            end <= j + 2,
                            end <= hi,
                            hi <= chars@.len(),
                            result@ == before + seq![0x5cu8, 0x78u8] + utf8_all(
                                chars@.subrange(j as int, k as int),
                            ),
                        decreases end - k,
                    {
                        proof {
                            if k == j {
                                assert(chars@.subrange(j as int, k + 1) =~= seq![chars@[k as int]]);
                                lemma_utf8_all_one(chars@[k as int]);
                                assert(chars@.subrange(j as int, k as int) =~= Seq::<char>::empty());
                            } else {
                                assert(chars@.subrange(j as int, k + 1) =~= seq![
                                    chars@[j as int],
                                    chars@[k as int],
                                ]);
                                assert(chars@.subrange(j as int, k as int) =~= seq![chars@[j as int]]);
                                lemma_utf8_all_two(chars@[j as int], chars@[k as int]);
                                lemma_utf8_all_one(chars@[j as int]);
                            }
                        }
                        push_utf8(&mut result, chars[k]);
                        proof {
                            assert(result@ =~= before + seq![0x5cu8, 0x78u8] + utf8_all(
                                chars@.subrange(j as int, k + 1),
                            ));
                        }
                        k = k + 1;
                    }
                },
            }
            proof {
                assert(result@ + blob_bytes(chars@.subrange(end as int, hi as int)) =~= before
                    + blob_bytes(rest));
            }
            i = end;
        } else {
            proof {
                assert(rest.drop_first() =~= chars@.subrange(i + 1, hi as int));
            }
            push_utf8(&mut result, chars[i]);
            proof {
                assert(result@ + blob_bytes(chars@.subrange(i + 1, hi as int)) =~= before
                    + blob_bytes(rest));
            }
            i = i + 1;
        }
    }
    proof {
        assert(chars@.subrange(hi as int, hi as int) =~= Seq::<char>::empty());
        assert(result@ =~= blob_bytes(v));
    }
    result
}

// ------------------------------------------------------------------
// Splitting
// ------------------------------------------------------------------

/// State of a left-to-right split: the finished parts, the part being
/// read, the nesting depths and whether a quote is open.
pub struct SplitState {
    pub parts: Seq<Seq<char>>,
    pub current: Seq<char>,
    pub brace: int,
    pub bracket: int,
    pub paren: int,
    pub in_quotes: bool,
}

/// The state before any character.
pub open spec fn split_start() -> SplitState {
    SplitState {
        parts: Seq::empty(),
        current: Seq::empty(),
        brace: 0,
        bracket: 0,
        paren: 0,
        in_quotes: false,
    }
}

/// One character of a top-level split: quotes toggle quoting (and are
/// kept), brackets outside quotes change the depths (and are kept), the
/// delimiter outside quotes and at depth zero ends a part (trimmed), any
/// other character is kept.
pub open spec fn top_level_step(st: SplitState, c: char, d: char) -> SplitState {
    if c == '"' {
        SplitState { in_quotes: !st.in_quotes, current: st.current.push(c), ..st }
    } else if c == '{' && !st.in_quotes {
        SplitState { brace: st.brace + 1, current: st.current.push(c), ..st }
    } else if c == '}' && !st.in_quotes {
        SplitState { brace: st.brace - 1, current: st.current.push(c), ..st }
    } else if c == '[' && !st.in_quotes {
        SplitState { bracket: st.bracket + 1, current: st.current.push(c), ..st }
    } else if c == ']' && !st.in_quotes {
        SplitState { bracket: st.bracket - 1, current: st.current.push(c), ..st }
    } else if c == '(' && !st.in_quotes {
        SplitState { paren: st.paren + 1, current: st.current.push(c), ..st }
    } else if c == ')' && !st.in_quotes {
        SplitState { paren: st.paren - 1, current: st.current.push(c), ..st }
    } else if c == d && !st.in_quotes && st.brace == 0 && st.bracket == 0 && st.paren == 0 {
        SplitState { parts: st.parts.push(trim(st.current)), current: Seq::empty(), ..st }
    } else {
        SplitState { current: st.current.push(c), ..st }
    }
}

/// The state of a top-level split after all of `s`.
pub open spec fn top_level_run(s: Seq<char>, d: char) -> SplitState
    decreases s.len(),
{
    if s.len() == 0 {
        split_start()
    } else {
        top_level_step(top_level_run(s.drop_last(), d), s.last(), d)
    }
}

/// The fields of `s` separated by `d` at nesting depth zero and outside
/// quotes, each trimmed.
pub open spec fn top_level_fields(s: Seq<char>, d: char) -> Seq<Seq<char>> {
    top_level_run(s, d).parts.push(trim(top_level_run(s, d).current))
}

/// One character of a quote-aware split: quotes toggle quoting (and are
/// dropped), the delimiter outside quotes ends a part (trimmed), any other
/// character is kept.
pub open spec fn quoted_step(st: SplitState, c: char, d: char) -> SplitState {
    if c == '"' {
        SplitState { in_quotes: !st.in_quotes, ..st }
    } else if c == d && !st.in_quotes {
        SplitState { parts: st.parts.push(trim(st.current)), current: Seq::empty(), ..st }
    } else {
        SplitState { current: st.current.push(c), ..st }
    }
}

/// The state of a quote-aware split after all of `s`.
pub open spec fn quoted_run(s: Seq<char>, d: char) -> SplitState
    decreases s.len(),
{
    if s.len() == 0 {
        split_start()
    } else {
        quoted_step(quoted_run(s.drop_last(), d), s.last(), d)
    }
}

/// The fields of `s` separated by `d` outside double quotes, quotes
/// removed, each trimmed.
pub open spec fn quoted_fields(s: Seq<char>, d: char) -> Seq<Seq<char>> {
    quoted_run(s, d).parts.push(trim(quoted_run(s, d).current))
}

/// The views of a vector of strings.
pub open spec fn string_views(v: Seq<String>) -> Seq<Seq<char>> {
    v.map_values(|x: String| x@)
}

/// Split `s` by `delimiter` outside double quotes; quotes are dropped and
/// each field is trimmed.
pub fn split_csv_respecting_quotes(s: &str, delimiter: char) -> (r: Vec<String>)
    ensures
        string_views(r@) == quoted_fields(s@, delimiter),
{
    let chars = chars_of(s);
    let mut parts: Vec<String> = Vec::new();
    let mut current: Vec<char> = Vec::new();
    let mut in_quotes = false;
    let mut i: usize = 0;
    while i < chars.len()
        invariant
            i <= chars@.len(),
            chars@ == s@,
            ({
                let st = quoted_run(chars@.subrange(0, i as int), delimiter);
                &&& string_views(parts@) == st.parts
                &&& current@ == st.current
                &&& in_quotes == st.in_quotes
            }),
        decreases chars@.len() - i,
    {
        let c = chars[i];
        proof {
            assert(chars@.subrange(0, i + 1).drop_last() =~= chars@.subrange(0, i as int));
        }
        if c == '"' {
            in_quotes = !in_quotes;
        } else if c == delimiter && !in_quotes {
            let part = trimmed(current.as_slice(), 0, current.len());
            proof {
                assert(current@.subrange(0, current@.len() as int) =~= current@);
            }
            parts.push(part);
            current = Vec::new();
        } else {
            current.push(c);
        }
        proof {
            assert(string_views(parts@) =~= quoted_run(chars@.subrange(0, i + 1), delimiter).parts);
        }
        i = i + 1;
    }
    let last = trimmed(current.as_slice(), 0, current.len());
    proof {
        assert(current@.subrange(0, current@.len() as int) =~= current@);
        assert(chars@.subrange(0, chars@.len() as int) =~= chars@);
    }
    parts.push(last);
    proof {
        assert(string_views(parts@) =~= quoted_fields(s@, delimiter));
    }
    parts
}

/// Split `s` by `delimiter` where quotes are closed and braces, brackets
/// and parentheses balanced; each field is trimmed.
pub fn split_top_level(s: &str, delimiter: char) -> (r: Vec<String>)
    requires
        s@.len() <= i32::MAX,
    ensures
        string_views(r@) == top_level_fields(s@, delimiter),
{
    let chars = chars_of(s);
    let mut parts: Vec<String> = Vec::new();
    let mut current: Vec<char> = Vec::new();
    let mut depth_brace: i32 = 0;
    let mut depth_bracket: i32 = 0;
    let mut depth_paren: i32 = 0;
    let mut in_quotes = false;
    let mut i: usize = 0;
    while i < chars.len()
        invariant
            i <= chars@.len(),
            chars@ == s@,
            chars@.len() <= i32::MAX,
            -(i as int) <= depth_brace <= i,
            -(i as int) <= depth_bracket <= i,
            -(i as int) <= depth_paren <= i,
            ({
                let st = top_level_run(chars@.subrange(0, i as int), delimiter);
                &&& string_views(parts@) == st.parts
                &&& current@ == st.current
                &&& in_quotes == st.in_quotes
                &&& depth_brace == st.brace
                &&& depth_bracket == st.bracket
                &&& depth_paren == st.paren
            }),
        decreases chars@.len() - i,
    {
        let c = chars[i];
        proof {
            assert(chars@.subrange(0, i + 1).drop_last() =~= chars@.subrange(0, i as int));
        }
        if c == '"' {
            in_quotes = !in_quotes;
            current.push(c);
        } else if c == '{' && !in_quotes {
            depth_brace = depth_brace + 1;
            current.push(c);
        } else if c == '}' && !in_quotes {
            depth_brace = depth_brace - 1;
            current.push(c);
        } else if c == '[' && !in_quotes {
            depth_bracket = depth_bracket + 1;
            current.push(c);
        } else if c == ']' && !in_quotes {
            depth_bracket = depth_bracket - 1;
            current.push(c);
        } else if c == '(' && !in_quotes {
            depth_paren = depth_paren + 1;
            current.push(c);
        } else if c == ')' && !in_quotes {
            depth_paren = depth_paren - 1;
            current.push(c);
        } else if c == delimiter && !in_quotes && depth_brace == 0 && depth_bracket == 0
            && depth_paren == 0 {
            let part = trimmed(current.as_slice(), 0, current.len());
            proof {
                assert(current@.subrange(0, current@.len() as int) =~= current@);
            }
            parts.push(part);
            current = Vec::new();
        } else {
            current.push(c);
        }
        proof {
            assert(string_views(parts@) =~= top_level_run(chars@.subrange(0, i + 1), delimiter).parts);
        }
        i = i + 1;
    }
    let last = trimmed(current.as_slice(), 0, current.len());
    proof {
        assert(current@.subrange(0, current@.len() as int) =~= current@);
        assert(chars@.subrange(0, chars@.len() as int) =~= chars@);
    }
    parts.push(last);
    proof {
        assert(string_views(parts@) =~= top_level_fields(s@, delimiter));
    }
    parts
}


// ------------------------------------------------------------------
// Reading a whole CSV text into typed rows
// ------------------------------------------------------------------

/// A column of the schema a CSV text is read with.
#[derive(Debug, Clone)]
pub struct CsvColumn {
    pub name: String,
    pub logical_type: LogicalTypeID,
}

/// A parsed record: its fields, or the parser's error text.
pub open spec fn record_view(r: Result<Vec<String>, String>) -> Result<Seq<Seq<char>>, Seq<char>> {
    match r {
        Ok(v) => Ok(string_views(v@)),
        Err(e) => Err(e@),
    }
}

/// A parse of a CSV text: the first row (or the parser's error on it) and
/// the records the parser yields, in order.
pub open spec fn parsed_view(p: (Result<Vec<String>, String>, Vec<Result<Vec<String>, String>>)) -> (
    Result<Seq<Seq<char>>, Seq<char>>,
    Seq<Result<Seq<Seq<char>>, Seq<char>>>,
) {
    (record_view(p.0), p.1@.map_values(|r: Result<Vec<String>, String>| record_view(r)))
}

/// What the `csv` crate's reader, set up with these options (flexible
/// record lengths), reads from `data`: its header row and its records.
pub uninterp spec fn csv_records(data: Seq<u8>, delimiter: u8, has_header: bool, quote: u8, escape: u8) -> (
    Result<Seq<Seq<char>>, Seq<char>>,
    Seq<Result<Seq<Seq<char>>, Seq<char>>>,
);

/// Parses `data` with `csv::ReaderBuilder` (the given delimiter, header
/// flag, quote and escape bytes, flexible record lengths): `headers()` then
/// every item of `records()`, each record's fields as strings and each
/// error as its display text. Trusted: the result is `csv_records` of the
/// arguments; there are no more records than bytes, and no field has more
/// characters than `data` has bytes (the parser only drops quote and escape
/// bytes from the input).
#[verifier::external_body]
fn parse_csv(data: &[u8], delimiter: u8, has_header: bool, quote: u8, escape: u8) -> (r: (
    Result<Vec<String>, String>,
    Vec<Result<Vec<String>, String>>,
))
    ensures
        parsed_view(r) == csv_records(data@, delimiter, has_header, quote, escape),
        r.1.len() <= data.len(),
        forall|i: int, j: int|
            0 <= i < r.1.len() && #[trigger] r.1@[i] is Ok && 0 <= j < r.1@[i]->Ok_0.len() ==> (
            #[trigger] r.1@[i]->Ok_0@[j])@.len() <= data.len(),
{
    let mut rdr = csv::ReaderBuilder::new().delimiter(delimiter).has_headers(has_header).quote(quote)
        .escape(Some(escape)).flexible(true).from_reader(data);
    let header = rdr.headers().map(|h| h.iter().map(String::from).collect()).map_err(|e| e.to_string());
    let records = rdr.records().map(
        |r| r.map(|x| x.iter().map(String::from).collect()).map_err(|e| e.to_string()),
    ).collect();
    (header, records)
}

/// The name of a floating-point column type in errors.
pub open spec fn float_label(ty: LogicalTypeID) -> Seq<char> {
    if ty == LogicalTypeID::Double {
        "DOUBLE"@
    } else {
        "FLOAT"@
    }
}

/// `o` is an outcome `float_field` may give on a text viewed as `t`.
pub open spec fn float_outcome<F: Fn(String, LogicalTypeID) -> Option<Value>>(
    float_field: F,
    t: Seq<char>,
    ty: LogicalTypeID,
    o: Option<Value>,
) -> bool {
    exists|s: String| s@ == t && #[trigger] call_ensures(float_field, (s, ty), o)
}

/// `r` is what a field reads as in column `col` at `line` and `column`:
/// NULL for an empty or `null` field; for a floating-point column the value
/// `float_field` gives on the trimmed text, or a coercion error when it
/// gives none; for any other column as `coerced` says.
pub open spec fn cell_result<F: Fn(String, LogicalTypeID) -> Option<Value>>(
    float_field: F,
    field: Seq<char>,
    col: CsvColumn,
    line: int,
    column: int,
    r: Result<Value, CsvReaderError>,
) -> bool {
    let t = trim(field);
    let ty = col.logical_type;
    if t.len() == 0 || eq_ascii_case(t, "null"@) {
        r is Ok && vview(r->Ok_0) == ValueView::Null
    } else if is_float_type(ty) {
        match r {
            Ok(v) => float_outcome(float_field, t, ty, Some(v)),
            Err(e) => float_outcome(float_field, t, ty, None) && is_coercion_error(
                e,
                t,
                line as usize,
                column as usize,
                col.name@,
                float_label(ty),
                cannot_parse_message(t, float_label(ty)),
            ),
        }
    } else {
        match coerced(t, ty) {
            Ok(v) => r is Ok && vview(r->Ok_0) == v,
            Err((value, label, message)) => r is Err && is_coercion_error(
                r->Err_0,
                value,
                line as usize,
                column as usize,
                col.name@,
                label,
                message,
            ),
        }
    }
}

/// `row` is what the fields of the record at `line` read as, every one of
/// them well.
pub open spec fn row_read<F: Fn(String, LogicalTypeID) -> Option<Value>>(
    float_field: F,
    fields: Seq<Seq<char>>,
    cols: Seq<CsvColumn>,
    line: int,
    row: Seq<Value>,
) -> bool {
    &&& fields.len() == cols.len()
    &&& row.len() == cols.len()
    &&& forall|j: int|
        0 <= j < row.len() ==> #[trigger] cell_result(float_field, fields[j], cols[j], line, j, Ok(row[j]))
}

/// The fields before column `j` read as `pre`, and field `j` fails with `e`.
pub open spec fn fails_at<F: Fn(String, LogicalTypeID) -> Option<Value>>(
    float_field: F,
    fields: Seq<Seq<char>>,
    cols: Seq<CsvColumn>,
    line: int,
    j: int,
    pre: Seq<Value>,
    e: CsvReaderError,
) -> bool {
    &&& 0 <= j < cols.len()
    &&& pre.len() == j
    &&& forall|k: int|
        0 <= k < j ==> #[trigger] cell_result(float_field, fields[k], cols[k], line, k, Ok(pre[k]))
    &&& cell_result(float_field, fields[j], cols[j], line, j, Err(e))
}

/// `e` is the error the record at `line` is refused with: the parser's
/// error with the line before it, a field count other than the number of
/// columns, or the first field that does not read as its column's type.
pub open spec fn record_refused<F: Fn(String, LogicalTypeID) -> Option<Value>>(
    float_field: F,
    rec: Result<Seq<Seq<char>>, Seq<char>>,
    cols: Seq<CsvColumn>,
    line: int,
    e: CsvReaderError,
) -> bool {
    match rec {
        Err(m) => e matches CsvReaderError::CsvError(s) && s@ == "Line "@ + decimal(line as nat) + ": "@ + m,
        Ok(fields) => if fields.len() != cols.len() {
            e matches CsvReaderError::ColumnCountMismatch { line: l, expected: x, actual: a } && l
                == line && x == cols.len() && a == fields.len()
        } else {
            exists|j: int, pre: Seq<Value>| #[trigger] fails_at(float_field, fields, cols, line, j, pre, e)
        },
    }
}

/// `row` is what the record at `line` reads as.
pub open spec fn record_read<F: Fn(String, LogicalTypeID) -> Option<Value>>(
    float_field: F,
    rec: Result<Seq<Seq<char>>, Seq<char>>,
    cols: Seq<CsvColumn>,
    line: int,
    row: Seq<Value>,
) -> bool {
    rec is Ok && row_read(float_field, rec->Ok_0, cols, line, row)
}

/// The line of the first record: 2 after a header row, else 1.
pub open spec fn first_line(has_header: bool) -> int {
    if has_header {
        2
    } else {
        1
    }
}

/// The records before `i` read as `pre`, and record `i` is refused with `e`.
pub open spec fn refused_at<F: Fn(String, LogicalTypeID) -> Option<Value>>(
    float_field: F,
    records: Seq<Result<Seq<Seq<char>>, Seq<char>>>,
    cols: Seq<CsvColumn>,
    start: int,
    i: int,
    pre: Seq<Seq<Value>>,
    e: CsvReaderError,
) -> bool {
    &&& 0 <= i < records.len()
    &&& pre.len() == i
    &&& forall|k: int|
        0 <= k < i ==> #[trigger] record_read(float_field, records[k], cols, start + k, pre[k])
    &&& record_refused(float_field, records[i], cols, start + i, e)
}

/// `r` is what reading a parsed CSV text with columns `cols` gives: the
/// header row's parse error; a header (or, without one, the schema) whose
/// width is not the number of columns, at line 1; else every record read
/// as a row, or the first record refused.
pub open spec fn csv_result<F: Fn(String, LogicalTypeID) -> Option<Value>>(
    float_field: F,
    parsed: (Result<Seq<Seq<char>>, Seq<char>>, Seq<Result<Seq<Seq<char>>, Seq<char>>>),
    cols: Seq<CsvColumn>,
    has_header: bool,
    r: Result<Vec<Vec<Value>>, CsvReaderError>,
) -> bool {
    let width = if has_header {
        parsed.0->Ok_0.len()
    } else {
        cols.len()
    };
    if has_header && parsed.0 is Err {
        r matches Err(CsvReaderError::CsvError(s)) && s@ == parsed.0->Err_0
    } else if width != cols.len() {
        r matches Err(CsvReaderError::ColumnCountMismatch { line: l, expected: x, actual: a }) && l == 1
            && x == cols.len() && a == width
    } else {
        match r {
            Ok(rows) => rows@.len() == parsed.1.len() && forall|i: int|
                0 <= i < rows@.len() ==> #[trigger] record_read(
                    float_field,
                    parsed.1[i],
                    cols,
                    first_line(has_header) + i,
                    rows@[i]@,
                ),
            Err(e) => exists|i: int, pre: Seq<Seq<Value>>|
                #[trigger] refused_at(float_field, parsed.1, cols, first_line(has_header), i, pre, e),
        }
    }
}


/// Whether a column type is a floating-point type.
fn float_column(ty: LogicalTypeID) -> (b: bool)
    ensures
        b == is_float_type(ty),
{
    match ty {
        LogicalTypeID::Double | LogicalTypeID::Float => true,
        _ => false,
    }
}

/// Read one field as its column's type; floating-point text is read by
/// `float_field`.
fn read_cell<F: Fn(String, LogicalTypeID) -> Option<Value>>(
    float_field: &F,
    field: &str,
    col: &CsvColumn,
    line: usize,
    column: usize,
) -> (r: Result<Value, CsvReaderError>)
    requires
        forall|s: String, ty: LogicalTypeID| #[trigger] call_requires(*float_field, (s, ty)),
        field@.len() <= i32::MAX,
    ensures
        cell_result(*float_field, field@, *col, line as int, column as int, r),
{
    let ty = col.logical_type;
    if !float_column(ty) {
        return crate::csv_values::coerce_string_to_value(field, ty, line, column, col.name.as_str());
    }
    let t = match crate::csv_values::field_text(field) {
        Some(t) => t,
        None => {
            return Ok(Value::Null);
        },
    };
    let arg = t.clone();
    let o = float_field(arg, ty);
    proof {
        assert(call_ensures(*float_field, (arg, ty), o));
        assert(float_outcome(*float_field, t@, ty, o));
    }
    match o {
        Some(v) => Ok(v),
        None => {
            let label = if ty == LogicalTypeID::Double {
                "DOUBLE"
            } else {
                "FLOAT"
            };
            let mut message = String::new();
            crate::text::push_str(&mut message, "cannot parse '");
            crate::text::push_str(&mut message, t.as_str());
            crate::text::push_str(&mut message, "' as ");
            crate::text::push_str(&mut message, label);
            proof {
                reveal_strlit("cannot parse '");
                reveal_strlit("' as ");
                reveal_strlit("DOUBLE");
                reveal_strlit("FLOAT");
                assert(label@ == float_label(ty));
                assert(message@ =~= cannot_parse_message(t@, float_label(ty)));
            }
            Err(crate::csv_values::coercion_err(t.as_str(), line, column, col.name.as_str(), label, message.as_str()))
        },
    }
}

/// The rows of a parsed CSV text read with `columns`: a header row that
/// failed to parse gives its error; a header (or, without one, the schema)
/// of another width than `columns` is refused at line 1; then each record
/// is read in turn, line numbers starting after the header, and the first
/// record that cannot be read gives the error. Floating-point fields are
/// read by `float_field` from their trimmed text.
pub fn rows_of_records<F: Fn(String, LogicalTypeID) -> Option<Value>>(
    parsed: &(Result<Vec<String>, String>, Vec<Result<Vec<String>, String>>),
    columns: &[CsvColumn],
    has_header: bool,
    float_field: &F,
) -> (r: Result<Vec<Vec<Value>>, CsvReaderError>)
    requires
        forall|s: String, ty: LogicalTypeID| #[trigger] call_requires(*float_field, (s, ty)),
        parsed.1.len() <= i32::MAX,
        forall|i: int, j: int|
            0 <= i < parsed.1.len() && #[trigger] parsed.1@[i] is Ok && 0 <= j < parsed.1@[i]->Ok_0.len()
                ==> (#[trigger] parsed.1@[i]->Ok_0@[j])@.len() <= i32::MAX,
    ensures
        csv_result(*float_field, parsed_view(*parsed), columns@, has_header, r),
{
    let ghost pv = parsed_view(*parsed);
    let width: usize = if has_header {
        match &parsed.0 {
            Ok(h) => h.len(),
            Err(e) => {
                return Err(CsvReaderError::CsvError(e.clone()));
            },
        }
    } else {
        columns.len()
    };
    proof {
        if has_header {
            assert(pv.0->Ok_0.len() == width);
        }
    }
    if width != columns.len() {
        return Err(CsvReaderError::ColumnCountMismatch { line: 1, expected: columns.len(), actual: width });
    }
    let start: usize = if has_header {
        2
    } else {
        1
    };
    let records = &parsed.1;
    let mut results: Vec<Vec<Value>> = Vec::new();
    let mut i: usize = 0;
    while i < records.len()
        invariant
            i <= records.len(),
            records == parsed.1,
            pv == parsed_view(*parsed),
            start as int == first_line(has_header),
            records.len() <= i32::MAX,
            results@.len() == i,
            !(has_header && pv.0 is Err),
            (if has_header {
                pv.0->Ok_0.len()
            } else {
                columns@.len()
            }) == columns@.len(),
            forall|s: String, ty: LogicalTypeID| #[trigger] call_requires(*float_field, (s, ty)),
            forall|i: int, j: int|
                0 <= i < parsed.1.len() && #[trigger] parsed.1@[i] is Ok && 0 <= j < parsed.1@[i]->Ok_0.len()
                    ==> (#[trigger] parsed.1@[i]->Ok_0@[j])@.len() <= i32::MAX,
            forall|k: int|
                0 <= k < i ==> #[trigger] record_read(*float_field, pv.1[k], columns@, start + k, results@[k]@),
        decreases records.len() - i,
    {
        let line = start + i;
        let ghost pre = results@.map_values(|row: Vec<Value>| row@);
        assert(pv.1[i as int] == record_view(records@[i as int]));
        match &records[i] {
            Err(m) => {
                let mut msg = String::new();
                crate::text::push_str(&mut msg, "Line ");
                crate::node_group::push_decimal(&mut msg, line as u64);
                crate::text::push_str(&mut msg, ": ");
                crate::text::push_str(&mut msg, m.as_str());
                let e = CsvReaderError::CsvError(msg);
                proof {
                    reveal_strlit("Line ");
                    reveal_strlit(": ");
                    assert(record_refused(*float_field, pv.1[i as int], columns@, start + i, e));
                    assert forall|k: int| 0 <= k < i implies #[trigger] record_read(
                        *float_field,
                        pv.1[k],
                        columns@,
                        start + k,
                        pre[k],
                    ) by {
                        assert(pre[k] == results@[k]@);
                    }
                    assert(refused_at(*float_field, pv.1, columns@, first_line(has_header), i as int, pre, e));
                }
                return Err(e);
            },
            Ok(fields) => {
                if fields.len() != columns.len() {
                    let e = CsvReaderError::ColumnCountMismatch {
                        line,
                        expected: columns.len(),
                        actual: fields.len(),
                    };
                    proof {
                        assert(record_refused(*float_field, pv.1[i as int], columns@, start + i, e));
                        assert forall|k: int| 0 <= k < i implies #[trigger] record_read(
                            *float_field,
                            pv.1[k],
                            columns@,
                            start + k,
                            pre[k],
                        ) by {
                            assert(pre[k] == results@[k]@);
                        }
                        assert(refused_at(*float_field, pv.1, columns@, first_line(has_header), i as int, pre, e));
                    }
                    return Err(e);
                }
                let ghost fv = string_views(fields@);
                let mut row: Vec<Value> = Vec::new();
                let mut j: usize = 0;
                while j < fields.len()
                    invariant
                        j <= fields.len(),
                        fields.len() == columns.len(),
                        fv == string_views(fields@),
                        records@[i as int] == Ok::<Vec<String>, String>(*fields),
                        i < records.len(),
                        records == parsed.1,
                        row@.len() == j,
                        line == start + i,
                        pv == parsed_view(*parsed),
                        start as int == first_line(has_header),
                        results@.len() == i,
                        pre == results@.map_values(|row: Vec<Value>| row@),
                        pv.1[i as int] == record_view(records@[i as int]),
                        forall|k: int|
                            0 <= k < i ==> #[trigger] record_read(
                                *float_field,
                                pv.1[k],
                                columns@,
                                start + k,
                                results@[k]@,
                            ),
                            !(has_header && pv.0 is Err),
                            (if has_header {
                                pv.0->Ok_0.len()
                            } else {
                                columns@.len()
                            }) == columns@.len(),
                        forall|s: String, ty: LogicalTypeID| #[trigger] call_requires(*float_field, (s, ty)),
                        forall|i: int, j: int|
                            0 <= i < parsed.1.len() && #[trigger] parsed.1@[i] is Ok && 0 <= j
                                < parsed.1@[i]->Ok_0.len() ==> (#[trigger] parsed.1@[i]->Ok_0@[j])@.len()
                                <= i32::MAX,
                        forall|k: int|
                            0 <= k < j ==> #[trigger] cell_result(
                                *float_field,
                                fv[k],
                                columns@[k],
                                line as int,
                                k,
                                Ok(row@[k]),
                            ),
                    decreases fields.len() - j,
                {
                    assert(parsed.1@[i as int] is Ok);
                    assert(parsed.1@[i as int]->Ok_0@[j as int] == fields@[j as int]);
                    match read_cell(float_field, fields[j].as_str(), &columns[j], line, j) {
                        Ok(v) => {
                            row.push(v);
                        },
                        Err(e) => {
                            proof {
                                assert(fails_at(*float_field, fv, columns@, line as int, j as int, row@, e));
                                assert(record_refused(*float_field, pv.1[i as int], columns@, start + i, e));
                                assert forall|k: int| 0 <= k < i implies #[trigger] record_read(
                                    *float_field,
                                    pv.1[k],
                                    columns@,
                                    start + k,
                                    pre[k],
                                ) by {
                                    assert(pre[k] == results@[k]@);
                                }
                                assert(refused_at(
                                    *float_field,
                                    pv.1,
                                    columns@,
                                    first_line(has_header),
                                    i as int,
                                    pre,
                                    e,
                                ));
                            }
                            return Err(e);
                        },
                    }
                    j = j + 1;
                }
                proof {
                    assert(row_read(*float_field, fv, columns@, line as int, row@));
                }
                results.push(row);
            },
        }
        i = i + 1;
    }
    Ok(results)
}

/// Read a CSV text into rows of values typed by `columns`, parsing it with
/// the `csv` crate as `config` says (delimiter, header row, quote and
/// escape bytes); floating-point fields are read by `float_field`.
pub fn read_csv_bytes<F: Fn(String, LogicalTypeID) -> Option<Value>>(
    data: &[u8],
    columns: &[CsvColumn],
    config: &CsvReaderConfig,
    float_field: F,
) -> (r: Result<Vec<Vec<Value>>, CsvReaderError>)
    requires
        forall|s: String, ty: LogicalTypeID| #[trigger] call_requires(float_field, (s, ty)),
        data.len() <= i32::MAX,
    ensures
        csv_result(
            float_field,
            csv_records(data@, config.delimiter, config.has_header, config.quote, config.escape),
            columns@,
            config.has_header,
            r,
        ),
{
    let parsed = parse_csv(data, config.delimiter, config.has_header, config.quote, config.escape);
    rows_of_records(&parsed, columns, config.has_header, &float_field)
}

} // verus!
