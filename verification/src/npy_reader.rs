//! The NumPy `.npy` format (version 1.0 layout): the magic bytes
//! `\x93NUMPY`, a version byte, a little-endian `u16` header length, a
//! Python dict literal describing the array, then the raw elements.
//!
//! Supported element types: f8, f4, i8, i4, i2, i1, u8, u4, u2, u1 and b1.
//! Floating-point elements are returned by their bit patterns.

use crate::csv_reader::utf8_all;
use crate::text::{chars_of, trim, trim_bounds};
use crate::value_codec::{bytes_at, rd_u16, rd_u32, rd_u64, vview, Value, ValueView};
use vstd::bytes::*;
use vstd::prelude::*;

verus! {

// ------------------------------------------------------------------
// Searching and number parsing over characters
// ------------------------------------------------------------------

/// Whether `pat` occurs in `s` at position `i`.
pub open spec fn occurs_at(s: Seq<char>, pat: Seq<char>, i: int) -> bool {
    0 <= i && i + pat.len() <= s.len() && s.subrange(i, i + pat.len()) == pat
}

/// The first position at or after `i` where `pat` occurs in `s`.
pub open spec fn find_from(s: Seq<char>, pat: Seq<char>, i: int) -> Option<int>
    decreases s.len() + 1 - i,
{
    if i < 0 || i + pat.len() > s.len() {
        None
    } else if occurs_at(s, pat, i) {
        Some(i)
    } else {
        find_from(s, pat, i + 1)
    }
}

/// Whether `s` begins with `p`.
pub open spec fn starts_with(s: Seq<char>, p: Seq<char>) -> bool {
    p.len() <= s.len() && s.subrange(0, p.len() as int) == p
}

fn occurs_here(s: &[char], pat: &[char], i: usize) -> (b: bool)
    requires
        i + pat.len() <= s.len(),
    ensures
        b == occurs_at(s@, pat@, i as int),
{
    let mut j: usize = 0;
    while j < pat.len()
        invariant
            j <= pat.len(),
            i + pat.len() <= s.len(),
            forall|k: int| 0 <= k < j ==> s@[i + k] == pat@[k],
        decreases pat@.len() - j,
    {
        if s[i + j] != pat[j] {
            proof {
                assert(s@.subrange(i as int, i + pat@.len())[j as int] != pat@[j as int]);
            }
            return false;
        }
        j = j + 1;
    }
    proof {
        assert(s@.subrange(i as int, i + pat@.len()) =~= pat@);
    }
    true
}

/// The first position at or after `from` where `pat` occurs in `s`.
pub fn find_chars(s: &[char], pat: &[char], from: usize) -> (r: Option<usize>)
    ensures
        match r {
            Some(i) => find_from(s@, pat@, from as int) == Some(i as int),
            None => find_from(s@, pat@, from as int) is None,
        },
{
    let mut i = from;
    while i <= s.len() && pat.len() <= s.len() - i
        invariant
            find_from(s@, pat@, from as int) == find_from(s@, pat@, i as int),
        decreases s@.len() + 1 - i,
    {
        if occurs_here(s, pat, i) {
            return Some(i);
        }
        proof {
            if pat@.len() == 0 {
                assert(s@.subrange(i as int, i as int) =~= pat@);
            }
        }
        i = i + 1;
    }
    None
}

/// Whether `c` is an ASCII decimal digit.
pub open spec fn is_digit(c: char) -> bool {
    '0' <= c <= '9'
}

/// The number written by the decimal digits `d`.
pub open spec fn digits_value(d: Seq<char>) -> nat
    decreases d.len(),
{
    if d.len() == 0 {
        0
    } else {
        digits_value(d.drop_last()) * 10 + ((d.last() as u32) - 48) as nat
    }
}

/// `p` without a leading `+`.
pub open spec fn unsigned_part(p: Seq<char>) -> Seq<char> {
    if p.len() > 0 && p[0] == '+' {
        p.drop_first()
    } else {
        p
    }
}

/// Whether every character of `d` is a decimal digit.
pub open spec fn all_digits(d: Seq<char>) -> bool {
    forall|i: int| 0 <= i < d.len() ==> is_digit(#[trigger] d[i])
}

/// What `str::parse::<usize>` gives for `p`: an optional `+`, then one or
/// more decimal digits whose value fits a `usize`.
pub open spec fn parse_usize(p: Seq<char>) -> Option<usize> {
    let d = unsigned_part(p);
    if d.len() > 0 && all_digits(d) && digits_value(d) <= usize::MAX {
        Some(digits_value(d) as usize)
    } else {
        None
    }
}

/// `s[lo..hi]` parsed as by `str::parse::<usize>`.
pub fn parse_usize_in(s: &[char], lo: usize, hi: usize) -> (r: Option<usize>)
    requires
        lo <= hi <= s@.len(),
    ensures
        r == parse_usize(s@.subrange(lo as int, hi as int)),
{
    let ghost p = s@.subrange(lo as int, hi as int);
    let mut start = lo;
    if lo < hi && s[lo] == '+' {
        start = lo + 1;
    }
    let ghost d = s@.subrange(start as int, hi as int);
    proof {
        if lo < hi && s@[lo as int] == '+' {
            assert(p.drop_first() =~= d);
        } else {
            assert(p =~= d);
        }
    }
    if start == hi {
        return None;
    }
    let mut acc: usize = 0;
    let mut over = false;
    let mut k = start;
    while k < hi
        invariant
            start <= k <= hi <= s@.len(),
            d == s@.subrange(start as int, hi as int),
            p == s@.subrange(lo as int, hi as int),
            unsigned_part(p) == d,
            forall|i: int| start <= i < k ==> is_digit(#[trigger] s@[i]),
            over ==> digits_value(s@.subrange(start as int, k as int)) > usize::MAX,
            !over ==> acc == digits_value(s@.subrange(start as int, k as int)),
        decreases hi - k,
    {
        let c = s[k];
        if c < '0' || c > '9' {
            proof {
                assert(d[k - start] == c);
                assert(!is_digit(d[k - start]));
            }
            return None;
        }
        let x = ((c as u32) - 48) as usize;
        proof {
            let q = s@.subrange(start as int, k + 1);
            assert(q.drop_last() =~= s@.subrange(start as int, k as int));
            assert(q.last() == c);
        }
        if !over {
            match acc.checked_mul(10) {
                Some(m) => match m.checked_add(x) {
                    Some(v) => {
                        acc = v;
                    },
                    None => {
                        over = true;
                    },
                },
                None => {
                    over = true;
                },
            }
        }
        k = k + 1;
    }
    proof {
        assert(s@.subrange(start as int, k as int) =~= d);
        assert forall|i: int| 0 <= i < d.len() implies is_digit(#[trigger] d[i]) by {
            assert(d[i] == s@[start + i]);
        }
    }
    if over {
        None
    } else {
        Some(acc)
    }
}

/// A copy of `s[lo..hi]`.
pub fn sub_chars(s: &[char], lo: usize, hi: usize) -> (r: Vec<char>)
    requires
        lo <= hi <= s@.len(),
    ensures
        r@ == s@.subrange(lo as int, hi as int),
{
    let mut r: Vec<char> = Vec::new();
    let mut i = lo;
    while i < hi
        invariant
            lo <= i <= hi <= s@.len(),
            r@ == s@.subrange(lo as int, i as int),
        decreases hi - i,
    {
        r.push(s[i]);
        proof {
            assert(s@.subrange(lo as int, i + 1) =~= s@.subrange(lo as int, i as int).push(s@[i as int]));
        }
        i = i + 1;
    }
    r
}

/// Whether the characters of `a` are those of `w`.
pub fn same_chars(a: &[char], w: &str) -> (b: bool)
    ensures
        b == (a@ == w@),
{
    let wv = chars_of(w);
    if a.len() != wv.len() {
        return false;
    }
    let mut i: usize = 0;
    while i < a.len()
        invariant
            i <= a@.len(),
            a@.len() == wv@.len(),
            wv@ == w@,
            forall|j: int| 0 <= j < i ==> a@[j] == wv@[j],
        decreases a@.len() - i,
    {
        if a[i] != wv[i] {
            return false;
        }
        i = i + 1;
    }
    proof {
        assert(a@ =~= wv@);
    }
    true
}

/// `s` without its trailing commas.
pub open spec fn trim_end_commas(s: Seq<char>) -> Seq<char>
    decreases s.len(),
{
    if s.len() > 0 && s.last() == ',' {
        trim_end_commas(s.drop_last())
    } else {
        s
    }
}

/// The text `'key':` that introduces `key` in the header dict.
pub open spec fn key_pattern(key: Seq<char>) -> Seq<char> {
    seq!['\''] + key + seq!['\'', ':']
}

/// The text after the first `'key':` of the header, trimmed.
pub open spec fn after_key(h: Seq<char>, key: Seq<char>) -> Option<Seq<char>> {
    match find_from(h, key_pattern(key), 0) {
        Some(st) => Some(trim(h.subrange(st + key_pattern(key).len(), h.len() as int))),
        None => None,
    }
}

/// A quoted string value of `key`: the text between the first character
/// after the key and the next occurrence of that character.
pub open spec fn extract_str(h: Seq<char>, key: Seq<char>) -> Option<Seq<char>> {
    match after_key(h, key) {
        None => None,
        Some(rest) => if rest.len() == 0 {
            None
        } else {
            let tail = rest.drop_first();
            match find_from(tail, seq![rest[0]], 0) {
                Some(e) => Some(tail.subrange(0, e)),
                None => None,
            }
        },
    }
}

/// A boolean value of `key`: whether it reads `True`.
pub open spec fn extract_bool(h: Seq<char>, key: Seq<char>) -> Option<bool> {
    match after_key(h, key) {
        None => None,
        Some(rest) => Some(starts_with(rest, "True"@)),
    }
}

/// The first position at or after `i` that holds no decimal digit (or the
/// length of `s`).
pub open spec fn digit_run(s: Seq<char>, i: int) -> int
    decreases s.len() - i,
{
    if i < 0 || i >= s.len() || !is_digit(s[i]) {
        i
    } else {
        digit_run(s, i + 1)
    }
}

/// The number a comma-separated piece holds, if it parses.
pub open spec fn piece_value(p: Seq<char>) -> Seq<usize> {
    match parse_usize(trim(p)) {
        Some(n) => seq![n],
        None => Seq::empty(),
    }
}

/// The numbers of the comma-separated pieces of `s` from the piece that
/// starts at `start`, scanning from `k`; pieces that do not parse are
/// skipped.
pub open spec fn pieces_from(s: Seq<char>, start: int, k: int) -> Seq<usize>
    decreases s.len() - k,
{
    if k < 0 || k >= s.len() {
        piece_value(s.subrange(start, s.len() as int))
    } else if s[k] == ',' {
        piece_value(s.subrange(start, k)) + pieces_from(s, k + 1, k + 1)
    } else {
        pieces_from(s, start, k + 1)
    }
}

/// A tuple value of `key` (or a bare number): its numbers.
pub open spec fn extract_tuple(h: Seq<char>, key: Seq<char>) -> Option<Seq<usize>> {
    match after_key(h, key) {
        None => None,
        Some(rest) => if !(rest.len() > 0 && rest[0] == '(') {
            match parse_usize(rest.subrange(0, digit_run(rest, 0))) {
                Some(n) => Some(seq![n]),
                None => None,
            }
        } else {
            match find_from(rest, seq![')'], 0) {
                None => None,
                Some(ep) => {
                    let inner = trim_end_commas(rest.subrange(1, ep));
                    if inner.len() == 0 {
                        Some(Seq::empty())
                    } else {
                        let nums = pieces_from(inner, 0, 0);
                        if nums.len() == 0 {
                            None
                        } else {
                            Some(nums)
                        }
                    }
                },
            }
        },
    }
}

/// `'key':` as characters.
fn key_pattern_of(key: &str) -> (r: Vec<char>)
    ensures
        r@ == key_pattern(key@),
{
    let mut r: Vec<char> = Vec::new();
    r.push('\'');
    let k = chars_of(key);
    let mut i: usize = 0;
    while i < k.len()
        invariant
            i <= k@.len(),
            k@ == key@,
            r@ == seq!['\''] + k@.subrange(0, i as int),
        decreases k@.len() - i,
    {
        r.push(k[i]);
        proof {
            assert(k@.subrange(0, i + 1) =~= k@.subrange(0, i as int).push(k@[i as int]));
        }
        i = i + 1;
    }
    r.push('\'');
    r.push(':');
    proof {
        assert(k@.subrange(0, k@.len() as int) =~= k@);
        assert(r@ =~= key_pattern(key@));
    }
    r
}

/// The trimmed text after the first `'key':` of `h`.
fn after_key_in(h: &[char], key: &str) -> (r: Option<Vec<char>>)
    ensures
        match r {
            Some(v) => after_key(h@, key@) == Some(v@),
            None => after_key(h@, key@) is None,
        },
{
    let pat = key_pattern_of(key);
    match find_chars(h, &pat, 0) {
        None => None,
        Some(st) => {
            proof {
                assert(occurs_at(h@, pat@, st as int)) by {
                    lemma_find_from_found(h@, pat@, 0, st as int);
                }
                assert(st + pat.len() <= h.len());
            }
            let (a, b) = trim_bounds(h, st + pat.len(), h.len());
            Some(sub_chars(h, a, b))
        },
    }
}

pub proof fn lemma_find_from_found(s: Seq<char>, pat: Seq<char>, i: int, j: int)
    requires
        find_from(s, pat, i) == Some(j),
    ensures
        occurs_at(s, pat, j),
        i <= j,
    decreases s.len() + 1 - i,
{
    if i < 0 || i + pat.len() > s.len() {
    } else if occurs_at(s, pat, i) {
    } else {
        lemma_find_from_found(s, pat, i + 1, j);
    }
}

/// The quoted string value of `key` in the header text `h`.
pub fn extract_py_str(h: &[char], key: &str) -> (r: Option<String>)
    ensures
        match r {
            Some(v) => extract_str(h@, key@) == Some(v@),
            None => extract_str(h@, key@) is None,
        },
{
    let rest = match after_key_in(h, key) {
        Some(v) => v,
        None => {
            return None;
        },
    };
    if rest.len() == 0 {
        return None;
    }
    let delim = rest[0];
    let tail = sub_chars(&rest, 1, rest.len());
    let mut d: Vec<char> = Vec::new();
    d.push(delim);
    proof {
        assert(tail@ =~= rest@.drop_first());
        assert(d@ =~= seq![rest@[0]]);
    }
    match find_chars(&tail, &d, 0) {
        None => None,
        Some(e) => {
            proof {
                lemma_find_from_found(tail@, d@, 0, e as int);
            }
            Some(crate::text::string_from(&tail, 0, e))
        },
    }
}

/// The boolean value of `key` in the header text `h`.
pub fn extract_py_bool(h: &[char], key: &str) -> (r: Option<bool>)
    ensures
        r == extract_bool(h@, key@),
{
    let rest = match after_key_in(h, key) {
        Some(v) => v,
        None => {
            return None;
        },
    };
    proof {
        reveal_strlit("True");
    }
    if rest.len() < 4 {
        return Some(false);
    }
    let head = sub_chars(&rest, 0, 4);
    Some(same_chars(&head, "True"))
}

/// `s[lo..hi]`, trimmed, parsed as by `str::parse::<usize>`.
fn trimmed_number(s: &[char], lo: usize, hi: usize) -> (r: Option<usize>)
    requires
        lo <= hi <= s@.len(),
    ensures
        r == parse_usize(trim(s@.subrange(lo as int, hi as int))),
{
    let (a, b) = trim_bounds(s, lo, hi);
    parse_usize_in(s, a, b)
}

/// The numbers of the comma-separated pieces of `s` that parse.
fn numbers_in(s: &[char]) -> (r: Vec<usize>)
    ensures
        r@ == pieces_from(s@, 0, 0),
{
    let mut out: Vec<usize> = Vec::new();
    let mut start: usize = 0;
    let mut k: usize = 0;
    while k < s.len()
        invariant
            start <= k <= s@.len(),
            out@ + pieces_from(s@, start as int, k as int) == pieces_from(s@, 0, 0),
        decreases s@.len() - k,
    {
        if s[k] == ',' {
            let piece = trimmed_number(s, start, k);
            let ghost before = out@;
            match piece {
                Some(n) => {
                    out.push(n);
                },
                None => {},
            }
            proof {
                assert(out@ == before + piece_value(s@.subrange(start as int, k as int)));
                assert(before + (piece_value(s@.subrange(start as int, k as int)) + pieces_from(
                    s@,
                    k + 1,
                    k + 1,
                )) =~= out@ + pieces_from(s@, k + 1, k + 1));
            }
            start = k + 1;
        }
        k = k + 1;
    }
    let piece = trimmed_number(s, start, k);
    match piece {
        Some(n) => {
            out.push(n);
        },
        None => {},
    }
    proof {
        assert(out@ =~= pieces_from(s@, 0, 0));
    }
    out
}

/// The tuple value of `key` in the header text `h` (or a bare number):
/// its numbers.
pub fn extract_py_tuple(h: &[char], key: &str) -> (r: Option<Vec<usize>>)
    ensures
        match r {
            Some(v) => extract_tuple(h@, key@) == Some(v@),
            None => extract_tuple(h@, key@) is None,
        },
{
    let rest = match after_key_in(h, key) {
        Some(v) => v,
        None => {
            return None;
        },
    };
    if !(rest.len() > 0 && rest[0] == '(') {
        let mut end: usize = 0;
        while end < rest.len() && '0' <= rest[end] && rest[end] <= '9'
            invariant
                end <= rest@.len(),
                digit_run(rest@, 0) == digit_run(rest@, end as int),
            decreases rest@.len() - end,
        {
            end = end + 1;
        }
        return match parse_usize_in(&rest, 0, end) {
            Some(n) => {
                let mut v: Vec<usize> = Vec::new();
                v.push(n);
                proof {
                    assert(v@ =~= seq![n]);
                }
                Some(v)
            },
            None => None,
        };
    }
    let mut close: Vec<char> = Vec::new();
    close.push(')');
    proof {
        assert(close@ =~= seq![')']);
    }
    let ep = match find_chars(&rest, &close, 0) {
        Some(e) => e,
        None => {
            return None;
        },
    };
    proof {
        lemma_find_from_found(rest@, close@, 0, ep as int);
        assert(rest@.subrange(ep as int, ep + 1)[0] == ')');
    }
    let mut hi = ep;
    while hi > 1 && rest[hi - 1] == ','
        invariant
            1 <= hi <= ep,
            ep <= rest@.len(),
            trim_end_commas(rest@.subrange(1, ep as int)) == trim_end_commas(
                rest@.subrange(1, hi as int),
            ),
        decreases hi,
    {
        proof {
            assert(rest@.subrange(1, hi as int).drop_last() =~= rest@.subrange(1, hi - 1));
        }
        hi = hi - 1;
    }
    if hi == 1 {
        proof {
            assert(rest@.subrange(1, 1) =~= Seq::<char>::empty());
        }
        return Some(Vec::new());
    }
    let inner = sub_chars(&rest, 1, hi);
    proof {
        assert(inner@.last() == rest@[hi - 1]);
        assert(trim_end_commas(inner@) == inner@);
    }
    let nums = numbers_in(&inner);
    if nums.len() == 0 {
        None
    } else {
        Some(nums)
    }
}

// ------------------------------------------------------------------
// Element types, the header and the elements
// ------------------------------------------------------------------

/// Why a `.npy` file could not be read.
#[derive(Debug)]
pub enum NpyReaderError {
    IoError(std::io::Error),
    InvalidMagic,
    InvalidVersion,
    InvalidHeader,
    TypeNotSupported(String),
    ShapeMismatch { expected_rows: usize, actual: usize },
}

/// An error, with its text as characters.
pub enum NpyErrorKind {
    IoError,
    InvalidMagic,
    InvalidVersion,
    InvalidHeader,
    TypeNotSupported(Seq<char>),
    ShapeMismatch(usize, usize),
}

/// The kind and content of an error.
pub open spec fn error_kind(e: NpyReaderError) -> NpyErrorKind {
    match e {
        NpyReaderError::IoError(_) => NpyErrorKind::IoError,
        NpyReaderError::InvalidMagic => NpyErrorKind::InvalidMagic,
        NpyReaderError::InvalidVersion => NpyErrorKind::InvalidVersion,
        NpyReaderError::InvalidHeader => NpyErrorKind::InvalidHeader,
        NpyReaderError::TypeNotSupported(t) => NpyErrorKind::TypeNotSupported(t@),
        NpyReaderError::ShapeMismatch { expected_rows, actual } => NpyErrorKind::ShapeMismatch(
            expected_rows,
            actual,
        ),
    }
}

/// The element type of an array.
#[derive(Debug, Clone, Copy, PartialEq, Eq, Structural)]
pub enum NpyDtype {
    Float64,
    Float32,
    Int64,
    Int32,
    Int16,
    Int8,
    UInt64,
    UInt32,
    UInt16,
    UInt8,
    Bool,
    /// Fixed-length strings (their elements are not decoded).
    String,
}

/// A type description without its byte-order mark (`<`, `>`, `=` or `|`).
pub open spec fn order_stripped(s: Seq<char>) -> Seq<char> {
    if s.len() > 0 && (s[0] == '<' || s[0] == '>' || s[0] == '=' || s[0] == '|') {
        s.drop_first()
    } else {
        s
    }
}

/// The element type a name (without byte-order mark) stands for.
pub open spec fn dtype_named(n: Seq<char>) -> Option<NpyDtype> {
    if n == "f8"@ || n == "float64"@ {
        Some(NpyDtype::Float64)
    } else if n == "f4"@ || n == "float32"@ {
        Some(NpyDtype::Float32)
    } else if n == "i8"@ || n == "int64"@ {
        Some(NpyDtype::Int64)
    } else if n == "i4"@ || n == "int32"@ {
        Some(NpyDtype::Int32)
    } else if n == "i2"@ || n == "int16"@ {
        Some(NpyDtype::Int16)
    } else if n == "i1"@ || n == "int8"@ {
        Some(NpyDtype::Int8)
    } else if n == "u8"@ || n == "uint64"@ {
        Some(NpyDtype::UInt64)
    } else if n == "u4"@ || n == "uint32"@ {
        Some(NpyDtype::UInt32)
    } else if n == "u2"@ || n == "uint16"@ {
        Some(NpyDtype::UInt16)
    } else if n == "u1"@ || n == "uint8"@ {
        Some(NpyDtype::UInt8)
    } else if n == "b1"@ || n == "bool"@ {
        Some(NpyDtype::Bool)
    } else if n.len() > 0 && (n[0] == 'S' || n[0] == 'U') {
        Some(NpyDtype::String)
    } else {
        None
    }
}

/// The byte size of one element.
pub open spec fn dtype_size(d: NpyDtype) -> usize {
    match d {
        NpyDtype::Float64 | NpyDtype::Int64 | NpyDtype::UInt64 => 8,
        NpyDtype::Float32 | NpyDtype::Int32 | NpyDtype::UInt32 => 4,
        NpyDtype::Int16 | NpyDtype::UInt16 => 2,
        _ => 1,
    }
}

impl NpyDtype {
    /// The element type a description such as `<f8` names; a description
    /// that names none is refused with the name (trimmed, without its
    /// byte-order mark).
    pub fn from_str(s: &str) -> (r: Result<NpyDtype, NpyReaderError>)
        ensures
            ({
                let n = order_stripped(trim(s@));
                match dtype_named(n) {
                    Some(d) => r == Ok::<NpyDtype, NpyReaderError>(d),
                    None => r is Err && error_kind(r->Err_0) == NpyErrorKind::TypeNotSupported(n),
                }
            }),
    {
        let cs = chars_of(s);
        let (a, b) = trim_bounds(&cs, 0, cs.len());
        let mut lo = a;
        if a < b && (cs[a] == '<' || cs[a] == '>' || cs[a] == '=' || cs[a] == '|') {
            lo = a + 1;
        }
        let n = sub_chars(&cs, lo, b);
        proof {
            assert(cs@.subrange(0, cs@.len() as int) =~= cs@);
            let t = cs@.subrange(a as int, b as int);
            if a < b && (cs@[a as int] == '<' || cs@[a as int] == '>' || cs@[a as int] == '='
                || cs@[a as int] == '|') {
                assert(t.drop_first() =~= n@);
            } else {
                assert(t =~= n@);
            }
            assert(n@ == order_stripped(trim(s@)));
        }
        if same_chars(&n, "f8") || same_chars(&n, "float64") {
            Ok(NpyDtype::Float64)
        } else if same_chars(&n, "f4") || same_chars(&n, "float32") {
            Ok(NpyDtype::Float32)
        } else if same_chars(&n, "i8") || same_chars(&n, "int64") {
            Ok(NpyDtype::Int64)
        } else if same_chars(&n, "i4") || same_chars(&n, "int32") {
            Ok(NpyDtype::Int32)
        } else if same_chars(&n, "i2") || same_chars(&n, "int16") {
            Ok(NpyDtype::Int16)
        } else if same_chars(&n, "i1") || same_chars(&n, "int8") {
            Ok(NpyDtype::Int8)
        } else if same_chars(&n, "u8") || same_chars(&n, "uint64") {
            Ok(NpyDtype::UInt64)
        } else if same_chars(&n, "u4") || same_chars(&n, "uint32") {
            Ok(NpyDtype::UInt32)
        } else if same_chars(&n, "u2") || same_chars(&n, "uint16") {
            Ok(NpyDtype::UInt16)
        } else if same_chars(&n, "u1") || same_chars(&n, "uint8") {
            Ok(NpyDtype::UInt8)
        } else if same_chars(&n, "b1") || same_chars(&n, "bool") {
            Ok(NpyDtype::Bool)
        } else if n.len() > 0 && (n[0] == 'S' || n[0] == 'U') {
            Ok(NpyDtype::String)
        } else {
            proof {
                assert(n@.subrange(0, n@.len() as int) =~= n@);
            }
            Err(NpyReaderError::TypeNotSupported(crate::text::string_from(&n, 0, n.len())))
        }
    }

    /// The byte size of one element (1 for strings, whose elements are
    /// not decoded).
    pub fn size(&self) -> (n: usize)
        ensures
            n == dtype_size(*self),
    {
        match self {
            NpyDtype::Float64 => 8,
            NpyDtype::Float32 => 4,
            NpyDtype::Int64 | NpyDtype::UInt64 => 8,
            NpyDtype::Int32 | NpyDtype::UInt32 => 4,
            NpyDtype::Int16 | NpyDtype::UInt16 => 2,
            NpyDtype::Int8 | NpyDtype::UInt8 | NpyDtype::Bool => 1,
            NpyDtype::String => 1,
        }
    }
}

/// The text that bytes spell as UTF-8, when they are valid UTF-8.
pub uninterp spec fn utf8_decoded(b: Seq<u8>) -> Option<Seq<char>>;

/// `std::str::from_utf8` (std), owned: the text of the bytes when they
/// are valid UTF-8. It succeeds exactly when the bytes are the UTF-8
/// encoding of some text, and then that encoding is the bytes.
#[verifier::external_body]
fn str_from_utf8(bytes: &[u8]) -> (r: Option<String>)
    ensures
        match r {
            Some(s) => utf8_decoded(bytes@) == Some(s@),
            None => utf8_decoded(bytes@) is None,
        },
        r is Some ==> utf8_all(r->0@) == bytes@,
        (exists|t: Seq<char>| utf8_all(t) == bytes@) ==> r is Some,
{
    match std::str::from_utf8(bytes) {
        Ok(s) => Some(s.to_owned()),
        Err(_) => None,
    }
}

/// The parsed header of a `.npy` file.
#[derive(Debug)]
pub struct NpyHeader {
    pub descr: String,
    pub fortran_order: bool,
    pub shape: Vec<usize>,
    /// Where the elements begin.
    pub data_offset: usize,
    pub dtype: NpyDtype,
}

/// The content of a header.
pub struct NpyHeaderView {
    pub descr: Seq<char>,
    pub fortran_order: bool,
    pub shape: Seq<usize>,
    pub data_offset: usize,
    pub dtype: NpyDtype,
}

impl View for NpyHeader {
    type V = NpyHeaderView;

    open spec fn view(&self) -> NpyHeaderView {
        NpyHeaderView {
            descr: self.descr@,
            fortran_order: self.fortran_order,
            shape: self.shape@,
            data_offset: self.data_offset,
            dtype: self.dtype,
        }
    }
}

/// The magic bytes `\x93NUMPY`.
pub open spec fn npy_magic() -> Seq<u8> {
    seq![0x93u8, 0x4eu8, 0x55u8, 0x4du8, 0x50u8, 0x59u8]
}

/// What the header of `data` says, or why it cannot be read: the magic
/// bytes, a version of 1, 2 or 3, a header length, and a UTF-8 dict whose
/// `descr` (default `<f8`), `fortran_order` (default false) and `shape`
/// (default `(0,)`) are read. Fortran order and unknown types are refused.
pub open spec fn header_of(data: Seq<u8>) -> Result<NpyHeaderView, NpyErrorKind> {
    if data.len() < 10 || data.subrange(0, 6) != npy_magic() {
        Err(NpyErrorKind::InvalidMagic)
    } else if !(data[6] == 1 || data[6] == 2 || data[6] == 3) {
        Err(NpyErrorKind::InvalidVersion)
    } else {
        let off = 10 + data[8] as nat + 256 * data[9] as nat;
        if data.len() < off {
            Err(NpyErrorKind::InvalidHeader)
        } else {
            match utf8_decoded(data.subrange(10, off as int)) {
                None => Err(NpyErrorKind::InvalidHeader),
                Some(t) => {
                    let h = trim(t);
                    let descr = match extract_str(h, "descr"@) {
                        Some(d) => d,
                        None => "<f8"@,
                    };
                    let fortran = match extract_bool(h, "fortran_order"@) {
                        Some(b) => b,
                        None => false,
                    };
                    let shape = match extract_tuple(h, "shape"@) {
                        Some(s) => s,
                        None => seq![0usize],
                    };
                    if fortran {
                        Err(
                            NpyErrorKind::TypeNotSupported(
                                "Fortran-ordered arrays are not supported"@,
                            ),
                        )
                    } else {
                        let n = order_stripped(trim(descr));
                        match dtype_named(n) {
                            Some(d) => Ok(
                                NpyHeaderView {
                                    descr,
                                    fortran_order: fortran,
                                    shape,
                                    data_offset: off as usize,
                                    dtype: d,
                                },
                            ),
                            None => Err(NpyErrorKind::TypeNotSupported(n)),
                        }
                    }
                },
            }
        }
    }
}

/// Parse the header at the start of `data`.
pub fn parse_header(data: &[u8]) -> (r: Result<NpyHeader, NpyReaderError>)
    ensures
        match r {
            Ok(h) => header_of(data@) == Ok::<NpyHeaderView, NpyErrorKind>(h@),
            Err(e) => header_of(data@) == Err::<NpyHeaderView, NpyErrorKind>(error_kind(e)),
        },
{
    if data.len() < 10 {
        return Err(NpyReaderError::InvalidMagic);
    }
    if !(data[0] == 0x93 && data[1] == 0x4e && data[2] == 0x55 && data[3] == 0x4d && data[4] == 0x50
        && data[5] == 0x59) {
        proof {
            let m = data@.subrange(0, 6);
            if m == npy_magic() {
                assert(m[0] == data@[0] && m[1] == data@[1] && m[2] == data@[2]);
                assert(m[3] == data@[3] && m[4] == data@[4] && m[5] == data@[5]);
            }
        }
        return Err(NpyReaderError::InvalidMagic);
    }
    proof {
        assert(data@.subrange(0, 6) =~= npy_magic());
    }
    let version = data[6];
    if version != 1 && version != 2 && version != 3 {
        return Err(NpyReaderError::InvalidVersion);
    }
    let header_len = (data[8] as usize) + 256 * (data[9] as usize);
    let data_offset = 10 + header_len;
    if data.len() < data_offset {
        return Err(NpyReaderError::InvalidHeader);
    }
    let bytes = vstd::slice::slice_subrange(data, 10, data_offset);
    let text = match str_from_utf8(bytes) {
        Some(t) => t,
        None => {
            return Err(NpyReaderError::InvalidHeader);
        },
    };
    let cs = chars_of(text.as_str());
    let (a, b) = trim_bounds(&cs, 0, cs.len());
    let h = sub_chars(&cs, a, b);
    proof {
        assert(cs@.subrange(0, cs@.len() as int) =~= cs@);
    }
    let descr = match extract_py_str(&h, "descr") {
        Some(d) => d,
        None => "<f8".to_owned(),
    };
    let fortran_order = match extract_py_bool(&h, "fortran_order") {
        Some(x) => x,
        None => false,
    };
    let shape = match extract_py_tuple(&h, "shape") {
        Some(v) => v,
        None => {
            let mut v: Vec<usize> = Vec::new();
            v.push(0);
            proof {
                assert(v@ =~= seq![0usize]);
            }
            v
        },
    };
    if fortran_order {
        return Err(
            NpyReaderError::TypeNotSupported("Fortran-ordered arrays are not supported".to_owned()),
        );
    }
    let dtype = match NpyDtype::from_str(descr.as_str()) {
        Ok(d) => d,
        Err(e) => {
            return Err(e);
        },
    };
    Ok(NpyHeader { descr, fortran_order, shape, data_offset, dtype })
}

/// The value an element's bytes hold (floats by their bit patterns;
/// string elements are not decoded).
pub open spec fn element_value(d: NpyDtype, b: Seq<u8>) -> ValueView {
    match d {
        NpyDtype::Float64 => ValueView::Double(spec_u64_from_le_bytes(b)),
        NpyDtype::Float32 => ValueView::Float(spec_u32_from_le_bytes(b)),
        NpyDtype::Int64 => ValueView::Int64(spec_u64_from_le_bytes(b) as i64),
        NpyDtype::Int32 => ValueView::Int32(spec_u32_from_le_bytes(b) as i32),
        NpyDtype::Int16 => ValueView::Int16(spec_u16_from_le_bytes(b) as i16),
        NpyDtype::Int8 => ValueView::Int8(b[0] as i8),
        NpyDtype::UInt64 => ValueView::UInt64(spec_u64_from_le_bytes(b)),
        NpyDtype::UInt32 => ValueView::UInt32(spec_u32_from_le_bytes(b)),
        NpyDtype::UInt16 => ValueView::UInt16(spec_u16_from_le_bytes(b)),
        NpyDtype::UInt8 => ValueView::UInt8(b[0]),
        NpyDtype::Bool => ValueView::Bool(b[0] != 0),
        NpyDtype::String => ValueView::Null,
    }
}

fn element_at(raw: &[u8], offset: usize, dtype: &NpyDtype) -> (v: Value)
    requires
        offset + dtype_size(*dtype) <= raw.len(),
    ensures
        vview(v) == element_value(*dtype, bytes_at(raw@, offset as nat, dtype_size(*dtype) as nat)),
{
    match dtype {
        NpyDtype::Float64 => Value::Double(rd_u64(raw, offset)),
        NpyDtype::Float32 => Value::Float(rd_u32(raw, offset)),
        NpyDtype::Int64 => Value::Int64(rd_u64(raw, offset) as i64),
        NpyDtype::Int32 => Value::Int32(rd_u32(raw, offset) as i32),
        NpyDtype::Int16 => Value::Int16(rd_u16(raw, offset) as i16),
        NpyDtype::Int8 => Value::Int8(raw[offset] as i8),
        NpyDtype::UInt64 => Value::UInt64(rd_u64(raw, offset)),
        NpyDtype::UInt32 => Value::UInt32(rd_u32(raw, offset)),
        NpyDtype::UInt16 => Value::UInt16(rd_u16(raw, offset)),
        NpyDtype::UInt8 => Value::UInt8(raw[offset]),
        NpyDtype::Bool => Value::Bool(raw[offset] != 0),
        NpyDtype::String => Value::Null,
    }
}

/// Read `count` elements of type `dtype` from `raw`. Refused when `raw`
/// holds fewer than `count` elements, with the number it holds.
pub fn read_values(raw: &[u8], dtype: &NpyDtype, count: usize) -> (r: Result<Vec<Value>, NpyReaderError>)
    ensures
        count * dtype_size(*dtype) > raw@.len() ==> r is Err && error_kind(r->Err_0)
            == NpyErrorKind::ShapeMismatch(count, (raw@.len() / dtype_size(*dtype) as nat) as usize),
        count * dtype_size(*dtype) <= raw@.len() ==> r is Ok && r->Ok_0@.len() == count && (forall|
            i: int,
        |
            0 <= i < count ==> vview(#[trigger] r->Ok_0@[i]) == element_value(
                *dtype,
                raw@.subrange(i * dtype_size(*dtype), i * dtype_size(*dtype) + dtype_size(*dtype)),
            )),
{
    let size = dtype.size();
    let total = match count.checked_mul(size) {
        Some(t) => t,
        None => {
            return Err(NpyReaderError::ShapeMismatch { expected_rows: count, actual: raw.len() / size });
        },
    };
    if total > raw.len() {
        return Err(NpyReaderError::ShapeMismatch { expected_rows: count, actual: raw.len() / size });
    }
    let mut values: Vec<Value> = Vec::new();
    let mut i: usize = 0;
    let mut offset: usize = 0;
    while i < count
        invariant
            i <= count,
            size == dtype_size(*dtype),
            total == count * size,
            total <= raw@.len(),
            offset == i * size,
            values@.len() == i,
            forall|j: int|
                0 <= j < i ==> vview(#[trigger] values@[j]) == element_value(
                    *dtype,
                    raw@.subrange(j * size, j * size + size),
                ),
        decreases count - i,
    {
        proof {
            assert((i + 1) * size <= count * size) by (nonlinear_arith)
                requires
                    i < count,
            ;
            assert((i + 1) * size == i * size + size) by (nonlinear_arith);
        }
        let v = element_at(raw, offset, dtype);
        values.push(v);
        offset = offset + size;
        i = i + 1;
    }
    Ok(values)
}

/// The product of the dimensions of a shape, saturated at `usize::MAX`.
pub open spec fn shape_count(shape: Seq<usize>) -> nat
    decreases shape.len(),
{
    if shape.len() == 0 {
        1
    } else {
        let p = shape_count(shape.drop_last()) * (shape.last() as nat);
        if p > usize::MAX {
            usize::MAX as nat
        } else {
            p
        }
    }
}

/// The number of elements a shape describes.
pub fn element_count(shape: &[usize]) -> (n: usize)
    ensures
        n == shape_count(shape@),
{
    let mut n: usize = 1;
    let mut i: usize = 0;
    while i < shape.len()
        invariant
            i <= shape@.len(),
            n == shape_count(shape@.subrange(0, i as int)),
        decreases shape@.len() - i,
    {
        proof {
            let q = shape@.subrange(0, i + 1);
            assert(q.drop_last() =~= shape@.subrange(0, i as int));
        }
        n = match n.checked_mul(shape[i]) {
            Some(m) => m,
            None => usize::MAX,
        };
        i = i + 1;
    }
    proof {
        assert(shape@.subrange(0, shape@.len() as int) =~= shape@);
    }
    n
}

/// The elements of a whole `.npy` file's bytes: the header, then as many
/// elements as the shape describes (a product beyond `usize::MAX` counts
/// as `usize::MAX`).
pub fn read_npy_bytes(data: &[u8]) -> (r: Result<Vec<Value>, NpyReaderError>)
    ensures
        match header_of(data@) {
            Err(k) => r is Err && error_kind(r->Err_0) == k,
            Ok(h) => {
                let raw = data@.subrange(h.data_offset as int, data@.len() as int);
                let count = shape_count(h.shape);
                let size = dtype_size(h.dtype);
                &&& h.data_offset <= data@.len()
                &&& count * size > raw.len() ==> r is Err && error_kind(r->Err_0)
                    == NpyErrorKind::ShapeMismatch(count as usize, (raw.len() / size as nat) as usize)
                &&& count * size <= raw.len() ==> r is Ok && r->Ok_0@.len() == count && (forall|
                    i: int,
                |
                    0 <= i < count ==> vview(#[trigger] r->Ok_0@[i]) == element_value(
                        h.dtype,
                        raw.subrange(i * size, i * size + size),
                    ))
            },
        },
{
    let header = match parse_header(data) {
        Ok(h) => h,
        Err(e) => {
            return Err(e);
        },
    };
    let total = element_count(header.shape.as_slice());
    let raw = vstd::slice::slice_subrange(data, header.data_offset, data.len());
    read_values(raw, &header.dtype, total)
}


/// Decoding the little-endian bytes of a number gives back that number,
/// as a value of the array's own element kind: a float32 element is a
/// FLOAT holding the float's bits, a float64 one a DOUBLE, an int32 one an
/// INT32, and so on; a bool element is true exactly when its byte is not 0.
/// Each element takes the bytes of its number's little-endian form.
pub proof fn law_elements_decode_their_bytes()
    ensures
        forall|x: u64| #[trigger] element_value(NpyDtype::Float64, spec_u64_to_le_bytes(x)) == ValueView::Double(x),
        forall|x: u32| #[trigger] element_value(NpyDtype::Float32, spec_u32_to_le_bytes(x)) == ValueView::Float(x),
        forall|x: i64| #[trigger] element_value(NpyDtype::Int64, spec_u64_to_le_bytes(x as u64)) == ValueView::Int64(x),
        forall|x: i32| #[trigger] element_value(NpyDtype::Int32, spec_u32_to_le_bytes(x as u32)) == ValueView::Int32(x),
        forall|x: i16| #[trigger] element_value(NpyDtype::Int16, spec_u16_to_le_bytes(x as u16)) == ValueView::Int16(x),
        forall|x: i8| #[trigger] element_value(NpyDtype::Int8, seq![x as u8]) == ValueView::Int8(x),
        forall|x: u64| #[trigger] element_value(NpyDtype::UInt64, spec_u64_to_le_bytes(x)) == ValueView::UInt64(x),
        forall|x: u32| #[trigger] element_value(NpyDtype::UInt32, spec_u32_to_le_bytes(x)) == ValueView::UInt32(x),
        forall|x: u16| #[trigger] element_value(NpyDtype::UInt16, spec_u16_to_le_bytes(x)) == ValueView::UInt16(x),
        forall|x: u8| #[trigger] element_value(NpyDtype::UInt8, seq![x]) == ValueView::UInt8(x),
        forall|x: u8| #[trigger] element_value(NpyDtype::Bool, seq![x]) == ValueView::Bool(x != 0),
        dtype_size(NpyDtype::Float64) == 8 && dtype_size(NpyDtype::Int64) == 8 && dtype_size(NpyDtype::UInt64) == 8,
        dtype_size(NpyDtype::Float32) == 4 && dtype_size(NpyDtype::Int32) == 4 && dtype_size(NpyDtype::UInt32) == 4,
        dtype_size(NpyDtype::Int16) == 2 && dtype_size(NpyDtype::UInt16) == 2,
        dtype_size(NpyDtype::Int8) == 1 && dtype_size(NpyDtype::UInt8) == 1 && dtype_size(NpyDtype::Bool) == 1,
{
    lemma_auto_spec_u16_to_from_le_bytes();
    lemma_auto_spec_u32_to_from_le_bytes();
    lemma_auto_spec_u64_to_from_le_bytes();
    assert forall|x: u32| #[trigger] element_value(NpyDtype::Float32, spec_u32_to_le_bytes(x)) == ValueView::Float(x) by {
        assert(spec_u32_to_le_bytes(x).len() == 4);
    }
    assert forall|x: u32| #[trigger] element_value(NpyDtype::UInt32, spec_u32_to_le_bytes(x)) == ValueView::UInt32(x) by {
        assert(spec_u32_to_le_bytes(x).len() == 4);
    }
    assert forall|x: u16| #[trigger] element_value(NpyDtype::UInt16, spec_u16_to_le_bytes(x)) == ValueView::UInt16(x) by {
        assert(spec_u16_to_le_bytes(x).len() == 2);
    }
    assert forall|x: u64| #[trigger] element_value(NpyDtype::UInt64, spec_u64_to_le_bytes(x)) == ValueView::UInt64(x) by {
        assert(spec_u64_to_le_bytes(x).len() == 8);
    }
    assert forall|x: u64| #[trigger] element_value(NpyDtype::Float64, spec_u64_to_le_bytes(x)) == ValueView::Double(x) by {
        assert(spec_u64_to_le_bytes(x).len() == 8);
    }
    assert forall|x: i64| #[trigger] element_value(NpyDtype::Int64, spec_u64_to_le_bytes(x as u64))
        == ValueView::Int64(x) by {
        crate::chunk::lemma_i64_bits(x, x);
        assert(spec_u64_to_le_bytes(x as u64).len() == 8);
    }
    assert forall|x: i32| #[trigger] element_value(NpyDtype::Int32, spec_u32_to_le_bytes(x as u32))
        == ValueView::Int32(x) by {
        crate::chunk::lemma_i32_bits(x, x);
        assert(spec_u32_to_le_bytes(x as u32).len() == 4);
        assert(spec_u32_from_le_bytes(spec_u32_to_le_bytes(x as u32)) == x as u32);
    }
    assert forall|x: i16| #[trigger] element_value(NpyDtype::Int16, spec_u16_to_le_bytes(x as u16))
        == ValueView::Int16(x) by {
        crate::chunk::lemma_i16_bits(x, x);
        assert(spec_u16_to_le_bytes(x as u16).len() == 2);
        assert(spec_u16_from_le_bytes(spec_u16_to_le_bytes(x as u16)) == x as u16);
    }
    assert forall|x: i8| #[trigger] element_value(NpyDtype::Int8, seq![x as u8]) == ValueView::Int8(x) by {
        crate::chunk::lemma_i8_bits(x, x);
    }
}

} // verus!
