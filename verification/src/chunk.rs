//! Batches of rows exchanged between physical operators, and the equality
//! and hashing of values that the join operators key on.
//!
//! Equality follows the values' structure, with IEEE-754 equality on the
//! floating-point variants (NaN equals nothing, the two zeros are equal).
//! A value is hashed by feeding the standard library's default hasher its
//! variant's position, then its payload; a nested value contributes its own
//! hash.

use crate::csv_reader::utf8_all;
use crate::text::utf8;
use crate::value_codec::{copy_value, utf8_bytes, vview, Value, ValueView};
use std::collections::hash_map::DefaultHasher;
use std::hash::Hasher;
use vstd::bytes::*;
use vstd::prelude::*;
use vstd::std_specs::hash::DefaultHasherAdditionalSpecFns;

verus! {

/// Whether the bits of a double are a NaN.
pub open spec fn f64_is_nan(x: u64) -> bool {
    x & 0x7ff0_0000_0000_0000u64 == 0x7ff0_0000_0000_0000u64 && x & 0x000f_ffff_ffff_ffffu64 != 0
}

/// IEEE-754 equality of two doubles given by their bits.
pub open spec fn f64_eq(x: u64, y: u64) -> bool {
    !f64_is_nan(x) && !f64_is_nan(y) && (x == y || (x & 0x7fff_ffff_ffff_ffffu64 == 0 && y
        & 0x7fff_ffff_ffff_ffffu64 == 0))
}

/// Whether the bits of a float are a NaN.
pub open spec fn f32_is_nan(x: u32) -> bool {
    x & 0x7f80_0000u32 == 0x7f80_0000u32 && x & 0x007f_ffffu32 != 0
}

/// IEEE-754 equality of two floats given by their bits.
pub open spec fn f32_eq(x: u32, y: u32) -> bool {
    !f32_is_nan(x) && !f32_is_nan(y) && (x == y || (x & 0x7fff_ffffu32 == 0 && y & 0x7fff_ffffu32
        == 0))
}

/// Equality of two values: same variant and equal payloads.
pub open spec fn value_eq(a: ValueView, b: ValueView) -> bool
    decreases a,
{
    match (a, b) {
        (ValueView::Double(x), ValueView::Double(y)) => f64_eq(x, y),
        (ValueView::Float(x), ValueView::Float(y)) => f32_eq(x, y),
        (ValueView::List(s), ValueView::List(t)) => list_eq(s, t),
        (ValueView::MapValue(s), ValueView::MapValue(t)) => pairs_eq(s, t),
        (ValueView::Struct(s), ValueView::Struct(t)) => fields_eq(s, t),
        (ValueView::Union(n, x), ValueView::Union(m, y)) => n == m && value_eq(*x, *y),
        _ => a == b,
    }
}

/// Element-wise equality of two lists of values.
pub open spec fn list_eq(s: Seq<ValueView>, t: Seq<ValueView>) -> bool
    decreases s,
{
    if s.len() != t.len() {
        false
    } else if s.len() == 0 {
        true
    } else {
        list_eq(s.drop_last(), t.drop_last()) && value_eq(s.last(), t.last())
    }
}

/// Pair-wise equality of two lists of key/value pairs.
pub open spec fn pairs_eq(s: Seq<(ValueView, ValueView)>, t: Seq<(ValueView, ValueView)>) -> bool
    decreases s,
{
    if s.len() != t.len() {
        false
    } else if s.len() == 0 {
        true
    } else {
        pairs_eq(s.drop_last(), t.drop_last()) && value_eq(s.last().0, t.last().0) && value_eq(
            s.last().1,
            t.last().1,
        )
    }
}

/// Field-wise equality of two lists of named struct fields.
pub open spec fn fields_eq(s: Seq<(Seq<char>, ValueView)>, t: Seq<(Seq<char>, ValueView)>) -> bool
    decreases s,
{
    if s.len() != t.len() {
        false
    } else if s.len() == 0 {
        true
    } else {
        fields_eq(s.drop_last(), t.drop_last()) && s.last().0 == t.last().0 && value_eq(
            s.last().1,
            t.last().1,
        )
    }
}

pub proof fn lemma_list_eq(s: Seq<ValueView>, t: Seq<ValueView>)
    ensures
        list_eq(s, t) <==> (s.len() == t.len() && forall|k: int|
            0 <= k < s.len() ==> value_eq(#[trigger] s[k], t[k])),
    decreases s.len(),
{
    if s.len() == t.len() && s.len() > 0 {
        lemma_list_eq(s.drop_last(), t.drop_last());
        if list_eq(s, t) {
            assert forall|k: int| 0 <= k < s.len() implies value_eq(#[trigger] s[k], t[k]) by {
                if k < s.len() - 1 {
                    assert(s.drop_last()[k] == s[k]);
                    assert(t.drop_last()[k] == t[k]);
                }
            }
        }
        if forall|k: int| 0 <= k < s.len() ==> value_eq(#[trigger] s[k], t[k]) {
            assert forall|k: int| 0 <= k < s.drop_last().len() implies value_eq(
                #[trigger] s.drop_last()[k],
                t.drop_last()[k],
            ) by {
                assert(s.drop_last()[k] == s[k]);
                assert(t.drop_last()[k] == t[k]);
            }
            assert(value_eq(s[s.len() - 1], t[s.len() - 1]));
        }
    }
}

proof fn lemma_pairs_eq(s: Seq<(ValueView, ValueView)>, t: Seq<(ValueView, ValueView)>)
    ensures
        pairs_eq(s, t) <==> (s.len() == t.len() && forall|k: int|
            0 <= k < s.len() ==> value_eq((#[trigger] s[k]).0, t[k].0) && value_eq(s[k].1, t[k].1)),
    decreases s.len(),
{
    if s.len() == t.len() && s.len() > 0 {
        lemma_pairs_eq(s.drop_last(), t.drop_last());
        if pairs_eq(s, t) {
            assert forall|k: int| 0 <= k < s.len() implies value_eq((#[trigger] s[k]).0, t[k].0)
                && value_eq(s[k].1, t[k].1) by {
                if k < s.len() - 1 {
                    assert(s.drop_last()[k] == s[k]);
                    assert(t.drop_last()[k] == t[k]);
                }
            }
        }
        if forall|k: int|
            0 <= k < s.len() ==> value_eq((#[trigger] s[k]).0, t[k].0) && value_eq(s[k].1, t[k].1) {
            assert forall|k: int| 0 <= k < s.drop_last().len() implies value_eq(
                (#[trigger] s.drop_last()[k]).0,
                t.drop_last()[k].0,
            ) && value_eq(s.drop_last()[k].1, t.drop_last()[k].1) by {
                assert(s.drop_last()[k] == s[k]);
                assert(t.drop_last()[k] == t[k]);
            }
            assert(value_eq(s[s.len() - 1].0, t[s.len() - 1].0));
        }
    }
}

proof fn lemma_fields_eq(s: Seq<(Seq<char>, ValueView)>, t: Seq<(Seq<char>, ValueView)>)
    ensures
        fields_eq(s, t) <==> (s.len() == t.len() && forall|k: int|
            0 <= k < s.len() ==> (#[trigger] s[k]).0 == t[k].0 && value_eq(s[k].1, t[k].1)),
    decreases s.len(),
{
    if s.len() == t.len() && s.len() > 0 {
        lemma_fields_eq(s.drop_last(), t.drop_last());
        if fields_eq(s, t) {
            assert forall|k: int| 0 <= k < s.len() implies (#[trigger] s[k]).0 == t[k].0 && value_eq(
                s[k].1,
                t[k].1,
            ) by {
                if k < s.len() - 1 {
                    assert(s.drop_last()[k] == s[k]);
                    assert(t.drop_last()[k] == t[k]);
                }
            }
        }
        if forall|k: int| 0 <= k < s.len() ==> (#[trigger] s[k]).0 == t[k].0 && value_eq(s[k].1, t[k].1) {
            assert forall|k: int| 0 <= k < s.drop_last().len() implies (
            #[trigger] s.drop_last()[k]).0 == t.drop_last()[k].0 && value_eq(
                s.drop_last()[k].1,
                t.drop_last()[k].1,
            ) by {
                assert(s.drop_last()[k] == s[k]);
                assert(t.drop_last()[k] == t[k]);
            }
            assert(value_eq(s[s.len() - 1].1, t[s.len() - 1].1));
        }
    }
}

fn bits64_eq(x: u64, y: u64) -> (b: bool)
    ensures
        b == f64_eq(x, y),
{
    let nan_x = x & 0x7ff0_0000_0000_0000u64 == 0x7ff0_0000_0000_0000u64 && x
        & 0x000f_ffff_ffff_ffffu64 != 0;
    let nan_y = y & 0x7ff0_0000_0000_0000u64 == 0x7ff0_0000_0000_0000u64 && y
        & 0x000f_ffff_ffff_ffffu64 != 0;
    !nan_x && !nan_y && (x == y || (x & 0x7fff_ffff_ffff_ffffu64 == 0 && y
        & 0x7fff_ffff_ffff_ffffu64 == 0))
}

fn bits32_eq(x: u32, y: u32) -> (b: bool)
    ensures
        b == f32_eq(x, y),
{
    let nan_x = x & 0x7f80_0000u32 == 0x7f80_0000u32 && x & 0x007f_ffffu32 != 0;
    let nan_y = y & 0x7f80_0000u32 == 0x7f80_0000u32 && y & 0x007f_ffffu32 != 0;
    !nan_x && !nan_y && (x == y || (x & 0x7fff_ffffu32 == 0 && y & 0x7fff_ffffu32 == 0))
}

fn text_eq(a: &String, b: &String) -> (r: bool)
    ensures
        r == (a@ == b@),
{
    let av = crate::text::chars_of(a.as_str());
    crate::npy_reader::same_chars(av.as_slice(), b.as_str())
}

fn bytes_eq(a: &Vec<u8>, b: &Vec<u8>) -> (r: bool)
    ensures
        r == (a@ == b@),
{
    if a.len() != b.len() {
        return false;
    }
    let mut i: usize = 0;
    while i < a.len()
        invariant
            i <= a@.len(),
            a@.len() == b@.len(),
            forall|k: int| 0 <= k < i ==> a@[k] == b@[k],
        decreases a@.len() - i,
    {
        if a[i] != b[i] {
            return false;
        }
        i = i + 1;
    }
    proof {
        assert(a@ =~= b@);
    }
    true
}

/// Whether two values are equal.
pub fn values_equal(a: &Value, b: &Value) -> (r: bool)
    ensures
        r == value_eq(vview(*a), vview(*b)),
    decreases a,
{
    match (a, b) {
        (Value::Null, Value::Null) => true,
        (Value::Bool(x), Value::Bool(y)) => *x == *y,
        (Value::Int64(x), Value::Int64(y)) => *x == *y,
        (Value::Int32(x), Value::Int32(y)) => *x == *y,
        (Value::Int16(x), Value::Int16(y)) => *x == *y,
        (Value::Int8(x), Value::Int8(y)) => *x == *y,
        (Value::UInt64(x), Value::UInt64(y)) => *x == *y,
        (Value::UInt32(x), Value::UInt32(y)) => *x == *y,
        (Value::UInt16(x), Value::UInt16(y)) => *x == *y,
        (Value::UInt8(x), Value::UInt8(y)) => *x == *y,
        (Value::Int128(x), Value::Int128(y)) => *x == *y,
        (Value::Double(x), Value::Double(y)) => bits64_eq(*x, *y),
        (Value::Float(x), Value::Float(y)) => bits32_eq(*x, *y),
        (Value::String(x), Value::String(y)) => text_eq(x, y),
        (Value::Blob(x), Value::Blob(y)) => bytes_eq(x, y),
        (Value::Date(x), Value::Date(y)) => *x == *y,
        (Value::Timestamp(x), Value::Timestamp(y)) => *x == *y,
        (Value::TimestampTz(x), Value::TimestampTz(y)) => *x == *y,
        (Value::TimestampNs(x), Value::TimestampNs(y)) => *x == *y,
        (Value::TimestampMs(x), Value::TimestampMs(y)) => *x == *y,
        (Value::TimestampSec(x), Value::TimestampSec(y)) => *x == *y,
        (
            Value::Interval { months: m1, days: d1, micros: u1 },
            Value::Interval { months: m2, days: d2, micros: u2 },
        ) => *m1 == *m2 && *d1 == *d2 && *u1 == *u2,
        (
            Value::InternalID { table_id: t1, offset: o1 },
            Value::InternalID { table_id: t2, offset: o2 },
        ) => *t1 == *t2 && *o1 == *o2,
        (Value::List(xs), Value::List(ys)) => {
            let ghost sv = vview(*a)->List_0;
            let ghost tv = vview(*b)->List_0;
            proof {
                lemma_list_eq(sv, tv);
            }
            if xs.len() != ys.len() {
                return false;
            }
            let mut i: usize = 0;
            while i < xs.len()
                invariant
                    i <= xs@.len(),
                    xs@.len() == ys@.len(),
                    *a == Value::List(*xs),
                    *b == Value::List(*ys),
                    sv == vview(*a)->List_0,
                    tv == vview(*b)->List_0,
                    list_eq(sv, tv) <==> (sv.len() == tv.len() && forall|k: int|
                        0 <= k < sv.len() ==> value_eq(#[trigger] sv[k], tv[k])),
                    forall|k: int| 0 <= k < i ==> value_eq(#[trigger] sv[k], tv[k]),
                decreases xs@.len() - i,
            {
                proof {
                    assert(decreases_to!(*xs => xs[i as int]));
                    assert(decreases_to!(*a => (*a)->List_0));
                    assert(sv[i as int] == vview(xs@[i as int]));
                    assert(tv[i as int] == vview(ys@[i as int]));
                }
                if !values_equal(&xs[i], &ys[i]) {
                    return false;
                }
                i = i + 1;
            }
            true
        },
        (Value::MapValue(xs), Value::MapValue(ys)) => {
            let ghost sv = vview(*a)->MapValue_0;
            let ghost tv = vview(*b)->MapValue_0;
            proof {
                lemma_pairs_eq(sv, tv);
            }
            if xs.len() != ys.len() {
                return false;
            }
            let mut i: usize = 0;
            while i < xs.len()
                invariant
                    i <= xs@.len(),
                    xs@.len() == ys@.len(),
                    *a == Value::MapValue(*xs),
                    *b == Value::MapValue(*ys),
                    sv == vview(*a)->MapValue_0,
                    tv == vview(*b)->MapValue_0,
                    pairs_eq(sv, tv) <==> (sv.len() == tv.len() && forall|k: int|
                        0 <= k < sv.len() ==> value_eq((#[trigger] sv[k]).0, tv[k].0) && value_eq(
                            sv[k].1,
                            tv[k].1,
                        )),
                    forall|k: int|
                        0 <= k < i ==> value_eq((#[trigger] sv[k]).0, tv[k].0) && value_eq(
                            sv[k].1,
                            tv[k].1,
                        ),
                decreases xs@.len() - i,
            {
                proof {
                    assert(decreases_to!(*xs => xs[i as int]));
                    assert(decreases_to!(xs[i as int] => xs[i as int].0));
                    assert(decreases_to!(xs[i as int] => xs[i as int].1));
                    assert(decreases_to!(*a => (*a)->MapValue_0));
                    assert(sv[i as int] == (vview(xs@[i as int].0), vview(xs@[i as int].1)));
                    assert(tv[i as int] == (vview(ys@[i as int].0), vview(ys@[i as int].1)));
                }
                if !values_equal(&xs[i].0, &ys[i].0) {
                    return false;
                }
                if !values_equal(&xs[i].1, &ys[i].1) {
                    return false;
                }
                i = i + 1;
            }
            true
        },
        (Value::Struct(xs), Value::Struct(ys)) => {
            let ghost sv = vview(*a)->Struct_0;
            let ghost tv = vview(*b)->Struct_0;
            proof {
                lemma_fields_eq(sv, tv);
            }
            if xs.len() != ys.len() {
                return false;
            }
            let mut i: usize = 0;
            while i < xs.len()
                invariant
                    i <= xs@.len(),
                    xs@.len() == ys@.len(),
                    *a == Value::Struct(*xs),
                    *b == Value::Struct(*ys),
                    sv == vview(*a)->Struct_0,
                    tv == vview(*b)->Struct_0,
                    fields_eq(sv, tv) <==> (sv.len() == tv.len() && forall|k: int|
                        0 <= k < sv.len() ==> (#[trigger] sv[k]).0 == tv[k].0 && value_eq(
                            sv[k].1,
                            tv[k].1,
                        )),
                    forall|k: int|
                        0 <= k < i ==> (#[trigger] sv[k]).0 == tv[k].0 && value_eq(sv[k].1, tv[k].1),
                decreases xs@.len() - i,
            {
                proof {
                    assert(decreases_to!(*xs => xs[i as int]));
                    assert(decreases_to!(xs[i as int] => xs[i as int].1));
                    assert(decreases_to!(*a => (*a)->Struct_0));
                    assert(sv[i as int] == (xs@[i as int].0@, vview(xs@[i as int].1)));
                    assert(tv[i as int] == (ys@[i as int].0@, vview(ys@[i as int].1)));
                }
                if !text_eq(&xs[i].0, &ys[i].0) {
                    return false;
                }
                if !values_equal(&xs[i].1, &ys[i].1) {
                    return false;
                }
                i = i + 1;
            }
            true
        },
        (Value::UInt128(x), Value::UInt128(y)) => *x == *y,
        (Value::Json(x), Value::Json(y)) => text_eq(x, y),
        (Value::DTime(x), Value::DTime(y)) => *x == *y,
        (Value::Union(n, x), Value::Union(m, y)) => {
            if !text_eq(n, m) {
                return false;
            }
            values_equal(x, y)
        },
        _ => false,
    }
}

/// Eight little-endian bytes of `x`.
pub open spec fn word(x: u64) -> Seq<u8> {
    spec_u64_to_le_bytes(x)
}

/// What hashing a piece of text feeds the hasher: its UTF-8 bytes, then a
/// `0xff` terminator.
pub open spec fn text_writes(s: Seq<char>) -> Seq<Seq<u8>> {
    seq![utf8_all(s), seq![0xffu8]]
}

/// The hash of a value: the default hasher's result on the writes of
/// `hash_writes`.
pub open spec fn hash_of(v: ValueView) -> u64 {
    DefaultHasher::spec_finish(hash_writes(v))
}

/// The writes that hashing a value feeds the hasher: the variant's position
/// as a word, then the payload in little-endian form; a byte string is
/// preceded by its length, and a nested value is fed as the word of its own
/// hash.
pub open spec fn hash_writes(v: ValueView) -> Seq<Seq<u8>>
    decreases v,
{
    match v {
        ValueView::Null => seq![word(0)],
        ValueView::Bool(b) => seq![word(1), seq![if b { 1u8 } else { 0u8 }]],
        ValueView::Int64(x) => seq![word(2), spec_u64_to_le_bytes(x as u64)],
        ValueView::Int32(x) => seq![word(3), spec_u32_to_le_bytes(x as u32)],
        ValueView::Int16(x) => seq![word(4), spec_u16_to_le_bytes(x as u16)],
        ValueView::Int8(x) => seq![word(5), seq![x as u8]],
        ValueView::UInt64(x) => seq![word(6), spec_u64_to_le_bytes(x)],
        ValueView::UInt32(x) => seq![word(7), spec_u32_to_le_bytes(x)],
        ValueView::UInt16(x) => seq![word(8), spec_u16_to_le_bytes(x)],
        ValueView::UInt8(x) => seq![word(9), seq![x]],
        ValueView::Int128(x) => seq![word(10), spec_u128_to_le_bytes(x as u128)],
        ValueView::Double(x) => seq![word(11), spec_u64_to_le_bytes(x)],
        ValueView::Float(x) => seq![word(12), spec_u32_to_le_bytes(x)],
        ValueView::String(t) => seq![word(13)] + text_writes(t),
        ValueView::Blob(b) => seq![word(14), word(b.len() as u64), b],
        ValueView::Date(x) => seq![word(15), spec_u32_to_le_bytes(x as u32)],
        ValueView::Timestamp(x) => seq![word(16), spec_u64_to_le_bytes(x as u64)],
        ValueView::TimestampTz(x) => seq![word(17), spec_u64_to_le_bytes(x as u64)],
        ValueView::TimestampNs(x) => seq![word(18), spec_u64_to_le_bytes(x as u64)],
        ValueView::TimestampMs(x) => seq![word(19), spec_u64_to_le_bytes(x as u64)],
        ValueView::TimestampSec(x) => seq![word(20), spec_u64_to_le_bytes(x as u64)],
        ValueView::Interval(m, d, u) => seq![
            word(21),
            spec_u32_to_le_bytes(m as u32),
            spec_u32_to_le_bytes(d as u32),
            spec_u64_to_le_bytes(u as u64),
        ],
        ValueView::InternalID(t, o) => seq![word(22), word(t), word(o)],
        ValueView::List(s) => seq![word(23)] + list_writes(s),
        ValueView::MapValue(s) => seq![word(24)] + pair_writes(s),
        ValueView::Struct(s) => seq![word(25)] + field_writes(s),
        ValueView::UInt128(x) => seq![word(26), spec_u128_to_le_bytes(x)],
        ValueView::Json(t) => seq![word(27)] + text_writes(t),
        ValueView::DTime(x) => seq![word(28), spec_u64_to_le_bytes(x as u64)],
        ValueView::Union(t, b) => seq![word(29)] + text_writes(t) + seq![
            word(DefaultHasher::spec_finish(hash_writes(*b))),
        ],
    }
}

/// The writes for the items of a list: the word of each item's hash.
pub open spec fn list_writes(s: Seq<ValueView>) -> Seq<Seq<u8>>
    decreases s,
{
    if s.len() == 0 {
        Seq::empty()
    } else {
        list_writes(s.drop_last()).push(word(DefaultHasher::spec_finish(hash_writes(s.last()))))
    }
}

/// The writes for key/value pairs: the word of the key's hash, then of the
/// value's.
pub open spec fn pair_writes(s: Seq<(ValueView, ValueView)>) -> Seq<Seq<u8>>
    decreases s,
{
    if s.len() == 0 {
        Seq::empty()
    } else {
        pair_writes(s.drop_last()).push(word(DefaultHasher::spec_finish(hash_writes(s.last().0)))).push(
            word(DefaultHasher::spec_finish(hash_writes(s.last().1))),
        )
    }
}

/// The writes for struct fields: the field's name as text, then the word of
/// its value's hash.
pub open spec fn field_writes(s: Seq<(Seq<char>, ValueView)>) -> Seq<Seq<u8>>
    decreases s,
{
    if s.len() == 0 {
        Seq::empty()
    } else {
        field_writes(s.drop_last()) + text_writes(s.last().0) + seq![
            word(DefaultHasher::spec_finish(hash_writes(s.last().1))),
        ]
    }
}

fn write_bytes(h: &mut DefaultHasher, b: &Vec<u8>)
    ensures
        final(h)@ == old(h)@.push(b@),
{
    h.write(b.as_slice());
}

fn write_word(h: &mut DefaultHasher, x: u64)
    ensures
        final(h)@ == old(h)@.push(word(x)),
{
    let b = u64_to_le_bytes(x);
    write_bytes(h, &b);
}

fn write_text(h: &mut DefaultHasher, t: &String)
    ensures
        final(h)@ == old(h)@ + text_writes(t@),
{
    let b = utf8_bytes(t.as_str());
    write_bytes(h, &b);
    let end: Vec<u8> = vec![0xffu8];
    write_bytes(h, &end);
    proof {
        assert(end@ =~= seq![0xffu8]);
        assert(h@ =~= old(h)@ + text_writes(t@));
    }
}

/// The hash of a value under the default hasher.
pub fn value_hash(v: &Value) -> (h: u64)
    ensures
        h == hash_of(vview(*v)),
    decreases v,
{
    let mut hasher = DefaultHasher::new();
    match v {
        Value::Null => {
            write_word(&mut hasher, 0);
        },
        Value::Bool(b) => {
            write_word(&mut hasher, 1);
            let bytes: Vec<u8> = if *b { vec![1u8] } else { vec![0u8] };
            write_bytes(&mut hasher, &bytes);
            proof {
                assert(bytes@ =~= seq![if *b { 1u8 } else { 0u8 }]);
            }
        },
        Value::Int64(x) => {
            write_word(&mut hasher, 2);
            write_bytes(&mut hasher, &u64_to_le_bytes(*x as u64));
        },
        Value::Int32(x) => {
            write_word(&mut hasher, 3);
            write_bytes(&mut hasher, &u32_to_le_bytes(*x as u32));
        },
        Value::Int16(x) => {
            write_word(&mut hasher, 4);
            write_bytes(&mut hasher, &u16_to_le_bytes(*x as u16));
        },
        Value::Int8(x) => {
            write_word(&mut hasher, 5);
            let bytes: Vec<u8> = vec![*x as u8];
            write_bytes(&mut hasher, &bytes);
            proof {
                assert(bytes@ =~= seq![*x as u8]);
            }
        },
        Value::UInt64(x) => {
            write_word(&mut hasher, 6);
            write_bytes(&mut hasher, &u64_to_le_bytes(*x));
        },
        Value::UInt32(x) => {
            write_word(&mut hasher, 7);
            write_bytes(&mut hasher, &u32_to_le_bytes(*x));
        },
        Value::UInt16(x) => {
            write_word(&mut hasher, 8);
            write_bytes(&mut hasher, &u16_to_le_bytes(*x));
        },
        Value::UInt8(x) => {
            write_word(&mut hasher, 9);
            let bytes: Vec<u8> = vec![*x];
            write_bytes(&mut hasher, &bytes);
            proof {
                assert(bytes@ =~= seq![*x]);
            }
        },
        Value::Int128(x) => {
            write_word(&mut hasher, 10);
            write_bytes(&mut hasher, &u128_to_le_bytes(*x as u128));
        },
        Value::Double(x) => {
            write_word(&mut hasher, 11);
            write_bytes(&mut hasher, &u64_to_le_bytes(*x));
        },
        Value::Float(x) => {
            write_word(&mut hasher, 12);
            write_bytes(&mut hasher, &u32_to_le_bytes(*x));
        },
        Value::String(t) => {
            write_word(&mut hasher, 13);
            write_text(&mut hasher, t);
        },
        Value::Blob(b) => {
            write_word(&mut hasher, 14);
            write_word(&mut hasher, b.len() as u64);
            write_bytes(&mut hasher, b);
        },
        Value::Date(x) => {
            write_word(&mut hasher, 15);
            write_bytes(&mut hasher, &u32_to_le_bytes(*x as u32));
        },
        Value::Timestamp(x) => {
            write_word(&mut hasher, 16);
            write_bytes(&mut hasher, &u64_to_le_bytes(*x as u64));
        },
        Value::TimestampTz(x) => {
            write_word(&mut hasher, 17);
            write_bytes(&mut hasher, &u64_to_le_bytes(*x as u64));
        },
        Value::TimestampNs(x) => {
            write_word(&mut hasher, 18);
            write_bytes(&mut hasher, &u64_to_le_bytes(*x as u64));
        },
        Value::TimestampMs(x) => {
            write_word(&mut hasher, 19);
            write_bytes(&mut hasher, &u64_to_le_bytes(*x as u64));
        },
        Value::TimestampSec(x) => {
            write_word(&mut hasher, 20);
            write_bytes(&mut hasher, &u64_to_le_bytes(*x as u64));
        },
        Value::Interval { months, days, micros } => {
            write_word(&mut hasher, 21);
            write_bytes(&mut hasher, &u32_to_le_bytes(*months as u32));
            write_bytes(&mut hasher, &u32_to_le_bytes(*days as u32));
            write_bytes(&mut hasher, &u64_to_le_bytes(*micros as u64));
        },
        Value::InternalID { table_id, offset } => {
            write_word(&mut hasher, 22);
            write_word(&mut hasher, *table_id);
            write_word(&mut hasher, *offset);
        },
        Value::List(xs) => {
            write_word(&mut hasher, 23);
            let ghost start = hasher@;
            let ghost sv = vview(*v)->List_0;
            let mut i: usize = 0;
            proof {
                assert(sv.subrange(0, 0) =~= Seq::<ValueView>::empty());
                assert(hasher@ =~= start + list_writes(sv.subrange(0, 0)));
            }
            while i < xs.len()
                invariant
                    i <= xs@.len(),
                    *v == Value::List(*xs),
                    sv == vview(*v)->List_0,
                    hasher@ == start + list_writes(sv.subrange(0, i as int)),
                decreases xs@.len() - i,
            {
                proof {
                    assert(decreases_to!(*xs => xs[i as int]));
                    assert(decreases_to!(*v => (*v)->List_0));
                    assert(sv[i as int] == vview(xs@[i as int]));
                    assert(sv.subrange(0, i + 1).drop_last() =~= sv.subrange(0, i as int));
                }
                let item = value_hash(&xs[i]);
                write_word(&mut hasher, item);
                i = i + 1;
            }
            proof {
                assert(sv.subrange(0, xs@.len() as int) =~= sv);
            }
        },
        Value::MapValue(ps) => {
            write_word(&mut hasher, 24);
            let ghost start = hasher@;
            let ghost sv = vview(*v)->MapValue_0;
            let mut i: usize = 0;
            proof {
                assert(sv.subrange(0, 0) =~= Seq::<(ValueView, ValueView)>::empty());
                assert(hasher@ =~= start + pair_writes(sv.subrange(0, 0)));
            }
            while i < ps.len()
                invariant
                    i <= ps@.len(),
                    *v == Value::MapValue(*ps),
                    sv == vview(*v)->MapValue_0,
                    hasher@ == start + pair_writes(sv.subrange(0, i as int)),
                decreases ps@.len() - i,
            {
                proof {
                    assert(decreases_to!(*ps => ps[i as int]));
                    assert(decreases_to!(ps[i as int] => ps[i as int].0));
                    assert(decreases_to!(ps[i as int] => ps[i as int].1));
                    assert(decreases_to!(*v => (*v)->MapValue_0));
                    assert(sv[i as int] == (vview(ps@[i as int].0), vview(ps@[i as int].1)));
                    assert(sv.subrange(0, i + 1).drop_last() =~= sv.subrange(0, i as int));
                }
                let kh = value_hash(&ps[i].0);
                write_word(&mut hasher, kh);
                let vh = value_hash(&ps[i].1);
                write_word(&mut hasher, vh);
                i = i + 1;
            }
            proof {
                assert(sv.subrange(0, ps@.len() as int) =~= sv);
            }
        },
        Value::Struct(fs) => {
            write_word(&mut hasher, 25);
            let ghost start = hasher@;
            let ghost sv = vview(*v)->Struct_0;
            let mut i: usize = 0;
            proof {
                assert(sv.subrange(0, 0) =~= Seq::<(Seq<char>, ValueView)>::empty());
                assert(hasher@ =~= start + field_writes(sv.subrange(0, 0)));
            }
            while i < fs.len()
                invariant
                    i <= fs@.len(),
                    *v == Value::Struct(*fs),
                    sv == vview(*v)->Struct_0,
                    hasher@ == start + field_writes(sv.subrange(0, i as int)),
                decreases fs@.len() - i,
            {
                proof {
                    assert(decreases_to!(*fs => fs[i as int]));
                    assert(decreases_to!(fs[i as int] => fs[i as int].1));
                    assert(decreases_to!(*v => (*v)->Struct_0));
                    assert(sv[i as int] == (fs@[i as int].0@, vview(fs@[i as int].1)));
                    assert(sv.subrange(0, i + 1).drop_last() =~= sv.subrange(0, i as int));
                }
                write_text(&mut hasher, &fs[i].0);
                let fh = value_hash(&fs[i].1);
                write_word(&mut hasher, fh);
                proof {
                    assert(hasher@ =~= start + field_writes(sv.subrange(0, i + 1)));
                }
                i = i + 1;
            }
            proof {
                assert(sv.subrange(0, fs@.len() as int) =~= sv);
            }
        },
        Value::UInt128(x) => {
            write_word(&mut hasher, 26);
            write_bytes(&mut hasher, &u128_to_le_bytes(*x));
        },
        Value::Json(t) => {
            write_word(&mut hasher, 27);
            write_text(&mut hasher, t);
        },
        Value::DTime(x) => {
            write_word(&mut hasher, 28);
            write_bytes(&mut hasher, &u64_to_le_bytes(*x as u64));
        },
        Value::Union(t, b) => {
            write_word(&mut hasher, 29);
            write_text(&mut hasher, t);
            let inner = value_hash(b);
            write_word(&mut hasher, inner);
        },
    }
    proof {
        assert(hasher@ =~= hash_writes(vview(*v)));
    }
    hasher.finish()
}

/// A batch of rows, held column by column.
#[derive(Debug)]
pub struct DataChunk {
    /// `fields[c][r]` is the value of column `c` in row `r`; NULL is
    /// `Value::Null`.
    pub fields: Vec<Vec<Value>>,
    /// Number of rows.
    pub size: usize,
}

/// The value of column `c` in row `r`: NULL where the chunk has no such
/// column or the column no such row.
pub open spec fn cell(ch: DataChunk, c: int, r: int) -> ValueView {
    if 0 <= c < ch.fields@.len() && 0 <= r < ch.fields@[c]@.len() {
        vview(ch.fields@[c]@[r])
    } else {
        ValueView::Null
    }
}

/// Row `r` of a chunk: one value per column.
pub open spec fn row_of(ch: DataChunk, r: int) -> Seq<ValueView> {
    Seq::new(ch.fields@.len(), |c: int| cell(ch, c, r))
}

/// The rows of a chunk, in order.
pub open spec fn rows_of(ch: DataChunk) -> Seq<Seq<ValueView>> {
    Seq::new(ch.size as nat, |r: int| row_of(ch, r))
}

/// The rows of a sequence of chunks, chunk after chunk.
pub open spec fn all_rows(chunks: Seq<DataChunk>) -> Seq<Seq<ValueView>>
    decreases chunks.len(),
{
    if chunks.len() == 0 {
        Seq::empty()
    } else {
        all_rows(chunks.drop_last()) + rows_of(chunks.last())
    }
}

/// The content of a row of values.
pub open spec fn rview(row: Seq<Value>) -> Seq<ValueView> {
    Seq::new(row.len(), |c: int| vview(row[c]))
}

/// The content of a list of rows.
pub open spec fn rows_view(rows: Seq<Vec<Value>>) -> Seq<Seq<ValueView>> {
    Seq::new(rows.len(), |i: int| rview(rows[i]@))
}

/// The value of a row in column `k`, NULL where the row has no such column.
pub open spec fn key_of(row: Seq<ValueView>, k: int) -> ValueView {
    if 0 <= k < row.len() {
        row[k]
    } else {
        ValueView::Null
    }
}

/// Whether every chunk has `w` columns.
pub open spec fn uniform_width(chunks: Seq<DataChunk>, w: int) -> bool {
    forall|i: int| 0 <= i < chunks.len() ==> (#[trigger] chunks[i]).fields@.len() == w
}

/// Whether `ch` holds exactly `rows`, each of `w` values, column by column.
pub open spec fn holds(ch: DataChunk, rows: Seq<Seq<ValueView>>, w: int) -> bool {
    &&& ch.fields@.len() == w
    &&& ch.size == rows.len()
    &&& forall|c: int| 0 <= c < w ==> (#[trigger] ch.fields@[c])@.len() == rows.len()
    &&& forall|r: int| 0 <= r < rows.len() ==> (#[trigger] rows[r]).len() == w
    &&& forall|r: int, c: int|
        0 <= r < rows.len() && 0 <= c < w ==> vview(#[trigger] ch.fields@[c]@[r]) == rows[r][c]
}

/// A chunk holding `rows` reads them back as its rows.
pub proof fn lemma_holds_rows(ch: DataChunk, rows: Seq<Seq<ValueView>>, w: int)
    requires
        holds(ch, rows, w),
    ensures
        rows_of(ch) == rows,
{
    assert forall|r: int| 0 <= r < rows.len() implies #[trigger] rows_of(ch)[r] == rows[r] by {
        assert(row_of(ch, r) =~= rows[r]);
    }
    assert(rows_of(ch) =~= rows);
}

impl DataChunk {
    /// A chunk of the given columns; it has as many rows as the first
    /// column has values (none without columns).
    pub fn new(fields: Vec<Vec<Value>>) -> (ch: Self)
        ensures
            ch.fields@ == fields@,
            ch.size == (if fields@.len() > 0 {
                fields@[0]@.len()
            } else {
                0
            }),
    {
        let size = if fields.len() > 0 {
            fields[0].len()
        } else {
            0
        };
        DataChunk { fields, size }
    }

    /// Number of columns.
    pub fn num_fields(&self) -> (n: usize)
        ensures
            n == self.fields@.len(),
    {
        self.fields.len()
    }

    /// The value of column `c` in row `r`, NULL where there is none.
    pub fn get_value(&self, c: usize, r: usize) -> (v: Value)
        ensures
            vview(v) == cell(*self, c as int, r as int),
    {
        if c < self.fields.len() && r < self.fields[c].len() {
            copy_value(&self.fields[c][r])
        } else {
            Value::Null
        }
    }

    /// Row `r`: one value per column.
    pub fn row(&self, r: usize) -> (row: Vec<Value>)
        ensures
            rview(row@) == row_of(*self, r as int),
    {
        let mut row: Vec<Value> = Vec::new();
        let mut c: usize = 0;
        while c < self.fields.len()
            invariant
                c <= self.fields@.len(),
                row@.len() == c,
                forall|k: int| 0 <= k < c ==> vview(#[trigger] row@[k]) == cell(*self, k, r as int),
            decreases self.fields@.len() - c,
        {
            let v = self.get_value(c, r);
            row.push(v);
            c = c + 1;
        }
        proof {
            assert(rview(row@) =~= row_of(*self, r as int));
        }
        row
    }
}

/// The rows of `chunks[lo..hi]`, chunk after chunk.
pub fn gather_rows(chunks: &Vec<DataChunk>, lo: usize, hi: usize) -> (rows: Vec<Vec<Value>>)
    requires
        lo <= hi <= chunks@.len(),
    ensures
        rows_view(rows@) == all_rows(chunks@.subrange(lo as int, hi as int)),
{
    let mut rows: Vec<Vec<Value>> = Vec::new();
    let mut k: usize = lo;
    proof {
        assert(chunks@.subrange(lo as int, lo as int) =~= Seq::<DataChunk>::empty());
        assert(rows_view(rows@) =~= all_rows(chunks@.subrange(lo as int, lo as int)));
    }
    while k < hi
        invariant
            lo <= k <= hi <= chunks@.len(),
            rows_view(rows@) == all_rows(chunks@.subrange(lo as int, k as int)),
        decreases hi - k,
    {
        let ch = &chunks[k];
        let ghost before = rows_view(rows@);
        let mut r: usize = 0;
        while r < ch.size
            invariant
                r <= ch.size,
                rows@.len() == before.len() + r,
                forall|i: int| 0 <= i < before.len() ==> #[trigger] rview(rows@[i]@) == before[i],
                forall|i: int|
                    0 <= i < r ==> #[trigger] rview(rows@[before.len() + i]@) == row_of(*ch, i),
            decreases ch.size - r,
        {
            let row = ch.row(r);
            rows.push(row);
            r = r + 1;
        }
        proof {
            let s2 = chunks@.subrange(lo as int, k + 1);
            assert(s2.drop_last() =~= chunks@.subrange(lo as int, k as int));
            assert(s2.last() == chunks@[k as int]);
            assert(rows_view(rows@) =~= before + rows_of(*ch)) by {
                assert forall|i: int| 0 <= i < rows@.len() implies #[trigger] rows_view(rows@)[i]
                    == (before + rows_of(*ch))[i] by {
                    if i >= before.len() {
                        assert(rview(rows@[before.len() + (i - before.len())]@) == row_of(
                            *ch,
                            i - before.len(),
                        ));
                    }
                }
            }
        }
        k = k + 1;
    }
    rows
}

/// A chunk holding `rows`, each of `w` values.
pub fn chunk_of_rows(rows: &Vec<Vec<Value>>, w: usize) -> (ch: DataChunk)
    requires
        forall|i: int| 0 <= i < rows@.len() ==> (#[trigger] rows@[i])@.len() == w,
    ensures
        holds(ch, rows_view(rows@), w as int),
{
    let mut fields: Vec<Vec<Value>> = Vec::new();
    let mut c: usize = 0;
    while c < w
        invariant
            c <= w,
            forall|i: int| 0 <= i < rows@.len() ==> (#[trigger] rows@[i])@.len() == w,
            fields@.len() == c,
            forall|k: int| 0 <= k < c ==> (#[trigger] fields@[k])@.len() == rows@.len(),
            forall|k: int, r: int|
                0 <= k < c && 0 <= r < rows@.len() ==> vview(#[trigger] fields@[k]@[r])
                    == vview(rows@[r]@[k]),
        decreases w - c,
    {
        let mut col: Vec<Value> = Vec::new();
        let mut r: usize = 0;
        while r < rows.len()
            invariant
                r <= rows@.len(),
                c < w,
                forall|i: int| 0 <= i < rows@.len() ==> (#[trigger] rows@[i])@.len() == w,
                col@.len() == r,
                forall|i: int| 0 <= i < r ==> vview(#[trigger] col@[i]) == vview(rows@[i]@[c as int]),
            decreases rows@.len() - r,
        {
            let v = copy_value(&rows[r][c]);
            col.push(v);
            r = r + 1;
        }
        fields.push(col);
        c = c + 1;
    }
    DataChunk { fields, size: rows.len() }
}


/// Reading a signed integer's bits as unsigned and back loses nothing.
pub proof fn lemma_i64_bits(x: i64, y: i64)
    by (bit_vector)
    ensures
        ((x as u64) as i64) == x,
        (x as u64 == y as u64) ==> x == y,
{
}

/// As `lemma_i64_bits`, for 32 bits.
pub proof fn lemma_i32_bits(x: i32, y: i32)
    by (bit_vector)
    ensures
        ((x as u32) as i32) == x,
        (x as u32 == y as u32) ==> x == y,
{
}

/// As `lemma_i64_bits`, for 16 bits.
pub proof fn lemma_i16_bits(x: i16, y: i16)
    by (bit_vector)
    ensures
        ((x as u16) as i16) == x,
        (x as u16 == y as u16) ==> x == y,
{
}

/// As `lemma_i64_bits`, for 8 bits.
pub proof fn lemma_i8_bits(x: i8, y: i8)
    by (bit_vector)
    ensures
        ((x as u8) as i8) == x,
        (x as u8 == y as u8) ==> x == y,
{
}

/// As `lemma_i64_bits`, for 128 bits.
pub proof fn lemma_i128_bits(x: i128, y: i128)
    by (bit_vector)
    ensures
        (x as u128 == y as u128) ==> x == y,
{
}

/// The length of a UTF-8 sequence, read off its first byte.
spec fn lead_len(b0: u8) -> int {
    if b0 < 0x80 {
        1
    } else if b0 < 0xe0 {
        2
    } else if b0 < 0xf0 {
        3
    } else {
        4
    }
}

proof fn lemma_utf8_lead(c: char)
    ensures
        utf8(c).len() == lead_len(utf8(c)[0]),
{
}

proof fn lemma_utf8_char_injective(c1: char, c2: char)
    requires
        utf8(c1) == utf8(c2),
    ensures
        c1 == c2,
{
    let x = c1 as u32;
    let y = c2 as u32;
    let u = utf8(c1);
    if x < 0x80 {
        assert(u[0] as int == x);
    } else if x < 0x800 {
        assert(u[0] as int == 0xc0 + x / 64 && u[1] as int == 0x80 + x % 64);
        assert(u[0] as int == 0xc0 + y / 64 && u[1] as int == 0x80 + y % 64);
        assert(x == 64 * (x / 64) + x % 64);
        assert(y == 64 * (y / 64) + y % 64);
    } else if x < 0x10000 {
        assert(x == 4096 * (x / 4096) + 64 * ((x / 64) % 64) + x % 64) by {
            assert(x == 64 * (x / 64) + x % 64);
            assert(x / 64 == 64 * ((x / 64) / 64) + (x / 64) % 64);
            assert((x / 64) / 64 == x / 4096) by {
                vstd::arithmetic::div_mod::lemma_div_denominator(x as int, 64, 64);
            }
        }
        assert(y == 4096 * (y / 4096) + 64 * ((y / 64) % 64) + y % 64) by {
            assert(y == 64 * (y / 64) + y % 64);
            assert(y / 64 == 64 * ((y / 64) / 64) + (y / 64) % 64);
            assert((y / 64) / 64 == y / 4096) by {
                vstd::arithmetic::div_mod::lemma_div_denominator(y as int, 64, 64);
            }
        }
    } else {
        assert(x == 262144 * (x / 262144) + 4096 * ((x / 4096) % 64) + 64 * ((x / 64) % 64) + x % 64) by {
            assert(x == 64 * (x / 64) + x % 64);
            assert(x / 64 == 64 * ((x / 64) / 64) + (x / 64) % 64);
            assert((x / 64) / 64 == x / 4096) by {
                vstd::arithmetic::div_mod::lemma_div_denominator(x as int, 64, 64);
            }
            assert(x / 4096 == 64 * ((x / 4096) / 64) + (x / 4096) % 64);
            assert((x / 4096) / 64 == x / 262144) by {
                vstd::arithmetic::div_mod::lemma_div_denominator(x as int, 4096, 64);
            }
        }
        assert(y == 262144 * (y / 262144) + 4096 * ((y / 4096) % 64) + 64 * ((y / 64) % 64) + y % 64) by {
            assert(y == 64 * (y / 64) + y % 64);
            assert(y / 64 == 64 * ((y / 64) / 64) + (y / 64) % 64);
            assert((y / 64) / 64 == y / 4096) by {
                vstd::arithmetic::div_mod::lemma_div_denominator(y as int, 64, 64);
            }
            assert(y / 4096 == 64 * ((y / 4096) / 64) + (y / 4096) % 64);
            assert((y / 4096) / 64 == y / 262144) by {
                vstd::arithmetic::div_mod::lemma_div_denominator(y as int, 4096, 64);
            }
        }
    }
}

/// UTF-8 encoding is one-to-one: two texts with the same bytes are the
/// same text.
pub proof fn lemma_utf8_all_injective(s: Seq<char>, t: Seq<char>)
    requires
        utf8_all(s) == utf8_all(t),
    ensures
        s == t,
    decreases s.len(),
{
    if s.len() == 0 {
        if t.len() > 0 {
            assert(utf8_all(t).len() >= utf8(t[0]).len());
        }
        assert(s =~= t);
    } else {
        assert(utf8_all(s).len() >= utf8(s[0]).len());
        if t.len() == 0 {
            assert(false);
        }
        let a = utf8(s[0]);
        let b = utf8(t[0]);
        let all = utf8_all(s);
        assert(all == a + utf8_all(s.drop_first()));
        assert(all == b + utf8_all(t.drop_first()));
        assert(all[0] == a[0] && all[0] == b[0]);
        lemma_utf8_lead(s[0]);
        lemma_utf8_lead(t[0]);
        assert(a.len() == b.len());
        assert(a =~= all.subrange(0, a.len() as int));
        assert(b =~= all.subrange(0, b.len() as int));
        lemma_utf8_char_injective(s[0], t[0]);
        assert(utf8_all(s.drop_first()) =~= all.subrange(a.len() as int, all.len() as int));
        assert(utf8_all(t.drop_first()) =~= all.subrange(b.len() as int, all.len() as int));
        lemma_utf8_all_injective(s.drop_first(), t.drop_first());
        assert(s =~= seq![s[0]] + s.drop_first());
        assert(t =~= seq![t[0]] + t.drop_first());
    }
}


/// The position of a value's variant, which hashing writes first.
pub open spec fn variant_number(v: ValueView) -> u64 {
    match v {
        ValueView::Null => 0,
        ValueView::Bool(..) => 1,
        ValueView::Int64(..) => 2,
        ValueView::Int32(..) => 3,
        ValueView::Int16(..) => 4,
        ValueView::Int8(..) => 5,
        ValueView::UInt64(..) => 6,
        ValueView::UInt32(..) => 7,
        ValueView::UInt16(..) => 8,
        ValueView::UInt8(..) => 9,
        ValueView::Int128(..) => 10,
        ValueView::Double(..) => 11,
        ValueView::Float(..) => 12,
        ValueView::String(..) => 13,
        ValueView::Blob(..) => 14,
        ValueView::Date(..) => 15,
        ValueView::Timestamp(..) => 16,
        ValueView::TimestampTz(..) => 17,
        ValueView::TimestampNs(..) => 18,
        ValueView::TimestampMs(..) => 19,
        ValueView::TimestampSec(..) => 20,
        ValueView::Interval(..) => 21,
        ValueView::InternalID(..) => 22,
        ValueView::List(..) => 23,
        ValueView::MapValue(..) => 24,
        ValueView::Struct(..) => 25,
        ValueView::UInt128(..) => 26,
        ValueView::Json(..) => 27,
        ValueView::DTime(..) => 28,
        ValueView::Union(..) => 29,
    }
}

proof fn lemma_first_write(v: ValueView)
    ensures
        hash_writes(v).len() >= 1,
        hash_writes(v)[0] == word(variant_number(v)),
{
}

/// Values that hold no nested values.
pub open spec fn flat_value(v: ValueView) -> bool {
    !(v is List || v is MapValue || v is Struct || v is Union)
}

/// Hashing feeds the hasher different bytes for different values: two
/// values without nested values whose hash writes agree are the same value
/// (in particular two different texts never write alike). Nested values
/// are fed by their items' hashes, so for them this holds only as far as
/// the hasher tells hashes apart.
pub proof fn law_hash_writes_tell_values_apart(a: ValueView, b: ValueView)
    requires
        flat_value(a),
        flat_value(b),
        hash_writes(a) == hash_writes(b),
    ensures
        a == b,
{
    lemma_auto_spec_u16_to_from_le_bytes();
    lemma_auto_spec_u32_to_from_le_bytes();
    lemma_auto_spec_u64_to_from_le_bytes();
    lemma_auto_spec_u128_to_from_le_bytes();
    lemma_first_write(a);
    lemma_first_write(b);
    let wa = hash_writes(a);
    assert(spec_u64_to_le_bytes(variant_number(a)).len() == 8);
    assert(spec_u64_to_le_bytes(variant_number(b)).len() == 8);
    assert(variant_number(a) == variant_number(b)) by {
        assert(spec_u64_from_le_bytes(word(variant_number(a))) == variant_number(a));
        assert(spec_u64_from_le_bytes(word(variant_number(b))) == variant_number(b));
    }
    match a {
        ValueView::Bool(x) => {
            let y = b->Bool_0;
            assert(wa[1][0] == if x { 1u8 } else { 0u8 });
        },
        ValueView::Int64(x) => {
            let y = b->Int64_0;
            assert(spec_u64_to_le_bytes(x as u64).len() == 8);
            assert(spec_u64_to_le_bytes(y as u64).len() == 8);
            assert(x as u64 == y as u64);
            lemma_i64_bits(x, y);
        },
        ValueView::Int32(x) => {
            let y = b->Int32_0;
            assert(spec_u32_to_le_bytes(x as u32).len() == 4);
            assert(spec_u32_to_le_bytes(y as u32).len() == 4);
            assert(x as u32 == y as u32);
            lemma_i32_bits(x, y);
        },
        ValueView::Int16(x) => {
            let y = b->Int16_0;
            assert(spec_u16_to_le_bytes(x as u16).len() == 2);
            assert(spec_u16_to_le_bytes(y as u16).len() == 2);
            assert(x as u16 == y as u16);
            lemma_i16_bits(x, y);
        },
        ValueView::Int8(x) => {
            let y = b->Int8_0;
            assert(wa[1][0] == x as u8);
            assert(hash_writes(b)[1][0] == y as u8);
            lemma_i8_bits(x, y);
        },
        ValueView::UInt64(x) => {
            assert(spec_u64_to_le_bytes(x).len() == 8);
            assert(spec_u64_to_le_bytes(b->UInt64_0).len() == 8);
        },
        ValueView::UInt32(x) => {
            assert(spec_u32_to_le_bytes(x).len() == 4);
            assert(spec_u32_to_le_bytes(b->UInt32_0).len() == 4);
        },
        ValueView::UInt16(x) => {
            assert(spec_u16_to_le_bytes(x).len() == 2);
            assert(spec_u16_to_le_bytes(b->UInt16_0).len() == 2);
        },
        ValueView::UInt8(x) => {
            assert(wa[1][0] == x);
        },
        ValueView::Int128(x) => {
            let y = b->Int128_0;
            assert(spec_u128_to_le_bytes(x as u128).len() == 16);
            assert(spec_u128_to_le_bytes(y as u128).len() == 16);
            assert(x as u128 == y as u128);
            lemma_i128_bits(x, y);
        },
        ValueView::Double(x) => {
            assert(spec_u64_to_le_bytes(x).len() == 8);
            assert(spec_u64_to_le_bytes(b->Double_0).len() == 8);
        },
        ValueView::Float(x) => {
            assert(spec_u32_to_le_bytes(x).len() == 4);
            assert(spec_u32_to_le_bytes(b->Float_0).len() == 4);
        },
        ValueView::String(x) => {
            let y = b->String_0;
            assert(wa[1] == utf8_all(x));
            assert(hash_writes(b)[1] == utf8_all(y));
            lemma_utf8_all_injective(x, y);
        },
        ValueView::Json(x) => {
            let y = b->Json_0;
            assert(wa[1] == utf8_all(x));
            assert(hash_writes(b)[1] == utf8_all(y));
            lemma_utf8_all_injective(x, y);
        },
        ValueView::Blob(x) => {
            assert(wa[2] == x);
        },
        ValueView::Date(x) => {
            let y = b->Date_0;
            assert(spec_u32_to_le_bytes(x as u32).len() == 4);
            assert(spec_u32_to_le_bytes(y as u32).len() == 4);
            assert(x as u32 == y as u32);
            lemma_i32_bits(x, y);
        },
        ValueView::Timestamp(x) => {
            let y = b->Timestamp_0;
            assert(spec_u64_to_le_bytes(x as u64).len() == 8);
            assert(spec_u64_to_le_bytes(y as u64).len() == 8);
            assert(x as u64 == y as u64);
            lemma_i64_bits(x, y);
        },
        ValueView::TimestampTz(x) => {
            let y = b->TimestampTz_0;
            assert(spec_u64_to_le_bytes(x as u64).len() == 8);
            assert(spec_u64_to_le_bytes(y as u64).len() == 8);
            assert(x as u64 == y as u64);
            lemma_i64_bits(x, y);
        },
        ValueView::TimestampNs(x) => {
            let y = b->TimestampNs_0;
            assert(spec_u64_to_le_bytes(x as u64).len() == 8);
            assert(spec_u64_to_le_bytes(y as u64).len() == 8);
            assert(x as u64 == y as u64);
            lemma_i64_bits(x, y);
        },
        ValueView::TimestampMs(x) => {
            let y = b->TimestampMs_0;
            assert(spec_u64_to_le_bytes(x as u64).len() == 8);
            assert(spec_u64_to_le_bytes(y as u64).len() == 8);
            assert(x as u64 == y as u64);
            lemma_i64_bits(x, y);
        },
        ValueView::TimestampSec(x) => {
            let y = b->TimestampSec_0;
            assert(spec_u64_to_le_bytes(x as u64).len() == 8);
            assert(spec_u64_to_le_bytes(y as u64).len() == 8);
            assert(x as u64 == y as u64);
            lemma_i64_bits(x, y);
        },
        ValueView::DTime(x) => {
            let y = b->DTime_0;
            assert(spec_u64_to_le_bytes(x as u64).len() == 8);
            assert(spec_u64_to_le_bytes(y as u64).len() == 8);
            assert(x as u64 == y as u64);
            lemma_i64_bits(x, y);
        },
        ValueView::Interval(m, d, u) => {
            let (m2, d2, u2) = (b->Interval_0, b->Interval_1, b->Interval_2);
            assert(spec_u32_to_le_bytes(m as u32).len() == 4);
            assert(spec_u32_to_le_bytes(m2 as u32).len() == 4);
            assert(spec_u32_to_le_bytes(d as u32).len() == 4);
            assert(spec_u32_to_le_bytes(d2 as u32).len() == 4);
            assert(spec_u64_to_le_bytes(u as u64).len() == 8);
            assert(spec_u64_to_le_bytes(u2 as u64).len() == 8);
            assert(m as u32 == m2 as u32 && d as u32 == d2 as u32 && u as u64 == u2 as u64);
            lemma_i32_bits(m, m2);
            lemma_i32_bits(d, d2);
            lemma_i64_bits(u, u2);
        },
        ValueView::InternalID(t, o) => {
            assert(spec_u64_to_le_bytes(t).len() == 8);
            assert(spec_u64_to_le_bytes(o).len() == 8);
            assert(spec_u64_to_le_bytes(b->InternalID_0).len() == 8);
            assert(spec_u64_to_le_bytes(b->InternalID_1).len() == 8);
        },
        ValueView::UInt128(x) => {
            assert(spec_u128_to_le_bytes(x).len() == 16);
            assert(spec_u128_to_le_bytes(b->UInt128_0).len() == 16);
        },
        _ => {},
    }
}


proof fn lemma_list_writes(s: Seq<ValueView>)
    ensures
        list_writes(s).len() == s.len(),
        forall|i: int| 0 <= i < s.len() ==> #[trigger] list_writes(s)[i] == word(hash_of(s[i])),
    decreases s.len(),
{
    if s.len() > 0 {
        lemma_list_writes(s.drop_last());
        assert forall|i: int| 0 <= i < s.len() implies #[trigger] list_writes(s)[i] == word(hash_of(s[i])) by {
            if i < s.len() - 1 {
                assert(s.drop_last()[i] == s[i]);
            }
        }
    }
}

/// Two lists write alike only when they have the same length and their
/// items hash alike, item by item.
pub proof fn law_list_writes_follow_items(s: Seq<ValueView>, t: Seq<ValueView>)
    requires
        hash_writes(ValueView::List(s)) == hash_writes(ValueView::List(t)),
    ensures
        s.len() == t.len(),
        forall|i: int| 0 <= i < s.len() ==> #[trigger] hash_of(s[i]) == hash_of(t[i]),
{
    lemma_auto_spec_u64_to_from_le_bytes();
    lemma_list_writes(s);
    lemma_list_writes(t);
    let ws = hash_writes(ValueView::List(s));
    assert(ws.len() == s.len() + 1);
    assert(hash_writes(ValueView::List(t)).len() == t.len() + 1);
    assert forall|i: int| 0 <= i < s.len() implies #[trigger] hash_of(s[i]) == hash_of(t[i]) by {
        assert(ws[i + 1] == list_writes(s)[i]);
        assert(hash_writes(ValueView::List(t))[i + 1] == list_writes(t)[i]);
        assert(spec_u64_to_le_bytes(hash_of(s[i])).len() == 8);
        assert(spec_u64_from_le_bytes(word(hash_of(s[i]))) == hash_of(s[i]));
        assert(spec_u64_from_le_bytes(word(hash_of(t[i]))) == hash_of(t[i]));
    }
}

} // verus!
