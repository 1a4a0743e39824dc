//! The binary form of column values: a tag byte, then the payload as
//! little-endian integers, length-prefixed bytes, or nested values.
//!
//! Floating-point values are held by their IEEE-754 bit patterns, and JSON
//! values by their text.

use crate::text::{push_utf8, utf8};
use crate::csv_reader::utf8_all;
use vstd::bytes::*;
use vstd::prelude::*;

verus! {

pub const TAG_NULL: u8 = 0;
pub const TAG_BOOL: u8 = 1;
pub const TAG_INT64: u8 = 2;
pub const TAG_INT32: u8 = 3;
pub const TAG_INT16: u8 = 4;
pub const TAG_INT8: u8 = 5;
pub const TAG_UINT64: u8 = 6;
pub const TAG_UINT32: u8 = 7;
pub const TAG_UINT16: u8 = 8;
pub const TAG_UINT8: u8 = 9;
pub const TAG_INT128: u8 = 10;
pub const TAG_DOUBLE: u8 = 11;
pub const TAG_FLOAT: u8 = 12;
pub const TAG_STRING: u8 = 13;
pub const TAG_BLOB: u8 = 14;
pub const TAG_DATE: u8 = 15;
pub const TAG_TIMESTAMP: u8 = 16;
pub const TAG_TIMESTAMP_TZ: u8 = 17;
pub const TAG_TIMESTAMP_NS: u8 = 18;
pub const TAG_TIMESTAMP_MS: u8 = 19;
pub const TAG_TIMESTAMP_SEC: u8 = 20;
pub const TAG_INTERVAL: u8 = 21;
pub const TAG_INTERNAL_ID: u8 = 22;
pub const TAG_LIST: u8 = 23;
pub const TAG_MAP: u8 = 24;
pub const TAG_STRUCT: u8 = 25;
pub const TAG_UINT128: u8 = 26;
pub const TAG_JSON: u8 = 27;
pub const TAG_DTIME: u8 = 28;
pub const TAG_UNION: u8 = 29;

/// A column value.
#[derive(Debug, PartialEq)]
pub enum Value {
    Null,
    Bool(bool),
    Int64(i64),
    Int32(i32),
    Int16(i16),
    Int8(i8),
    UInt64(u64),
    UInt32(u32),
    UInt16(u16),
    UInt8(u8),
    Int128(i128),
    /// A double, by its bit pattern.
    Double(u64),
    /// A float, by its bit pattern.
    Float(u32),
    String(String),
    Blob(Vec<u8>),
    /// Days since the Unix epoch.
    Date(i32),
    /// Microseconds since the Unix epoch.
    Timestamp(i64),
    TimestampTz(i64),
    TimestampNs(i64),
    TimestampMs(i64),
    TimestampSec(i64),
    Interval { months: i32, days: i32, micros: i64 },
    InternalID { table_id: u64, offset: u64 },
    List(Vec<Value>),
    MapValue(Vec<(Value, Value)>),
    Struct(Vec<(String, Value)>),
    UInt128(u128),
    /// A JSON document, by its text.
    Json(String),
    DTime(i64),
    Union(String, Box<Value>),
}

/// The mathematical content of a value.
pub enum ValueView {
    Null,
    Bool(bool),
    Int64(i64),
    Int32(i32),
    Int16(i16),
    Int8(i8),
    UInt64(u64),
    UInt32(u32),
    UInt16(u16),
    UInt8(u8),
    Int128(i128),
    Double(u64),
    Float(u32),
    String(Seq<char>),
    Blob(Seq<u8>),
    Date(i32),
    Timestamp(i64),
    TimestampTz(i64),
    TimestampNs(i64),
    TimestampMs(i64),
    TimestampSec(i64),
    Interval(i32, i32, i64),
    InternalID(u64, u64),
    List(Seq<ValueView>),
    MapValue(Seq<(ValueView, ValueView)>),
    Struct(Seq<(Seq<char>, ValueView)>),
    UInt128(u128),
    Json(Seq<char>),
    DTime(i64),
    Union(Seq<char>, Box<ValueView>),
}

/// The content of a value.
pub open spec fn vview(v: Value) -> ValueView
    decreases v,
{
    match v {
        Value::Null => ValueView::Null,
        Value::Bool(b) => ValueView::Bool(b),
        Value::Int64(x) => ValueView::Int64(x),
        Value::Int32(x) => ValueView::Int32(x),
        Value::Int16(x) => ValueView::Int16(x),
        Value::Int8(x) => ValueView::Int8(x),
        Value::UInt64(x) => ValueView::UInt64(x),
        Value::UInt32(x) => ValueView::UInt32(x),
        Value::UInt16(x) => ValueView::UInt16(x),
        Value::UInt8(x) => ValueView::UInt8(x),
        Value::Int128(x) => ValueView::Int128(x),
        Value::Double(x) => ValueView::Double(x),
        Value::Float(x) => ValueView::Float(x),
        Value::String(s) => ValueView::String(s@),
        Value::Blob(b) => ValueView::Blob(b@),
        Value::Date(x) => ValueView::Date(x),
        Value::Timestamp(x) => ValueView::Timestamp(x),
        Value::TimestampTz(x) => ValueView::TimestampTz(x),
        Value::TimestampNs(x) => ValueView::TimestampNs(x),
        Value::TimestampMs(x) => ValueView::TimestampMs(x),
        Value::TimestampSec(x) => ValueView::TimestampSec(x),
        Value::Interval { months, days, micros } => ValueView::Interval(months, days, micros),
        Value::InternalID { table_id, offset } => ValueView::InternalID(table_id, offset),
        Value::List(vs) => ValueView::List(
            Seq::new(
                vs@.len(),
                |i: int|
                    if 0 <= i < vs@.len() {
                        vview(vs@[i])
                    } else {
                        ValueView::Null
                    },
            ),
        ),
        Value::MapValue(ps) => ValueView::MapValue(
            Seq::new(
                ps@.len(),
                |i: int|
                    if 0 <= i < ps@.len() {
                        (vview(ps@[i].0), vview(ps@[i].1))
                    } else {
                        (ValueView::Null, ValueView::Null)
                    },
            ),
        ),
        Value::Struct(fs) => ValueView::Struct(
            Seq::new(
                fs@.len(),
                |i: int|
                    if 0 <= i < fs@.len() {
                        (fs@[i].0@, vview(fs@[i].1))
                    } else {
                        (Seq::empty(), ValueView::Null)
                    },
            ),
        ),
        Value::UInt128(x) => ValueView::UInt128(x),
        Value::Json(s) => ValueView::Json(s@),
        Value::DTime(x) => ValueView::DTime(x),
        Value::Union(t, b) => ValueView::Union(t@, Box::new(vview(*b))),
    }
}

/// A copy of `value` with the same content.
pub fn copy_value(value: &Value) -> (r: Value)
    ensures
        vview(r) == vview(*value),
    decreases value,
{
    match value {
        Value::Null => Value::Null,
        Value::Bool(b) => Value::Bool(*b),
        Value::Int64(x) => Value::Int64(*x),
        Value::Int32(x) => Value::Int32(*x),
        Value::Int16(x) => Value::Int16(*x),
        Value::Int8(x) => Value::Int8(*x),
        Value::UInt64(x) => Value::UInt64(*x),
        Value::UInt32(x) => Value::UInt32(*x),
        Value::UInt16(x) => Value::UInt16(*x),
        Value::UInt8(x) => Value::UInt8(*x),
        Value::Int128(x) => Value::Int128(*x),
        Value::Double(x) => Value::Double(*x),
        Value::Float(x) => Value::Float(*x),
        Value::String(s) => Value::String(s.clone()),
        Value::Blob(b) => {
            let mut c: Vec<u8> = Vec::new();
            crate::wal::append_bytes(&mut c, b.as_slice());
            proof {
                assert(c@ =~= b@);
            }
            Value::Blob(c)
        },
        Value::Date(x) => Value::Date(*x),
        Value::Timestamp(x) => Value::Timestamp(*x),
        Value::TimestampTz(x) => Value::TimestampTz(*x),
        Value::TimestampNs(x) => Value::TimestampNs(*x),
        Value::TimestampMs(x) => Value::TimestampMs(*x),
        Value::TimestampSec(x) => Value::TimestampSec(*x),
        Value::Interval { months, days, micros } => Value::Interval {
            months: *months,
            days: *days,
            micros: *micros,
        },
        Value::InternalID { table_id, offset } => Value::InternalID {
            table_id: *table_id,
            offset: *offset,
        },
        Value::List(vs) => {
            let mut out: Vec<Value> = Vec::new();
            let mut i: usize = 0;
            while i < vs.len()
                invariant
                    i <= vs@.len(),
                    *value == Value::List(*vs),
                    out@.len() == i,
                    forall|k: int| 0 <= k < i ==> vview(#[trigger] out@[k]) == vview(vs@[k]),
                decreases vs@.len() - i,
            {
                proof {
                    assert(decreases_to!(*vs => vs[i as int]));
                    assert(decreases_to!(*value => (*value)->List_0));
                }
                let c = copy_value(&vs[i]);
                out.push(c);
                i = i + 1;
            }
            let r = Value::List(out);
            proof {
                let a = vview(r)->List_0;
                let b = vview(*value)->List_0;
                assert(a =~= b);
            }
            r
        },
        Value::MapValue(ps) => {
            let mut out: Vec<(Value, Value)> = Vec::new();
            let mut i: usize = 0;
            while i < ps.len()
                invariant
                    i <= ps@.len(),
                    *value == Value::MapValue(*ps),
                    out@.len() == i,
                    forall|k: int|
                        0 <= k < i ==> vview((#[trigger] out@[k]).0) == vview(ps@[k].0) && vview(
                            out@[k].1,
                        ) == vview(ps@[k].1),
                decreases ps@.len() - i,
            {
                proof {
                    assert(decreases_to!(*ps => ps[i as int]));
                    assert(decreases_to!(ps[i as int] => ps[i as int].0));
                    assert(decreases_to!(ps[i as int] => ps[i as int].1));
                    assert(decreases_to!(*value => (*value)->MapValue_0));
                }
                let k = copy_value(&ps[i].0);
                let v = copy_value(&ps[i].1);
                out.push((k, v));
                i = i + 1;
            }
            let r = Value::MapValue(out);
            proof {
                let a = vview(r)->MapValue_0;
                let b = vview(*value)->MapValue_0;
                assert(a =~= b);
            }
            r
        },
        Value::Struct(fs) => {
            let mut out: Vec<(String, Value)> = Vec::new();
            let mut i: usize = 0;
            while i < fs.len()
                invariant
                    i <= fs@.len(),
                    *value == Value::Struct(*fs),
                    out@.len() == i,
                    forall|k: int|
                        0 <= k < i ==> (#[trigger] out@[k]).0@ == fs@[k].0@ && vview(out@[k].1)
                            == vview(fs@[k].1),
                decreases fs@.len() - i,
            {
                proof {
                    assert(decreases_to!(*fs => fs[i as int]));
                    assert(decreases_to!(fs[i as int] => fs[i as int].1));
                    assert(decreases_to!(*value => (*value)->Struct_0));
                }
                let name = fs[i].0.clone();
                let v = copy_value(&fs[i].1);
                out.push((name, v));
                i = i + 1;
            }
            let r = Value::Struct(out);
            proof {
                let a = vview(r)->Struct_0;
                let b = vview(*value)->Struct_0;
                assert(a =~= b);
            }
            r
        },
        Value::UInt128(x) => Value::UInt128(*x),
        Value::Json(s) => Value::Json(s.clone()),
        Value::DTime(x) => Value::DTime(*x),
        Value::Union(t, b) => {
            let inner = copy_value(b);
            Value::Union(t.clone(), Box::new(inner))
        },
    }
}

/// A byte count as a little-endian `u32` (taken modulo 2^32), then the
/// bytes.
pub open spec fn framed_bytes(b: Seq<u8>) -> Seq<u8> {
    spec_u32_to_le_bytes(b.len() as u32) + b
}

/// The binary form of a value: its tag, then its payload.
pub open spec fn enc(v: ValueView) -> Seq<u8>
    decreases v,
{
    match v {
        ValueView::Null => seq![TAG_NULL],
        ValueView::Bool(b) => seq![TAG_BOOL, if b { 1u8 } else { 0u8 }],
        ValueView::Int64(x) => seq![TAG_INT64] + spec_u64_to_le_bytes(x as u64),
        ValueView::Int32(x) => seq![TAG_INT32] + spec_u32_to_le_bytes(x as u32),
        ValueView::Int16(x) => seq![TAG_INT16] + spec_u16_to_le_bytes(x as u16),
        ValueView::Int8(x) => seq![TAG_INT8, x as u8],
        ValueView::UInt64(x) => seq![TAG_UINT64] + spec_u64_to_le_bytes(x),
        ValueView::UInt32(x) => seq![TAG_UINT32] + spec_u32_to_le_bytes(x),
        ValueView::UInt16(x) => seq![TAG_UINT16] + spec_u16_to_le_bytes(x),
        ValueView::UInt8(x) => seq![TAG_UINT8, x],
        ValueView::Int128(x) => seq![TAG_INT128] + spec_u128_to_le_bytes(x as u128),
        ValueView::Double(x) => seq![TAG_DOUBLE] + spec_u64_to_le_bytes(x),
        ValueView::Float(x) => seq![TAG_FLOAT] + spec_u32_to_le_bytes(x),
        ValueView::String(s) => seq![TAG_STRING] + framed_bytes(utf8_all(s)),
        ValueView::Blob(b) => seq![TAG_BLOB] + framed_bytes(b),
        ValueView::Date(x) => seq![TAG_DATE] + spec_u32_to_le_bytes(x as u32),
        ValueView::Timestamp(x) => seq![TAG_TIMESTAMP] + spec_u64_to_le_bytes(x as u64),
        ValueView::TimestampTz(x) => seq![TAG_TIMESTAMP_TZ] + spec_u64_to_le_bytes(x as u64),
        ValueView::TimestampNs(x) => seq![TAG_TIMESTAMP_NS] + spec_u64_to_le_bytes(x as u64),
        ValueView::TimestampMs(x) => seq![TAG_TIMESTAMP_MS] + spec_u64_to_le_bytes(x as u64),
        ValueView::TimestampSec(x) => seq![TAG_TIMESTAMP_SEC] + spec_u64_to_le_bytes(x as u64),
        ValueView::Interval(m, d, u) => seq![TAG_INTERVAL] + spec_u32_to_le_bytes(m as u32)
            + spec_u32_to_le_bytes(d as u32) + spec_u64_to_le_bytes(u as u64),
        ValueView::InternalID(t, o) => seq![TAG_INTERNAL_ID] + spec_u64_to_le_bytes(t)
            + spec_u64_to_le_bytes(o),
        ValueView::List(s) => seq![TAG_LIST] + spec_u32_to_le_bytes(s.len() as u32) + enc_list(s),
        ValueView::MapValue(s) => seq![TAG_MAP] + spec_u32_to_le_bytes(s.len() as u32) + enc_pairs(
            s,
        ),
        ValueView::Struct(s) => seq![TAG_STRUCT] + spec_u32_to_le_bytes(s.len() as u32)
            + enc_fields(s),
        ValueView::UInt128(x) => seq![TAG_UINT128] + spec_u128_to_le_bytes(x),
        ValueView::Json(s) => seq![TAG_JSON] + framed_bytes(utf8_all(s)),
        ValueView::DTime(x) => seq![TAG_DTIME] + spec_u64_to_le_bytes(x as u64),
        ValueView::Union(t, b) => seq![TAG_UNION] + framed_bytes(utf8_all(t)) + enc(*b),
    }
}

/// The binary forms of a sequence of values, one after the other.
pub open spec fn enc_list(s: Seq<ValueView>) -> Seq<u8>
    decreases s,
{
    if s.len() == 0 {
        Seq::empty()
    } else {
        enc_list(s.drop_last()) + enc(s.last())
    }
}

/// The binary forms of key/value pairs: key, then value, pair after pair.
pub open spec fn enc_pairs(s: Seq<(ValueView, ValueView)>) -> Seq<u8>
    decreases s,
{
    if s.len() == 0 {
        Seq::empty()
    } else {
        enc_pairs(s.drop_last()) + enc(s.last().0) + enc(s.last().1)
    }
}

/// The binary forms of struct fields: the framed name, then the value.
pub open spec fn enc_fields(s: Seq<(Seq<char>, ValueView)>) -> Seq<u8>
    decreases s,
{
    if s.len() == 0 {
        Seq::empty()
    } else {
        enc_fields(s.drop_last()) + framed_bytes(utf8_all(s.last().0)) + enc(s.last().1)
    }
}

proof fn lemma_utf8_all_push(s: Seq<char>, c: char)
    ensures
        utf8_all(s.push(c)) == utf8_all(s) + utf8(c),
    decreases s.len(),
{
    if s.len() == 0 {
        assert(s.push(c).drop_first() =~= Seq::<char>::empty());
        assert(utf8_all(Seq::<char>::empty()) == Seq::<u8>::empty());
        assert(utf8_all(s.push(c)) =~= utf8(c));
        assert(utf8_all(s) == Seq::<u8>::empty());
        assert(utf8_all(s) + utf8(c) =~= utf8(c));
    } else {
        lemma_utf8_all_push(s.drop_first(), c);
        assert(s.push(c).drop_first() =~= s.drop_first().push(c));
        assert(s.push(c)[0] == s[0]);
        assert(utf8_all(s.push(c)) =~= utf8_all(s) + utf8(c));
    }
}

/// The UTF-8 bytes of `s`.
pub fn utf8_bytes(s: &str) -> (b: Vec<u8>)
    ensures
        b@ == utf8_all(s@),
{
    let chars = crate::text::chars_of(s);
    let mut out: Vec<u8> = Vec::new();
    let mut i: usize = 0;
    proof {
        assert(chars@.subrange(0, 0) =~= Seq::<char>::empty());
        assert(utf8_all(Seq::<char>::empty()) == Seq::<u8>::empty());
    }
    while i < chars.len()
        invariant
            i <= chars@.len(),
            chars@ == s@,
            out@ == utf8_all(chars@.subrange(0, i as int)),
        decreases chars@.len() - i,
    {
        proof {
            assert(chars@.subrange(0, i + 1) =~= chars@.subrange(0, i as int).push(chars@[i as int]));
            lemma_utf8_all_push(chars@.subrange(0, i as int), chars@[i as int]);
        }
        push_utf8(&mut out, chars[i]);
        i = i + 1;
    }
    proof {
        assert(chars@.subrange(0, chars@.len() as int) =~= chars@);
    }
    out
}

fn push_framed(buf: &mut Vec<u8>, b: &Vec<u8>)
    ensures
        final(buf)@ == old(buf)@ + framed_bytes(b@),
{
    let len = u32_to_le_bytes(b.len() as u32);
    crate::wal::append_bytes(buf, len.as_slice());
    crate::wal::append_bytes(buf, b.as_slice());
    proof {
        assert(final(buf)@ =~= old(buf)@ + framed_bytes(b@));
    }
}

/// Append the binary form of `value` to `buf`.
pub fn serialize_into(buf: &mut Vec<u8>, value: &Value)
    ensures
        final(buf)@ == old(buf)@ + enc(vview(*value)),
    decreases value,
{
    let ghost start = buf@;
    match value {
        Value::Null => buf.push(TAG_NULL),
        Value::Bool(v) => {
            buf.push(TAG_BOOL);
            buf.push(if *v { 1u8 } else { 0u8 });
        },
        Value::Int64(v) => {
            buf.push(TAG_INT64);
            crate::wal::append_bytes(buf, u64_to_le_bytes(*v as u64).as_slice());
        },
        Value::Int32(v) => {
            buf.push(TAG_INT32);
            crate::wal::append_bytes(buf, u32_to_le_bytes(*v as u32).as_slice());
        },
        Value::Int16(v) => {
            buf.push(TAG_INT16);
            crate::wal::append_bytes(buf, u16_to_le_bytes(*v as u16).as_slice());
        },
        Value::Int8(v) => {
            buf.push(TAG_INT8);
            buf.push(*v as u8);
        },
        Value::UInt64(v) => {
            buf.push(TAG_UINT64);
            crate::wal::append_bytes(buf, u64_to_le_bytes(*v).as_slice());
        },
        Value::UInt32(v) => {
            buf.push(TAG_UINT32);
            crate::wal::append_bytes(buf, u32_to_le_bytes(*v).as_slice());
        },
        Value::UInt16(v) => {
            buf.push(TAG_UINT16);
            crate::wal::append_bytes(buf, u16_to_le_bytes(*v).as_slice());
        },
        Value::UInt8(v) => {
            buf.push(TAG_UINT8);
            buf.push(*v);
        },
        Value::Int128(v) => {
            buf.push(TAG_INT128);
            crate::wal::append_bytes(buf, u128_to_le_bytes(*v as u128).as_slice());
        },
        Value::Double(v) => {
            buf.push(TAG_DOUBLE);
            crate::wal::append_bytes(buf, u64_to_le_bytes(*v).as_slice());
        },
        Value::Float(v) => {
            buf.push(TAG_FLOAT);
            crate::wal::append_bytes(buf, u32_to_le_bytes(*v).as_slice());
        },
        Value::String(v) => {
            buf.push(TAG_STRING);
            push_framed(buf, &utf8_bytes(v.as_str()));
        },
        Value::Blob(v) => {
            buf.push(TAG_BLOB);
            push_framed(buf, v);
        },
        Value::Date(v) => {
            buf.push(TAG_DATE);
            crate::wal::append_bytes(buf, u32_to_le_bytes(*v as u32).as_slice());
        },
        Value::Timestamp(v) => {
            buf.push(TAG_TIMESTAMP);
            crate::wal::append_bytes(buf, u64_to_le_bytes(*v as u64).as_slice());
        },
        Value::TimestampTz(v) => {
            buf.push(TAG_TIMESTAMP_TZ);
            crate::wal::append_bytes(buf, u64_to_le_bytes(*v as u64).as_slice());
        },
        Value::TimestampNs(v) => {
            buf.push(TAG_TIMESTAMP_NS);
            crate::wal::append_bytes(buf, u64_to_le_bytes(*v as u64).as_slice());
        },
        Value::TimestampMs(v) => {
            buf.push(TAG_TIMESTAMP_MS);
            crate::wal::append_bytes(buf, u64_to_le_bytes(*v as u64).as_slice());
        },
        Value::TimestampSec(v) => {
            buf.push(TAG_TIMESTAMP_SEC);
            crate::wal::append_bytes(buf, u64_to_le_bytes(*v as u64).as_slice());
        },
        Value::UInt128(v) => {
            buf.push(TAG_UINT128);
            crate::wal::append_bytes(buf, u128_to_le_bytes(*v).as_slice());
        },
        Value::Json(v) => {
            buf.push(TAG_JSON);
            push_framed(buf, &utf8_bytes(v.as_str()));
        },
        Value::DTime(v) => {
            buf.push(TAG_DTIME);
            crate::wal::append_bytes(buf, u64_to_le_bytes(*v as u64).as_slice());
        },
        Value::Union(tag, val) => {
            buf.push(TAG_UNION);
            push_framed(buf, &utf8_bytes(tag.as_str()));
            let ghost mid = buf@;
            serialize_into(buf, val);
            proof {
                assert(buf@ =~= start + enc(vview(*value)));
            }
        },
        Value::Interval { months, days, micros } => {
            buf.push(TAG_INTERVAL);
            crate::wal::append_bytes(buf, u32_to_le_bytes(*months as u32).as_slice());
            crate::wal::append_bytes(buf, u32_to_le_bytes(*days as u32).as_slice());
            crate::wal::append_bytes(buf, u64_to_le_bytes(*micros as u64).as_slice());
        },
        Value::InternalID { table_id, offset } => {
            buf.push(TAG_INTERNAL_ID);
            crate::wal::append_bytes(buf, u64_to_le_bytes(*table_id).as_slice());
            crate::wal::append_bytes(buf, u64_to_le_bytes(*offset).as_slice());
        },
        Value::List(vs) => {
            buf.push(TAG_LIST);
            crate::wal::append_bytes(buf, u32_to_le_bytes(vs.len() as u32).as_slice());
            let ghost head = buf@;
            let ghost items = Seq::new(
                vs@.len(),
                |i: int|
                    if 0 <= i < vs@.len() {
                        vview(vs@[i])
                    } else {
                        ValueView::Null
                    },
            );
            let mut i: usize = 0;
            proof {
                assert(items.subrange(0, 0) =~= Seq::<ValueView>::empty());
            }
            while i < vs.len()
                invariant
                    i <= vs@.len(),
                    *value == Value::List(*vs),
                    items.len() == vs@.len(),
                    forall|k: int| 0 <= k < vs@.len() ==> #[trigger] items[k] == vview(vs@[k]),
                    buf@ == head + enc_list(items.subrange(0, i as int)),
                decreases vs@.len() - i,
            {
                proof {
                    assert(items.subrange(0, i + 1).drop_last() =~= items.subrange(0, i as int));
                    assert(items.subrange(0, i + 1).last() == vview(vs@[i as int]));
                }
                proof {
                    assert(decreases_to!(*vs => vs[i as int]));
                    assert(decreases_to!(*value => (*value)->List_0));
                    assert(decreases_to!(*value => vs[i as int]));
                }
                serialize_into(buf, &vs[i]);
                proof {
                    assert(buf@ =~= head + enc_list(items.subrange(0, i + 1)));
                }
                i = i + 1;
            }
            proof {
                assert(items.subrange(0, vs@.len() as int) =~= items);
                assert(vview(*value) == ValueView::List(items)) by {
                    if let ValueView::List(s2) = vview(*value) {
                        assert(s2 =~= items);
                    }
                }
                assert(buf@ =~= start + enc(vview(*value)));
            }
        },
        Value::MapValue(ps) => {
            buf.push(TAG_MAP);
            crate::wal::append_bytes(buf, u32_to_le_bytes(ps.len() as u32).as_slice());
            let ghost head = buf@;
            let ghost items = Seq::new(
                ps@.len(),
                |i: int|
                    if 0 <= i < ps@.len() {
                        (vview(ps@[i].0), vview(ps@[i].1))
                    } else {
                        (ValueView::Null, ValueView::Null)
                    },
            );
            let mut i: usize = 0;
            proof {
                assert(items.subrange(0, 0) =~= Seq::<(ValueView, ValueView)>::empty());
            }
            while i < ps.len()
                invariant
                    i <= ps@.len(),
                    *value == Value::MapValue(*ps),
                    items.len() == ps@.len(),
                    forall|k: int|
                        0 <= k < ps@.len() ==> #[trigger] items[k] == (
                            vview(ps@[k].0),
                            vview(ps@[k].1),
                        ),
                    buf@ == head + enc_pairs(items.subrange(0, i as int)),
                decreases ps@.len() - i,
            {
                proof {
                    assert(items.subrange(0, i + 1).drop_last() =~= items.subrange(0, i as int));
                    assert(items.subrange(0, i + 1).last() == items[i as int]);
                }
                let ghost before = buf@;
                proof {
                    assert(decreases_to!(*ps => ps[i as int]));
                    assert(decreases_to!(*value => (*value)->MapValue_0));
                    assert(decreases_to!(*value => ps[i as int]));
                    assert(decreases_to!(*value => ps[i as int].0));
                    assert(decreases_to!(*value => ps[i as int].1));
                }
                serialize_into(buf, &ps[i].0);
                serialize_into(buf, &ps[i].1);
                proof {
                    assert(buf@ =~= head + enc_pairs(items.subrange(0, i + 1)));
                }
                i = i + 1;
            }
            proof {
                assert(items.subrange(0, ps@.len() as int) =~= items);
                assert(vview(*value) == ValueView::MapValue(items)) by {
                    if let ValueView::MapValue(s2) = vview(*value) {
                        assert(s2 =~= items);
                    }
                }
                assert(buf@ =~= start + enc(vview(*value)));
            }
        },
        Value::Struct(fs) => {
            buf.push(TAG_STRUCT);
            crate::wal::append_bytes(buf, u32_to_le_bytes(fs.len() as u32).as_slice());
            let ghost head = buf@;
            let ghost items = Seq::new(
                fs@.len(),
                |i: int|
                    if 0 <= i < fs@.len() {
                        (fs@[i].0@, vview(fs@[i].1))
                    } else {
                        (Seq::empty(), ValueView::Null)
                    },
            );
            let mut i: usize = 0;
            proof {
                assert(items.subrange(0, 0) =~= Seq::<(Seq<char>, ValueView)>::empty());
            }
            while i < fs.len()
                invariant
                    i <= fs@.len(),
                    *value == Value::Struct(*fs),
                    items.len() == fs@.len(),
                    forall|k: int|
                        0 <= k < fs@.len() ==> #[trigger] items[k] == (fs@[k].0@, vview(fs@[k].1)),
                    buf@ == head + enc_fields(items.subrange(0, i as int)),
                decreases fs@.len() - i,
            {
                proof {
                    assert(items.subrange(0, i + 1).drop_last() =~= items.subrange(0, i as int));
                    assert(items.subrange(0, i + 1).last() == items[i as int]);
                }
                push_framed(buf, &utf8_bytes(fs[i].0.as_str()));
                proof {
                    assert(decreases_to!(*fs => fs[i as int]));
                    assert(decreases_to!(*value => (*value)->Struct_0));
                    assert(decreases_to!(*value => fs[i as int]));
                    assert(decreases_to!(*value => fs[i as int].1));
                }
                serialize_into(buf, &fs[i].1);
                proof {
                    assert(buf@ =~= head + enc_fields(items.subrange(0, i + 1)));
                }
                i = i + 1;
            }
            proof {
                assert(items.subrange(0, fs@.len() as int) =~= items);
                assert(vview(*value) == ValueView::Struct(items)) by {
                    if let ValueView::Struct(s2) = vview(*value) {
                        assert(s2 =~= items);
                    }
                }
                assert(buf@ =~= start + enc(vview(*value)));
            }
        },
    }
    proof {
        assert(buf@ =~= start + enc(vview(*value)));
    }
}

/// The binary form of `value`.
pub fn serialize_value(value: &Value) -> (buf: Vec<u8>)
    ensures
        buf@ == enc(vview(*value)),
{
    let mut buf: Vec<u8> = Vec::new();
    serialize_into(&mut buf, value);
    proof {
        assert(buf@ =~= enc(vview(*value)));
    }
    buf
}

// ------------------------------------------------------------------
// Reading values back
// ------------------------------------------------------------------

/// Why bytes could not be read as a value.
#[derive(Debug, Clone, Copy, PartialEq, Eq, Structural)]
pub enum DecodeError {
    /// The bytes end inside the value.
    UnexpectedEof,
    /// The tag byte names no kind of value.
    UnknownTag(u8),
    /// A JSON value's text is not JSON.
    InvalidJson,
}

/// The text that `String::from_utf8_lossy` makes of bytes: valid UTF-8 is
/// decoded, invalid sequences become U+FFFD.
pub uninterp spec fn utf8_lossy(b: Seq<u8>) -> Seq<char>;

/// Whether `serde_json` parses the text as a JSON value.
pub uninterp spec fn json_valid(text: Seq<char>) -> bool;

/// `String::from_utf8_lossy` (std), owned: the text of the bytes, with
/// U+FFFD for invalid UTF-8. Bytes that are the UTF-8 encoding of a text
/// decode to that text.
#[verifier::external_body]
fn text_of_bytes(bytes: &[u8]) -> (s: String)
    ensures
        s@ == utf8_lossy(bytes@),
        forall|t: Seq<char>| #[trigger] utf8_all(t) == bytes@ ==> s@ == t,
{
    String::from_utf8_lossy(bytes).into_owned()
}

/// `serde_json::from_str::<serde_json::Value>` (serde_json): whether the
/// text parses as JSON.
#[verifier::external_body]
fn json_parses(text: &str) -> (b: bool)
    ensures
        b == json_valid(text@),
{
    serde_json::from_str::<serde_json::Value>(text).is_ok()
}

/// The `n` bytes at `pos`.
pub open spec fn bytes_at(data: Seq<u8>, pos: nat, n: nat) -> Seq<u8> {
    data.subrange(pos as int, (pos + n) as int)
}

/// A little-endian `u32` at `pos`.
pub open spec fn u32_at(data: Seq<u8>, pos: nat) -> u32 {
    spec_u32_from_le_bytes(bytes_at(data, pos, 4))
}

/// A little-endian `u64` at `pos`.
pub open spec fn u64_at(data: Seq<u8>, pos: nat) -> u64 {
    spec_u64_from_le_bytes(bytes_at(data, pos, 8))
}

/// Read a value of a fixed-size kind at `pos` (after its tag): `n` payload
/// bytes made into a value by `f`.
pub open spec fn dec_fixed(
    data: Seq<u8>,
    pos: nat,
    n: nat,
    f: spec_fn(Seq<u8>) -> ValueView,
) -> Result<(ValueView, nat), DecodeError> {
    if pos + n > data.len() {
        Err(DecodeError::UnexpectedEof)
    } else {
        Ok((f(bytes_at(data, pos, n)), pos + n))
    }
}

/// Read a length-prefixed byte string at `pos`: its bytes and the position
/// after it.
pub open spec fn dec_framed(data: Seq<u8>, pos: nat) -> Result<(Seq<u8>, nat), DecodeError> {
    if pos + 4 > data.len() {
        Err(DecodeError::UnexpectedEof)
    } else {
        let n = u32_at(data, pos) as nat;
        if pos + 4 + n > data.len() {
            Err(DecodeError::UnexpectedEof)
        } else {
            Ok((bytes_at(data, pos + 4, n), pos + 4 + n))
        }
    }
}

/// Read the value whose tag is at `pos`: the value and the position after
/// it, or why it cannot be read.
pub open spec fn dec(data: Seq<u8>, pos: nat) -> Result<(ValueView, nat), DecodeError>
    decreases data.len() - pos, 0nat,
{
    if pos >= data.len() {
        Err(DecodeError::UnexpectedEof)
    } else {
        let tag = data[pos as int];
        let p = pos + 1;
        if tag == TAG_NULL {
            Ok((ValueView::Null, p))
        } else if tag == TAG_BOOL {
            dec_fixed(data, p, 1, |b: Seq<u8>| ValueView::Bool(b[0] != 0))
        } else if tag == TAG_INT64 {
            dec_fixed(data, p, 8, |b: Seq<u8>| ValueView::Int64(spec_u64_from_le_bytes(b) as i64))
        } else if tag == TAG_INT32 {
            dec_fixed(data, p, 4, |b: Seq<u8>| ValueView::Int32(spec_u32_from_le_bytes(b) as i32))
        } else if tag == TAG_INT16 {
            dec_fixed(data, p, 2, |b: Seq<u8>| ValueView::Int16(spec_u16_from_le_bytes(b) as i16))
        } else if tag == TAG_INT8 {
            dec_fixed(data, p, 1, |b: Seq<u8>| ValueView::Int8(b[0] as i8))
        } else if tag == TAG_UINT64 {
            dec_fixed(data, p, 8, |b: Seq<u8>| ValueView::UInt64(spec_u64_from_le_bytes(b)))
        } else if tag == TAG_UINT32 {
            dec_fixed(data, p, 4, |b: Seq<u8>| ValueView::UInt32(spec_u32_from_le_bytes(b)))
        } else if tag == TAG_UINT16 {
            dec_fixed(data, p, 2, |b: Seq<u8>| ValueView::UInt16(spec_u16_from_le_bytes(b)))
        } else if tag == TAG_UINT8 {
            dec_fixed(data, p, 1, |b: Seq<u8>| ValueView::UInt8(b[0]))
        } else if tag == TAG_INT128 {
            dec_fixed(data, p, 16, |b: Seq<u8>| ValueView::Int128(spec_u128_from_le_bytes(b) as i128))
        } else if tag == TAG_DOUBLE {
            dec_fixed(data, p, 8, |b: Seq<u8>| ValueView::Double(spec_u64_from_le_bytes(b)))
        } else if tag == TAG_FLOAT {
            dec_fixed(data, p, 4, |b: Seq<u8>| ValueView::Float(spec_u32_from_le_bytes(b)))
        } else if tag == TAG_STRING {
            match dec_framed(data, p) {
                Ok((b, q)) => Ok((ValueView::String(utf8_lossy(b)), q)),
                Err(e) => Err(e),
            }
        } else if tag == TAG_BLOB {
            match dec_framed(data, p) {
                Ok((b, q)) => Ok((ValueView::Blob(b), q)),
                Err(e) => Err(e),
            }
        } else if tag == TAG_DATE {
            dec_fixed(data, p, 4, |b: Seq<u8>| ValueView::Date(spec_u32_from_le_bytes(b) as i32))
        } else if tag == TAG_TIMESTAMP {
            dec_fixed(data, p, 8, |b: Seq<u8>| ValueView::Timestamp(spec_u64_from_le_bytes(b) as i64))
        } else if tag == TAG_TIMESTAMP_TZ {
            dec_fixed(data, p, 8, |b: Seq<u8>| ValueView::TimestampTz(spec_u64_from_le_bytes(b) as i64))
        } else if tag == TAG_TIMESTAMP_NS {
            dec_fixed(data, p, 8, |b: Seq<u8>| ValueView::TimestampNs(spec_u64_from_le_bytes(b) as i64))
        } else if tag == TAG_TIMESTAMP_MS {
            dec_fixed(data, p, 8, |b: Seq<u8>| ValueView::TimestampMs(spec_u64_from_le_bytes(b) as i64))
        } else if tag == TAG_TIMESTAMP_SEC {
            dec_fixed(data, p, 8, |b: Seq<u8>| ValueView::TimestampSec(spec_u64_from_le_bytes(b) as i64))
        } else if tag == TAG_INTERVAL {
            dec_fixed(
                data,
                p,
                16,
                |b: Seq<u8>|
                    ValueView::Interval(
                        spec_u32_from_le_bytes(b.subrange(0, 4)) as i32,
                        spec_u32_from_le_bytes(b.subrange(4, 8)) as i32,
                        spec_u64_from_le_bytes(b.subrange(8, 16)) as i64,
                    ),
            )
        } else if tag == TAG_INTERNAL_ID {
            dec_fixed(
                data,
                p,
                16,
                |b: Seq<u8>|
                    ValueView::InternalID(
                        spec_u64_from_le_bytes(b.subrange(0, 8)),
                        spec_u64_from_le_bytes(b.subrange(8, 16)),
                    ),
            )
        } else if tag == TAG_LIST {
            if p + 4 > data.len() {
                Err(DecodeError::UnexpectedEof)
            } else {
                match dec_list(data, p + 4, u32_at(data, p) as nat) {
                    Ok((s, q)) => Ok((ValueView::List(s), q)),
                    Err(e) => Err(e),
                }
            }
        } else if tag == TAG_MAP {
            if p + 4 > data.len() {
                Err(DecodeError::UnexpectedEof)
            } else {
                match dec_pairs(data, p + 4, u32_at(data, p) as nat) {
                    Ok((s, q)) => Ok((ValueView::MapValue(s), q)),
                    Err(e) => Err(e),
                }
            }
        } else if tag == TAG_STRUCT {
            if p + 4 > data.len() {
                Err(DecodeError::UnexpectedEof)
            } else {
                match dec_fields(data, p + 4, u32_at(data, p) as nat) {
                    Ok((s, q)) => Ok((ValueView::Struct(s), q)),
                    Err(e) => Err(e),
                }
            }
        } else if tag == TAG_UINT128 {
            dec_fixed(data, p, 16, |b: Seq<u8>| ValueView::UInt128(spec_u128_from_le_bytes(b)))
        } else if tag == TAG_JSON {
            match dec_framed(data, p) {
                Ok((b, q)) => if json_valid(utf8_lossy(b)) {
                    Ok((ValueView::Json(utf8_lossy(b)), q))
                } else {
                    Err(DecodeError::InvalidJson)
                },
                Err(e) => Err(e),
            }
        } else if tag == TAG_DTIME {
            dec_fixed(data, p, 8, |b: Seq<u8>| ValueView::DTime(spec_u64_from_le_bytes(b) as i64))
        } else if tag == TAG_UNION {
            match dec_framed(data, p) {
                Ok((b, q)) => match dec(data, q) {
                    Ok((v, r)) => Ok((ValueView::Union(utf8_lossy(b), Box::new(v)), r)),
                    Err(e) => Err(e),
                },
                Err(e) => Err(e),
            }
        } else {
            Err(DecodeError::UnknownTag(tag))
        }
    }
}

/// Read `k` values one after the other from `pos`.
pub open spec fn dec_list(data: Seq<u8>, pos: nat, k: nat) -> Result<(Seq<ValueView>, nat), DecodeError>
    decreases data.len() - pos, k + 1,
{
    if k == 0 {
        Ok((Seq::empty(), pos))
    } else {
        match dec(data, pos) {
            Ok((v, p1)) => if p1 <= pos || p1 > data.len() {
                Err(DecodeError::UnexpectedEof)
            } else {
                match dec_list(data, p1, (k - 1) as nat) {
                    Ok((s, q)) => Ok((seq![v] + s, q)),
                    Err(e) => Err(e),
                }
            },
            Err(e) => Err(e),
        }
    }
}

/// Read `k` key/value pairs one after the other from `pos`.
pub open spec fn dec_pairs(data: Seq<u8>, pos: nat, k: nat) -> Result<
    (Seq<(ValueView, ValueView)>, nat),
    DecodeError,
>
    decreases data.len() - pos, k + 1,
{
    if k == 0 {
        Ok((Seq::empty(), pos))
    } else {
        match dec(data, pos) {
            Ok((key, p1)) => if p1 <= pos || p1 > data.len() {
                Err(DecodeError::UnexpectedEof)
            } else {
                match dec(data, p1) {
                    Ok((val, p2)) => if p2 <= p1 || p2 > data.len() {
                        Err(DecodeError::UnexpectedEof)
                    } else {
                        match dec_pairs(data, p2, (k - 1) as nat) {
                            Ok((s, q)) => Ok((seq![(key, val)] + s, q)),
                            Err(e) => Err(e),
                        }
                    },
                    Err(e) => Err(e),
                }
            },
            Err(e) => Err(e),
        }
    }
}

/// Read `k` struct fields (framed name, then value) from `pos`.
pub open spec fn dec_fields(data: Seq<u8>, pos: nat, k: nat) -> Result<
    (Seq<(Seq<char>, ValueView)>, nat),
    DecodeError,
>
    decreases data.len() - pos, k + 1,
{
    if k == 0 {
        Ok((Seq::empty(), pos))
    } else {
        match dec_framed(data, pos) {
            Ok((name, p1)) => if p1 <= pos || p1 > data.len() {
                Err(DecodeError::UnexpectedEof)
            } else {
                match dec(data, p1) {
                    Ok((val, p2)) => if p2 <= p1 || p2 > data.len() {
                        Err(DecodeError::UnexpectedEof)
                    } else {
                        match dec_fields(data, p2, (k - 1) as nat) {
                            Ok((s, q)) => Ok((seq![(utf8_lossy(name), val)] + s, q)),
                            Err(e) => Err(e),
                        }
                    },
                    Err(e) => Err(e),
                }
            },
            Err(e) => Err(e),
        }
    }
}

pub(crate) fn rd_u16(data: &[u8], p: usize) -> (x: u16)
    requires
        p + 2 <= data.len(),
    ensures
        x == spec_u16_from_le_bytes(bytes_at(data@, p as nat, 2)),
{
    u16_from_le_bytes(&data[p..p + 2])
}

pub(crate) fn rd_u32(data: &[u8], p: usize) -> (x: u32)
    requires
        p + 4 <= data.len(),
    ensures
        x == spec_u32_from_le_bytes(bytes_at(data@, p as nat, 4)),
{
    u32_from_le_bytes(&data[p..p + 4])
}

pub(crate) fn rd_u64(data: &[u8], p: usize) -> (x: u64)
    requires
        p + 8 <= data.len(),
    ensures
        x == spec_u64_from_le_bytes(bytes_at(data@, p as nat, 8)),
{
    u64_from_le_bytes(&data[p..p + 8])
}

fn rd_u128(data: &[u8], p: usize) -> (x: u128)
    requires
        p + 16 <= data.len(),
    ensures
        x == spec_u128_from_le_bytes(bytes_at(data@, p as nat, 16)),
{
    u128_from_le_bytes(&data[p..p + 16])
}

/// Read a length-prefixed byte string at `p`: its start and the position
/// after it.
fn rd_framed(data: &[u8], p: usize) -> (r: Result<(usize, usize), DecodeError>)
    requires
        p <= data@.len(),
    ensures
        match r {
            Ok((start, end)) => start <= end <= data@.len() && start == p + 4 && dec_framed(
                data@,
                p as nat,
            ) == Ok::<(Seq<u8>, nat), DecodeError>((bytes_at(data@, start as nat, (end - start) as nat), end as nat)),
            Err(e) => dec_framed(data@, p as nat) == Err::<(Seq<u8>, nat), DecodeError>(e),
        },
{
    if data.len() - p < 4 {
        return Err(DecodeError::UnexpectedEof);
    }
    let n = rd_u32(data, p) as usize;
    if data.len() - (p + 4) < n {
        return Err(DecodeError::UnexpectedEof);
    }
    Ok((p + 4, p + 4 + n))
}

/// Read the value whose tag is at `*pos` and move `*pos` past it.
pub fn deserialize_value(data: &[u8], pos: &mut usize) -> (r: Result<Value, DecodeError>)
    ensures
        match r {
            Ok(v) => {
                &&& dec(data@, *old(pos) as nat) == Ok::<(ValueView, nat), DecodeError>((vview(v), *final(pos) as nat))
                &&& *old(pos) < *final(pos) <= data@.len()
            },
            Err(e) => dec(data@, *old(pos) as nat) == Err::<(ValueView, nat), DecodeError>(e),
        },
    decreases data@.len() - *old(pos), 0nat,
{
    if *pos >= data.len() {
        return Err(DecodeError::UnexpectedEof);
    }
    let tag = data[*pos];
    let p = *pos + 1;
    let avail = data.len() - p;
    let ghost start = *pos as nat;
    if tag == TAG_NULL {
        *pos = p;
        return Ok(Value::Null);
    }
    if tag == TAG_BOOL || tag == TAG_INT8 || tag == TAG_UINT8 {
        if avail < 1 {
            return Err(DecodeError::UnexpectedEof);
        }
        let b = data[p];
        *pos = p + 1;
        proof {
            assert(bytes_at(data@, p as nat, 1)[0] == b);
        }
        return Ok(if tag == TAG_BOOL {
            Value::Bool(b != 0)
        } else if tag == TAG_INT8 {
            Value::Int8(b as i8)
        } else {
            Value::UInt8(b)
        });
    }
    if tag == TAG_INT16 || tag == TAG_UINT16 {
        if avail < 2 {
            return Err(DecodeError::UnexpectedEof);
        }
        let x = rd_u16(data, p);
        *pos = p + 2;
        return Ok(if tag == TAG_INT16 {
            Value::Int16(x as i16)
        } else {
            Value::UInt16(x)
        });
    }
    if tag == TAG_INT32 || tag == TAG_UINT32 || tag == TAG_FLOAT || tag == TAG_DATE {
        if avail < 4 {
            return Err(DecodeError::UnexpectedEof);
        }
        let x = rd_u32(data, p);
        *pos = p + 4;
        return Ok(if tag == TAG_INT32 {
            Value::Int32(x as i32)
        } else if tag == TAG_UINT32 {
            Value::UInt32(x)
        } else if tag == TAG_FLOAT {
            Value::Float(x)
        } else {
            Value::Date(x as i32)
        });
    }
    if tag == TAG_INT64 || tag == TAG_UINT64 || tag == TAG_DOUBLE || tag == TAG_TIMESTAMP || tag
        == TAG_TIMESTAMP_TZ || tag == TAG_TIMESTAMP_NS || tag == TAG_TIMESTAMP_MS || tag
        == TAG_TIMESTAMP_SEC || tag == TAG_DTIME {
        if avail < 8 {
            return Err(DecodeError::UnexpectedEof);
        }
        let x = rd_u64(data, p);
        *pos = p + 8;
        return Ok(if tag == TAG_INT64 {
            Value::Int64(x as i64)
        } else if tag == TAG_UINT64 {
            Value::UInt64(x)
        } else if tag == TAG_DOUBLE {
            Value::Double(x)
        } else if tag == TAG_TIMESTAMP {
            Value::Timestamp(x as i64)
        } else if tag == TAG_TIMESTAMP_TZ {
            Value::TimestampTz(x as i64)
        } else if tag == TAG_TIMESTAMP_NS {
            Value::TimestampNs(x as i64)
        } else if tag == TAG_TIMESTAMP_MS {
            Value::TimestampMs(x as i64)
        } else if tag == TAG_TIMESTAMP_SEC {
            Value::TimestampSec(x as i64)
        } else {
            Value::DTime(x as i64)
        });
    }
    if tag == TAG_INT128 || tag == TAG_UINT128 {
        if avail < 16 {
            return Err(DecodeError::UnexpectedEof);
        }
        let x = rd_u128(data, p);
        *pos = p + 16;
        return Ok(if tag == TAG_INT128 {
            Value::Int128(x as i128)
        } else {
            Value::UInt128(x)
        });
    }
    if tag == TAG_INTERVAL {
        if avail < 16 {
            return Err(DecodeError::UnexpectedEof);
        }
        let months = rd_u32(data, p) as i32;
        let days = rd_u32(data, p + 4) as i32;
        let micros = rd_u64(data, p + 8) as i64;
        *pos = p + 16;
        proof {
            let b = bytes_at(data@, p as nat, 16);
            assert(b.subrange(0, 4) =~= bytes_at(data@, p as nat, 4));
            assert(b.subrange(4, 8) =~= bytes_at(data@, (p + 4) as nat, 4));
            assert(b.subrange(8, 16) =~= bytes_at(data@, (p + 8) as nat, 8));
        }
        return Ok(Value::Interval { months, days, micros });
    }
    if tag == TAG_INTERNAL_ID {
        if avail < 16 {
            return Err(DecodeError::UnexpectedEof);
        }
        let table_id = rd_u64(data, p);
        let offset = rd_u64(data, p + 8);
        *pos = p + 16;
        proof {
            let b = bytes_at(data@, p as nat, 16);
            assert(b.subrange(0, 8) =~= bytes_at(data@, p as nat, 8));
            assert(b.subrange(8, 16) =~= bytes_at(data@, (p + 8) as nat, 8));
        }
        return Ok(Value::InternalID { table_id, offset });
    }
    if tag == TAG_STRING || tag == TAG_BLOB || tag == TAG_JSON {
        let (a, b) = match rd_framed(data, p) {
            Ok(r) => r,
            Err(e) => {
                return Err(e);
            },
        };
        let bytes = &data[a..b];
        *pos = b;
        if tag == TAG_BLOB {
            let mut blob: Vec<u8> = Vec::new();
            crate::wal::append_bytes(&mut blob, bytes);
            proof {
                assert(blob@ =~= bytes_at(data@, a as nat, (b - a) as nat));
            }
            return Ok(Value::Blob(blob));
        }
        let text = text_of_bytes(bytes);
        if tag == TAG_STRING {
            return Ok(Value::String(text));
        }
        if !json_parses(text.as_str()) {
            return Err(DecodeError::InvalidJson);
        }
        return Ok(Value::Json(text));
    }
    if tag == TAG_UNION {
        let (a, b) = match rd_framed(data, p) {
            Ok(r) => r,
            Err(e) => {
                return Err(e);
            },
        };
        let name = text_of_bytes(&data[a..b]);
        *pos = b;
        let val = match deserialize_value(data, pos) {
            Ok(v) => v,
            Err(e) => {
                return Err(e);
            },
        };
        return Ok(Value::Union(name, Box::new(val)));
    }
    if tag == TAG_LIST || tag == TAG_MAP || tag == TAG_STRUCT {
        if avail < 4 {
            return Err(DecodeError::UnexpectedEof);
        }
        let n = rd_u32(data, p) as usize;
        *pos = p + 4;
        if tag == TAG_LIST {
            return deserialize_list(data, pos, n);
        } else if tag == TAG_MAP {
            return deserialize_map(data, pos, n);
        } else {
            return deserialize_struct(data, pos, n);
        }
    }
    Err(DecodeError::UnknownTag(tag))
}

/// The list of `n` values at `*pos` (past the tag and count).
fn deserialize_list(data: &[u8], pos: &mut usize, n: usize) -> (r: Result<Value, DecodeError>)
    requires
        *old(pos) <= data@.len(),
    ensures
        match r {
            Ok(v) => {
                &&& dec_list(data@, *old(pos) as nat, n as nat) matches Ok((s, q)) && vview(v) == ValueView::List(s) && q == *final(pos)
                &&& *old(pos) <= *final(pos) <= data@.len()
            },
            Err(e) => dec_list(data@, *old(pos) as nat, n as nat) == Err::<(Seq<ValueView>, nat), DecodeError>(e),
        },
    decreases data@.len() - *old(pos), n + 1,
{
    let ghost start = *pos as nat;
    let mut elems: Vec<Value> = Vec::new();
    let ghost mut views: Seq<ValueView> = Seq::empty();
    let mut k: usize = 0;
    while k < n
        invariant
            k <= n,
            start == *old(pos),
            start <= *pos <= data@.len(),
            elems@.len() == k,
            views.len() == k,
            forall|i: int| 0 <= i < k ==> #[trigger] views[i] == vview(elems@[i]),
            dec_list(data@, start, n as nat) == match dec_list(data@, *pos as nat, (n - k) as nat) {
                Ok((s, q)) => Ok::<(Seq<ValueView>, nat), DecodeError>((views + s, q)),
                Err(e) => Err(e),
            },
        decreases n - k,
    {
        let ghost before = *pos as nat;
        let v = match deserialize_value(data, pos) {
            Ok(v) => v,
            Err(e) => {
                return Err(e);
            },
        };
        proof {
            let tail = dec_list(data@, *pos as nat, (n - k - 1) as nat);
            assert(dec_list(data@, before, (n - k) as nat) == match tail {
                Ok((s, q)) => Ok::<(Seq<ValueView>, nat), DecodeError>((seq![vview(v)] + s, q)),
                Err(e) => Err(e),
            });
            match tail {
                Ok((s, q)) => {
                    assert(views + (seq![vview(v)] + s) =~= views.push(vview(v)) + s);
                },
                Err(e) => {},
            }
            views = views.push(vview(v));
        }
        elems.push(v);
        k = k + 1;
    }
    proof {
        assert(dec_list(data@, *pos as nat, 0) == Ok::<(Seq<ValueView>, nat), DecodeError>((Seq::empty(), *pos as nat)));
        assert(views + Seq::<ValueView>::empty() =~= views);
    }
    let v = Value::List(elems);
    proof {
        if let ValueView::List(s2) = vview(v) {
            assert(s2 =~= views);
        }
    }
    Ok(v)
}

/// The map of `n` key/value pairs at `*pos` (past the tag and count).
fn deserialize_map(data: &[u8], pos: &mut usize, n: usize) -> (r: Result<Value, DecodeError>)
    requires
        *old(pos) <= data@.len(),
    ensures
        match r {
            Ok(v) => {
                &&& dec_pairs(data@, *old(pos) as nat, n as nat) matches Ok((s, q)) && vview(v) == ValueView::MapValue(s) && q == *final(pos)
                &&& *old(pos) <= *final(pos) <= data@.len()
            },
            Err(e) => dec_pairs(data@, *old(pos) as nat, n as nat) == Err::<(Seq<(ValueView, ValueView)>, nat), DecodeError>(e),
        },
    decreases data@.len() - *old(pos), n + 1,
{
    let ghost start = *pos as nat;
    let mut elems: Vec<(Value, Value)> = Vec::new();
    let ghost mut views: Seq<(ValueView, ValueView)> = Seq::empty();
    let mut k: usize = 0;
    while k < n
        invariant
            k <= n,
            start == *old(pos),
            start <= *pos <= data@.len(),
            elems@.len() == k,
            views.len() == k,
            forall|i: int| 0 <= i < k ==> #[trigger] views[i] == (vview(elems@[i].0), vview(elems@[i].1)),
            dec_pairs(data@, start, n as nat) == match dec_pairs(data@, *pos as nat, (n - k) as nat) {
                Ok((s, q)) => Ok::<(Seq<(ValueView, ValueView)>, nat), DecodeError>((views + s, q)),
                Err(e) => Err(e),
            },
        decreases n - k,
    {
        let ghost before = *pos as nat;
        let key = match deserialize_value(data, pos) {
            Ok(v) => v,
            Err(e) => {
                return Err(e);
            },
        };
        let ghost mid = *pos as nat;
        let val = match deserialize_value(data, pos) {
            Ok(v) => v,
            Err(e) => {
                return Err(e);
            },
        };
        proof {
            let tail = dec_pairs(data@, *pos as nat, (n - k - 1) as nat);
            assert(dec_pairs(data@, before, (n - k) as nat) == match tail {
                Ok((s, q)) => Ok::<(Seq<(ValueView, ValueView)>, nat), DecodeError>((seq![(vview(key), vview(val))] + s, q)),
                Err(e) => Err(e),
            });
            match tail {
                Ok((s, q)) => {
                    assert(views + (seq![(vview(key), vview(val))] + s) =~= views.push((vview(key), vview(val))) + s);
                },
                Err(e) => {},
            }
            views = views.push((vview(key), vview(val)));
        }
        elems.push((key, val));
        k = k + 1;
    }
    proof {
        assert(dec_pairs(data@, *pos as nat, 0) == Ok::<(Seq<(ValueView, ValueView)>, nat), DecodeError>((Seq::empty(), *pos as nat)));
        assert(views + Seq::<(ValueView, ValueView)>::empty() =~= views);
    }
    let v = Value::MapValue(elems);
    proof {
        if let ValueView::MapValue(s2) = vview(v) {
            assert(s2 =~= views);
        }
    }
    Ok(v)
}

/// The struct of `n` fields at `*pos` (past the tag and count).
fn deserialize_struct(data: &[u8], pos: &mut usize, n: usize) -> (r: Result<Value, DecodeError>)
    requires
        *old(pos) <= data@.len(),
    ensures
        match r {
            Ok(v) => {
                &&& dec_fields(data@, *old(pos) as nat, n as nat) matches Ok((s, q)) && vview(v) == ValueView::Struct(s) && q == *final(pos)
                &&& *old(pos) <= *final(pos) <= data@.len()
            },
            Err(e) => dec_fields(data@, *old(pos) as nat, n as nat) == Err::<(Seq<(Seq<char>, ValueView)>, nat), DecodeError>(e),
        },
    decreases data@.len() - *old(pos), n + 1,
{
    let ghost start = *pos as nat;
    let mut elems: Vec<(String, Value)> = Vec::new();
    let ghost mut views: Seq<(Seq<char>, ValueView)> = Seq::empty();
    let mut k: usize = 0;
    while k < n
        invariant
            k <= n,
            start == *old(pos),
            start <= *pos <= data@.len(),
            elems@.len() == k,
            views.len() == k,
            forall|i: int| 0 <= i < k ==> #[trigger] views[i] == (elems@[i].0@, vview(elems@[i].1)),
            dec_fields(data@, start, n as nat) == match dec_fields(data@, *pos as nat, (n - k) as nat) {
                Ok((s, q)) => Ok::<(Seq<(Seq<char>, ValueView)>, nat), DecodeError>((views + s, q)),
                Err(e) => Err(e),
            },
        decreases n - k,
    {
        let ghost before = *pos as nat;
        let (a, b) = match rd_framed(data, *pos) {
            Ok(r) => r,
            Err(e) => {
                return Err(e);
            },
        };
        let name = text_of_bytes(&data[a..b]);
        *pos = b;
        let val = match deserialize_value(data, pos) {
            Ok(v) => v,
            Err(e) => {
                return Err(e);
            },
        };
        proof {
            let tail = dec_fields(data@, *pos as nat, (n - k - 1) as nat);
            assert(dec_fields(data@, before, (n - k) as nat) == match tail {
                Ok((s, q)) => Ok::<(Seq<(Seq<char>, ValueView)>, nat), DecodeError>((seq![(name@, vview(val))] + s, q)),
                Err(e) => Err(e),
            });
            match tail {
                Ok((s, q)) => {
                    assert(views + (seq![(name@, vview(val))] + s) =~= views.push((name@, vview(val))) + s);
                },
                Err(e) => {},
            }
            views = views.push((name@, vview(val)));
        }
        elems.push((name, val));
        k = k + 1;
    }
    proof {
        assert(dec_fields(data@, *pos as nat, 0) == Ok::<(Seq<(Seq<char>, ValueView)>, nat), DecodeError>((Seq::empty(), *pos as nat)));
        assert(views + Seq::<(Seq<char>, ValueView)>::empty() =~= views);
    }
    let v = Value::Struct(elems);
    proof {
        if let ValueView::Struct(s2) = vview(v) {
            assert(s2 =~= views);
        }
    }
    Ok(v)
}

// ------------------------------------------------------------------
// What a read gives back of a write
// ------------------------------------------------------------------

/// A text that survives encoding: its UTF-8 form fits a `u32` length and
/// decodes back to it.
pub open spec fn text_encodable(t: Seq<char>) -> bool {
    utf8_all(t).len() <= u32::MAX && utf8_lossy(utf8_all(t)) == t
}

/// A value whose binary form can be read back: every length fits a `u32`,
/// every text decodes back, and every JSON text parses.
pub open spec fn encodable(v: ValueView) -> bool
    decreases v,
{
    match v {
        ValueView::String(s) => text_encodable(s),
        ValueView::Blob(b) => b.len() <= u32::MAX,
        ValueView::Json(s) => text_encodable(s) && json_valid(s),
        ValueView::Union(t, b) => text_encodable(t) && encodable(*b),
        ValueView::List(s) => s.len() <= u32::MAX && encodable_list(s),
        ValueView::MapValue(s) => s.len() <= u32::MAX && encodable_pairs(s),
        ValueView::Struct(s) => s.len() <= u32::MAX && encodable_fields(s),
        _ => true,
    }
}

/// Every value of a sequence is encodable.
pub open spec fn encodable_list(s: Seq<ValueView>) -> bool
    decreases s,
{
    if s.len() == 0 {
        true
    } else {
        encodable(s[0]) && encodable_list(s.drop_first())
    }
}

/// Every key and value of a sequence of pairs is encodable.
pub open spec fn encodable_pairs(s: Seq<(ValueView, ValueView)>) -> bool
    decreases s,
{
    if s.len() == 0 {
        true
    } else {
        encodable(s[0].0) && encodable(s[0].1) && encodable_pairs(s.drop_first())
    }
}

/// Every field name and value of a struct is encodable.
pub open spec fn encodable_fields(s: Seq<(Seq<char>, ValueView)>) -> bool
    decreases s,
{
    if s.len() == 0 {
        true
    } else {
        text_encodable(s[0].0) && encodable(s[0].1) && encodable_fields(s.drop_first())
    }
}

proof fn lemma_mid(pre: Seq<u8>, mid: Seq<u8>, rest: Seq<u8>, off: int, n: int)
    requires
        0 <= off,
        0 <= n,
        off + n <= mid.len(),
    ensures
        (pre + mid + rest).subrange(pre.len() + off, pre.len() + off + n) == mid.subrange(off, off + n),
        bytes_at(pre + mid + rest, (pre.len() + off) as nat, n as nat) == mid.subrange(off, off + n),
        off == 0 && n == mid.len() ==> bytes_at(pre + mid + rest, pre.len(), n as nat) == mid,
{
    assert((pre + mid + rest).subrange(pre.len() + off, pre.len() + off + n) =~= mid.subrange(
        off,
        off + n,
    ));
    if off == 0 && n == mid.len() {
        assert(mid.subrange(0, n) =~= mid);
    }
}

proof fn lemma_enc_list_front(s: Seq<ValueView>)
    requires
        s.len() > 0,
    ensures
        enc_list(s) == enc(s[0]) + enc_list(s.drop_first()),
    decreases s.len(),
{
    if s.len() == 1 {
        assert(s.drop_last() =~= Seq::<ValueView>::empty());
        assert(s.drop_first() =~= Seq::<ValueView>::empty());
        assert(enc_list(s) =~= enc(s[0]) + enc_list(s.drop_first()));
    } else {
        lemma_enc_list_front(s.drop_last());
        assert(s.drop_last().drop_first() =~= s.drop_first().drop_last());
        assert(s.drop_first().last() == s.last());
        assert(enc_list(s) =~= enc(s[0]) + enc_list(s.drop_first()));
    }
}

proof fn lemma_enc_pairs_front(s: Seq<(ValueView, ValueView)>)
    requires
        s.len() > 0,
    ensures
        enc_pairs(s) == enc(s[0].0) + enc(s[0].1) + enc_pairs(s.drop_first()),
    decreases s.len(),
{
    if s.len() == 1 {
        assert(s.drop_last() =~= Seq::<(ValueView, ValueView)>::empty());
        assert(s.drop_first() =~= Seq::<(ValueView, ValueView)>::empty());
        assert(enc_pairs(s) =~= enc(s[0].0) + enc(s[0].1) + enc_pairs(s.drop_first()));
    } else {
        lemma_enc_pairs_front(s.drop_last());
        assert(s.drop_last().drop_first() =~= s.drop_first().drop_last());
        assert(s.drop_first().last() == s.last());
        assert(enc_pairs(s) =~= enc(s[0].0) + enc(s[0].1) + enc_pairs(s.drop_first()));
    }
}

proof fn lemma_enc_fields_front(s: Seq<(Seq<char>, ValueView)>)
    requires
        s.len() > 0,
    ensures
        enc_fields(s) == framed_bytes(utf8_all(s[0].0)) + enc(s[0].1) + enc_fields(s.drop_first()),
    decreases s.len(),
{
    if s.len() == 1 {
        assert(s.drop_last() =~= Seq::<(Seq<char>, ValueView)>::empty());
        assert(s.drop_first() =~= Seq::<(Seq<char>, ValueView)>::empty());
        assert(enc_fields(s) =~= framed_bytes(utf8_all(s[0].0)) + enc(s[0].1) + enc_fields(
            s.drop_first(),
        ));
    } else {
        lemma_enc_fields_front(s.drop_last());
        assert(s.drop_last().drop_first() =~= s.drop_first().drop_last());
        assert(s.drop_first().last() == s.last());
        assert(enc_fields(s) =~= framed_bytes(utf8_all(s[0].0)) + enc(s[0].1) + enc_fields(
            s.drop_first(),
        ));
    }
}

proof fn lemma_framed_read(pre: Seq<u8>, b: Seq<u8>, rest: Seq<u8>)
    requires
        b.len() <= u32::MAX,
    ensures
        dec_framed(pre + framed_bytes(b) + rest, pre.len()) == Ok::<(Seq<u8>, nat), DecodeError>((
            b,
            pre.len() + framed_bytes(b).len(),
        )),
        framed_bytes(b).len() == 4 + b.len(),
{
    lemma_auto_spec_u32_to_from_le_bytes();
    let f = framed_bytes(b);
    assert(f.len() == 4 + b.len());
    lemma_mid(pre, f, rest, 0, 4);
    assert(f.subrange(0, 4) =~= spec_u32_to_le_bytes(b.len() as u32));
    lemma_mid(pre, f, rest, 4, b.len() as int);
    assert(f.subrange(4, (4 + b.len()) as int) =~= b);
    assert((b.len() as u32) as nat == b.len());
}

/// Reading back a value that holds no other value.
#[verifier::spinoff_prover]
#[verifier::rlimit(40)]
proof fn lemma_flat_roundtrip(v: ValueView, pre: Seq<u8>, rest: Seq<u8>)
    requires
        encodable(v),
        !(v is Union || v is List || v is MapValue || v is Struct),
    ensures
        enc(v).len() >= 1,
        dec(pre + enc(v) + rest, pre.len()) == Ok::<(ValueView, nat), DecodeError>((
            v,
            pre.len() + enc(v).len(),
        )),
{
    lemma_auto_spec_u16_to_from_le_bytes();
    lemma_auto_spec_u32_to_from_le_bytes();
    lemma_auto_spec_u64_to_from_le_bytes();
    lemma_auto_spec_u128_to_from_le_bytes();
    let e = enc(v);
    let buf = pre + e + rest;
    let p = pre.len() + 1;
    assert(buf[pre.len() as int] == e[0]);
    let pay = e.subrange(1, e.len() as int);
    let pre1 = pre + seq![e[0]];
    assert(buf =~= pre1 + pay + rest);
    assert(pre1.len() == p);
    match v {
        ValueView::Null => {
            assert(e =~= seq![TAG_NULL]);
            assert(buf[pre.len() as int] == TAG_NULL);
            assert(pre.len() < buf.len());
            assert(dec(buf, pre.len()) == Ok::<(ValueView, nat), DecodeError>((ValueView::Null, p)));
        },
        ValueView::Bool(b) => {
            lemma_mid(pre1, pay, rest, 0, 1);
        },
        ValueView::Int64(x) => {
            lemma_mid(pre1, pay, rest, 0, 8);
            assert(pay =~= spec_u64_to_le_bytes(x as u64));
            assert(((x as u64) as i64) == x) by (bit_vector);
        },
        ValueView::Int32(x) => {
            lemma_mid(pre1, pay, rest, 0, 4);
            assert(pay =~= spec_u32_to_le_bytes(x as u32));
            assert(((x as u32) as i32) == x) by (bit_vector);
        },
        ValueView::Int16(x) => {
            lemma_mid(pre1, pay, rest, 0, 2);
            assert(pay =~= spec_u16_to_le_bytes(x as u16));
            assert(((x as u16) as i16) == x) by (bit_vector);
        },
        ValueView::Int8(x) => {
            lemma_mid(pre1, pay, rest, 0, 1);
            assert(((x as u8) as i8) == x) by (bit_vector);
        },
        ValueView::UInt64(x) => {
            lemma_mid(pre1, pay, rest, 0, 8);
            assert(pay =~= spec_u64_to_le_bytes(x));
        },
        ValueView::UInt32(x) => {
            lemma_mid(pre1, pay, rest, 0, 4);
            assert(pay =~= spec_u32_to_le_bytes(x));
        },
        ValueView::UInt16(x) => {
            lemma_mid(pre1, pay, rest, 0, 2);
            assert(pay =~= spec_u16_to_le_bytes(x));
        },
        ValueView::UInt8(x) => {
            lemma_mid(pre1, pay, rest, 0, 1);
        },
        ValueView::Int128(x) => {
            lemma_mid(pre1, pay, rest, 0, 16);
            assert(pay =~= spec_u128_to_le_bytes(x as u128));
            assert(((x as u128) as i128) == x) by (bit_vector);
        },
        ValueView::Double(x) => {
            lemma_mid(pre1, pay, rest, 0, 8);
            assert(pay =~= spec_u64_to_le_bytes(x));
        },
        ValueView::Float(x) => {
            lemma_mid(pre1, pay, rest, 0, 4);
            assert(pay =~= spec_u32_to_le_bytes(x));
        },
        ValueView::Date(x) => {
            lemma_mid(pre1, pay, rest, 0, 4);
            assert(pay =~= spec_u32_to_le_bytes(x as u32));
            assert(((x as u32) as i32) == x) by (bit_vector);
        },
        ValueView::Timestamp(x) => {
            lemma_mid(pre1, pay, rest, 0, 8);
            assert(pay =~= spec_u64_to_le_bytes(x as u64));
            assert(((x as u64) as i64) == x) by (bit_vector);
        },
        ValueView::TimestampTz(x) => {
            lemma_mid(pre1, pay, rest, 0, 8);
            assert(pay =~= spec_u64_to_le_bytes(x as u64));
            assert(((x as u64) as i64) == x) by (bit_vector);
        },
        ValueView::TimestampNs(x) => {
            lemma_mid(pre1, pay, rest, 0, 8);
            assert(pay =~= spec_u64_to_le_bytes(x as u64));
            assert(((x as u64) as i64) == x) by (bit_vector);
        },
        ValueView::TimestampMs(x) => {
            lemma_mid(pre1, pay, rest, 0, 8);
            assert(pay =~= spec_u64_to_le_bytes(x as u64));
            assert(((x as u64) as i64) == x) by (bit_vector);
        },
        ValueView::TimestampSec(x) => {
            lemma_mid(pre1, pay, rest, 0, 8);
            assert(pay =~= spec_u64_to_le_bytes(x as u64));
            assert(((x as u64) as i64) == x) by (bit_vector);
        },
        ValueView::DTime(x) => {
            lemma_mid(pre1, pay, rest, 0, 8);
            assert(pay =~= spec_u64_to_le_bytes(x as u64));
            assert(((x as u64) as i64) == x) by (bit_vector);
        },
        ValueView::UInt128(x) => {
            lemma_mid(pre1, pay, rest, 0, 16);
            assert(pay =~= spec_u128_to_le_bytes(x));
        },
        ValueView::Interval(m, d, u) => {
            lemma_mid(pre1, pay, rest, 0, 16);
            let b = bytes_at(buf, p, 16);
            assert(b.subrange(0, 4) =~= spec_u32_to_le_bytes(m as u32));
            assert(b.subrange(4, 8) =~= spec_u32_to_le_bytes(d as u32));
            assert(b.subrange(8, 16) =~= spec_u64_to_le_bytes(u as u64));
            assert(((m as u32) as i32) == m) by (bit_vector);
            assert(((d as u32) as i32) == d) by (bit_vector);
            assert(((u as u64) as i64) == u) by (bit_vector);
        },
        ValueView::InternalID(t, o) => {
            lemma_mid(pre1, pay, rest, 0, 16);
            let b = bytes_at(buf, p, 16);
            assert(b.subrange(0, 8) =~= spec_u64_to_le_bytes(t));
            assert(b.subrange(8, 16) =~= spec_u64_to_le_bytes(o));
        },
        ValueView::String(t) => {
            assert(pay =~= framed_bytes(utf8_all(t)));
            assert(pre1 + pay + rest =~= pre1 + framed_bytes(utf8_all(t)) + rest);
            lemma_framed_read(pre1, utf8_all(t), rest);
        },
        ValueView::Json(t) => {
            assert(pay =~= framed_bytes(utf8_all(t)));
            lemma_framed_read(pre1, utf8_all(t), rest);
        },
        ValueView::Blob(b) => {
            assert(pay =~= framed_bytes(b));
            lemma_framed_read(pre1, b, rest);
        },
        _ => {
            assert(false);
        },
    }
}

/// Reading back the binary form of an encodable value gives the value and
/// the position just after its bytes, whatever precedes and follows it.
#[verifier::spinoff_prover]
#[verifier::rlimit(30)]
pub proof fn law_value_roundtrip(v: ValueView, pre: Seq<u8>, rest: Seq<u8>)
    requires
        encodable(v),
    ensures
        enc(v).len() >= 1,
        dec(pre + enc(v) + rest, pre.len()) == Ok::<(ValueView, nat), DecodeError>((
            v,
            pre.len() + enc(v).len(),
        )),
    decreases v,
{
    lemma_auto_spec_u32_to_from_le_bytes();
    let e = enc(v);
    let buf = pre + e + rest;
    let p = pre.len() + 1;
    assert(buf[pre.len() as int] == e[0]);
    let pay = e.subrange(1, e.len() as int);
    let pre1 = pre + seq![e[0]];
    assert(buf =~= pre1 + pay + rest);
    assert(pre1.len() == p);
    match v {
        ValueView::Union(t, b) => {
            let f = framed_bytes(utf8_all(t));
            assert(pay =~= f + enc(*b));
            assert(buf =~= pre1 + f + (enc(*b) + rest));
            lemma_framed_read(pre1, utf8_all(t), enc(*b) + rest);
            let pre2 = pre1 + f;
            assert(buf =~= pre2 + enc(*b) + rest);
            law_value_roundtrip(*b, pre2, rest);
        },
        ValueView::List(s) => {
            let rest_items = enc_list(s);
            assert(pay =~= spec_u32_to_le_bytes(s.len() as u32) + rest_items);
            lemma_mid(pre1, pay, rest, 0, 4);
            assert(pay.subrange(0, 4) =~= spec_u32_to_le_bytes(s.len() as u32));
            assert((s.len() as u32) as nat == s.len());
            let pre2 = pre1 + spec_u32_to_le_bytes(s.len() as u32);
            assert(buf =~= pre2 + rest_items + rest);
            lemma_list_roundtrip(s, pre2, rest);
        },
        ValueView::MapValue(s) => {
            let rest_items = enc_pairs(s);
            assert(pay =~= spec_u32_to_le_bytes(s.len() as u32) + rest_items);
            lemma_mid(pre1, pay, rest, 0, 4);
            assert(pay.subrange(0, 4) =~= spec_u32_to_le_bytes(s.len() as u32));
            assert((s.len() as u32) as nat == s.len());
            let pre2 = pre1 + spec_u32_to_le_bytes(s.len() as u32);
            assert(buf =~= pre2 + rest_items + rest);
            lemma_pairs_roundtrip(s, pre2, rest);
        },
        ValueView::Struct(s) => {
            let rest_items = enc_fields(s);
            assert(pay =~= spec_u32_to_le_bytes(s.len() as u32) + rest_items);
            lemma_mid(pre1, pay, rest, 0, 4);
            assert(pay.subrange(0, 4) =~= spec_u32_to_le_bytes(s.len() as u32));
            assert((s.len() as u32) as nat == s.len());
            let pre2 = pre1 + spec_u32_to_le_bytes(s.len() as u32);
            assert(buf =~= pre2 + rest_items + rest);
            lemma_fields_roundtrip(s, pre2, rest);
        },
        _ => {
            lemma_flat_roundtrip(v, pre, rest);
        },
    }
}

proof fn lemma_list_roundtrip(s: Seq<ValueView>, pre: Seq<u8>, rest: Seq<u8>)
    requires
        encodable_list(s),
    ensures
        dec_list(pre + enc_list(s) + rest, pre.len(), s.len()) == Ok::<(Seq<ValueView>, nat), DecodeError>((
            s,
            pre.len() + enc_list(s).len(),
        )),
    decreases s,
{
    if s.len() == 0 {
        assert(enc_list(s) =~= Seq::<u8>::empty());
        assert(s =~= Seq::<ValueView>::empty());
    } else {
        lemma_enc_list_front(s);
        let tail = s.drop_first();
        let buf = pre + enc_list(s) + rest;
        assert(buf =~= pre + enc(s[0]) + (enc_list(tail) + rest));
        law_value_roundtrip(s[0], pre, enc_list(tail) + rest);
        let pre2 = pre + enc(s[0]);
        assert(buf =~= pre2 + enc_list(tail) + rest);
        lemma_list_roundtrip(tail, pre2, rest);
        assert(seq![s[0]] + tail =~= s);
        let p1 = pre.len() + enc(s[0]).len();
        assert(pre2.len() == p1);
        assert(p1 > pre.len() && p1 <= buf.len());
        assert(dec(buf, pre.len()) == Ok::<(ValueView, nat), DecodeError>((s[0], p1)));
        assert(dec_list(buf, p1, tail.len()) == Ok::<(Seq<ValueView>, nat), DecodeError>((tail, pre.len() + enc_list(s).len())));
        assert((s.len() - 1) as nat == tail.len());
        assert(dec_list(buf, pre.len(), s.len()) == Ok::<(Seq<ValueView>, nat), DecodeError>((seq![s[0]] + tail, pre.len() + enc_list(s).len())));
    }
}

#[verifier::rlimit(40)]
proof fn lemma_pairs_roundtrip(s: Seq<(ValueView, ValueView)>, pre: Seq<u8>, rest: Seq<u8>)
    requires
        encodable_pairs(s),
    ensures
        dec_pairs(pre + enc_pairs(s) + rest, pre.len(), s.len()) == Ok::<(Seq<(ValueView, ValueView)>, nat), DecodeError>((
            s,
            pre.len() + enc_pairs(s).len(),
        )),
    decreases s,
{
    if s.len() == 0 {
        assert(enc_pairs(s) =~= Seq::<u8>::empty());
        assert(s =~= Seq::<(ValueView, ValueView)>::empty());
    } else {
        lemma_enc_pairs_front(s);
        let tail = s.drop_first();
        let buf = pre + enc_pairs(s) + rest;
        assert(buf =~= pre + enc(s[0].0) + (enc(s[0].1) + enc_pairs(tail) + rest));
        law_value_roundtrip(s[0].0, pre, enc(s[0].1) + enc_pairs(tail) + rest);
        let pre2 = pre + enc(s[0].0);
        assert(buf =~= pre2 + enc(s[0].1) + (enc_pairs(tail) + rest));
        law_value_roundtrip(s[0].1, pre2, enc_pairs(tail) + rest);
        let pre3 = pre2 + enc(s[0].1);
        assert(buf =~= pre3 + enc_pairs(tail) + rest);
        lemma_pairs_roundtrip(tail, pre3, rest);
        assert(seq![(s[0].0, s[0].1)] + tail =~= s);
        let p1 = pre2.len();
        let p2 = pre3.len();
        assert(p1 > pre.len() && p1 <= buf.len());
        assert(p2 > p1 && p2 <= buf.len());
        assert(dec(buf, pre.len()) == Ok::<(ValueView, nat), DecodeError>((s[0].0, p1)));
        assert(dec(buf, p1) == Ok::<(ValueView, nat), DecodeError>((s[0].1, p2)));
        assert((s.len() - 1) as nat == tail.len());
        assert(dec_pairs(buf, p2, tail.len()) == Ok::<(Seq<(ValueView, ValueView)>, nat), DecodeError>((tail, pre.len() + enc_pairs(s).len())));
        assert(dec_pairs(buf, pre.len(), s.len()) == Ok::<(Seq<(ValueView, ValueView)>, nat), DecodeError>((seq![(s[0].0, s[0].1)] + tail, pre.len() + enc_pairs(s).len())));
    }
}

proof fn lemma_fields_roundtrip(s: Seq<(Seq<char>, ValueView)>, pre: Seq<u8>, rest: Seq<u8>)
    requires
        encodable_fields(s),
    ensures
        dec_fields(pre + enc_fields(s) + rest, pre.len(), s.len()) == Ok::<(Seq<(Seq<char>, ValueView)>, nat), DecodeError>((
            s,
            pre.len() + enc_fields(s).len(),
        )),
    decreases s,
{
    if s.len() == 0 {
        assert(enc_fields(s) =~= Seq::<u8>::empty());
        assert(s =~= Seq::<(Seq<char>, ValueView)>::empty());
    } else {
        lemma_enc_fields_front(s);
        let tail = s.drop_first();
        let f = framed_bytes(utf8_all(s[0].0));
        let buf = pre + enc_fields(s) + rest;
        assert(buf =~= pre + f + (enc(s[0].1) + enc_fields(tail) + rest));
        lemma_framed_read(pre, utf8_all(s[0].0), enc(s[0].1) + enc_fields(tail) + rest);
        let pre2 = pre + f;
        assert(buf =~= pre2 + enc(s[0].1) + (enc_fields(tail) + rest));
        law_value_roundtrip(s[0].1, pre2, enc_fields(tail) + rest);
        let pre3 = pre2 + enc(s[0].1);
        assert(buf =~= pre3 + enc_fields(tail) + rest);
        lemma_fields_roundtrip(tail, pre3, rest);
        assert(seq![(s[0].0, s[0].1)] + tail =~= s);
        let p1 = pre2.len();
        let p2 = pre3.len();
        assert(p1 > pre.len() && p1 <= buf.len());
        assert(p2 > p1 && p2 <= buf.len());
        assert(dec_framed(buf, pre.len()) == Ok::<(Seq<u8>, nat), DecodeError>((utf8_all(s[0].0), p1)));
        assert(dec(buf, p1) == Ok::<(ValueView, nat), DecodeError>((s[0].1, p2)));
        assert((s.len() - 1) as nat == tail.len());
        assert(utf8_lossy(utf8_all(s[0].0)) == s[0].0);
        assert(dec_fields(buf, p2, tail.len()) == Ok::<(Seq<(Seq<char>, ValueView)>, nat), DecodeError>((tail, pre.len() + enc_fields(s).len())));
        assert(dec_fields(buf, pre.len(), s.len()) == Ok::<(Seq<(Seq<char>, ValueView)>, nat), DecodeError>((seq![(s[0].0, s[0].1)] + tail, pre.len() + enc_fields(s).len())));
    }
}


proof fn lemma_encodable_list(s: Seq<ValueView>)
    ensures
        encodable_list(s) <==> forall|i: int| 0 <= i < s.len() ==> #[trigger] encodable(s[i]),
    decreases s.len(),
{
    if s.len() > 0 {
        let t = s.drop_first();
        lemma_encodable_list(t);
        assert forall|i: int| 0 <= i < t.len() implies t[i] == s[i + 1] by {}
        if forall|i: int| 0 <= i < s.len() ==> #[trigger] encodable(s[i]) {
            assert(encodable(s[0]));
            assert forall|i: int| 0 <= i < t.len() implies #[trigger] encodable(t[i]) by {
                assert(encodable(s[i + 1]));
            }
        }
        if encodable_list(s) {
            assert forall|i: int| 0 <= i < s.len() implies #[trigger] encodable(s[i]) by {
                if i > 0 {
                    assert(encodable(t[i - 1]));
                }
            }
        }
    }
}

/// Both values of a pair are encodable.
pub open spec fn pair_encodable(p: (ValueView, ValueView)) -> bool {
    encodable(p.0) && encodable(p.1)
}

/// A struct field's name and value are encodable.
pub open spec fn field_encodable(f: (Seq<char>, ValueView)) -> bool {
    text_encodable(f.0) && encodable(f.1)
}

proof fn lemma_encodable_pairs(s: Seq<(ValueView, ValueView)>)
    ensures
        encodable_pairs(s) <==> forall|i: int| 0 <= i < s.len() ==> #[trigger] pair_encodable(s[i]),
    decreases s.len(),
{
    if s.len() > 0 {
        let t = s.drop_first();
        lemma_encodable_pairs(t);
        assert forall|i: int| 0 <= i < t.len() implies t[i] == s[i + 1] by {}
        if forall|i: int| 0 <= i < s.len() ==> #[trigger] pair_encodable(s[i]) {
            assert(pair_encodable(s[0]));
            assert forall|i: int| 0 <= i < t.len() implies #[trigger] pair_encodable(t[i]) by {
                assert(pair_encodable(s[i + 1]));
            }
        }
        if encodable_pairs(s) {
            assert forall|i: int| 0 <= i < s.len() implies #[trigger] pair_encodable(s[i]) by {
                if i > 0 {
                    assert(pair_encodable(t[i - 1]));
                }
            }
        }
    }
}

proof fn lemma_encodable_fields(s: Seq<(Seq<char>, ValueView)>)
    ensures
        encodable_fields(s) <==> forall|i: int| 0 <= i < s.len() ==> #[trigger] field_encodable(s[i]),
    decreases s.len(),
{
    if s.len() > 0 {
        let t = s.drop_first();
        lemma_encodable_fields(t);
        assert forall|i: int| 0 <= i < t.len() implies t[i] == s[i + 1] by {}
        if forall|i: int| 0 <= i < s.len() ==> #[trigger] field_encodable(s[i]) {
            assert(field_encodable(s[0]));
            assert forall|i: int| 0 <= i < t.len() implies #[trigger] field_encodable(t[i]) by {
                assert(field_encodable(s[i + 1]));
            }
        }
        if encodable_fields(s) {
            assert forall|i: int| 0 <= i < s.len() implies #[trigger] field_encodable(s[i]) by {
                if i > 0 {
                    assert(field_encodable(t[i - 1]));
                }
            }
        }
    }
}

/// Whether the binary form of a text reads back: its UTF-8 length fits a
/// `u32` (decoding the bytes gives the text back).
pub fn text_reads_back(s: &str) -> (b: bool)
    ensures
        b == text_encodable(s@),
{
    let bytes = utf8_bytes(s);
    let back = text_of_bytes(bytes.as_slice());
    proof {
        assert(utf8_all(s@) == bytes@);
        assert(back@ == s@);
    }
    bytes.len() <= 0xffff_ffffusize
}

/// Whether the binary form of `value` reads back (`encodable`): every
/// length fits a `u32`, every text decodes back, every JSON text parses.
pub fn encodable_value(value: &Value) -> (b: bool)
    ensures
        b == encodable(vview(*value)),
    decreases value,
{
    match value {
        Value::String(t) => text_reads_back(t.as_str()),
        Value::Blob(b) => b.len() <= 0xffff_ffffusize,
        Value::Json(t) => text_reads_back(t.as_str()) && json_parses(t.as_str()),
        Value::Union(t, b) => text_reads_back(t.as_str()) && encodable_value(b),
        Value::List(vs) => {
            if vs.len() > 0xffff_ffffusize {
                return false;
            }
            let ghost sv = vview(*value)->List_0;
            let mut i: usize = 0;
            while i < vs.len()
                invariant
                    i <= vs@.len(),
                    *value == Value::List(*vs),
                    sv == vview(*value)->List_0,
                    sv.len() == vs@.len(),
                    forall|k: int| 0 <= k < vs@.len() ==> #[trigger] sv[k] == vview(vs@[k]),
                    forall|k: int| 0 <= k < i ==> #[trigger] encodable(sv[k]),
                decreases vs@.len() - i,
            {
                proof {
                    assert(decreases_to!(*vs => vs[i as int]));
                    assert(decreases_to!(*value => (*value)->List_0));
                }
                if !encodable_value(&vs[i]) {
                    proof {
                        lemma_encodable_list(sv);
                        assert(!encodable(sv[i as int]));
                    }
                    return false;
                }
                i = i + 1;
            }
            proof {
                lemma_encodable_list(sv);
            }
            true
        },
        Value::MapValue(ps) => {
            if ps.len() > 0xffff_ffffusize {
                return false;
            }
            let ghost sv = vview(*value)->MapValue_0;
            let mut i: usize = 0;
            while i < ps.len()
                invariant
                    i <= ps@.len(),
                    *value == Value::MapValue(*ps),
                    sv == vview(*value)->MapValue_0,
                    sv.len() == ps@.len(),
                    forall|k: int| 0 <= k < ps@.len() ==> #[trigger] sv[k] == (vview(ps@[k].0), vview(ps@[k].1)),
                    forall|k: int| 0 <= k < i ==> #[trigger] pair_encodable(sv[k]),
                decreases ps@.len() - i,
            {
                proof {
                    assert(decreases_to!(*ps => ps[i as int]));
                    assert(decreases_to!(ps[i as int] => ps[i as int].0));
                    assert(decreases_to!(ps[i as int] => ps[i as int].1));
                    assert(decreases_to!(*value => (*value)->MapValue_0));
                }
                let ok = encodable_value(&ps[i].0) && encodable_value(&ps[i].1);
                if !ok {
                    proof {
                        lemma_encodable_pairs(sv);
                        assert(sv[i as int] == (vview(ps@[i as int].0), vview(ps@[i as int].1)));
                        assert(!pair_encodable(sv[i as int]));
                    }
                    return false;
                }
                proof {
                    assert(sv[i as int] == (vview(ps@[i as int].0), vview(ps@[i as int].1)));
                    assert(pair_encodable(sv[i as int]));
                }
                i = i + 1;
            }
            proof {
                lemma_encodable_pairs(sv);
            }
            true
        },
        Value::Struct(fs) => {
            if fs.len() > 0xffff_ffffusize {
                return false;
            }
            let ghost sv = vview(*value)->Struct_0;
            let mut i: usize = 0;
            while i < fs.len()
                invariant
                    i <= fs@.len(),
                    *value == Value::Struct(*fs),
                    sv == vview(*value)->Struct_0,
                    sv.len() == fs@.len(),
                    forall|k: int| 0 <= k < fs@.len() ==> #[trigger] sv[k] == (fs@[k].0@, vview(fs@[k].1)),
                    forall|k: int| 0 <= k < i ==> #[trigger] field_encodable(sv[k]),
                decreases fs@.len() - i,
            {
                proof {
                    assert(decreases_to!(*fs => fs[i as int]));
                    assert(decreases_to!(fs[i as int] => fs[i as int].1));
                    assert(decreases_to!(*value => (*value)->Struct_0));
                }
                let ok = text_reads_back(fs[i].0.as_str()) && encodable_value(&fs[i].1);
                if !ok {
                    proof {
                        lemma_encodable_fields(sv);
                        assert(sv[i as int] == (fs@[i as int].0@, vview(fs@[i as int].1)));
                        assert(!field_encodable(sv[i as int]));
                    }
                    return false;
                }
                proof {
                    assert(sv[i as int] == (fs@[i as int].0@, vview(fs@[i as int].1)));
                    assert(field_encodable(sv[i as int]));
                }
                i = i + 1;
            }
            proof {
                lemma_encodable_fields(sv);
            }
            true
        },
        _ => true,
    }
}

/// Write `value` in binary form and read it back, when its form reads
/// back (`encodable_value`); `None` otherwise. The value read back always
/// equals `value`.
pub fn roundtrip_value(value: &Value) -> (r: Option<Value>)
    ensures
        r is Some <==> encodable(vview(*value)),
        r matches Some(w) ==> vview(w) == vview(*value),
{
    if !encodable_value(value) {
        return None;
    }
    let buf = serialize_value(value);
    let mut pos: usize = 0;
    proof {
        law_value_roundtrip(vview(*value), Seq::empty(), Seq::empty());
        assert(Seq::<u8>::empty() + enc(vview(*value)) + Seq::<u8>::empty() =~= buf@);
    }
    match deserialize_value(buf.as_slice(), &mut pos) {
        Ok(w) => Some(w),
        Err(_) => {
            proof {
                assert(false);
            }
            None
        },
    }
}

} // verus!
