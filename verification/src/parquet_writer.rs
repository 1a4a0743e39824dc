//! The column types of a Parquet export: each column takes the type of
//! its first value that has a Parquet counterpart.

use crate::value_codec::{vview, Value, ValueView};
use vstd::prelude::*;

verus! {

/// The Parquet (Arrow) type a column is written as.
#[derive(Debug, Clone, Copy, PartialEq, Eq, Structural)]
pub enum ParquetColumnType {
    Boolean,
    Int8,
    Int16,
    Int32,
    Int64,
    UInt8,
    UInt16,
    UInt32,
    UInt64,
    Float32,
    Float64,
    Utf8,
    Date32,
    Binary,
}

/// The Parquet type a value calls for, if it has one (timestamps and
/// intervals are written as 64-bit integers).
pub open spec fn type_of_value(v: ValueView) -> Option<ParquetColumnType> {
    match v {
        ValueView::Bool(_) => Some(ParquetColumnType::Boolean),
        ValueView::Int8(_) => Some(ParquetColumnType::Int8),
        ValueView::Int16(_) => Some(ParquetColumnType::Int16),
        ValueView::Int32(_) => Some(ParquetColumnType::Int32),
        ValueView::Int64(_) => Some(ParquetColumnType::Int64),
        ValueView::UInt8(_) => Some(ParquetColumnType::UInt8),
        ValueView::UInt16(_) => Some(ParquetColumnType::UInt16),
        ValueView::UInt32(_) => Some(ParquetColumnType::UInt32),
        ValueView::UInt64(_) => Some(ParquetColumnType::UInt64),
        ValueView::Float(_) => Some(ParquetColumnType::Float32),
        ValueView::Double(_) => Some(ParquetColumnType::Float64),
        ValueView::String(_) => Some(ParquetColumnType::Utf8),
        ValueView::Date(_) => Some(ParquetColumnType::Date32),
        ValueView::Timestamp(_) => Some(ParquetColumnType::Int64),
        ValueView::Interval(_, _, _) => Some(ParquetColumnType::Int64),
        ValueView::Blob(_) => Some(ParquetColumnType::Binary),
        _ => None,
    }
}

/// The type of column `col` from row `i` on: that of the first value in
/// the column with a Parquet type; text when there is none.
pub open spec fn column_type_from(rows: Seq<Vec<Value>>, col: int, i: int) -> ParquetColumnType
    decreases rows.len() - i,
{
    if i < 0 || i >= rows.len() {
        ParquetColumnType::Utf8
    } else if 0 <= col < rows[i]@.len() && type_of_value(vview(rows[i]@[col])) is Some {
        type_of_value(vview(rows[i]@[col]))->0
    } else {
        column_type_from(rows, col, i + 1)
    }
}

fn value_type(v: &Value) -> (t: Option<ParquetColumnType>)
    ensures
        t == type_of_value(vview(*v)),
{
    match v {
        Value::Bool(_) => Some(ParquetColumnType::Boolean),
        Value::Int8(_) => Some(ParquetColumnType::Int8),
        Value::Int16(_) => Some(ParquetColumnType::Int16),
        Value::Int32(_) => Some(ParquetColumnType::Int32),
        Value::Int64(_) => Some(ParquetColumnType::Int64),
        Value::UInt8(_) => Some(ParquetColumnType::UInt8),
        Value::UInt16(_) => Some(ParquetColumnType::UInt16),
        Value::UInt32(_) => Some(ParquetColumnType::UInt32),
        Value::UInt64(_) => Some(ParquetColumnType::UInt64),
        Value::Float(_) => Some(ParquetColumnType::Float32),
        Value::Double(_) => Some(ParquetColumnType::Float64),
        Value::String(_) => Some(ParquetColumnType::Utf8),
        Value::Date(_) => Some(ParquetColumnType::Date32),
        Value::Timestamp(_) => Some(ParquetColumnType::Int64),
        Value::Interval { .. } => Some(ParquetColumnType::Int64),
        Value::Blob(_) => Some(ParquetColumnType::Binary),
        _ => None,
    }
}

/// The type column `col_idx` is written as: that of its first value with a
/// Parquet type (rows too short to have the column are passed over); text
/// when it has none.
pub fn infer_column_type(rows: &[Vec<Value>], col_idx: usize) -> (t: ParquetColumnType)
    ensures
        t == column_type_from(rows@, col_idx as int, 0),
{
    let mut i: usize = 0;
    while i < rows.len()
        invariant
            i <= rows@.len(),
            column_type_from(rows@, col_idx as int, 0) == column_type_from(rows@, col_idx as int, i as int),
        decreases rows@.len() - i,
    {
        if col_idx < rows[i].len() {
            match value_type(&rows[i][col_idx]) {
                Some(t) => {
                    return t;
                },
                None => {},
            }
        }
        i = i + 1;
    }
    ParquetColumnType::Utf8
}

} // verus!
