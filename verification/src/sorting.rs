//! Ordering of values and rows, and the ORDER BY operator: a stable sort of
//! the input rows by a list of (column, ascending) keys.
//!
//! Comparisons are three-way, as -1, 0 or 1. NULL sorts after every other
//! value; values of different kinds, and NaNs, compare as equal.

use crate::chunk::{
    all_rows, chunk_of_rows, f32_is_nan, f64_is_nan, gather_rows, holds, key_of, rows_view, rview,
    uniform_width, DataChunk,
};
use crate::physical_operator::PhysicalOrderBy;
use crate::value_codec::{vview, Value, ValueView};
use vstd::prelude::*;

verus! {

/// Three-way comparison of two integers.
pub open spec fn int_order(x: int, y: int) -> int {
    if x < y {
        -1
    } else if x > y {
        1
    } else {
        0
    }
}

/// Where a non-NaN double, given by its bits, lies on the number line
/// relative to the others (both zeros at 0).
pub open spec fn f64_rank(x: u64) -> int {
    if x >> 63u64 == 1 {
        -((x & 0x7fff_ffff_ffff_ffffu64) as int)
    } else {
        (x & 0x7fff_ffff_ffff_ffffu64) as int
    }
}

/// Where a non-NaN float, given by its bits, lies on the number line.
pub open spec fn f32_rank(x: u32) -> int {
    if x >> 31u32 == 1 {
        -((x & 0x7fff_ffffu32) as int)
    } else {
        (x & 0x7fff_ffffu32) as int
    }
}

/// Lexicographic comparison of two texts, character by character.
pub open spec fn text_order(a: Seq<char>, b: Seq<char>) -> int
    decreases a.len(),
{
    if a.len() == 0 && b.len() == 0 {
        0
    } else if a.len() == 0 {
        -1
    } else if b.len() == 0 {
        1
    } else if a[0] != b[0] {
        int_order(a[0] as int, b[0] as int)
    } else {
        text_order(a.drop_first(), b.drop_first())
    }
}

/// Three-way comparison of two values for sorting: NULL after everything
/// else; booleans, integers, dates and timestamps by value; doubles and
/// floats by value, a NaN equal to anything; text lexicographically; any
/// other pair equal.
pub open spec fn value_order(a: ValueView, b: ValueView) -> int {
    match (a, b) {
        (ValueView::Null, ValueView::Null) => 0,
        (ValueView::Null, _) => 1,
        (_, ValueView::Null) => -1,
        (ValueView::Bool(x), ValueView::Bool(y)) => int_order(
            if x {
                1
            } else {
                0
            },
            if y {
                1
            } else {
                0
            },
        ),
        (ValueView::Int64(x), ValueView::Int64(y)) => int_order(x as int, y as int),
        (ValueView::Int32(x), ValueView::Int32(y)) => int_order(x as int, y as int),
        (ValueView::Int16(x), ValueView::Int16(y)) => int_order(x as int, y as int),
        (ValueView::Int8(x), ValueView::Int8(y)) => int_order(x as int, y as int),
        (ValueView::UInt64(x), ValueView::UInt64(y)) => int_order(x as int, y as int),
        (ValueView::UInt32(x), ValueView::UInt32(y)) => int_order(x as int, y as int),
        (ValueView::UInt16(x), ValueView::UInt16(y)) => int_order(x as int, y as int),
        (ValueView::UInt8(x), ValueView::UInt8(y)) => int_order(x as int, y as int),
        (ValueView::Double(x), ValueView::Double(y)) => if f64_is_nan(x) || f64_is_nan(y) {
            0
        } else {
            int_order(f64_rank(x), f64_rank(y))
        },
        (ValueView::Float(x), ValueView::Float(y)) => if f32_is_nan(x) || f32_is_nan(y) {
            0
        } else {
            int_order(f32_rank(x), f32_rank(y))
        },
        (ValueView::String(x), ValueView::String(y)) => text_order(x, y),
        (ValueView::Date(x), ValueView::Date(y)) => int_order(x as int, y as int),
        (ValueView::Timestamp(x), ValueView::Timestamp(y)) => int_order(x as int, y as int),
        _ => 0,
    }
}

fn int_compare(x: i128, y: i128) -> (c: i8)
    ensures
        c == int_order(x as int, y as int),
{
    if x < y {
        -1
    } else if x > y {
        1
    } else {
        0
    }
}

fn f64_order(x: u64, y: u64) -> (c: i8)
    ensures
        c == (if f64_is_nan(x) || f64_is_nan(y) {
            0
        } else {
            int_order(f64_rank(x), f64_rank(y))
        }),
{
    let nan_x = x & 0x7ff0_0000_0000_0000u64 == 0x7ff0_0000_0000_0000u64 && x
        & 0x000f_ffff_ffff_ffffu64 != 0;
    let nan_y = y & 0x7ff0_0000_0000_0000u64 == 0x7ff0_0000_0000_0000u64 && y
        & 0x000f_ffff_ffff_ffffu64 != 0;
    if nan_x || nan_y {
        return 0;
    }
    let mx = (x & 0x7fff_ffff_ffff_ffffu64) as i128;
    let my = (y & 0x7fff_ffff_ffff_ffffu64) as i128;
    let rx: i128 = if x >> 63u64 == 1 {
        -mx
    } else {
        mx
    };
    let ry: i128 = if y >> 63u64 == 1 {
        -my
    } else {
        my
    };
    int_compare(rx, ry)
}

fn f32_order(x: u32, y: u32) -> (c: i8)
    ensures
        c == (if f32_is_nan(x) || f32_is_nan(y) {
            0
        } else {
            int_order(f32_rank(x), f32_rank(y))
        }),
{
    let nan_x = x & 0x7f80_0000u32 == 0x7f80_0000u32 && x & 0x007f_ffffu32 != 0;
    let nan_y = y & 0x7f80_0000u32 == 0x7f80_0000u32 && y & 0x007f_ffffu32 != 0;
    if nan_x || nan_y {
        return 0;
    }
    let mx = (x & 0x7fff_ffffu32) as i128;
    let my = (y & 0x7fff_ffffu32) as i128;
    let rx: i128 = if x >> 31u32 == 1 {
        -mx
    } else {
        mx
    };
    let ry: i128 = if y >> 31u32 == 1 {
        -my
    } else {
        my
    };
    int_compare(rx, ry)
}

proof fn lemma_text_order_from(a: Seq<char>, b: Seq<char>, i: int)
    requires
        0 <= i <= a.len(),
        i <= b.len(),
        forall|k: int| 0 <= k < i ==> a[k] == b[k],
    ensures
        text_order(a, b) == text_order(a.subrange(i, a.len() as int), b.subrange(i, b.len() as int)),
    decreases i,
{
    if i > 0 {
        lemma_text_order_from(a.drop_first(), b.drop_first(), i - 1);
        assert(a.drop_first().subrange(i - 1, a.drop_first().len() as int) =~= a.subrange(
            i,
            a.len() as int,
        ));
        assert(b.drop_first().subrange(i - 1, b.drop_first().len() as int) =~= b.subrange(
            i,
            b.len() as int,
        ));
    } else {
        assert(a.subrange(0, a.len() as int) =~= a);
        assert(b.subrange(0, b.len() as int) =~= b);
    }
}

fn text_compare(a: &String, b: &String) -> (c: i8)
    ensures
        c == text_order(a@, b@),
{
    let av = crate::text::chars_of(a.as_str());
    let bv = crate::text::chars_of(b.as_str());
    let mut i: usize = 0;
    while i < av.len() && i < bv.len()
        invariant
            i <= av@.len(),
            i <= bv@.len(),
            av@ == a@,
            bv@ == b@,
            forall|k: int| 0 <= k < i ==> av@[k] == bv@[k],
        decreases av@.len() - i,
    {
        if av[i] != bv[i] {
            proof {
                lemma_text_order_from(a@, b@, i as int);
                let sa = a@.subrange(i as int, a@.len() as int);
                let sb = b@.subrange(i as int, b@.len() as int);
                assert(sa[0] == av@[i as int]);
                assert(sb[0] == bv@[i as int]);
            }
            if av[i] < bv[i] {
                return -1;
            } else {
                return 1;
            }
        }
        i = i + 1;
    }
    proof {
        lemma_text_order_from(a@, b@, i as int);
    }
    if av.len() == i && bv.len() == i {
        proof {
            assert(a@.subrange(i as int, a@.len() as int).len() == 0);
        }
        0
    } else if av.len() == i {
        -1
    } else {
        1
    }
}

/// Three-way comparison of two values for sorting (see `value_order`).
pub fn compare_values(a: &Value, b: &Value) -> (c: i8)
    ensures
        c == value_order(vview(*a), vview(*b)),
{
    match (a, b) {
        (Value::Null, Value::Null) => 0,
        (Value::Null, _) => 1,
        (_, Value::Null) => -1,
        (Value::Bool(x), Value::Bool(y)) => {
            let xi: i128 = if *x {
                1
            } else {
                0
            };
            let yi: i128 = if *y {
                1
            } else {
                0
            };
            int_compare(xi, yi)
        },
        (Value::Int64(x), Value::Int64(y)) => int_compare(*x as i128, *y as i128),
        (Value::Int32(x), Value::Int32(y)) => int_compare(*x as i128, *y as i128),
        (Value::Int16(x), Value::Int16(y)) => int_compare(*x as i128, *y as i128),
        (Value::Int8(x), Value::Int8(y)) => int_compare(*x as i128, *y as i128),
        (Value::UInt64(x), Value::UInt64(y)) => int_compare(*x as i128, *y as i128),
        (Value::UInt32(x), Value::UInt32(y)) => int_compare(*x as i128, *y as i128),
        (Value::UInt16(x), Value::UInt16(y)) => int_compare(*x as i128, *y as i128),
        (Value::UInt8(x), Value::UInt8(y)) => int_compare(*x as i128, *y as i128),
        (Value::Double(x), Value::Double(y)) => f64_order(*x, *y),
        (Value::Float(x), Value::Float(y)) => f32_order(*x, *y),
        (Value::String(x), Value::String(y)) => text_compare(x, y),
        (Value::Date(x), Value::Date(y)) => int_compare(*x as i128, *y as i128),
        (Value::Timestamp(x), Value::Timestamp(y)) => int_compare(*x as i128, *y as i128),
        _ => 0,
    }
}

proof fn lemma_text_order_antisymmetric(a: Seq<char>, b: Seq<char>)
    ensures
        text_order(a, b) == -text_order(b, a),
    decreases a.len(),
{
    if a.len() > 0 && b.len() > 0 && a[0] == b[0] {
        lemma_text_order_antisymmetric(a.drop_first(), b.drop_first());
    }
}

proof fn lemma_text_order_range(a: Seq<char>, b: Seq<char>)
    ensures
        -1 <= text_order(a, b) <= 1,
    decreases a.len(),
{
    if a.len() > 0 && b.len() > 0 && a[0] == b[0] {
        lemma_text_order_range(a.drop_first(), b.drop_first());
    }
}

/// `value_order` is -1, 0 or 1.
pub proof fn lemma_value_order_range(a: ValueView, b: ValueView)
    ensures
        -1 <= value_order(a, b) <= 1,
{
    match (a, b) {
        (ValueView::String(x), ValueView::String(y)) => {
            lemma_text_order_range(x, y);
        },
        _ => {},
    }
}

/// Swapping the arguments of `value_order` negates it.
pub proof fn lemma_value_order_antisymmetric(a: ValueView, b: ValueView)
    ensures
        value_order(a, b) == -value_order(b, a),
{
    match (a, b) {
        (ValueView::String(x), ValueView::String(y)) => {
            lemma_text_order_antisymmetric(x, y);
        },
        _ => {},
    }
}

/// Three-way comparison of two rows by the sort keys in turn: the first
/// key whose column is below `nf` and whose values differ decides, reversed
/// for a descending key; rows equal on every key compare equal.
pub open spec fn row_order(a: Seq<ValueView>, b: Seq<ValueView>, keys: Seq<(u32, bool)>, nf: int) -> int
    decreases keys.len(),
{
    if keys.len() == 0 {
        0
    } else {
        let col = keys[0].0 as int;
        let asc = keys[0].1;
        if col >= nf {
            row_order(a, b, keys.drop_first(), nf)
        } else {
            let c = value_order(key_of(a, col), key_of(b, col));
            if c != 0 {
                if asc {
                    c
                } else {
                    -c
                }
            } else {
                row_order(a, b, keys.drop_first(), nf)
            }
        }
    }
}

/// Swapping the rows negates `row_order`.
pub proof fn lemma_row_order_antisymmetric(
    a: Seq<ValueView>,
    b: Seq<ValueView>,
    keys: Seq<(u32, bool)>,
    nf: int,
)
    ensures
        row_order(a, b, keys, nf) == -row_order(b, a, keys, nf),
    decreases keys.len(),
{
    if keys.len() > 0 {
        let col = keys[0].0 as int;
        lemma_row_order_antisymmetric(a, b, keys.drop_first(), nf);
        if col < nf {
            lemma_value_order_antisymmetric(key_of(a, col), key_of(b, col));
        }
    }
}

/// Three-way comparison of two rows by the sort keys (see `row_order`).
pub fn compare_rows(a: &Vec<Value>, b: &Vec<Value>, keys: &Vec<(u32, bool)>, nf: usize) -> (c: i8)
    ensures
        c == row_order(rview(a@), rview(b@), keys@, nf as int),
{
    let mut k: usize = 0;
    proof {
        assert(keys@.subrange(0, keys@.len() as int) =~= keys@);
    }
    while k < keys.len()
        invariant
            k <= keys@.len(),
            row_order(rview(a@), rview(b@), keys@, nf as int) == row_order(
                rview(a@),
                rview(b@),
                keys@.subrange(k as int, keys@.len() as int),
                nf as int,
            ),
        decreases keys@.len() - k,
    {
        let ghost rest = keys@.subrange(k as int, keys@.len() as int);
        proof {
            assert(rest[0] == keys@[k as int]);
            assert(rest.drop_first() =~= keys@.subrange(k + 1, keys@.len() as int));
        }
        let col = keys[k].0 as usize;
        let asc = keys[k].1;
        if col < nf {
            let va = if col < a.len() {
                crate::value_codec::copy_value(&a[col])
            } else {
                Value::Null
            };
            let vb = if col < b.len() {
                crate::value_codec::copy_value(&b[col])
            } else {
                Value::Null
            };
            proof {
                assert(vview(va) == key_of(rview(a@), col as int));
                assert(vview(vb) == key_of(rview(b@), col as int));
            }
            let c = compare_values(&va, &vb);
            proof {
                lemma_value_order_range(vview(va), vview(vb));
            }
            if c != 0 {
                if asc {
                    return c;
                } else {
                    return -c;
                }
            }
        }
        k = k + 1;
    }
    0
}

/// Whether `p` lists each of `0..n` exactly once.
pub open spec fn is_permutation(p: Seq<usize>, n: int) -> bool {
    &&& p.len() == n
    &&& forall|i: int| 0 <= i < p.len() ==> (#[trigger] p[i]) < n
    &&& forall|i: int, j: int| 0 <= i < j < p.len() ==> p[i] != p[j]
    &&& forall|v: int| 0 <= v < n ==> #[trigger] listed(p, v)
}

/// Whether `v` occurs in `p`.
pub open spec fn listed(p: Seq<usize>, v: int) -> bool {
    exists|i: int| 0 <= i < p.len() && #[trigger] p[i] == v
}

/// Whether row `x` goes before row `y` in a stable sort: it compares
/// below, or equal and comes first.
pub open spec fn sorts_before(
    rows: Seq<Seq<ValueView>>,
    keys: Seq<(u32, bool)>,
    nf: int,
    x: int,
    y: int,
) -> bool {
    let c = row_order(rows[x], rows[y], keys, nf);
    c < 0 || (c == 0 && x < y)
}

/// Whether the rows at the positions `p` are in stable sorted order.
pub open spec fn stably_sorted(
    p: Seq<usize>,
    rows: Seq<Seq<ValueView>>,
    keys: Seq<(u32, bool)>,
    nf: int,
) -> bool {
    forall|i: int, j: int|
        0 <= i < j < p.len() ==> sorts_before(rows, keys, nf, #[trigger] p[i] as int, #[trigger] p[j] as int)
}

/// Whether `row_order` is transitive on the rows, so that they can be
/// sorted.
pub open spec fn total_preorder(rows: Seq<Seq<ValueView>>, keys: Seq<(u32, bool)>, nf: int) -> bool {
    forall|x: int, y: int, z: int|
        #![trigger row_order(rows[x], rows[y], keys, nf), row_order(rows[y], rows[z], keys, nf)]
        0 <= x < rows.len() && 0 <= y < rows.len() && 0 <= z < rows.len() && row_order(
            rows[x],
            rows[y],
            keys,
            nf,
        ) <= 0 && row_order(rows[y], rows[z], keys, nf) <= 0 ==> row_order(rows[x], rows[z], keys, nf)
            <= 0
}

/// There is at most one stable sorted order of a set of rows: two
/// permutations that both list the rows in stable sorted order are equal.
pub proof fn law_stable_sort_unique(
    p: Seq<usize>,
    q: Seq<usize>,
    rows: Seq<Seq<ValueView>>,
    keys: Seq<(u32, bool)>,
    nf: int,
)
    requires
        is_permutation(p, rows.len() as int),
        is_permutation(q, rows.len() as int),
        stably_sorted(p, rows, keys, nf),
        stably_sorted(q, rows, keys, nf),
    ensures
        p == q,
{
    lemma_sorted_prefix_equal(p, q, rows, keys, nf, rows.len() as int);
    assert(p =~= q);
}

proof fn lemma_sorted_prefix_equal(
    p: Seq<usize>,
    q: Seq<usize>,
    rows: Seq<Seq<ValueView>>,
    keys: Seq<(u32, bool)>,
    nf: int,
    k: int,
)
    requires
        is_permutation(p, rows.len() as int),
        is_permutation(q, rows.len() as int),
        stably_sorted(p, rows, keys, nf),
        stably_sorted(q, rows, keys, nf),
        0 <= k <= rows.len(),
    ensures
        forall|i: int| 0 <= i < k ==> p[i] == q[i],
    decreases k,
{
    if k > 0 {
        lemma_sorted_prefix_equal(p, q, rows, keys, nf, k - 1);
        let i = k - 1;
        let x = p[i];
        let y = q[i];
        if x != y {
            assert(listed(q, x as int));
            assert(listed(p, y as int));
            let j = choose|j: int| 0 <= j < q.len() && #[trigger] q[j] == x as int;
            let j2 = choose|j2: int| 0 <= j2 < p.len() && #[trigger] p[j2] == y as int;
            if j < i {
                assert(p[j] == q[j]);
                assert(false);
            }
            if j2 < i {
                assert(p[j2] == q[j2]);
                assert(false);
            }
            assert(j > i);
            assert(j2 > i);
            assert(sorts_before(rows, keys, nf, q[i] as int, q[j] as int));
            assert(sorts_before(rows, keys, nf, p[i] as int, p[j2] as int));
            lemma_row_order_antisymmetric(rows[x as int], rows[y as int], keys, nf);
            assert(false);
        }
    }
}

proof fn lemma_insert_sorted(
    p: Seq<usize>,
    pos: int,
    i: usize,
    rows: Seq<Seq<ValueView>>,
    keys: Seq<(u32, bool)>,
    nf: int,
)
    requires
        i < rows.len(),
        is_permutation(p, i as int),
        stably_sorted(p, rows, keys, nf),
        total_preorder(rows, keys, nf),
        0 <= pos <= p.len(),
        forall|k: int| 0 <= k < pos ==> row_order(rows[#[trigger] p[k] as int], rows[i as int], keys, nf) <= 0,
        pos < p.len() ==> row_order(rows[p[pos] as int], rows[i as int], keys, nf) > 0,
    ensures
        is_permutation(p.insert(pos, i), i + 1),
        stably_sorted(p.insert(pos, i), rows, keys, nf),
{
    let q = p.insert(pos, i);
    assert forall|a: int, b: int| 0 <= a < b < q.len() implies sorts_before(
        rows,
        keys,
        nf,
        #[trigger] q[a] as int,
        #[trigger] q[b] as int,
    ) by {
        if b < pos {
            assert(q[a] == p[a] && q[b] == p[b]);
        } else if b == pos {
            assert(q[a] == p[a] && q[b] == i);
            assert(p[a] < i);
        } else if a < pos {
            assert(q[a] == p[a] && q[b] == p[b - 1]);
        } else if a == pos {
            assert(q[a] == i && q[b] == p[b - 1]);
            let y = p[b - 1];
            lemma_row_order_antisymmetric(rows[i as int], rows[y as int], keys, nf);
            lemma_row_order_antisymmetric(rows[p[pos] as int], rows[i as int], keys, nf);
            if b - 1 > pos {
                assert(sorts_before(rows, keys, nf, p[pos] as int, p[b - 1] as int));
                if row_order(rows[i as int], rows[y as int], keys, nf) >= 0 {
                    assert(row_order(rows[y as int], rows[i as int], keys, nf) <= 0);
                    assert(row_order(rows[p[pos] as int], rows[y as int], keys, nf) <= 0);
                    assert(row_order(rows[p[pos] as int], rows[i as int], keys, nf) <= 0);
                    assert(false);
                }
            }
            assert(y < i);
        } else {
            assert(q[a] == p[a - 1] && q[b] == p[b - 1]);
        }
    }
    assert forall|v: int| 0 <= v < i + 1 implies #[trigger] listed(q, v) by {
        if v == i {
            assert(q[pos] == i);
        } else {
            assert(listed(p, v));
            let k = choose|k: int| 0 <= k < p.len() && #[trigger] p[k] == v;
            if k < pos {
                assert(q[k] == v);
            } else {
                assert(q[k + 1] == v);
            }
        }
    }
    assert forall|a: int, b: int| 0 <= a < b < q.len() implies q[a] != q[b] by {
        if a == pos {
            assert(q[b] == p[b - 1]);
        } else if b == pos {
            assert(q[a] == p[a]);
        } else {
            let a2 = if a < pos { a } else { a - 1 };
            let b2 = if b < pos { b } else { b - 1 };
            assert(q[a] == p[a2] && q[b] == p[b2]);
        }
    }
}

/// The positions of the rows in stable sorted order.
fn stable_sort(rows: &Vec<Vec<Value>>, keys: &Vec<(u32, bool)>, nf: usize) -> (p: Vec<usize>)
    requires
        total_preorder(rows_view(rows@), keys@, nf as int),
    ensures
        is_permutation(p@, rows@.len() as int),
        stably_sorted(p@, rows_view(rows@), keys@, nf as int),
{
    let ghost rv = rows_view(rows@);
    let mut p: Vec<usize> = Vec::new();
    let mut i: usize = 0;
    while i < rows.len()
        invariant
            i <= rows@.len(),
            rv == rows_view(rows@),
            total_preorder(rv, keys@, nf as int),
            is_permutation(p@, i as int),
            stably_sorted(p@, rv, keys@, nf as int),
        decreases rows@.len() - i,
    {
        let mut pos: usize = 0;
        let mut done = false;
        while !done && pos < p.len()
            invariant
                pos <= p@.len(),
                i < rows@.len(),
                rv == rows_view(rows@),
                is_permutation(p@, i as int),
                forall|k: int|
                    0 <= k < pos ==> row_order(rv[#[trigger] p@[k] as int], rv[i as int], keys@, nf as int)
                        <= 0,
                done ==> pos < p@.len() && row_order(rv[p@[pos as int] as int], rv[i as int], keys@, nf as int) > 0,
            decreases p@.len() - pos, if done { 0int } else { 1int },
        {
            let j = p[pos];
            proof {
                assert(rv[j as int] == rview(rows@[j as int]@));
                assert(rv[i as int] == rview(rows@[i as int]@));
            }
            let c = compare_rows(&rows[j], &rows[i], keys, nf);
            if c > 0 {
                done = true;
            } else {
                pos = pos + 1;
            }
        }
        proof {
            lemma_insert_sorted(p@, pos as int, i, rv, keys@, nf as int);
        }
        p.insert(pos, i);
        i = i + 1;
    }
    p
}

/// Rows in each output chunk of ORDER BY (the last may hold fewer).
pub const ORDER_BY_CHUNK_ROWS: usize = 100;

/// The rows at the positions `p`, in order.
pub open spec fn permuted(rows: Seq<Seq<ValueView>>, p: Seq<usize>) -> Seq<Seq<ValueView>> {
    Seq::new(p.len(), |i: int| rows[p[i] as int])
}

/// The `k`-th run of `ORDER_BY_CHUNK_ROWS` rows of `s`.
pub open spec fn piece(s: Seq<Seq<ValueView>>, k: int) -> Seq<Seq<ValueView>> {
    let lo = ORDER_BY_CHUNK_ROWS * k;
    let hi = if lo + ORDER_BY_CHUNK_ROWS < s.len() {
        lo + ORDER_BY_CHUNK_ROWS
    } else {
        s.len() as int
    };
    s.subrange(lo, hi)
}

/// Whether `out` holds `sorted` in runs of `ORDER_BY_CHUNK_ROWS` rows of
/// `nf` columns (chunks without columns and rows where `nf` is 0).
pub open spec fn holds_pieces(out: Seq<DataChunk>, sorted: Seq<Seq<ValueView>>, nf: int) -> bool {
    &&& out.len() == (sorted.len() + 99) / 100
    &&& forall|k: int|
        0 <= k < out.len() ==> if nf > 0 {
            holds(#[trigger] out[k], piece(sorted, k), nf)
        } else {
            out[k].size == 0 && out[k].fields@.len() == 0
        }
}

impl PhysicalOrderBy {
    /// Sorts the input rows stably by the sort keys (see `row_order`; keys
    /// on columns the first chunk lacks are ignored) and returns them in
    /// chunks of `ORDER_BY_CHUNK_ROWS` rows. Without input chunks the result
    /// is empty; input without rows is passed through.
    pub fn execute(&self, input: Vec<DataChunk>) -> (r: Result<Vec<DataChunk>, String>)
        requires
            input@.len() > 0 ==> uniform_width(input@, input@[0].fields@.len() as int),
            input@.len() > 0 ==> total_preorder(
                all_rows(input@),
                self.sort_keys@,
                input@[0].fields@.len() as int,
            ),
        ensures
            input@.len() == 0 ==> (r matches Ok(out) && out@.len() == 0),
            input@.len() > 0 && all_rows(input@).len() == 0 ==> r == Ok::<Vec<DataChunk>, String>(
                input,
            ),
            input@.len() > 0 && all_rows(input@).len() > 0 ==> {
                let rows = all_rows(input@);
                let nf = input@[0].fields@.len() as int;
                &&& r is Ok
                &&& exists|p: Seq<usize>|
                    is_permutation(p, rows.len() as int) && stably_sorted(p, rows, self.sort_keys@, nf)
                        && holds_pieces(r->Ok_0@, permuted(rows, p), nf)
            },
    {
        if input.len() == 0 {
            return Ok(Vec::new());
        }
        let n = input.len();
        let rows = gather_rows(&input, 0, n);
        proof {
            assert(input@.subrange(0, n as int) =~= input@);
        }
        if rows.len() == 0 {
            return Ok(input);
        }
        let nf = input[0].fields.len();
        let ghost rv = rows_view(rows@);
        let p = stable_sort(&rows, &self.sort_keys, nf);
        let total = rows.len();
        let mut sorted: Vec<Vec<Value>> = Vec::new();
        let mut i: usize = 0;
        while i < total
            invariant
                i <= total,
                total == rows@.len(),
                rv == rows_view(rows@),
                is_permutation(p@, total as int),
                sorted@.len() == i,
                forall|k: int| 0 <= k < i ==> rview((#[trigger] sorted@[k])@) == rv[p@[k] as int],
            decreases total - i,
        {
            let j = p[i];
            let row = crate::physical_operator::copy_row(&rows[j]);
            proof {
                assert(rv[j as int] == rview(rows@[j as int]@));
            }
            sorted.push(row);
            i = i + 1;
        }
        let ghost sv = permuted(rv, p@);
        proof {
            assert(rows_view(sorted@) =~= sv);
            crate::physical_operator::lemma_rows_width(input@, nf as int);
        }
        let mut out: Vec<DataChunk> = Vec::new();
        let count = total / ORDER_BY_CHUNK_ROWS + if total % ORDER_BY_CHUNK_ROWS == 0 {
            0
        } else {
            1
        };
        proof {
            assert(count == (total + 99) / 100) by (nonlinear_arith)
                requires
                    count == total / 100 + if total % 100 == 0 {
                        0int
                    } else {
                        1int
                    },
            ;
        }
        let mut idx: usize = 0;
        while idx < count
            invariant
                count == (total + 99) / 100,
                total == sorted@.len(),
                sv == permuted(rv, p@),
                rows_view(sorted@) == sv,
                sv.len() == total,
                forall|r: int| 0 <= r < rv.len() ==> (#[trigger] rv[r]).len() == nf,
                rv.len() == total,
                is_permutation(p@, total as int),
                idx <= count,
                out@.len() == idx,
                forall|k: int|
                    0 <= k < out@.len() ==> if nf > 0 {
                        holds(#[trigger] out@[k], piece(sv, k), nf as int)
                    } else {
                        out@[k].size == 0 && out@[k].fields@.len() == 0
                    },
            decreases count - idx,
        {
            proof {
                assert(100 * idx < total) by (nonlinear_arith)
                    requires
                        idx < count,
                        count == (total + 99) / 100,
                ;
            }
            let start = ORDER_BY_CHUNK_ROWS * idx;
            let end = if total - start > ORDER_BY_CHUNK_ROWS {
                start + ORDER_BY_CHUNK_ROWS
            } else {
                total
            };
            let mut part: Vec<Vec<Value>> = Vec::new();
            let mut k: usize = start;
            while k < end
                invariant
                    start <= k <= end <= total,
                    total == sorted@.len(),
                    part@.len() == k - start,
                    forall|x: int|
                        0 <= x < part@.len() ==> rview((#[trigger] part@[x])@) == rview(
                            sorted@[start + x]@,
                        ),
                decreases end - k,
            {
                let row = crate::physical_operator::copy_row(&sorted[k]);
                part.push(row);
                k = k + 1;
            }
            proof {
                assert(rows_view(part@) =~= piece(sv, idx as int)) by {
                    assert forall|x: int| 0 <= x < part@.len() implies #[trigger] rows_view(part@)[x]
                        == piece(sv, idx as int)[x] by {
                        assert(rows_view(sorted@)[start + x] == rview(sorted@[start + x]@));
                    }
                }
            }
            if nf > 0 {
                proof {
                    assert forall|x: int| 0 <= x < part@.len() implies (#[trigger] part@[x])@.len()
                        == nf by {
                        assert(rows_view(part@)[x].len() == part@[x]@.len());
                        assert(piece(sv, idx as int)[x] == sv[start + x]);
                        assert(0 <= start + x < total);
                        assert(sv[start + x] == rv[p@[start + x] as int]);
                    }
                }
                let ch = chunk_of_rows(&part, nf);
                out.push(ch);
            } else {
                out.push(DataChunk::new(Vec::new()));
            }
            idx = idx + 1;
        }
        proof {
            assert(holds_pieces(out@, sv, nf as int));
        }
        Ok(out)
    }
}


/// NULL sorts after every other value, and two NULLs tie.
pub proof fn law_nulls_last(v: ValueView)
    ensures
        value_order(ValueView::Null, ValueView::Null) == 0,
        v != ValueView::Null ==> value_order(ValueView::Null, v) == 1 && value_order(v, ValueView::Null) == -1,
{
}

/// Integers of every width, booleans (false first), dates and timestamps
/// are ordered by their numeric value: the smaller comes first, so an
/// ascending key puts it first.
pub proof fn law_numbers_in_numeric_order()
    ensures
        forall|x: i64, y: i64| #[trigger] value_order(ValueView::Int64(x), ValueView::Int64(y)) == (if x < y {
            -1int
        } else if x == y {
            0int
        } else {
            1int
        }),
        forall|x: i32, y: i32| #[trigger] value_order(ValueView::Int32(x), ValueView::Int32(y)) == (if x < y {
            -1int
        } else if x == y {
            0int
        } else {
            1int
        }),
        forall|x: i16, y: i16| #[trigger] value_order(ValueView::Int16(x), ValueView::Int16(y)) == (if x < y {
            -1int
        } else if x == y {
            0int
        } else {
            1int
        }),
        forall|x: i8, y: i8| #[trigger] value_order(ValueView::Int8(x), ValueView::Int8(y)) == (if x < y {
            -1int
        } else if x == y {
            0int
        } else {
            1int
        }),
        forall|x: u64, y: u64| #[trigger] value_order(ValueView::UInt64(x), ValueView::UInt64(y)) == (if x < y {
            -1int
        } else if x == y {
            0int
        } else {
            1int
        }),
        forall|x: u32, y: u32| #[trigger] value_order(ValueView::UInt32(x), ValueView::UInt32(y)) == (if x < y {
            -1int
        } else if x == y {
            0int
        } else {
            1int
        }),
        forall|x: u16, y: u16| #[trigger] value_order(ValueView::UInt16(x), ValueView::UInt16(y)) == (if x < y {
            -1int
        } else if x == y {
            0int
        } else {
            1int
        }),
        forall|x: u8, y: u8| #[trigger] value_order(ValueView::UInt8(x), ValueView::UInt8(y)) == (if x < y {
            -1int
        } else if x == y {
            0int
        } else {
            1int
        }),
        forall|x: i32, y: i32| #[trigger] value_order(ValueView::Date(x), ValueView::Date(y)) == (if x < y {
            -1int
        } else if x == y {
            0int
        } else {
            1int
        }),
        forall|x: i64, y: i64| #[trigger] value_order(ValueView::Timestamp(x), ValueView::Timestamp(y)) == (if x
            < y {
            -1int
        } else if x == y {
            0int
        } else {
            1int
        }),
        value_order(ValueView::Bool(false), ValueView::Bool(true)) == -1,
        value_order(ValueView::Bool(true), ValueView::Bool(false)) == 1,
        forall|b: bool| #[trigger] value_order(ValueView::Bool(b), ValueView::Bool(b)) == 0,
{
}

proof fn lemma_text_order(a: Seq<char>, b: Seq<char>)
    ensures
        text_order(a, b) == -text_order(b, a),
        text_order(a, a) == 0,
        a.len() < b.len() && a == b.subrange(0, a.len() as int) ==> text_order(a, b) == -1,
        forall|i: int|
            0 <= i < a.len() && i < b.len() && a.subrange(0, i) == b.subrange(0, i) && (#[trigger] a[i] as int) < (
            b[i] as int) ==> text_order(a, b) == -1,
    decreases a.len(),
{
    if a.len() > 0 && b.len() > 0 {
        lemma_text_order(a.drop_first(), b.drop_first());
        if a.len() < b.len() && a == b.subrange(0, a.len() as int) {
            assert(a[0] == b[0]);
            assert(a.drop_first() == b.drop_first().subrange(0, a.drop_first().len() as int));
        }
        assert forall|i: int|
            0 <= i < a.len() && i < b.len() && a.subrange(0, i) == b.subrange(0, i) && (#[trigger] a[i] as int) < (
            b[i] as int) implies text_order(a, b) == -1 by {
            if i > 0 {
                assert(a[0] == a.subrange(0, i)[0]);
                assert(b[0] == b.subrange(0, i)[0]);
                assert(a.drop_first().subrange(0, i - 1) =~= a.subrange(0, i).drop_first());
                assert(b.drop_first().subrange(0, i - 1) =~= b.subrange(0, i).drop_first());
                assert(a.drop_first()[i - 1] == a[i]);
                assert(b.drop_first()[i - 1] == b[i]);
                assert(a.drop_first().subrange(0, i - 1) == b.drop_first().subrange(0, i - 1));
                assert((a.drop_first()[i - 1] as int) < (b.drop_first()[i - 1] as int));
                assert(text_order(a.drop_first(), b.drop_first()) == -1);
                assert(a[0] == b[0]);
            } else {
                assert(a[0] != b[0]);
            }
        }
        lemma_text_order(a.drop_first(), a.drop_first());
    } else if a.len() > 0 {
        lemma_text_order(a.drop_first(), a.drop_first());
    }
}

/// Texts are ordered lexicographically by character: a proper prefix comes
/// first, otherwise the first differing character decides; the order is
/// antisymmetric and a text ties with itself.
pub proof fn law_text_in_lexicographic_order(a: Seq<char>, b: Seq<char>)
    ensures
        value_order(ValueView::String(a), ValueView::String(b)) == -value_order(
            ValueView::String(b),
            ValueView::String(a),
        ),
        value_order(ValueView::String(a), ValueView::String(a)) == 0,
        a.len() < b.len() && a == b.subrange(0, a.len() as int) ==> value_order(
            ValueView::String(a),
            ValueView::String(b),
        ) == -1,
        forall|i: int|
            0 <= i < a.len() && i < b.len() && a.subrange(0, i) == b.subrange(0, i) && (#[trigger] a[i] as int) < (
            b[i] as int) ==> value_order(ValueView::String(a), ValueView::String(b)) == -1,
{
    lemma_text_order(a, b);
}

proof fn lemma_f64_bits(x: u64)
    by (bit_vector)
    ensures
        crate::chunk::f64_is_nan(x) == ((x >> 52u64) & 0x7ffu64 == 0x7ffu64 && x & 0xf_ffff_ffff_ffffu64 != 0),
        x < 0x8000_0000_0000_0000u64 ==> (x >> 63u64 == 0 && x & 0x7fff_ffff_ffff_ffffu64 == x),
        x >= 0x8000_0000_0000_0000u64 ==> (x >> 63u64 == 1 && x & 0x7fff_ffff_ffff_ffffu64 == x
            - 0x8000_0000_0000_0000u64),
{
}

proof fn lemma_f32_bits(x: u32)
    by (bit_vector)
    ensures
        crate::chunk::f32_is_nan(x) == ((x >> 23u32) & 0xffu32 == 0xffu32 && x & 0x7f_ffffu32 != 0),
        x < 0x8000_0000u32 ==> (x >> 31u32 == 0 && x & 0x7fff_ffffu32 == x),
        x >= 0x8000_0000u32 ==> (x >> 31u32 == 1 && x & 0x7fff_ffffu32 == x - 0x8000_0000u32),
{
}

/// Doubles, given by their bits, are ordered by the number they stand
/// for: two non-negative ones by their bits, two negative ones the other
/// way round, a negative one before a non-negative one (the two zeros
/// tie), and a NaN ties with anything.
pub proof fn law_doubles_in_numeric_order(x: u64, y: u64)
    ensures
        ((x >> 52u64) & 0x7ffu64 == 0x7ffu64 && x & 0xf_ffff_ffff_ffffu64 != 0) ==> value_order(
            ValueView::Double(x),
            ValueView::Double(y),
        ) == 0,
        !((x >> 52u64) & 0x7ffu64 == 0x7ffu64 && x & 0xf_ffff_ffff_ffffu64 != 0) && !((y >> 52u64) & 0x7ffu64
            == 0x7ffu64 && y & 0xf_ffff_ffff_ffffu64 != 0) ==> value_order(ValueView::Double(x), ValueView::Double(y))
            == (if x < 0x8000_0000_0000_0000u64 && y < 0x8000_0000_0000_0000u64 {
            if x < y {
                -1int
            } else if x == y {
                0int
            } else {
                1int
            }
        } else if x >= 0x8000_0000_0000_0000u64 && y >= 0x8000_0000_0000_0000u64 {
            if y < x {
                -1int
            } else if x == y {
                0int
            } else {
                1int
            }
        } else if x >= 0x8000_0000_0000_0000u64 {
            if x == 0x8000_0000_0000_0000u64 && y == 0 {
                0int
            } else {
                -1int
            }
        } else {
            if y == 0x8000_0000_0000_0000u64 && x == 0 {
                0int
            } else {
                1int
            }
        }),
{
    lemma_f64_bits(x);
    lemma_f64_bits(y);
}

/// Floats, given by their bits, are ordered by the number they stand for,
/// as doubles are.
pub proof fn law_floats_in_numeric_order(x: u32, y: u32)
    ensures
        ((x >> 23u32) & 0xffu32 == 0xffu32 && x & 0x7f_ffffu32 != 0) ==> value_order(
            ValueView::Float(x),
            ValueView::Float(y),
        ) == 0,
        !((x >> 23u32) & 0xffu32 == 0xffu32 && x & 0x7f_ffffu32 != 0) && !((y >> 23u32) & 0xffu32 == 0xffu32 && y
            & 0x7f_ffffu32 != 0) ==> value_order(ValueView::Float(x), ValueView::Float(y)) == (if x < 0x8000_0000u32
            && y < 0x8000_0000u32 {
            if x < y {
                -1int
            } else if x == y {
                0int
            } else {
                1int
            }
        } else if x >= 0x8000_0000u32 && y >= 0x8000_0000u32 {
            if y < x {
                -1int
            } else if x == y {
                0int
            } else {
                1int
            }
        } else if x >= 0x8000_0000u32 {
            if x == 0x8000_0000u32 && y == 0 {
                0int
            } else {
                -1int
            }
        } else {
            if y == 0x8000_0000u32 && x == 0 {
                0int
            } else {
                1int
            }
        }),
{
    lemma_f32_bits(x);
    lemma_f32_bits(y);
}


/// Two non-NULL values of different kinds tie, and so do two values of a
/// kind the order does not compare (blobs, intervals, lists, ...).
pub proof fn law_other_pairs_tie(a: ValueView, b: ValueView)
    requires
        !(a is Null),
        !(b is Null),
        crate::chunk::variant_number(a) != crate::chunk::variant_number(b) || !(a is Bool || a is Int64 || a is Int32
            || a is Int16 || a is Int8 || a is UInt64 || a is UInt32 || a is UInt16 || a is UInt8 || a is Double
            || a is Float || a is String || a is Date || a is Timestamp),
    ensures
        value_order(a, b) == 0,
{
}

} // verus!
