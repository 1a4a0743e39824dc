//! Column compression codecs on raw bytes: constant, boolean bit packing,
//! integer byte packing, float framing, and the per-value codecs used by
//! columns.

use crate::wal::append_bytes;
use vstd::bytes::{spec_u32_from_le_bytes, spec_u32_to_le_bytes, u32_from_le_bytes, u32_to_le_bytes};
use vstd::prelude::*;

verus! {

/// Compression algorithm of a column chunk.
#[derive(Debug, Clone, Copy, PartialEq, Eq, Structural)]
pub enum CompressionType {
    Uncompressed,
    Constant,
    OneValue,
    Boolean,
    IntegerBitpacking,
    StringDictionary,
    Float,
    ListDelta,
}

/// Physical storage type of a value.
#[derive(Debug, Clone, Copy, PartialEq, Eq, Structural)]
pub enum PhysicalTypeID {
    Any,
    Bool,
    Int64,
    Int32,
    Int16,
    Int8,
    UInt64,
    UInt32,
    UInt16,
    UInt8,
    Int128,
    UInt128,
    Double,
    Float,
    Interval,
    InternalId,
    String,
    List,
    Array,
    Struct,
    Pointer,
}

/// A compressed column chunk.
#[derive(Debug, Clone)]
pub struct CompressedChunk {
    pub compression: CompressionType,
    pub data: Vec<u8>,
    pub num_values: usize,
}

// ------------------------------------------------------------------
// Byte-level models
// ------------------------------------------------------------------

/// `n` zero bytes.
pub open spec fn zeros(n: nat) -> Seq<u8> {
    Seq::new(n, |i: int| 0u8)
}

/// Length of a little-endian value without its high zero bytes.
pub open spec fn sig_len(v: Seq<u8>) -> nat
    decreases v.len(),
{
    if v.len() == 0 {
        0
    } else if v.last() != 0 {
        v.len()
    } else {
        sig_len(v.drop_last())
    }
}

/// Bytes kept when packing a value: its significant bytes, at least one.
pub open spec fn used_len(v: Seq<u8>) -> nat {
    if sig_len(v) == 0 {
        1
    } else {
        sig_len(v)
    }
}

/// A packed integer: the number of kept bytes (as a byte), then the kept
/// low-order bytes.
pub open spec fn pack_int(v: Seq<u8>) -> Seq<u8> {
    seq![used_len(v) as u8] + v.subrange(0, used_len(v) as int)
}

/// A packed integer expanded back to `size` bytes: the stored bytes (at
/// most as many as its count byte says, and at most `size`), zero-extended.
pub open spec fn expand_int(data: Seq<u8>, size: nat) -> Seq<u8> {
    if data.len() == 0 {
        zeros(size)
    } else {
        let used = if (data[0] as nat) < size {
            data[0] as nat
        } else {
            size
        };
        let copy = if used < data.len() - 1 {
            used
        } else {
            (data.len() - 1) as nat
        };
        Seq::new(size, |i: int| if i < copy { data[1 + i] } else { 0u8 })
    }
}

/// The `i`-th value of `vs` bytes of `data`.
pub open spec fn value_at(data: Seq<u8>, i: nat, vs: nat) -> Seq<u8> {
    data.subrange((i * vs) as int, (i * vs + vs) as int)
}

/// The packed forms of `k` consecutive values of `vs` bytes, from the
/// `i`-th on.
pub open spec fn pack_from(data: Seq<u8>, i: nat, k: nat, vs: nat) -> Seq<u8>
    decreases k,
{
    if k == 0 {
        Seq::empty()
    } else {
        pack_int(value_at(data, i, vs)) + pack_from(data, i + 1, (k - 1) as nat, vs)
    }
}

/// Number of whole values packed from `len` bytes when `n` values of `vs`
/// bytes are asked for.
pub open spec fn bitpack_count(len: nat, n: nat, vs: nat) -> nat {
    if vs == 0 {
        0
    } else if n < len / vs {
        n
    } else {
        len / vs
    }
}

/// Up to `k` packed values read from `data` at `off`, each expanded to
/// `vs` bytes; reading stops at the end of the data or at a truncated
/// value.
pub open spec fn unpack_from(data: Seq<u8>, off: nat, k: nat, vs: nat) -> Seq<u8>
    decreases k,
{
    if k == 0 || off >= data.len() {
        Seq::empty()
    } else {
        let used = data[off as int] as nat;
        let total = 1 + if used < vs {
            used
        } else {
            vs
        };
        if off + total > data.len() {
            Seq::empty()
        } else {
            expand_int(data.subrange(off as int, (off + total) as int), vs) + unpack_from(
                data,
                off + total,
                (k - 1) as nat,
                vs,
            )
        }
    }
}

/// A batch header: the value size as a byte, then the value count as a
/// little-endian `u32` (both taken modulo their width).
pub open spec fn batch_header(vs: nat, n: nat) -> Seq<u8> {
    seq![vs as u8] + spec_u32_to_le_bytes(n as u32)
}

/// The output of integer byte packing of `n` values of `vs` bytes.
pub open spec fn bitpacked(data: Seq<u8>, n: nat, vs: nat) -> Seq<u8> {
    batch_header(vs, n) + pack_from(data, 0, bitpack_count(data.len(), n, vs), vs)
}

/// The values restored from an integer byte-packed batch.
pub open spec fn unbitpacked(data: Seq<u8>) -> Seq<u8> {
    if data.len() < 5 {
        Seq::empty()
    } else {
        unpack_from(data, 5, spec_u32_from_le_bytes(data.subrange(1, 5)) as nat, data[0] as nat)
    }
}

/// The output of float framing of `n` values of `vs` bytes.
pub open spec fn float_framed(data: Seq<u8>, n: nat, vs: nat) -> Seq<u8> {
    let byte_count = n * vs;
    batch_header(vs, n) + data.subrange(
        0,
        if byte_count < data.len() {
            byte_count as int
        } else {
            data.len() as int
        },
    )
}

/// The bytes restored from a float-framed batch, padded with zeros to
/// `expected` bytes.
pub open spec fn float_unframed(data: Seq<u8>, expected: nat) -> Seq<u8> {
    if data.len() < 5 {
        Seq::empty()
    } else {
        let byte_count = spec_u32_from_le_bytes(data.subrange(1, 5)) as nat * (data[0] as nat);
        let len = if expected < byte_count {
            byte_count
        } else {
            expected
        };
        let copy = if byte_count < data.len() - 5 {
            byte_count
        } else {
            (data.len() - 5) as nat
        };
        Seq::new(len, |i: int| if i < copy { data[5 + i] } else { 0u8 })
    }
}

/// Size of one value in a constant-compressed chunk.
pub open spec fn constant_value_size(len: nat, n: nat) -> nat {
    if len == 0 {
        0
    } else if n == 0 {
        len
    } else {
        len / n
    }
}

/// The output of constant compression: the count, then one value.
pub open spec fn constant_compressed(data: Seq<u8>, n: nat) -> Seq<u8> {
    spec_u32_to_le_bytes(n as u32) + data.subrange(0, constant_value_size(data.len(), n) as int)
}

/// `v` repeated `k` times.
pub open spec fn repeat(v: Seq<u8>, k: nat) -> Seq<u8>
    decreases k,
{
    if k == 0 {
        Seq::empty()
    } else {
        repeat(v, (k - 1) as nat) + v
    }
}

/// The bytes restored from a constant-compressed chunk.
pub open spec fn constant_decompressed(data: Seq<u8>) -> Seq<u8> {
    if data.len() < 4 {
        Seq::empty()
    } else {
        repeat(data.subrange(4, data.len() as int), spec_u32_from_le_bytes(data.subrange(0, 4)) as nat)
    }
}

/// Bit `b` of byte `x`.
pub open spec fn bit(x: u8, b: nat) -> bool {
    x & (1u8 << (b as u8)) != 0
}

/// Boolean packing: bit `i % 8` of byte `i / 8` is set exactly when value
/// `i` (of the first `n`, within the data) is nonzero.
pub open spec fn bools_packed(data: Seq<u8>, n: nat, packed: Seq<u8>) -> bool {
    &&& packed.len() == (n + 7) / 8
    &&& forall|i: int|
        0 <= i < 8 * packed.len() ==> #[trigger] bit(packed[i / 8], (i % 8) as nat) == (i < n && i
            < data.len() && data[i] != 0)
}

/// Boolean unpacking: one byte per value, 1 when its bit is set.
pub open spec fn bools_unpacked(data: Seq<u8>, n: nat) -> Seq<u8> {
    Seq::new(n, |i: int| if bit(data[i / 8], (i % 8) as nat) { 1u8 } else { 0u8 })
}

// ------------------------------------------------------------------
// Lemmas about the models
// ------------------------------------------------------------------

proof fn lemma_sig_len(v: Seq<u8>)
    ensures
        sig_len(v) <= v.len(),
        forall|i: int| sig_len(v) <= i < v.len() ==> v[i] == 0,
        sig_len(v) > 0 ==> v[sig_len(v) - 1] != 0,
    decreases v.len(),
{
    if v.len() > 0 && v.last() == 0 {
        lemma_sig_len(v.drop_last());
        assert forall|i: int| sig_len(v) <= i < v.len() implies v[i] == 0 by {
            if i < v.len() - 1 {
                assert(v.drop_last()[i] == v[i]);
            }
        }
        if sig_len(v) > 0 {
            assert(v.drop_last()[sig_len(v) - 1] == v[sig_len(v) - 1]);
        }
    }
}

proof fn lemma_sig_len_prefix(v: Seq<u8>, k: int)
    requires
        0 < k <= v.len(),
        v[k - 1] == 0,
    ensures
        sig_len(v.subrange(0, k)) == sig_len(v.subrange(0, k - 1)),
{
    assert(v.subrange(0, k).drop_last() =~= v.subrange(0, k - 1));
}

/// Unpacking an integer restores it: packing keeps every nonzero byte.
pub proof fn law_int_roundtrip(v: Seq<u8>)
    requires
        1 <= v.len() <= 255,
    ensures
        expand_int(pack_int(v), v.len()) == v,
{
    lemma_sig_len(v);
    let p = pack_int(v);
    let used = used_len(v);
    assert(p[0] == used as u8);
    assert((used as u8) as nat == used);
    assert(p.len() == 1 + used);
    let e = expand_int(p, v.len());
    assert forall|i: int| 0 <= i < v.len() implies e[i] == v[i] by {
        if i < used {
            assert(e[i] == p[1 + i]);
        }
    }
    assert(e =~= v);
}

proof fn lemma_value_at_len(data: Seq<u8>, i: nat, vs: nat)
    requires
        (i + 1) * vs <= data.len(),
    ensures
        value_at(data, i, vs).len() == vs,
        i * vs + vs <= data.len(),
{
    assert((i + 1) * vs == i * vs + vs) by (nonlinear_arith);
}

proof fn lemma_pack_from_snoc(data: Seq<u8>, i: nat, k: nat, vs: nat)
    ensures
        pack_from(data, i, k + 1, vs) == pack_from(data, i, k, vs) + pack_int(
            value_at(data, i + k, vs),
        ),
    decreases k,
{
    if k == 0 {
        assert(pack_from(data, i + 1, 0, vs) == Seq::<u8>::empty());
        assert(pack_from(data, i, 1, vs) == pack_int(value_at(data, i, vs)) + pack_from(
            data,
            i + 1,
            0,
            vs,
        ));
        assert(pack_from(data, i, 1, vs) =~= pack_int(value_at(data, i, vs)) + Seq::empty());
    } else {
        lemma_pack_from_snoc(data, i + 1, (k - 1) as nat, vs);
        assert(pack_from(data, i, k + 1, vs) == pack_int(value_at(data, i, vs)) + pack_from(
            data,
            i + 1,
            k,
            vs,
        ));
        assert(pack_from(data, i, k, vs) == pack_int(value_at(data, i, vs)) + pack_from(
            data,
            i + 1,
            (k - 1) as nat,
            vs,
        ));
        assert(pack_from(data, i, k + 1, vs) =~= pack_from(data, i, k, vs) + pack_int(
            value_at(data, i + k, vs),
        ));
    }
}

proof fn lemma_unpack_pack(buf: Seq<u8>, off: nat, data: Seq<u8>, i: nat, k: nat, vs: nat)
    requires
        1 <= vs <= 255,
        (i + k) * vs <= data.len(),
        off + pack_from(data, i, k, vs).len() <= buf.len(),
        buf.subrange(off as int, (off + pack_from(data, i, k, vs).len()) as int) == pack_from(
            data,
            i,
            k,
            vs,
        ),
    ensures
        unpack_from(buf, off, k, vs) == data.subrange((i * vs) as int, ((i + k) * vs) as int),
    decreases k,
{
    if k == 0 {
        assert(data.subrange((i * vs) as int, ((i + k) * vs) as int) =~= Seq::empty());
    } else {
        let v = value_at(data, i, vs);
        assert((i + 1) * vs <= (i + k) * vs) by (nonlinear_arith)
            requires
                k >= 1,
        ;
        lemma_value_at_len(data, i, vs);
        lemma_sig_len(v);
        let p = pack_int(v);
        let rest = pack_from(data, i + 1, (k - 1) as nat, vs);
        let whole = pack_from(data, i, k, vs);
        assert(whole == p + rest);
        let used = used_len(v);
        assert(used <= vs);
        assert(buf.subrange(off as int, (off + whole.len()) as int)[0] == buf[off as int]);
        assert(whole[0] == p[0]);
        assert(buf[off as int] == p[0]);
        assert(p[0] as nat == used);
        let total = 1 + used;
        assert forall|j: int| 0 <= j < whole.len() implies buf[off + j] == whole[j] by {
            assert(buf.subrange(off as int, (off + whole.len()) as int)[j] == buf[off + j]);
        }
        assert forall|j: int| 0 <= j < p.len() implies buf[off + j] == p[j] by {
            assert(whole[j] == p[j]);
        }
        assert(buf.subrange(off as int, (off + total) as int) =~= p);
        law_int_roundtrip(v);
        assert forall|j: int| 0 <= j < rest.len() implies buf[off + total + j] == rest[j] by {
            assert(whole[total + j] == rest[j]);
            assert(buf[off + (total + j)] == whole[total + j]);
        }
        assert(buf.subrange((off + total) as int, (off + total + rest.len()) as int) =~= rest);
        lemma_unpack_pack(buf, off + total, data, i + 1, (k - 1) as nat, vs);
        assert((i + 1) * vs == i * vs + vs) by (nonlinear_arith);
        assert(data.subrange((i * vs) as int, ((i + k) * vs) as int) =~= v + data.subrange(
            ((i + 1) * vs) as int,
            ((i + 1 + (k - 1)) * vs) as int,
        ));
    }
}

/// Integer byte packing is undone by unpacking: a batch of `n` values of
/// `vs` bytes (with `vs` and `n` fitting the header) comes back unchanged.
pub proof fn law_bitpacking_roundtrip(data: Seq<u8>, n: nat, vs: nat)
    requires
        1 <= vs <= 255,
        n <= u32::MAX,
        data.len() == n * vs,
    ensures
        unbitpacked(bitpacked(data, n, vs)) == data,
{
    vstd::bytes::lemma_auto_spec_u32_to_from_le_bytes();
    let b = bitpacked(data, n, vs);
    assert(data.len() / vs == n) by (nonlinear_arith)
        requires
            data.len() == n * vs,
            vs >= 1,
    ;
    assert(bitpack_count(data.len(), n, vs) == n);
    let packed = pack_from(data, 0, n, vs);
    assert(b.subrange(1, 5) =~= spec_u32_to_le_bytes(n as u32));
    assert(b[0] == vs as u8);
    assert((n as u32) as nat == n);
    assert(b.subrange(5, (5 + packed.len()) as int) =~= packed);
    assert((0 + n) * vs <= data.len());
    lemma_unpack_pack(b, 5, data, 0, n, vs);
    assert(data.subrange(0, (n * vs) as int) =~= data);
}

/// Float framing is undone: a batch of `n` values of `vs` bytes comes back
/// unchanged when at most its size is expected.
pub proof fn law_float_roundtrip(data: Seq<u8>, n: nat, vs: nat, expected: nat)
    requires
        vs <= 255,
        n <= u32::MAX,
        data.len() == n * vs,
        expected <= data.len(),
    ensures
        float_unframed(float_framed(data, n, vs), expected) == data,
{
    vstd::bytes::lemma_auto_spec_u32_to_from_le_bytes();
    let f = float_framed(data, n, vs);
    assert(f.subrange(1, 5) =~= spec_u32_to_le_bytes(n as u32));
    assert((n as u32) as nat == n);
    assert(f[0] == vs as u8);
    let u = float_unframed(f, expected);
    assert(u =~= data);
}

proof fn lemma_repeat_len(v: Seq<u8>, k: nat)
    ensures
        repeat(v, k).len() == k * v.len(),
    decreases k,
{
    if k > 0 {
        let k1 = (k - 1) as nat;
        lemma_repeat_len(v, k1);
        assert(repeat(v, k) == repeat(v, k1) + v);
        assert(k1 * v.len() + v.len() == k * v.len()) by (nonlinear_arith)
            requires
                k1 + 1 == k,
        ;
    } else {
        assert(k * v.len() == 0) by (nonlinear_arith)
            requires
                k == 0,
        ;
    }
}

/// Constant compression is undone for data made of `n` copies of one value.
pub proof fn law_constant_roundtrip(v: Seq<u8>, n: nat)
    requires
        1 <= n <= u32::MAX,
    ensures
        constant_decompressed(constant_compressed(repeat(v, n), n)) == repeat(v, n),
{
    vstd::bytes::lemma_auto_spec_u32_to_from_le_bytes();
    let data = repeat(v, n);
    lemma_repeat_len(v, n);
    assert((n * v.len()) / n == v.len()) by (nonlinear_arith)
        requires
            n >= 1,
    ;
    let c = constant_compressed(data, n);
    assert(c.subrange(0, 4) =~= spec_u32_to_le_bytes(n as u32));
    assert((n as u32) as nat == n);
    if data.len() == 0 {
        assert(v.len() == 0) by (nonlinear_arith)
            requires
                n * v.len() == 0,
                n >= 1,
        ;
        assert(c.subrange(4, c.len() as int) =~= v);
    } else {
        lemma_repeat_prefix(v, n);
        assert(c.subrange(4, c.len() as int) =~= v);
    }
}

proof fn lemma_repeat_prefix(v: Seq<u8>, n: nat)
    requires
        n >= 1,
    ensures
        repeat(v, n).subrange(0, v.len() as int) == v,
    decreases n,
{
    lemma_repeat_len(v, (n - 1) as nat);
    if n == 1 {
        assert(repeat(v, 0) =~= Seq::<u8>::empty());
        assert(repeat(v, 1) =~= v);
    } else {
        lemma_repeat_prefix(v, (n - 1) as nat);
        lemma_repeat_len(v, (n - 2) as nat);
        assert((n - 1) * v.len() >= v.len()) by (nonlinear_arith)
            requires
                n >= 2,
        ;
        assert(repeat(v, n).subrange(0, v.len() as int) =~= repeat(v, (n - 1) as nat).subrange(
            0,
            v.len() as int,
        ));
    }
}

proof fn lemma_bit_set(x: u8, b: u8, c: u8)
    by (bit_vector)
    requires
        b < 8,
        c < 8,
    ensures
        ((x | (1u8 << b)) & (1u8 << c) != 0) == (b == c || x & (1u8 << c) != 0),
{
}

proof fn lemma_bit_zero(c: u8)
    by (bit_vector)
    requires
        c < 8,
    ensures
        0u8 & (1u8 << c) == 0,
{
}

/// Boolean packing is undone up to normalisation: each of the first `n`
/// values comes back as 1 when it was nonzero and 0 otherwise.
pub proof fn law_boolean_roundtrip(data: Seq<u8>, n: nat, packed: Seq<u8>)
    requires
        bools_packed(data, n, packed),
        n <= data.len(),
    ensures
        bools_unpacked(packed, n) == Seq::new(n, |i: int| if data[i] != 0 { 1u8 } else { 0u8 }),
{
    let u = bools_unpacked(packed, n);
    assert forall|i: int| 0 <= i < n implies u[i] == (if data[i] != 0 { 1u8 } else { 0u8 }) by {
        assert(i < 8 * packed.len()) by (nonlinear_arith)
            requires
                packed.len() == (n + 7) / 8,
                0 <= i < n,
        ;
        assert(bit(packed[i / 8], (i % 8) as nat) == (i < n && i < data.len() && data[i] != 0));
    }
    assert(u =~= Seq::new(n, |i: int| if data[i] != 0 { 1u8 } else { 0u8 }));
}

// ------------------------------------------------------------------
// Integer byte packing
// ------------------------------------------------------------------

/// Pack one little-endian integer: its significant bytes (at least one),
/// after a byte holding their number.
pub fn compress_integer_impl(value_bytes: &[u8]) -> (out: Vec<u8>)
    requires
        value_bytes@.len() >= 1,
    ensures
        out@ == pack_int(value_bytes@),
{
    let n = value_bytes.len();
    let mut significant: usize = n;
    proof {
        assert(value_bytes@.subrange(0, n as int) =~= value_bytes@);
    }
    while significant > 0 && value_bytes[significant - 1] == 0
        invariant
            significant <= n,
            n == value_bytes@.len(),
            sig_len(value_bytes@) == sig_len(value_bytes@.subrange(0, significant as int)),
        decreases significant,
    {
        proof {
            lemma_sig_len_prefix(value_bytes@, significant as int);
        }
        significant = significant - 1;
    }
    proof {
        if significant > 0 {
            assert(value_bytes@.subrange(0, significant as int).last() != 0);
        }
    }
    let used = if significant == 0 {
        1
    } else {
        significant
    };
    let mut out: Vec<u8> = Vec::new();
    out.push(used as u8);
    append_bytes(&mut out, &value_bytes[0..used]);
    proof {
        assert(out@ =~= pack_int(value_bytes@));
    }
    out
}

/// Expand a packed integer to `original_size` bytes: the stored bytes
/// (as many as its count byte says, within what is there and within
/// `original_size`), zero-extended.
pub fn decompress_integer_impl(data: &[u8], original_size: usize) -> (out: Vec<u8>)
    ensures
        out@ == expand_int(data@, original_size as nat),
{
    if data.len() == 0 {
        let out = vec![0u8; original_size];
        proof {
            assert(out@ =~= zeros(original_size as nat));
        }
        return out;
    }
    let stored = data[0] as usize;
    let used = if stored < original_size {
        stored
    } else {
        original_size
    };
    let mut out = vec![0u8; original_size];
    let avail = data.len() - 1;
    let copy = if used < avail {
        used
    } else {
        avail
    };
    let mut i: usize = 0;
    while i < copy
        invariant
            i <= copy,
            copy <= original_size,
            copy < data@.len(),
            out@.len() == original_size,
            forall|j: int| 0 <= j < original_size ==> #[trigger] out@[j] == if j < i {
                data@[1 + j]
            } else {
                0u8
            },
        decreases copy - i,
    {
        out.set(i, data[1 + i]);
        i = i + 1;
    }
    proof {
        assert(out@ =~= expand_int(data@, original_size as nat));
    }
    out
}

/// Pack a batch of `num_values` integers of `value_size` bytes: a header
/// (value size, count), then each whole value packed.
pub fn compress_integer_bitpacking(data: &[u8], num_values: usize, value_size: usize) -> (c:
    CompressedChunk)
    requires
        num_values > 0 ==> value_size > 0,
    ensures
        c.compression == CompressionType::IntegerBitpacking,
        c.num_values == num_values,
        c.data@ == bitpacked(data@, num_values as nat, value_size as nat),
{
    let mut compressed: Vec<u8> = Vec::new();
    compressed.push(value_size as u8);
    let header = u32_to_le_bytes(num_values as u32);
    append_bytes(&mut compressed, header.as_slice());
    let ghost head = compressed@;
    proof {
        assert(head =~= batch_header(value_size as nat, num_values as nat));
    }
    let mut offset: usize = 0;
    let mut k: usize = 0;
    while k < num_values
        invariant_except_break
            k <= num_values,
            offset == k * value_size,
            offset <= data@.len(),
            num_values > 0 ==> value_size > 0,
            compressed@ == head + pack_from(data@, 0, k as nat, value_size as nat),
            k <= bitpack_count(data@.len(), num_values as nat, value_size as nat),
        ensures
            compressed@ == head + pack_from(
                data@,
                0,
                bitpack_count(data@.len(), num_values as nat, value_size as nat),
                value_size as nat,
            ),
        decreases num_values - k,
    {
        if value_size > data.len() - offset {
            proof {
                assert(data@.len() / (value_size as nat) == k) by (nonlinear_arith)
                    requires
                        offset == k * value_size,
                        offset <= data@.len(),
                        offset + value_size > data@.len(),
                        value_size > 0,
                ;
            }
            break;
        }
        proof {
            assert(k + 1 <= data@.len() / (value_size as nat)) by (nonlinear_arith)
                requires
                    offset == k * value_size,
                    offset + value_size <= data@.len(),
                    value_size > 0,
            ;
            assert((k + 1) * value_size == offset + value_size) by (nonlinear_arith)
                requires
                    offset == k * value_size,
            ;
            lemma_pack_from_snoc(data@, 0, k as nat, value_size as nat);
        }
        let packed = compress_integer_impl(&data[offset..offset + value_size]);
        append_bytes(&mut compressed, packed.as_slice());
        offset = offset + value_size;
        k = k + 1;
        proof {
            assert(compressed@ =~= head + pack_from(data@, 0, k as nat, value_size as nat));
        }
    }
    CompressedChunk { compression: CompressionType::IntegerBitpacking, data: compressed, num_values }
}

/// Restore a batch packed by `compress_integer_bitpacking` (empty when the
/// header is missing; reading stops at a truncated value).
pub fn decompress_integer_bitpacking(data: &[u8], expected_size: usize) -> (out: Vec<u8>)
    ensures
        out@ == unbitpacked(data@),
{
    if data.len() < 5 {
        return Vec::new();
    }
    let value_size = data[0] as usize;
    let num_values = u32_from_le_bytes(&data[1..5]) as usize;
    let mut result: Vec<u8> = Vec::new();
    let mut offset: usize = 5;
    let mut k: usize = 0;
    let ghost total = unpack_from(data@, 5, num_values as nat, value_size as nat);
    while k < num_values
        invariant_except_break
            k <= num_values,
            5 <= offset,
            result@ + unpack_from(data@, offset as nat, (num_values - k) as nat, value_size as nat)
                == total,
        ensures
            result@ == total,
        decreases num_values - k,
    {
        if offset >= data.len() {
            proof {
                assert(result@ =~= total);
            }
            break;
        }
        let used = data[offset] as usize;
        let len = if used < value_size {
            used
        } else {
            value_size
        };
        if len >= data.len() - offset {
            proof {
                assert(result@ =~= total);
            }
            break;
        }
        let expanded = decompress_integer_impl(&data[offset..offset + 1 + len], value_size);
        let ghost before = result@;
        append_bytes(&mut result, expanded.as_slice());
        proof {
            assert(data@.subrange(offset as int, offset + 1 + len) == data@.subrange(
                offset as int,
                (offset + 1 + len) as int,
            ));
            assert(before + unpack_from(data@, offset as nat, (num_values - k) as nat, value_size as nat)
                =~= result@ + unpack_from(
                data@,
                (offset + 1 + len) as nat,
                (num_values - k - 1) as nat,
                value_size as nat,
            ));
        }
        offset = offset + 1 + len;
        k = k + 1;
    }
    proof {
        if k == num_values {
            assert(unpack_from(data@, offset as nat, 0, value_size as nat) =~= Seq::<u8>::empty());
            assert(result@ =~= total);
        }
    }
    result
}

// ------------------------------------------------------------------
// Float framing
// ------------------------------------------------------------------

/// Frame a batch of `num_values` floats of `value_size` bytes: a header
/// (value size, count), then the raw bytes of the whole batch (as far as
/// the data goes).
pub fn compress_float(data: &[u8], num_values: usize, value_size: usize) -> (c: CompressedChunk)
    requires
        num_values * value_size <= usize::MAX,
    ensures
        c.compression == CompressionType::Float,
        c.num_values == num_values,
        c.data@ == float_framed(data@, num_values as nat, value_size as nat),
{
    let mut compressed: Vec<u8> = Vec::new();
    compressed.push(value_size as u8);
    let header = u32_to_le_bytes(num_values as u32);
    append_bytes(&mut compressed, header.as_slice());
    let byte_count = num_values * value_size;
    let end = if byte_count < data.len() {
        byte_count
    } else {
        data.len()
    };
    append_bytes(&mut compressed, &data[0..end]);
    proof {
        assert(compressed@ =~= float_framed(data@, num_values as nat, value_size as nat));
    }
    CompressedChunk { compression: CompressionType::Float, data: compressed, num_values }
}

/// Restore a framed float batch, zero-padded to at least `expected_size`
/// bytes (empty when the header is missing).
pub fn decompress_float(data: &[u8], expected_size: usize) -> (out: Vec<u8>)
    requires
        data@.len() >= 5 ==> spec_u32_from_le_bytes(data@.subrange(1, 5)) as nat * (data@[0] as nat)
            <= usize::MAX,
    ensures
        out@ == float_unframed(data@, expected_size as nat),
{
    if data.len() < 5 {
        return Vec::new();
    }
    let value_size = data[0] as usize;
    let num_values = u32_from_le_bytes(&data[1..5]) as usize;
    let byte_count = num_values * value_size;
    let expected = if expected_size < byte_count {
        byte_count
    } else {
        expected_size
    };
    let mut result = vec![0u8; expected];
    let avail = data.len() - 5;
    let copy = if byte_count < avail {
        byte_count
    } else {
        avail
    };
    let mut i: usize = 0;
    while i < copy
        invariant
            i <= copy,
            copy <= expected,
            copy + 5 <= data.len(),
            result@.len() == expected,
            forall|j: int| 0 <= j < expected ==> #[trigger] result@[j] == if j < i {
                data@[5 + j]
            } else {
                0u8
            },
        decreases copy - i,
    {
        result.set(i, data[5 + i]);
        i = i + 1;
    }
    proof {
        assert(result@ =~= float_unframed(data@, expected_size as nat));
    }
    result
}

// ------------------------------------------------------------------
// Constant and boolean compression
// ------------------------------------------------------------------

/// Constant compression: the count, then the first value (of
/// `len / num_values` bytes).
pub fn compress_constant(data: &[u8], num_values: usize) -> (c: CompressedChunk)
    ensures
        c.compression == CompressionType::Constant,
        c.num_values == num_values,
        c.data@ == constant_compressed(data@, num_values as nat),
{
    let val_size = if data.len() == 0 {
        0
    } else if num_values == 0 {
        data.len()
    } else {
        data.len() / num_values
    };
    proof {
        if data.len() > 0 && num_values > 0 {
            assert(data.len() / num_values <= data.len()) by (nonlinear_arith)
                requires
                    num_values > 0,
            ;
        }
    }
    let mut compressed: Vec<u8> = Vec::new();
    let header = u32_to_le_bytes(num_values as u32);
    append_bytes(&mut compressed, header.as_slice());
    append_bytes(&mut compressed, &data[0..val_size]);
    proof {
        assert(compressed@ =~= constant_compressed(data@, num_values as nat));
    }
    CompressedChunk { compression: CompressionType::Constant, data: compressed, num_values }
}

/// Restore a constant-compressed chunk: the stored value repeated as many
/// times as the count says (empty when the count is missing).
pub fn decompress_constant(data: &[u8], expected_size: usize) -> (out: Vec<u8>)
    ensures
        out@ == constant_decompressed(data@),
{
    if data.len() < 4 {
        return Vec::new();
    }
    let num_vals = u32_from_le_bytes(&data[0..4]) as usize;
    let val_bytes = &data[4..data.len()];
    let mut result: Vec<u8> = Vec::new();
    let mut k: usize = 0;
    while k < num_vals
        invariant
            k <= num_vals,
            result@ == repeat(val_bytes@, k as nat),
        decreases num_vals - k,
    {
        append_bytes(&mut result, val_bytes);
        k = k + 1;
    }
    result
}

/// Pack `num_values` booleans (one byte each, nonzero for true) eight to a
/// byte, low bit first.
pub fn compress_boolean(data: &[u8], num_values: usize) -> (c: CompressedChunk)
    ensures
        c.compression == CompressionType::Boolean,
        c.num_values == num_values,
        bools_packed(data@, num_values as nat, c.data@),
{
    let packed_len = num_values / 8 + if num_values % 8 == 0 {
        0
    } else {
        1
    };
    let mut packed = vec![0u8; packed_len];
    let limit = if num_values < data.len() {
        num_values
    } else {
        data.len()
    };
    let mut i: usize = 0;
    proof {
        assert forall|j: int| 0 <= j < 8 * packed_len implies #[trigger] bit(
            packed@[j / 8],
            (j % 8) as nat,
        ) == (j < 0 && data@[j] != 0) by {
            lemma_bit_zero(((j % 8) as nat) as u8);
        }
    }
    while i < limit
        invariant
            i <= limit,
            limit <= num_values,
            limit <= data@.len(),
            packed_len == (num_values + 7) / 8,
            packed@.len() == packed_len,
            forall|j: int|
                0 <= j < 8 * packed_len ==> #[trigger] bit(packed@[j / 8], (j % 8) as nat) == (j < i
                    && data@[j] != 0),
        decreases limit - i,
    {
        if data[i] != 0 {
            let byte_idx = i / 8;
            let b = (i % 8) as u8;
            let old_byte = packed[byte_idx];
            let ghost before = packed@;
            packed.set(byte_idx, old_byte | (1u8 << b));
            proof {
                assert forall|j: int| 0 <= j < 8 * packed_len implies #[trigger] bit(
                    packed@[j / 8],
                    (j % 8) as nat,
                ) == (j < i + 1 && data@[j] != 0) by {
                    if j / 8 == byte_idx as int {
                        let c = ((j % 8) as nat) as u8;
                        lemma_bit_set(old_byte, b, c);
                        assert(packed@[j / 8] == old_byte | (1u8 << b));
                        assert(before[j / 8] == old_byte);
                        assert(bit(before[j / 8], (j % 8) as nat) == (j < i && data@[j] != 0));
                        assert((b == c) == (j == i as int));
                    } else {
                        assert(packed@[j / 8] == before[j / 8]);
                        assert(j != i as int);
                    }
                }
            }
        } else {
            proof {
                assert forall|j: int| 0 <= j < 8 * packed_len implies #[trigger] bit(
                    packed@[j / 8],
                    (j % 8) as nat,
                ) == (j < i + 1 && data@[j] != 0) by {
                    if j == i as int {
                    }
                }
            }
        }
        i = i + 1;
    }
    proof {
        assert forall|j: int| 0 <= j < 8 * packed@.len() implies #[trigger] bit(
            packed@[j / 8],
            (j % 8) as nat,
        ) == (j < num_values && j < data@.len() && data@[j] != 0) by {}
    }
    CompressedChunk { compression: CompressionType::Boolean, data: packed, num_values }
}

/// Unpack `num_values` booleans packed eight to a byte: 1 for a set bit,
/// 0 for a clear one.
pub fn decompress_boolean(data: &[u8], num_values: usize) -> (out: Vec<u8>)
    requires
        num_values <= 8 * data@.len(),
    ensures
        out@ == bools_unpacked(data@, num_values as nat),
{
    let mut result = vec![0u8; num_values];
    let mut i: usize = 0;
    while i < num_values
        invariant
            i <= num_values,
            num_values <= 8 * data@.len(),
            result@.len() == num_values,
            forall|j: int| 0 <= j < i ==> #[trigger] result@[j] == bools_unpacked(data@, num_values as nat)[j],
        decreases num_values - i,
    {
        let byte = data[i / 8];
        let b = (i % 8) as u8;
        let v: u8 = if byte & (1u8 << b) != 0 {
            1
        } else {
            0
        };
        result.set(i, v);
        i = i + 1;
    }
    proof {
        assert(result@ =~= bools_unpacked(data@, num_values as nat));
    }
    result
}

// ------------------------------------------------------------------
// Chunk-level codecs
// ------------------------------------------------------------------

/// Size of one value when `num_values` values share `len` bytes (`dflt`
/// when there are no values).
pub open spec fn value_size_of(len: nat, num_values: nat, dflt: nat) -> nat {
    if num_values == 0 {
        dflt
    } else {
        len / num_values
    }
}

/// Algorithm recorded in the chunk produced for `compression`.
pub open spec fn chunk_compression(compression: CompressionType) -> CompressionType {
    match compression {
        CompressionType::ListDelta => CompressionType::IntegerBitpacking,
        _ => compression,
    }
}

/// Bytes of the chunk produced by `compress` (boolean packing is described
/// by `bools_packed` instead).
pub open spec fn compressed_data(compression: CompressionType, data: Seq<u8>, n: nat) -> Seq<u8> {
    match compression {
        CompressionType::Constant => constant_compressed(data, n),
        CompressionType::IntegerBitpacking | CompressionType::ListDelta => bitpacked(
            data,
            n,
            value_size_of(data.len(), n, 8),
        ),
        CompressionType::Float => float_framed(data, n, value_size_of(data.len(), n, 4)),
        _ => data,
    }
}

/// Bytes restored by `decompress` from a chunk of the given algorithm.
pub open spec fn decompressed_data(compression: CompressionType, data: Seq<u8>, expected: nat) -> Seq<
    u8,
> {
    match compression {
        CompressionType::Constant => constant_decompressed(data),
        CompressionType::Boolean => bools_unpacked(data, expected),
        CompressionType::IntegerBitpacking => unbitpacked(data),
        CompressionType::Float => float_unframed(data, expected),
        _ => data,
    }
}

/// When `decompress` can run on a chunk without failing: boolean chunks
/// hold enough bytes and float headers describe a size that fits memory.
pub open spec fn decompressible(compression: CompressionType, data: Seq<u8>, expected: nat) -> bool {
    &&& compression == CompressionType::Boolean ==> expected <= 8 * data.len()
    &&& compression == CompressionType::Float && data.len() >= 5 ==> spec_u32_from_le_bytes(
        data.subrange(1, 5),
    ) as nat * (data[0] as nat) <= usize::MAX
}

/// Compress `num_values` values held in `data` with `compression`.
pub fn compress(compression: CompressionType, data: &[u8], num_values: usize) -> (c: CompressedChunk)
    requires
        (compression == CompressionType::IntegerBitpacking || compression
            == CompressionType::ListDelta) && num_values > 0 ==> data@.len() >= num_values,
    ensures
        c.compression == chunk_compression(compression),
        c.num_values == num_values,
        compression == CompressionType::Boolean ==> bools_packed(data@, num_values as nat, c.data@),
        compression != CompressionType::Boolean ==> c.data@ == compressed_data(
            compression,
            data@,
            num_values as nat,
        ),
{
    match compression {
        CompressionType::Constant => compress_constant(data, num_values),
        CompressionType::Boolean => compress_boolean(data, num_values),
        CompressionType::IntegerBitpacking | CompressionType::ListDelta => {
            let value_size = if num_values == 0 {
                8
            } else {
                data.len() / num_values
            };
            proof {
                if num_values > 0 {
                    assert(value_size > 0) by (nonlinear_arith)
                        requires
                            value_size == data@.len() / (num_values as nat),
                            data@.len() >= num_values,
                            num_values > 0,
                    ;
                }
            }
            compress_integer_bitpacking(data, num_values, value_size)
        },
        CompressionType::Float => {
            let value_size = if num_values == 0 {
                4
            } else {
                data.len() / num_values
            };
            proof {
                if num_values > 0 {
                    assert(num_values * value_size <= data@.len()) by (nonlinear_arith)
                        requires
                            value_size == data@.len() / (num_values as nat),
                            num_values > 0,
                    ;
                }
            }
            compress_float(data, num_values, value_size)
        },
        _ => {
            let mut copy: Vec<u8> = Vec::new();
            append_bytes(&mut copy, data);
            proof {
                assert(copy@ =~= data@);
            }
            CompressedChunk { compression, data: copy, num_values }
        },
    }
}

/// Decompress a chunk back to raw bytes (`expected_size` is the number of
/// booleans for boolean chunks and the minimum size of float chunks).
pub fn decompress(chunk: &CompressedChunk, expected_size: usize) -> (out: Vec<u8>)
    requires
        decompressible(chunk.compression, chunk.data@, expected_size as nat),
    ensures
        out@ == decompressed_data(chunk.compression, chunk.data@, expected_size as nat),
{
    match chunk.compression {
        CompressionType::Constant => decompress_constant(chunk.data.as_slice(), expected_size),
        CompressionType::Boolean => decompress_boolean(chunk.data.as_slice(), expected_size),
        CompressionType::IntegerBitpacking => decompress_integer_bitpacking(
            chunk.data.as_slice(),
            expected_size,
        ),
        CompressionType::Float => decompress_float(chunk.data.as_slice(), expected_size),
        _ => {
            let mut copy: Vec<u8> = Vec::new();
            append_bytes(&mut copy, chunk.data.as_slice());
            proof {
                assert(copy@ =~= chunk.data@);
            }
            copy
        },
    }
}

// ------------------------------------------------------------------
// Per-value codecs
// ------------------------------------------------------------------

/// Whether the per-value codec of `compression` applies to values of
/// `value_size` bytes (otherwise values pass through unchanged).
pub open spec fn packs_values(compression: CompressionType, value_size: nat) -> bool {
    (compression == CompressionType::IntegerBitpacking || compression == CompressionType::Float)
        && 0 < value_size <= 8
}

/// A serialized value `[tag][payload]` compressed: integers keep the tag
/// and pack the payload, floats keep the tag and frame the payload by its
/// length (as a byte), other values pass through.
pub open spec fn value_compressed(compression: CompressionType, raw: Seq<u8>, value_size: nat) -> Seq<
    u8,
> {
    if raw.len() == 0 {
        Seq::empty()
    } else if packs_values(compression, value_size) && compression
        == CompressionType::IntegerBitpacking {
        seq![raw[0]] + pack_int(raw.subrange(1, raw.len() as int))
    } else if packs_values(compression, value_size) {
        seq![raw[0], (raw.len() - 1) as u8] + raw.subrange(1, raw.len() as int)
    } else {
        raw
    }
}

/// A compressed value restored: integers expanded to `value_size` bytes
/// after the tag, framed floats unframed (within what is stored), other
/// values returned unchanged.
pub open spec fn value_decompressed(compression: CompressionType, c: Seq<u8>, value_size: nat) -> Seq<
    u8,
> {
    if c.len() == 0 {
        Seq::empty()
    } else if packs_values(compression, value_size) && compression
        == CompressionType::IntegerBitpacking {
        seq![c[0]] + expand_int(c.subrange(1, c.len() as int), value_size)
    } else if packs_values(compression, value_size) {
        if c.len() == 1 {
            c
        } else {
            let len = if (c[1] as nat) < c.len() - 2 {
                c[1] as nat
            } else {
                (c.len() - 2) as nat
            };
            seq![c[0]] + c.subrange(2, (2 + len) as int)
        }
    } else {
        c
    }
}

/// Compress one serialized value `[tag][payload]`.
pub fn compress_serialized_value(compression: CompressionType, raw: &[u8], value_size: usize) -> (out:
    Vec<u8>)
    requires
        compression == CompressionType::IntegerBitpacking && 0 < value_size <= 8 && raw@.len() > 0
            ==> raw@.len() >= 2,
    ensures
        out@ == value_compressed(compression, raw@, value_size as nat),
{
    if raw.len() == 0 {
        return Vec::new();
    }
    let tag = raw[0];
    let payload = &raw[1..raw.len()];
    let mut out: Vec<u8> = Vec::new();
    match compression {
        CompressionType::IntegerBitpacking if value_size > 0 && value_size <= 8 => {
            let packed = compress_integer_impl(payload);
            out.push(tag);
            append_bytes(&mut out, packed.as_slice());
        },
        CompressionType::Float if value_size > 0 && value_size <= 8 => {
            out.push(tag);
            out.push(payload.len() as u8);
            append_bytes(&mut out, payload);
        },
        _ => {
            append_bytes(&mut out, raw);
        },
    }
    proof {
        assert(out@ =~= value_compressed(compression, raw@, value_size as nat));
    }
    out
}

/// Restore one value compressed by `compress_serialized_value`.
pub fn decompress_serialized_value(compression: CompressionType, compressed: &[u8], value_size: usize) -> (out:
    Vec<u8>)
    ensures
        out@ == value_decompressed(compression, compressed@, value_size as nat),
{
    if compressed.len() == 0 {
        return Vec::new();
    }
    let tag = compressed[0];
    let stored = &compressed[1..compressed.len()];
    let mut out: Vec<u8> = Vec::new();
    match compression {
        CompressionType::IntegerBitpacking if value_size > 0 && value_size <= 8 => {
            let expanded = decompress_integer_impl(stored, value_size);
            out.push(tag);
            append_bytes(&mut out, expanded.as_slice());
        },
        CompressionType::Float if value_size > 0 && value_size <= 8 => {
            if stored.len() == 0 {
                append_bytes(&mut out, compressed);
            } else {
                let stated = stored[0] as usize;
                let len = if stated < stored.len() - 1 {
                    stated
                } else {
                    stored.len() - 1
                };
                out.push(tag);
                append_bytes(&mut out, &stored[1..1 + len]);
            }
        },
        _ => {
            append_bytes(&mut out, compressed);
        },
    }
    proof {
        assert(out@ =~= value_decompressed(compression, compressed@, value_size as nat));
    }
    out
}

/// Byte size of a serialized fixed-size value of the given physical type;
/// 0 for variable-length types.
pub fn serialized_value_size(physical_type: PhysicalTypeID) -> (n: usize)
    ensures
        n == match physical_type {
            PhysicalTypeID::Int64 | PhysicalTypeID::UInt64 | PhysicalTypeID::Double => 8usize,
            PhysicalTypeID::Int32 | PhysicalTypeID::UInt32 | PhysicalTypeID::Float => 4usize,
            PhysicalTypeID::Int16 | PhysicalTypeID::UInt16 => 2usize,
            PhysicalTypeID::Int8 | PhysicalTypeID::UInt8 | PhysicalTypeID::Bool => 1usize,
            PhysicalTypeID::Interval => 16usize,
            _ => 0usize,
        },
{
    match physical_type {
        PhysicalTypeID::Int64 | PhysicalTypeID::UInt64 | PhysicalTypeID::Double => 8,
        PhysicalTypeID::Int32 | PhysicalTypeID::UInt32 | PhysicalTypeID::Float => 4,
        PhysicalTypeID::Int16 | PhysicalTypeID::UInt16 => 2,
        PhysicalTypeID::Int8 | PhysicalTypeID::UInt8 | PhysicalTypeID::Bool => 1,
        PhysicalTypeID::Interval => 16,
        _ => 0,
    }
}

// ------------------------------------------------------------------
// What one call undoes
// ------------------------------------------------------------------

/// Uncompressed, one-value and dictionary chunks hold the data as it is:
/// decompressing gives it back.
pub proof fn law_passthrough_roundtrip(compression: CompressionType, data: Seq<u8>, n: nat, expected: nat)
    requires
        compression == CompressionType::Uncompressed || compression == CompressionType::OneValue
            || compression == CompressionType::StringDictionary,
    ensures
        decompressed_data(chunk_compression(compression), compressed_data(compression, data, n), expected)
            == data,
{
}

/// A batch of `n` integers of equal size (at most 255 bytes each) comes
/// back unchanged through integer byte packing.
pub proof fn law_integer_chunk_roundtrip(data: Seq<u8>, n: nat, expected: nat)
    requires
        1 <= n <= u32::MAX,
        data.len() % n == 0,
        1 <= data.len() / n <= 255,
    ensures
        decompressed_data(
            chunk_compression(CompressionType::IntegerBitpacking),
            compressed_data(CompressionType::IntegerBitpacking, data, n),
            expected,
        ) == data,
{
    let vs = data.len() / n;
    assert(data.len() == n * vs) by (nonlinear_arith)
        requires
            vs == data.len() / n,
            data.len() % n == 0,
            n >= 1,
    ;
    law_bitpacking_roundtrip(data, n, vs);
}

/// A batch of `n` floats of equal size (at most 255 bytes each) comes back
/// unchanged through float framing, and can be decompressed.
pub proof fn law_float_chunk_roundtrip(data: Seq<u8>, n: nat, expected: nat)
    requires
        1 <= n <= u32::MAX,
        data.len() % n == 0,
        data.len() / n <= 255,
        expected <= data.len(),
        data.len() <= usize::MAX,
    ensures
        decompressible(
            CompressionType::Float,
            compressed_data(CompressionType::Float, data, n),
            expected,
        ),
        decompressed_data(
            CompressionType::Float,
            compressed_data(CompressionType::Float, data, n),
            expected,
        ) == data,
{
    vstd::bytes::lemma_auto_spec_u32_to_from_le_bytes();
    let vs = data.len() / n;
    assert(data.len() == n * vs) by (nonlinear_arith)
        requires
            vs == data.len() / n,
            data.len() % n == 0,
            n >= 1,
    ;
    law_float_roundtrip(data, n, vs, expected);
    let f = float_framed(data, n, vs);
    assert(f.subrange(1, 5) =~= spec_u32_to_le_bytes(n as u32));
    assert((n as u32) as nat == n);
    assert(f[0] as nat == vs);
    assert(n * vs == vs * n) by (nonlinear_arith);
}

/// Data made of `n` copies of one value comes back unchanged through
/// constant compression.
pub proof fn law_constant_chunk_roundtrip(v: Seq<u8>, n: nat, expected: nat)
    requires
        1 <= n <= u32::MAX,
    ensures
        decompressed_data(
            CompressionType::Constant,
            compressed_data(CompressionType::Constant, repeat(v, n), n),
            expected,
        ) == repeat(v, n),
{
    law_constant_roundtrip(v, n);
}

/// Booleans come back through boolean packing as 1 for nonzero and 0 for
/// zero bytes, and the packed chunk can be decompressed.
pub proof fn law_boolean_chunk_roundtrip(data: Seq<u8>, n: nat, packed: Seq<u8>)
    requires
        bools_packed(data, n, packed),
        n <= data.len(),
    ensures
        decompressible(CompressionType::Boolean, packed, n),
        decompressed_data(CompressionType::Boolean, packed, n) == Seq::new(
            n,
            |i: int| if data[i] != 0 { 1u8 } else { 0u8 },
        ),
{
    law_boolean_roundtrip(data, n, packed);
    assert(n <= 8 * packed.len()) by (nonlinear_arith)
        requires
            packed.len() == (n + 7) / 8,
    ;
}

/// A serialized value comes back unchanged through the per-value codec:
/// an integer whose payload is exactly `value_size` bytes, a float whose
/// payload is at most 255 bytes, and any value the codec passes through.
pub proof fn law_value_roundtrip(compression: CompressionType, raw: Seq<u8>, value_size: nat)
    requires
        packs_values(compression, value_size) && compression == CompressionType::IntegerBitpacking
            ==> raw.len() == 1 + value_size,
        packs_values(compression, value_size) && compression == CompressionType::Float ==> 1
            <= raw.len() <= 256,
    ensures
        value_decompressed(compression, value_compressed(compression, raw, value_size), value_size)
            == raw,
{
    if raw.len() > 0 && packs_values(compression, value_size) {
        let payload = raw.subrange(1, raw.len() as int);
        if compression == CompressionType::IntegerBitpacking {
            law_int_roundtrip(payload);
            let c = value_compressed(compression, raw, value_size);
            assert(c.subrange(1, c.len() as int) =~= pack_int(payload));
            assert(value_decompressed(compression, c, value_size) =~= raw);
        } else {
            let c = value_compressed(compression, raw, value_size);
            assert(((raw.len() - 1) as u8) as nat == raw.len() - 1);
            assert(value_decompressed(compression, c, value_size) =~= raw);
        }
    }
}

} // verus!
