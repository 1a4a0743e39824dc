//! HyperLogLog sketch of a set of hashes: 64 registers, each holding the
//! largest rank seen among the hashes routed to it. The estimate of the
//! number of distinct values is computed from the registers in floating
//! point, outside this module.

use std::hash::{Hash, Hasher};
use vstd::prelude::*;
use vstd::std_specs::bits::u64_trailing_zeros;

verus! {

/// Precision: the low `P` bits of a hash choose the register.
pub const P: u32 = 6;

/// Number of registers.
pub const M: usize = 64;

/// Bits of a hash left for the rank.
pub const Q: u32 = 58;

/// Register chosen by a hash: its low `P` bits.
pub open spec fn register_index(hash: u64) -> int {
    (hash & 63u64) as int
}

/// Rank of a hash: one plus the number of trailing zero bits of its upper
/// `Q` bits, with a sentinel bit above them (so at most `Q + 1`).
pub open spec fn rank(hash: u64) -> u8 {
    (u64_trailing_zeros((hash >> 6u64) | (1u64 << 58u64)) + 1) as u8
}

/// The registers after a hash is added: its register keeps the larger of
/// its value and the hash's rank.
pub open spec fn add_hash(regs: Seq<u8>, hash: u64) -> Seq<u8> {
    let i = register_index(hash);
    if rank(hash) > regs[i] {
        regs.update(i, rank(hash))
    } else {
        regs
    }
}

/// Register-wise maximum of two sketches.
pub open spec fn max_registers(a: Seq<u8>, b: Seq<u8>) -> Seq<u8> {
    Seq::new(a.len(), |i: int| if b[i] > a[i] { b[i] } else { a[i] })
}

/// Number of registers with a nonzero value.
pub open spec fn count_nonzero(regs: Seq<u8>) -> nat {
    regs.filter(|r: u8| r > 0).len()
}

/// Hash `value` with the standard library's default hasher.
///
/// Calls `core::hash::Hash::hash` on the value with a fresh
/// `std::collections::hash_map::DefaultHasher` and returns `finish()`. The
/// result depends on the `Hash` impl of `T`, which nothing here describes,
/// so no property of it is stated.
#[verifier::external_body]
fn hash_value<T: Hash>(value: &T) -> u64 {
    let mut hasher = std::collections::hash_map::DefaultHasher::new();
    value.hash(&mut hasher);
    hasher.finish()
}

/// HyperLogLog cardinality sketch.
#[derive(Debug, Clone)]
pub struct HyperLogLog {
    registers: [u8; 64],
}

impl View for HyperLogLog {
    type V = Seq<u8>;

    /// The registers.
    closed spec fn view(&self) -> Seq<u8> {
        self.registers@
    }
}

impl HyperLogLog {
    /// All registers zero.
    pub fn new() -> (h: Self)
        ensures
            h@ == Seq::new(64, |i: int| 0u8),
    {
        let h = HyperLogLog { registers: [0u8; 64] };
        proof {
            assert(h@ =~= Seq::new(64, |i: int| 0u8));
        }
        h
    }

    /// Add a precomputed 64-bit hash.
    pub fn insert_hash(&mut self, hash: u64)
        ensures
            final(self)@ == add_hash(old(self)@, hash),
    {
        let idx = (hash & 63u64) as usize;
        let w = (hash >> 6u64) | (1u64 << 58u64);
        proof {
            vstd::std_specs::bits::axiom_u64_trailing_zeros(w);
            assert(hash & 63u64 < 64) by (bit_vector);
        }
        let leading_zeros = (w.trailing_zeros() + 1) as u8;
        if leading_zeros > self.registers[idx] {
            self.registers[idx] = leading_zeros;
        }
    }

    /// Add a value, by its default hash.
    pub fn insert<T: Hash>(&mut self, value: &T)
        ensures
            exists|hash: u64| final(self)@ == add_hash(old(self)@, hash),
    {
        let hash = hash_value(value);
        self.insert_hash(hash);
    }

    /// Union with `other`: each register keeps the larger of the two values.
    pub fn merge(&mut self, other: &HyperLogLog)
        ensures
            final(self)@ == max_registers(old(self)@, other@),
    {
        let mut i: usize = 0;
        while i < 64
            invariant
                i <= 64,
                self@.len() == 64,
                other@.len() == 64,
                forall|j: int|
                    0 <= j < 64 ==> #[trigger] self@[j] == if j < i {
                        max_registers(old(self)@, other@)[j]
                    } else {
                        old(self)@[j]
                    },
            decreases 64 - i,
        {
            if other.registers[i] > self.registers[i] {
                self.registers[i] = other.registers[i];
            }
            i = i + 1;
        }
        proof {
            assert(self@ =~= max_registers(old(self)@, other@));
        }
    }

    /// The registers.
    pub fn registers(&self) -> (r: &[u8])
        ensures
            r@ == self@,
    {
        self.registers.as_slice()
    }

    /// Number of nonzero registers.
    pub fn non_zero_registers(&self) -> (n: usize)
        ensures
            n == count_nonzero(self@),
    {
        let ghost pred = |r: u8| r > 0;
        let mut n: usize = 0;
        let mut i: usize = 0;
        proof {
            assert(self@.subrange(0, 0).filter(pred) =~= Seq::<u8>::empty());
        }
        while i < 64
            invariant
                i <= 64,
                self@.len() == 64,
                n <= i,
                n == self@.subrange(0, i as int).filter(pred).len(),
                pred == (|r: u8| r > 0),
            decreases 64 - i,
        {
            proof {
                assert(self@.subrange(0, i + 1) =~= self@.subrange(0, i as int).push(self@[i as int]));
                self@.subrange(0, i as int).lemma_filter_len_push(pred, self@[i as int]);
            }
            if self.registers[i] > 0 {
                n = n + 1;
            }
            i = i + 1;
        }
        proof {
            assert(self@.subrange(0, 64) =~= self@);
        }
        n
    }

    /// Reset all registers to zero.
    pub fn clear(&mut self)
        ensures
            final(self)@ == Seq::new(64, |i: int| 0u8),
    {
        self.registers = [0u8; 64];
        proof {
            assert(self@ =~= Seq::new(64, |i: int| 0u8));
        }
    }
}

impl Default for HyperLogLog {
    fn default() -> (h: Self)
        ensures
            h@ == Seq::new(64, |i: int| 0u8),
    {
        HyperLogLog::new()
    }
}

/// Adding hashes in either order gives the same registers: a sketch
/// depends on the set of hashes added, not on their order.
pub proof fn law_add_order_irrelevant(regs: Seq<u8>, a: u64, b: u64)
    requires
        regs.len() == M,
    ensures
        add_hash(add_hash(regs, a), b) == add_hash(add_hash(regs, b), a),
{
    assert(register_index(a) < 64 && register_index(b) < 64) by {
        assert(a & 63u64 < 64) by (bit_vector);
        assert(b & 63u64 < 64) by (bit_vector);
    }
    assert(add_hash(add_hash(regs, a), b) =~= add_hash(add_hash(regs, b), a));
}

/// Adding a hash twice is the same as adding it once.
pub proof fn law_add_idempotent(regs: Seq<u8>, h: u64)
    requires
        regs.len() == M,
    ensures
        add_hash(add_hash(regs, h), h) == add_hash(regs, h),
{
    assert(h & 63u64 < 64) by (bit_vector);
}

/// Merging is commutative.
pub proof fn law_merge_commutative(a: Seq<u8>, b: Seq<u8>)
    requires
        a.len() == b.len(),
    ensures
        max_registers(a, b) == max_registers(b, a),
{
    assert(max_registers(a, b) =~= max_registers(b, a));
}

/// Merging is associative.
pub proof fn law_merge_associative(a: Seq<u8>, b: Seq<u8>, c: Seq<u8>)
    requires
        a.len() == b.len(),
        b.len() == c.len(),
    ensures
        max_registers(max_registers(a, b), c) == max_registers(a, max_registers(b, c)),
{
    assert(max_registers(max_registers(a, b), c) =~= max_registers(a, max_registers(b, c)));
}

/// Merging a sketch with itself changes nothing, and merging with the empty
/// sketch changes nothing.
pub proof fn law_merge_idempotent_and_identity(a: Seq<u8>)
    ensures
        max_registers(a, a) == a,
        max_registers(a, Seq::new(a.len(), |i: int| 0u8)) == a,
{
    assert(max_registers(a, a) =~= a);
    assert(max_registers(a, Seq::new(a.len(), |i: int| 0u8)) =~= a);
}

/// Merging the sketch of one set with a sketch into which `h` was added
/// equals adding `h` to the merge: the merge is the sketch of the union.
pub proof fn law_merge_is_union(a: Seq<u8>, b: Seq<u8>, h: u64)
    requires
        a.len() == M,
        b.len() == M,
    ensures
        max_registers(a, add_hash(b, h)) == add_hash(max_registers(a, b), h),
{
    assert(h & 63u64 < 64) by (bit_vector);
    assert(max_registers(a, add_hash(b, h)) =~= add_hash(max_registers(a, b), h));
}


/// The registers after adding the hashes of `hs` in order.
pub open spec fn add_all(regs: Seq<u8>, hs: Seq<u64>) -> Seq<u8>
    decreases hs.len(),
{
    if hs.len() == 0 {
        regs
    } else {
        add_hash(add_all(regs, hs.drop_last()), hs.last())
    }
}

/// The empty sketch.
pub open spec fn empty_sketch() -> Seq<u8> {
    Seq::new(64, |i: int| 0u8)
}

proof fn lemma_add_all_len(regs: Seq<u8>, hs: Seq<u64>)
    requires
        regs.len() == M,
    ensures
        add_all(regs, hs).len() == M,
    decreases hs.len(),
{
    if hs.len() > 0 {
        lemma_add_all_len(regs, hs.drop_last());
        let h = hs.last();
        assert(h & 63u64 < 64) by (bit_vector);
    }
}

proof fn lemma_add_all_concat(regs: Seq<u8>, xs: Seq<u64>, ys: Seq<u64>)
    ensures
        add_all(add_all(regs, xs), ys) == add_all(regs, xs + ys),
    decreases ys.len(),
{
    if ys.len() == 0 {
        assert(xs + ys =~= xs);
    } else {
        lemma_add_all_concat(regs, xs, ys.drop_last());
        assert((xs + ys).drop_last() =~= xs + ys.drop_last());
        assert((xs + ys).last() == ys.last());
    }
}

proof fn lemma_merge_add_all(a: Seq<u8>, ys: Seq<u64>)
    requires
        a.len() == M,
    ensures
        max_registers(a, add_all(empty_sketch(), ys)) == add_all(a, ys),
    decreases ys.len(),
{
    if ys.len() == 0 {
        law_merge_idempotent_and_identity(a);
        assert(empty_sketch() =~= Seq::new(a.len(), |i: int| 0u8));
    } else {
        lemma_merge_add_all(a, ys.drop_last());
        lemma_add_all_len(empty_sketch(), ys.drop_last());
        law_merge_is_union(a, add_all(empty_sketch(), ys.drop_last()), ys.last());
    }
}

/// Merging the sketch of the hashes `xs` with the sketch of the hashes
/// `ys` gives the sketch of all of them, `xs` then `ys`: a merged sketch is
/// the sketch of the concatenated inputs.
pub proof fn law_merge_of_sketches(xs: Seq<u64>, ys: Seq<u64>)
    ensures
        max_registers(add_all(empty_sketch(), xs), add_all(empty_sketch(), ys)) == add_all(
            empty_sketch(),
            xs + ys,
        ),
{
    lemma_add_all_len(empty_sketch(), xs);
    lemma_merge_add_all(add_all(empty_sketch(), xs), ys);
    lemma_add_all_concat(empty_sketch(), xs, ys);
}

} // verus!
