//! Roaring bitmap: a compressed bitset for `u32` node/edge identifiers.
//!
//! The high 16 bits of a value select a container (kept in increasing key
//! order), the low 16 bits are stored in that container. A container is
//! either a sorted array of `u16` (sparse) or a 1024-word bitset (dense);
//! arrays are upgraded to bitsets once they hold more than
//! `ARRAY_MAX_SIZE` values.

use vstd::prelude::*;
use vstd::std_specs::bits::axiom_u64_trailing_zeros;

verus! {

/// Maximum number of elements in an array container before it becomes a bitset.
pub const ARRAY_MAX_SIZE: usize = 4096;

/// Number of 64-bit words in a bitset container.
pub const BITMAP_WORDS: usize = 1024;

// ---------------------------------------------------------------------------
// Bit-level facts
// ---------------------------------------------------------------------------

/// Whether bit `b` of `w` is set.
pub open spec fn bit_set(w: u64, b: u64) -> bool {
    (w >> b) & 1u64 == 1u64
}

proof fn lemma_test_bit(w: u64, b: u64) by (bit_vector)
    requires
        b < 64,
    ensures
        (w & (1u64 << b) != 0) == bit_set(w, b),
{
}

proof fn lemma_or_bit(w: u64, b: u64, j: u64) by (bit_vector)
    requires
        b < 64,
        j < 64,
    ensures
        bit_set(w | (1u64 << b), j) == (j == b || bit_set(w, j)),
{
}

proof fn lemma_clear_bit(w: u64, b: u64, j: u64) by (bit_vector)
    requires
        b < 64,
        j < 64,
    ensures
        bit_set(w & !(1u64 << b), j) == (j != b && bit_set(w, j)),
{
}

proof fn lemma_or_words(a: u64, c: u64, j: u64) by (bit_vector)
    requires
        j < 64,
    ensures
        bit_set(a | c, j) == (bit_set(a, j) || bit_set(c, j)),
{
}

proof fn lemma_and_words(a: u64, c: u64, j: u64) by (bit_vector)
    requires
        j < 64,
    ensures
        bit_set(a & c, j) == (bit_set(a, j) && bit_set(c, j)),
{
}

proof fn lemma_and_not_words(a: u64, c: u64, j: u64) by (bit_vector)
    requires
        j < 64,
    ensures
        bit_set(a & !c, j) == (bit_set(a, j) && !bit_set(c, j)),
{
}

proof fn lemma_zero_word(j: u64) by (bit_vector)
    requires
        j < 64,
    ensures
        !bit_set(0u64, j),
{
}

/// A non-zero word has its lowest set bit at `trailing_zeros`.
proof fn lemma_nonzero_word_has_bit(w: u64)
    requires
        w != 0,
    ensures
        w.trailing_zeros() < 64,
        bit_set(w, w.trailing_zeros() as u64),
{
    axiom_u64_trailing_zeros(w);
}

/// Pushing onto a sequence inserts into its set of elements.
pub proof fn lemma_push_to_set<A>(s: Seq<A>, x: A)
    ensures
        s.push(x).to_set() == s.to_set().insert(x),
{
    assert forall|y: A| #[trigger] s.push(x).to_set().contains(y) == s.to_set().insert(x).contains(y) by {
        if s.push(x).contains(y) {
            let k = choose|k: int| 0 <= k < s.push(x).len() && s.push(x)[k] == y;
            if k < s.len() {
                assert(s[k] == y);
            }
        }
        if s.contains(y) {
            let k = choose|k: int| 0 <= k < s.len() && s[k] == y;
            assert(s.push(x)[k] == y);
        }
        assert(s.push(x)[s.len() as int] == x);
    }
    assert(s.push(x).to_set() =~= s.to_set().insert(x));
}

/// Every set of `u16` values is finite.
proof fn lemma_u16_set_finite(s: Set<u16>)
    ensures
        s.finite(),
{
    <u16 as vstd::set_lib::FiniteFull>::full_properties();
    vstd::set_lib::lemma_set_subset_finite(Set::<u16>::full(), s);
}

/// Every set of `u32` values is finite.
proof fn lemma_u32_set_finite(s: Set<u32>)
    ensures
        s.finite(),
{
    <u32 as vstd::set_lib::FiniteFull>::full_properties();
    vstd::set_lib::lemma_set_subset_finite(Set::<u32>::full(), s);
}

// ---------------------------------------------------------------------------
// Containers
// ---------------------------------------------------------------------------

/// Strictly increasing sequence of `u16`.
pub open spec fn strictly_sorted(s: Seq<u16>) -> bool {
    forall|i: int, j: int| 0 <= i < j < s.len() ==> s[i] < s[j]
}

/// Membership of `x` in a bitset made of 1024 words.
pub open spec fn bitmap_has(words: Seq<u64>, x: u16) -> bool {
    bit_set(words[x as int / 64], (x % 64) as u64)
}

/// The values held by a bitset.
pub open spec fn bitmap_set(words: Seq<u64>) -> Set<u16> {
    Set::new(|x: u16| bitmap_has(words, x))
}

/// The values below `n` held by a bitset.
pub open spec fn bitmap_set_below(words: Seq<u64>, n: int) -> Set<u16> {
    Set::new(|x: u16| x < n && bitmap_has(words, x))
}

/// A container of low halves: a sorted array or a fixed-size bitset.
#[derive(Debug, Clone)]
pub enum Container {
    Array(Vec<u16>),
    Bitmap(Vec<u64>),
}

impl Container {
    /// Arrays are strictly increasing; bitsets have exactly 1024 words.
    pub open spec fn wf(&self) -> bool {
        match self {
            Container::Array(v) => strictly_sorted(v@),
            Container::Bitmap(w) => w@.len() == BITMAP_WORDS,
        }
    }

    /// The set of low halves stored in the container.
    pub open spec fn cset(&self) -> Set<u16> {
        match self {
            Container::Array(v) => v@.to_set(),
            Container::Bitmap(w) => bitmap_set(w@),
        }
    }

    fn new_array() -> (c: Self)
        ensures
            c is Array,
            c.wf(),
            c.cset() == Set::<u16>::empty(),
    {
        let v: Vec<u16> = Vec::new();
        proof {
            assert(v@.to_set() =~= Set::<u16>::empty());
        }
        Container::Array(v)
    }
}

/// A strictly increasing array has as many values as elements, at most 65536.
proof fn lemma_sorted_len(s: Seq<u16>)
    requires
        strictly_sorted(s),
    ensures
        s.to_set().len() == s.len(),
        s.len() <= 65536,
{
    assert(s.no_duplicates());
    s.unique_seq_to_set();
    <u16 as vstd::set_lib::FiniteFull>::full_properties();
    vstd::set_lib::lemma_len_subset(s.to_set(), Set::<u16>::full());
    assert(Set::<u16>::full() =~= Set::<u16>::range_inclusive(0u16, 65535u16));
    <u16 as vstd::set_lib::FiniteRange>::range_properties(0u16, 65535u16);
}

/// Binary search in a strictly increasing array.
fn search_u16(v: &Vec<u16>, x: u16) -> (r: Result<usize, usize>)
    requires
        strictly_sorted(v@),
    ensures
        match r {
            Ok(i) => i < v@.len() && v@[i as int] == x,
            Err(i) => i <= v@.len() && (forall|j: int| 0 <= j < i ==> v@[j] < x) && (forall|j: int|
                i <= j < v@.len() ==> v@[j] > x),
        },
{
    let mut lo: usize = 0;
    let mut hi: usize = v.len();
    while lo < hi
        invariant
            lo <= hi <= v@.len(),
            strictly_sorted(v@),
            forall|j: int| 0 <= j < lo ==> v@[j] < x,
            forall|j: int| hi <= j < v@.len() ==> v@[j] > x,
        decreases hi - lo,
    {
        let mid = lo + (hi - lo) / 2;
        if v[mid] == x {
            return Ok(mid);
        } else if v[mid] < x {
            lo = mid + 1;
        } else {
            hi = mid;
        }
    }
    Err(lo)
}

/// Number of values held by a bitset.
fn bitmap_len(words: &Vec<u64>) -> (n: usize)
    requires
        words@.len() == BITMAP_WORDS,
    ensures
        n == bitmap_set(words@).len(),
        n <= 65536,
{
    let mut n: usize = 0;
    let mut x: u32 = 0;
    proof {
        assert(bitmap_set_below(words@, 0) =~= Set::<u16>::empty());
    }
    while x < 65536
        invariant
            x <= 65536,
            words@.len() == BITMAP_WORDS,
            n <= x,
            n == bitmap_set_below(words@, x as int).len(),
        decreases 65536 - x,
    {
        let w = words[(x / 64) as usize];
        let b = (x % 64) as u64;
        let y = x as u16;
        proof {
            lemma_test_bit(w, b);
            lemma_u16_set_finite(bitmap_set_below(words@, x as int));
        }
        if w & (1u64 << b) != 0 {
            proof {
                assert(bitmap_set_below(words@, x + 1) =~= bitmap_set_below(words@, x as int).insert(y));
            }
            n = n + 1;
        } else {
            proof {
                assert(bitmap_set_below(words@, x + 1) =~= bitmap_set_below(words@, x as int));
            }
        }
        x = x + 1;
    }
    proof {
        assert(bitmap_set_below(words@, 65536) =~= bitmap_set(words@));
    }
    n
}


/// Set one value in a bitset.
fn bitmap_insert(words: &mut Vec<u64>, x: u16)
    requires
        old(words)@.len() == BITMAP_WORDS,
    ensures
        final(words)@.len() == BITMAP_WORDS,
        bitmap_set(final(words)@) == bitmap_set(old(words)@).insert(x),
{
    let wi = (x / 64) as usize;
    let b = (x % 64) as u64;
    let w = words[wi];
    words.set(wi, w | (1u64 << b));
    proof {
        assert forall|y: u16| #[trigger] bitmap_has(words@, y) == (y == x || bitmap_has(old(words)@, y)) by {
            if y / 64 == x / 64 {
                lemma_or_bit(w, b, (y % 64) as u64);
            }
        }
        assert(bitmap_set(words@) =~= bitmap_set(old(words)@).insert(x));
    }
}

/// Clear one value in a bitset.
fn bitmap_remove(words: &mut Vec<u64>, x: u16)
    requires
        old(words)@.len() == BITMAP_WORDS,
    ensures
        final(words)@.len() == BITMAP_WORDS,
        bitmap_set(final(words)@) == bitmap_set(old(words)@).remove(x),
{
    let wi = (x / 64) as usize;
    let b = (x % 64) as u64;
    let w = words[wi];
    words.set(wi, w & !(1u64 << b));
    proof {
        assert forall|y: u16| #[trigger] bitmap_has(words@, y) == (y != x && bitmap_has(old(words)@, y)) by {
            if y / 64 == x / 64 {
                lemma_clear_bit(w, b, (y % 64) as u64);
            }
        }
        assert(bitmap_set(words@) =~= bitmap_set(old(words)@).remove(x));
    }
}

/// Membership test in a bitset.
fn bitmap_contains(words: &Vec<u64>, x: u16) -> (r: bool)
    requires
        words@.len() == BITMAP_WORDS,
    ensures
        r == bitmap_set(words@).contains(x),
{
    let w = words[(x / 64) as usize];
    let b = (x % 64) as u64;
    proof {
        lemma_test_bit(w, b);
    }
    w & (1u64 << b) != 0
}

/// An all-zero bitset.
fn bitmap_zero() -> (words: Vec<u64>)
    ensures
        words@.len() == BITMAP_WORDS,
        bitmap_set(words@) == Set::<u16>::empty(),
{
    let words: Vec<u64> = vec![0u64; BITMAP_WORDS];
    proof {
        assert forall|y: u16| !#[trigger] bitmap_has(words@, y) by {
            lemma_zero_word((y % 64) as u64);
        }
        assert(bitmap_set(words@) =~= Set::<u16>::empty());
    }
    words
}

/// A bitset holding exactly the values of an array.
fn bitmap_from_array(v: &Vec<u16>) -> (words: Vec<u64>)
    ensures
        words@.len() == BITMAP_WORDS,
        bitmap_set(words@) == v@.to_set(),
{
    let mut words = bitmap_zero();
    let mut i: usize = 0;
    proof {
        assert(v@.subrange(0, 0).to_set() =~= Set::<u16>::empty());
    }
    while i < v.len()
        invariant
            i <= v@.len(),
            words@.len() == BITMAP_WORDS,
            bitmap_set(words@) == v@.subrange(0, i as int).to_set(),
        decreases v@.len() - i,
    {
        bitmap_insert(&mut words, v[i]);
        proof {
            assert(v@.subrange(0, i + 1) =~= v@.subrange(0, i as int).push(v@[i as int]));
            lemma_push_to_set(v@.subrange(0, i as int), v@[i as int]);
            assert(v@.subrange(0, i + 1).to_set() =~= v@.subrange(0, i as int).to_set().insert(v@[i as int]));
        }
        i = i + 1;
    }
    proof {
        assert(v@.subrange(0, v@.len() as int) =~= v@);
    }
    words
}

/// The values of a bitset in increasing order.
fn bitmap_to_vec(words: &Vec<u64>) -> (r: Vec<u16>)
    requires
        words@.len() == BITMAP_WORDS,
    ensures
        strictly_sorted(r@),
        r@.to_set() == bitmap_set(words@),
{
    let mut r: Vec<u16> = Vec::new();
    let mut x: u32 = 0;
    proof {
        assert(r@.to_set() =~= bitmap_set_below(words@, 0));
    }
    while x < 65536
        invariant
            x <= 65536,
            words@.len() == BITMAP_WORDS,
            strictly_sorted(r@),
            forall|k: int| 0 <= k < r@.len() ==> r@[k] < x,
            r@.to_set() == bitmap_set_below(words@, x as int),
        decreases 65536 - x,
    {
        let y = x as u16;
        if bitmap_contains(words, y) {
            proof {
                lemma_push_to_set(r@, y);
            }
            r.push(y);
            proof {
                assert(bitmap_set_below(words@, x + 1) =~= bitmap_set_below(words@, x as int).insert(y));
            }
        } else {
            proof {
                assert(bitmap_set_below(words@, x + 1) =~= bitmap_set_below(words@, x as int));
            }
        }
        x = x + 1;
    }
    proof {
        assert(bitmap_set_below(words@, 65536) =~= bitmap_set(words@));
    }
    r
}

/// Word-wise combination of two bitsets.
#[derive(Clone, Copy, PartialEq, Eq)]
enum WordOp {
    Or,
    And,
    AndNot,
}

spec fn word_op_bit(op: WordOp, a: bool, c: bool) -> bool {
    match op {
        WordOp::Or => a || c,
        WordOp::And => a && c,
        WordOp::AndNot => a && !c,
    }
}

spec fn word_op_set(op: WordOp, a: Set<u16>, c: Set<u16>) -> Set<u16> {
    match op {
        WordOp::Or => a.union(c),
        WordOp::And => a.intersect(c),
        WordOp::AndNot => a.difference(c),
    }
}

fn bitmap_combine(a: &mut Vec<u64>, c: &Vec<u64>, op: WordOp)
    requires
        old(a)@.len() == BITMAP_WORDS,
        c@.len() == BITMAP_WORDS,
    ensures
        final(a)@.len() == BITMAP_WORDS,
        bitmap_set(final(a)@) == word_op_set(op, bitmap_set(old(a)@), bitmap_set(c@)),
{
    let mut i: usize = 0;
    while i < BITMAP_WORDS
        invariant
            i <= BITMAP_WORDS,
            a@.len() == BITMAP_WORDS,
            c@.len() == BITMAP_WORDS,
            old(a)@.len() == BITMAP_WORDS,
            forall|k: int| i <= k < BITMAP_WORDS ==> a@[k] == old(a)@[k],
            forall|y: u16| (y as int) / 64 < i ==> #[trigger] bitmap_has(a@, y) == word_op_bit(
                op,
                bitmap_has(old(a)@, y),
                bitmap_has(c@, y),
            ),
        decreases BITMAP_WORDS - i,
    {
        let x = a[i];
        let z = c[i];
        let nw = match op {
            WordOp::Or => x | z,
            WordOp::And => x & z,
            WordOp::AndNot => x & !z,
        };
        let ghost prev = a@;
        a.set(i, nw);
        proof {
            assert forall|y: u16| (y as int) / 64 < i + 1 implies #[trigger] bitmap_has(a@, y)
                == word_op_bit(op, bitmap_has(old(a)@, y), bitmap_has(c@, y)) by {
                if (y as int) / 64 == i {
                    let j = (y % 64) as u64;
                    match op {
                        WordOp::Or => lemma_or_words(x, z, j),
                        WordOp::And => lemma_and_words(x, z, j),
                        WordOp::AndNot => lemma_and_not_words(x, z, j),
                    }
                } else {
                    assert(bitmap_has(a@, y) == bitmap_has(prev, y));
                }
            }
        }
        i = i + 1;
    }
    proof {
        let l = bitmap_set(old(a)@);
        let r = bitmap_set(c@);
        assert forall|y: u16| #[trigger] bitmap_set(a@).contains(y) == word_op_set(op, l, r).contains(y) by {
            assert(bitmap_has(a@, y) == word_op_bit(op, bitmap_has(old(a)@, y), bitmap_has(c@, y)));
        }
        assert(bitmap_set(a@) =~= word_op_set(op, l, r));
    }
}

/// Whether a bitset holds no value.
fn bitmap_is_empty(words: &Vec<u64>) -> (r: bool)
    requires
        words@.len() == BITMAP_WORDS,
    ensures
        r == (bitmap_set(words@) == Set::<u16>::empty()),
{
    let mut i: usize = 0;
    while i < BITMAP_WORDS
        invariant
            i <= BITMAP_WORDS,
            words@.len() == BITMAP_WORDS,
            forall|k: int| 0 <= k < i ==> words@[k] == 0,
        decreases BITMAP_WORDS - i,
    {
        let w = words[i];
        if w != 0 {
            proof {
                lemma_nonzero_word_has_bit(w);
                let b = w.trailing_zeros() as u64;
                let y = (i * 64 + b) as u16;
                assert(y as int / 64 == i as int);
                assert(bitmap_set(words@).contains(y));
            }
            return false;
        }
        i = i + 1;
    }
    proof {
        assert forall|y: u16| !#[trigger] bitmap_set(words@).contains(y) by {
            lemma_zero_word((y % 64) as u64);
        }
        assert(bitmap_set(words@) =~= Set::<u16>::empty());
    }
    true
}


/// Taking a one-longer prefix adds the next element to the prefix's set.
proof fn lemma_prefix_step<A>(s: Seq<A>, i: int)
    requires
        0 <= i < s.len(),
    ensures
        s.subrange(0, i + 1).to_set() == s.subrange(0, i).to_set().insert(s[i]),
{
    assert(s.subrange(0, i + 1) =~= s.subrange(0, i).push(s[i]));
    lemma_push_to_set(s.subrange(0, i), s[i]);
}

/// The full prefix of a sequence is the sequence.
proof fn lemma_prefix_full<A>(s: Seq<A>)
    ensures
        s.subrange(0, s.len() as int) == s,
{
    assert(s.subrange(0, s.len() as int) =~= s);
}

/// Inserting into a sorted array at its search position keeps it sorted
/// and adds exactly the inserted value.
proof fn lemma_sorted_insert(s: Seq<u16>, pos: int, x: u16)
    requires
        strictly_sorted(s),
        0 <= pos <= s.len(),
        forall|j: int| 0 <= j < pos ==> s[j] < x,
        forall|j: int| pos <= j < s.len() ==> s[j] > x,
    ensures
        strictly_sorted(s.insert(pos, x)),
        s.insert(pos, x).to_set() == s.to_set().insert(x),
{
    let t = s.insert(pos, x);
    assert forall|i: int, j: int| 0 <= i < j < t.len() implies t[i] < t[j] by {
        if j < pos {
        } else if j == pos {
        } else if i < pos {
        } else if i == pos {
        } else {
        }
    }
    assert forall|y: u16| #[trigger] t.to_set().contains(y) == s.to_set().insert(x).contains(y) by {
        if t.contains(y) {
            let k = choose|k: int| 0 <= k < t.len() && t[k] == y;
            if k < pos {
                assert(s[k] == y);
            } else if k > pos {
                assert(s[k - 1] == y);
            }
        }
        if s.contains(y) {
            let k = choose|k: int| 0 <= k < s.len() && s[k] == y;
            if k < pos {
                assert(t[k] == y);
            } else {
                assert(t[k + 1] == y);
            }
        }
        assert(t[pos] == x);
    }
    assert(t.to_set() =~= s.to_set().insert(x));
}

/// Removing the element at its position from a sorted array keeps it sorted
/// and removes exactly that value.
proof fn lemma_sorted_remove(s: Seq<u16>, pos: int)
    requires
        strictly_sorted(s),
        0 <= pos < s.len(),
    ensures
        strictly_sorted(s.remove(pos)),
        s.remove(pos).to_set() == s.to_set().remove(s[pos]),
{
    let t = s.remove(pos);
    let x = s[pos];
    assert forall|i: int, j: int| 0 <= i < j < t.len() implies t[i] < t[j] by {
        if j < pos {
        } else if i < pos {
            assert(t[j] == s[j + 1]);
        } else {
            assert(t[i] == s[i + 1]);
            assert(t[j] == s[j + 1]);
        }
    }
    assert forall|y: u16| #[trigger] t.to_set().contains(y) == s.to_set().remove(x).contains(y) by {
        if t.contains(y) {
            let k = choose|k: int| 0 <= k < t.len() && t[k] == y;
            if k < pos {
                assert(s[k] == y);
            } else {
                assert(s[k + 1] == y);
            }
        }
        if s.contains(y) && y != x {
            let k = choose|k: int| 0 <= k < s.len() && s[k] == y;
            if k < pos {
                assert(t[k] == y);
            } else {
                assert(k != pos);
                assert(t[k - 1] == y);
            }
        }
    }
    assert(t.to_set() =~= s.to_set().remove(x));
}

/// Sorted union of two sorted arrays.
fn array_merge(a: &Vec<u16>, b: &Vec<u16>) -> (r: Vec<u16>)
    requires
        strictly_sorted(a@),
        strictly_sorted(b@),
    ensures
        strictly_sorted(r@),
        r@.to_set() == a@.to_set().union(b@.to_set()),
{
    let mut r: Vec<u16> = Vec::new();
    let mut i: usize = 0;
    let mut j: usize = 0;
    proof {
        assert(r@.to_set() =~= a@.subrange(0, 0).to_set().union(b@.subrange(0, 0).to_set()));
    }
    while i < a.len() || j < b.len()
        invariant
            i <= a@.len(),
            j <= b@.len(),
            strictly_sorted(a@),
            strictly_sorted(b@),
            strictly_sorted(r@),
            r@.to_set() == a@.subrange(0, i as int).to_set().union(b@.subrange(0, j as int).to_set()),
            forall|k: int| 0 <= k < r@.len() ==> (i < a@.len() ==> r@[k] < a@[i as int]) && (j < b@.len()
                ==> r@[k] < b@[j as int]),
        decreases a@.len() + b@.len() - i - j,
    {
        let ghost old_r = r@;
        if j >= b.len() || (i < a.len() && a[i] < b[j]) {
            let x = a[i];
            r.push(x);
            proof {
                lemma_prefix_step(a@, i as int);
                lemma_push_to_set(old_r, x);
                assert(r@.to_set() =~= a@.subrange(0, i + 1).to_set().union(b@.subrange(0, j as int).to_set()));
            }
            i = i + 1;
        } else if i >= a.len() || b[j] < a[i] {
            let x = b[j];
            r.push(x);
            proof {
                lemma_prefix_step(b@, j as int);
                lemma_push_to_set(old_r, x);
                assert(r@.to_set() =~= a@.subrange(0, i as int).to_set().union(b@.subrange(0, j + 1).to_set()));
            }
            j = j + 1;
        } else {
            let x = a[i];
            r.push(x);
            proof {
                lemma_prefix_step(a@, i as int);
                lemma_prefix_step(b@, j as int);
                lemma_push_to_set(old_r, x);
                assert(r@.to_set() =~= a@.subrange(0, i + 1).to_set().union(b@.subrange(0, j + 1).to_set()));
            }
            i = i + 1;
            j = j + 1;
        }
    }
    proof {
        lemma_prefix_full(a@);
        lemma_prefix_full(b@);
    }
    r
}

/// What a filter keeps: the values inside (`keep`) or outside (`!keep`) of `c`.
pub open spec fn keep_set(a: Set<u16>, c: Set<u16>, keep: bool) -> Set<u16> {
    if keep {
        a.intersect(c)
    } else {
        a.difference(c)
    }
}

/// The values of a sorted array that are (or are not) in a container.
fn array_filter(v: &Vec<u16>, other: &Container, keep: bool) -> (r: Vec<u16>)
    requires
        strictly_sorted(v@),
        other.wf(),
    ensures
        strictly_sorted(r@),
        r@.to_set() == keep_set(v@.to_set(), other.cset(), keep),
{
    let mut r: Vec<u16> = Vec::new();
    let mut i: usize = 0;
    proof {
        assert(r@.to_set() =~= keep_set(v@.subrange(0, 0).to_set(), other.cset(), keep));
    }
    while i < v.len()
        invariant
            i <= v@.len(),
            strictly_sorted(v@),
            strictly_sorted(r@),
            other.wf(),
            r@.to_set() == keep_set(v@.subrange(0, i as int).to_set(), other.cset(), keep),
            forall|k: int| 0 <= k < r@.len() ==> (i < v@.len() ==> r@[k] < v@[i as int]),
        decreases v@.len() - i,
    {
        let x = v[i];
        let ghost old_r = r@;
        proof {
            lemma_prefix_step(v@, i as int);
        }
        if other.contains(x) == keep {
            r.push(x);
            proof {
                lemma_push_to_set(old_r, x);
                assert(r@.to_set() =~= keep_set(v@.subrange(0, i + 1).to_set(), other.cset(), keep));
            }
        } else {
            proof {
                assert(r@.to_set() =~= keep_set(v@.subrange(0, i + 1).to_set(), other.cset(), keep));
            }
        }
        i = i + 1;
    }
    proof {
        lemma_prefix_full(v@);
    }
    r
}

impl Container {
    /// Membership of a low half.
    fn contains(&self, idx: u16) -> (r: bool)
        requires
            self.wf(),
        ensures
            r == self.cset().contains(idx),
    {
        match self {
            Container::Array(v) => {
                match search_u16(v, idx) {
                    Ok(i) => {
                        proof {
                            assert(v@.contains(idx));
                        }
                        true
                    },
                    Err(_) => {
                        proof {
                            assert(!v@.contains(idx));
                        }
                        false
                    },
                }
            },
            Container::Bitmap(w) => bitmap_contains(w, idx),
        }
    }

    /// Number of low halves held.
    fn len(&self) -> (r: usize)
        requires
            self.wf(),
        ensures
            r == self.cset().len(),
            self.cset().finite(),
            r <= 65536,
    {
        proof {
            lemma_u16_set_finite(self.cset());
        }
        match self {
            Container::Array(v) => {
                proof {
                    lemma_sorted_len(v@);
                }
                v.len()
            },
            Container::Bitmap(w) => bitmap_len(w),
        }
    }

    /// Whether the container holds nothing.
    fn is_empty(&self) -> (r: bool)
        requires
            self.wf(),
        ensures
            r == (self.cset() == Set::<u16>::empty()),
    {
        match self {
            Container::Array(v) => {
                proof {
                    if v@.len() > 0 {
                        assert(v@.to_set().contains(v@[0]));
                    } else {
                        assert(v@.to_set() =~= Set::<u16>::empty());
                    }
                }
                v.len() == 0
            },
            Container::Bitmap(w) => bitmap_is_empty(w),
        }
    }

    /// Insert a low half; returns whether it was newly added.
    fn add(&mut self, idx: u16) -> (r: bool)
        requires
            old(self).wf(),
        ensures
            final(self).wf(),
            final(self).cset() == old(self).cset().insert(idx),
            r == !old(self).cset().contains(idx),
    {
        let mut c = Container::Array(Vec::new());
        std::mem::swap(self, &mut c);
        match c {
            Container::Array(mut v) => {
                match search_u16(&v, idx) {
                    Ok(_) => {
                        proof {
                            assert(v@.contains(idx));
                            assert(v@.to_set().insert(idx) =~= v@.to_set());
                        }
                        *self = Container::Array(v);
                        false
                    },
                    Err(pos) => {
                        proof {
                            lemma_sorted_insert(v@, pos as int, idx);
                            assert(!v@.contains(idx));
                        }
                        v.insert(pos, idx);
                        if v.len() > ARRAY_MAX_SIZE {
                            let bm = bitmap_from_array(&v);
                            *self = Container::Bitmap(bm);
                        } else {
                            *self = Container::Array(v);
                        }
                        true
                    },
                }
            },
            Container::Bitmap(mut w) => {
                let had = bitmap_contains(&w, idx);
                if !had {
                    bitmap_insert(&mut w, idx);
                } else {
                    proof {
                        assert(bitmap_set(w@).insert(idx) =~= bitmap_set(w@));
                    }
                }
                *self = Container::Bitmap(w);
                !had
            },
        }
    }

    /// Remove a low half; returns whether it was present.
    fn remove(&mut self, idx: u16) -> (r: bool)
        requires
            old(self).wf(),
        ensures
            final(self).wf(),
            final(self).cset() == old(self).cset().remove(idx),
            r == old(self).cset().contains(idx),
    {
        let mut c = Container::Array(Vec::new());
        std::mem::swap(self, &mut c);
        match c {
            Container::Array(mut v) => {
                match search_u16(&v, idx) {
                    Ok(pos) => {
                        proof {
                            lemma_sorted_remove(v@, pos as int);
                            assert(v@.contains(idx));
                        }
                        v.remove(pos);
                        *self = Container::Array(v);
                        true
                    },
                    Err(_) => {
                        proof {
                            assert(!v@.contains(idx));
                            assert(v@.to_set().remove(idx) =~= v@.to_set());
                        }
                        *self = Container::Array(v);
                        false
                    },
                }
            },
            Container::Bitmap(mut w) => {
                let had = bitmap_contains(&w, idx);
                if had {
                    bitmap_remove(&mut w, idx);
                } else {
                    proof {
                        assert(bitmap_set(w@).remove(idx) =~= bitmap_set(w@));
                    }
                }
                *self = Container::Bitmap(w);
                had
            },
        }
    }

    /// An array container, upgraded to a bitset when larger than the limit.
    fn from_sorted_array(v: Vec<u16>) -> (c: Container)
        requires
            strictly_sorted(v@),
        ensures
            c.wf(),
            c.cset() == v@.to_set(),
    {
        if v.len() > ARRAY_MAX_SIZE {
            Container::Bitmap(bitmap_from_array(&v))
        } else {
            Container::Array(v)
        }
    }

    /// Union `other` into `self`.
    fn insert_all_from(&mut self, other: &Container)
        requires
            old(self).wf(),
            other.wf(),
        ensures
            final(self).wf(),
            final(self).cset() == old(self).cset().union(other.cset()),
    {
        let mut c = Container::Array(Vec::new());
        std::mem::swap(self, &mut c);
        match c {
            Container::Array(v) => {
                match other {
                    Container::Array(ov) => {
                        let merged = array_merge(&v, ov);
                        *self = Container::from_sorted_array(merged);
                    },
                    Container::Bitmap(obm) => {
                        let other_count = bitmap_len(obm);
                        proof {
                            lemma_sorted_len(v@);
                        }
                        if v.len() + other_count > ARRAY_MAX_SIZE {
                            let mut bm = bitmap_from_array(&v);
                            bitmap_combine(&mut bm, obm, WordOp::Or);
                            *self = Container::Bitmap(bm);
                        } else {
                            let listed = bitmap_to_vec(obm);
                            let merged = array_merge(&v, &listed);
                            *self = Container::from_sorted_array(merged);
                        }
                    },
                }
            },
            Container::Bitmap(mut bm) => {
                match other {
                    Container::Array(ov) => {
                        let mut i: usize = 0;
                        let ghost start = bitmap_set(bm@);
                        proof {
                            assert(start.union(ov@.subrange(0, 0).to_set()) =~= start);
                        }
                        while i < ov.len()
                            invariant
                                i <= ov@.len(),
                                bm@.len() == BITMAP_WORDS,
                                bitmap_set(bm@) == start.union(ov@.subrange(0, i as int).to_set()),
                            decreases ov@.len() - i,
                        {
                            bitmap_insert(&mut bm, ov[i]);
                            proof {
                                lemma_prefix_step(ov@, i as int);
                                assert(bitmap_set(bm@) =~= start.union(ov@.subrange(0, i + 1).to_set()));
                            }
                            i = i + 1;
                        }
                        proof {
                            lemma_prefix_full(ov@);
                        }
                        *self = Container::Bitmap(bm);
                    },
                    Container::Bitmap(obm) => {
                        bitmap_combine(&mut bm, obm, WordOp::Or);
                        *self = Container::Bitmap(bm);
                    },
                }
            },
        }
    }

    /// Keep only the values also in `other`.
    fn retain_intersection(&mut self, other: &Container)
        requires
            old(self).wf(),
            other.wf(),
        ensures
            final(self).wf(),
            final(self).cset() == old(self).cset().intersect(other.cset()),
    {
        let mut c = Container::Array(Vec::new());
        std::mem::swap(self, &mut c);
        match c {
            Container::Array(v) => {
                let kept = array_filter(&v, other, true);
                *self = Container::Array(kept);
            },
            Container::Bitmap(mut bm) => {
                match other {
                    Container::Array(ov) => {
                        let mask = bitmap_from_array(ov);
                        bitmap_combine(&mut bm, &mask, WordOp::And);
                    },
                    Container::Bitmap(obm) => {
                        bitmap_combine(&mut bm, obm, WordOp::And);
                    },
                }
                *self = Container::Bitmap(bm);
            },
        }
    }

    /// Remove the values that are in `other`.
    fn subtract(&mut self, other: &Container)
        requires
            old(self).wf(),
            other.wf(),
        ensures
            final(self).wf(),
            final(self).cset() == old(self).cset().difference(other.cset()),
    {
        let mut c = Container::Array(Vec::new());
        std::mem::swap(self, &mut c);
        match c {
            Container::Array(v) => {
                let kept = array_filter(&v, other, false);
                *self = Container::Array(kept);
            },
            Container::Bitmap(mut bm) => {
                match other {
                    Container::Array(ov) => {
                        let mut i: usize = 0;
                        let ghost start = bitmap_set(bm@);
                        proof {
                            assert(start.difference(ov@.subrange(0, 0).to_set()) =~= start);
                        }
                        while i < ov.len()
                            invariant
                                i <= ov@.len(),
                                bm@.len() == BITMAP_WORDS,
                                bitmap_set(bm@) == start.difference(ov@.subrange(0, i as int).to_set()),
                            decreases ov@.len() - i,
                        {
                            bitmap_remove(&mut bm, ov[i]);
                            proof {
                                lemma_prefix_step(ov@, i as int);
                                assert(bitmap_set(bm@) =~= start.difference(ov@.subrange(0, i + 1).to_set()));
                            }
                            i = i + 1;
                        }
                        proof {
                            lemma_prefix_full(ov@);
                        }
                    },
                    Container::Bitmap(obm) => {
                        bitmap_combine(&mut bm, obm, WordOp::AndNot);
                    },
                }
                *self = Container::Bitmap(bm);
            },
        }
    }

    /// The low halves in increasing order.
    fn to_vec(&self) -> (r: Vec<u16>)
        requires
            self.wf(),
        ensures
            strictly_sorted(r@),
            r@.to_set() == self.cset(),
    {
        match self {
            Container::Array(v) => {
                let mut r: Vec<u16> = Vec::new();
                let mut i: usize = 0;
                while i < v.len()
                    invariant
                        i <= v@.len(),
                        r@ == v@.subrange(0, i as int),
                    decreases v@.len() - i,
                {
                    r.push(v[i]);
                    proof {
                        assert(r@ =~= v@.subrange(0, i + 1));
                    }
                    i = i + 1;
                }
                proof {
                    lemma_prefix_full(v@);
                }
                r
            },
            Container::Bitmap(w) => bitmap_to_vec(w),
        }
    }

    /// A structurally equal copy.
    fn copy(&self) -> (r: Container)
        requires
            self.wf(),
        ensures
            r.wf(),
            r.cset() == self.cset(),
    {
        match self {
            Container::Array(_) => Container::Array(self.to_vec()),
            Container::Bitmap(w) => {
                let mut r: Vec<u64> = Vec::new();
                let mut i: usize = 0;
                while i < w.len()
                    invariant
                        i <= w@.len(),
                        r@ == w@.subrange(0, i as int),
                    decreases w@.len() - i,
                {
                    r.push(w[i]);
                    proof {
                        assert(r@ =~= w@.subrange(0, i + 1));
                    }
                    i = i + 1;
                }
                proof {
                    lemma_prefix_full(w@);
                }
                Container::Bitmap(r)
            },
        }
    }
}


// ---------------------------------------------------------------------------
// Values split into (container key, low half)
// ---------------------------------------------------------------------------

/// The value whose high half is `k` and low half is `low`.
pub open spec fn compose(k: u16, low: u16) -> u32 {
    (k as int * 65536 + low as int) as u32
}

/// The container key of a value.
pub open spec fn high_half(v: u32) -> u16 {
    (v as int / 65536) as u16
}

/// The position of a value inside its container.
pub open spec fn low_half(v: u32) -> u16 {
    (v as int % 65536) as u16
}

proof fn lemma_split_value(v: u32)
    ensures
        (v >> 16u32) as u16 == high_half(v),
        (v & 0xFFFFu32) as u16 == low_half(v),
        compose(high_half(v), low_half(v)) == v,
{
    assert((v >> 16u32) as u16 == (v / 65536) as u16) by (bit_vector);
    assert((v & 0xFFFFu32) as u16 == (v % 65536) as u16) by (bit_vector);
}

proof fn lemma_compose_value(k: u16, low: u16)
    ensures
        ((k as u32) << 16u32) | (low as u32) == compose(k, low),
        high_half(compose(k, low)) == k,
        low_half(compose(k, low)) == low,
{
    assert(((k as u32) << 16u32) | (low as u32) == (k as u32) * 65536 + (low as u32)) by (bit_vector);
}

/// The values of a container placed under key `k`.
pub open spec fn expand(k: u16, s: Set<u16>) -> Set<u32> {
    Set::new(|v: u32| high_half(v) == k && s.contains(low_half(v)))
}

proof fn lemma_expand_len(k: u16, s: Set<u16>)
    requires
        s.finite(),
    ensures
        expand(k, s).finite(),
        expand(k, s).len() == s.len(),
{
    let f = |low: u16| compose(k, low);
    assert forall|v: u32| #[trigger] expand(k, s).contains(v) == s.map(f).contains(v) by {
        if expand(k, s).contains(v) {
            lemma_split_value(v);
            assert(f(low_half(v)) == v);
            assert(s.contains(low_half(v)));
        }
        if s.map(f).contains(v) {
            let low = choose|low: u16| s.contains(low) && f(low) == v;
            lemma_compose_value(k, low);
        }
    }
    assert(expand(k, s) =~= s.map(f));
    assert(vstd::relations::injective_on(f, s)) by {
        assert forall|a: u16, b: u16| s.contains(a) && s.contains(b) && #[trigger] f(a) == #[trigger] f(b) implies a == b by {
            lemma_compose_value(k, a);
            lemma_compose_value(k, b);
        }
    }
    vstd::set_lib::lemma_map_size(s, s.map(f), f);
}

/// Container keys strictly increase.
pub open spec fn keys_increasing(cs: Seq<(u16, Container)>) -> bool {
    forall|i: int, j: int| 0 <= i < j < cs.len() ==> cs[i].0 < cs[j].0
}

/// Every container is well formed.
pub open spec fn containers_wf(cs: Seq<(u16, Container)>) -> bool {
    forall|i: int| 0 <= i < cs.len() ==> (#[trigger] cs[i]).1.wf()
}

/// The values held by a sequence of keyed containers.
pub open spec fn set_of(cs: Seq<(u16, Container)>) -> Set<u32> {
    Set::new(
        |v: u32|
            exists|i: int|
                0 <= i < cs.len() && (#[trigger] cs[i]).0 == high_half(v) && cs[i].1.cset().contains(
                    low_half(v),
                ),
    )
}

proof fn lemma_set_of_empty(cs: Seq<(u16, Container)>)
    requires
        cs.len() == 0,
    ensures
        set_of(cs) == Set::<u32>::empty(),
{
    assert(set_of(cs) =~= Set::<u32>::empty());
}

/// Membership in `set_of` is decided by the container with the value's key.
proof fn lemma_set_of_at(cs: Seq<(u16, Container)>, i: int, v: u32)
    requires
        keys_increasing(cs),
        0 <= i < cs.len(),
        cs[i].0 == high_half(v),
    ensures
        set_of(cs).contains(v) == cs[i].1.cset().contains(low_half(v)),
{
    if set_of(cs).contains(v) {
        let j = choose|j: int|
            0 <= j < cs.len() && (#[trigger] cs[j]).0 == high_half(v) && cs[j].1.cset().contains(
                low_half(v),
            );
        assert(j == i);
    }
}

/// A value whose key no container has is absent.
proof fn lemma_set_of_missing(cs: Seq<(u16, Container)>, v: u32)
    requires
        forall|j: int| 0 <= j < cs.len() ==> (#[trigger] cs[j]).0 != high_half(v),
    ensures
        !set_of(cs).contains(v),
{
}

/// Splitting one container off a sequence of keyed containers.
proof fn lemma_split(cs: Seq<(u16, Container)>, i: int)
    requires
        keys_increasing(cs),
        containers_wf(cs),
        0 <= i < cs.len(),
    ensures
        keys_increasing(cs.remove(i)),
        containers_wf(cs.remove(i)),
        set_of(cs) == set_of(cs.remove(i)).union(expand(cs[i].0, cs[i].1.cset())),
        set_of(cs.remove(i)).disjoint(expand(cs[i].0, cs[i].1.cset())),
        set_of(cs).finite(),
        set_of(cs.remove(i)).finite(),
        set_of(cs).len() == set_of(cs.remove(i)).len() + cs[i].1.cset().len(),
{
    let rest = cs.remove(i);
    let e = expand(cs[i].0, cs[i].1.cset());
    assert forall|a: int, b: int| 0 <= a < b < rest.len() implies rest[a].0 < rest[b].0 by {
        let a0 = if a < i { a } else { a + 1 };
        let b0 = if b < i { b } else { b + 1 };
        assert(rest[a] == cs[a0]);
        assert(rest[b] == cs[b0]);
    }
    assert forall|a: int| 0 <= a < rest.len() implies (#[trigger] rest[a]).1.wf() by {
        let a0 = if a < i { a } else { a + 1 };
        assert(rest[a] == cs[a0]);
    }
    assert forall|v: u32| #[trigger] set_of(cs).contains(v) == set_of(rest).union(e).contains(v) by {
        if set_of(cs).contains(v) {
            let j = choose|j: int|
                0 <= j < cs.len() && (#[trigger] cs[j]).0 == high_half(v) && cs[j].1.cset().contains(
                    low_half(v),
                );
            if j < i {
                assert(rest[j] == cs[j]);
            } else if j > i {
                assert(rest[j - 1] == cs[j]);
            }
        }
        if set_of(rest).contains(v) {
            let j = choose|j: int|
                0 <= j < rest.len() && (#[trigger] rest[j]).0 == high_half(v) && rest[j].1.cset().contains(
                    low_half(v),
                );
            let j0 = if j < i { j } else { j + 1 };
            assert(rest[j] == cs[j0]);
        }
        if e.contains(v) {
            assert(cs[i].0 == high_half(v));
        }
    }
    assert(set_of(cs) =~= set_of(rest).union(e));
    assert forall|v: u32| !(set_of(rest).contains(v) && e.contains(v)) by {
        if set_of(rest).contains(v) && e.contains(v) {
            let j = choose|j: int|
                0 <= j < rest.len() && (#[trigger] rest[j]).0 == high_half(v) && rest[j].1.cset().contains(
                    low_half(v),
                );
            let j0 = if j < i { j } else { j + 1 };
            assert(rest[j] == cs[j0]);
        }
    }
    assert(set_of(rest).disjoint(e));
    lemma_u32_set_finite(set_of(cs));
    lemma_u32_set_finite(set_of(rest));
    lemma_u16_set_finite(cs[i].1.cset());
    lemma_expand_len(cs[i].0, cs[i].1.cset());
    vstd::set_lib::lemma_set_disjoint_lens(set_of(rest), e);
}

/// A set of `u32` values has at most 2^32 elements.
proof fn lemma_u32_set_len(s: Set<u32>)
    ensures
        s.finite(),
        s.len() <= 0x1_0000_0000,
{
    <u32 as vstd::set_lib::FiniteFull>::full_properties();
    vstd::set_lib::lemma_len_subset(s, Set::<u32>::full());
    assert(Set::<u32>::full() =~= Set::<u32>::range_inclusive(0u32, 0xFFFF_FFFFu32));
    <u32 as vstd::set_lib::FiniteRange>::range_properties(0u32, 0xFFFF_FFFFu32);
}

/// The values of a prefix grow by one container at a time.
proof fn lemma_prefix_set(cs: Seq<(u16, Container)>, j: int)
    requires
        keys_increasing(cs),
        containers_wf(cs),
        0 <= j < cs.len(),
    ensures
        set_of(cs.subrange(0, j + 1)) == set_of(cs.subrange(0, j)).union(expand(cs[j].0, cs[j].1.cset())),
        set_of(cs.subrange(0, j + 1)).len() == set_of(cs.subrange(0, j)).len() + cs[j].1.cset().len(),
{
    let sub = cs.subrange(0, j + 1);
    assert forall|a: int, b: int| 0 <= a < b < sub.len() implies sub[a].0 < sub[b].0 by {
        assert(sub[a] == cs[a] && sub[b] == cs[b]);
    }
    assert forall|a: int| 0 <= a < sub.len() implies (#[trigger] sub[a]).1.wf() by {
        assert(sub[a] == cs[a]);
    }
    lemma_split(sub, j);
    assert(sub.remove(j) =~= cs.subrange(0, j));
}

/// The values of a prefix are among the values of the whole sequence.
proof fn lemma_prefix_subset(cs: Seq<(u16, Container)>, j: int)
    requires
        0 <= j <= cs.len(),
    ensures
        set_of(cs.subrange(0, j)).subset_of(set_of(cs)),
{
    assert forall|v: u32| set_of(cs.subrange(0, j)).contains(v) implies set_of(cs).contains(v) by {
        let sub = cs.subrange(0, j);
        let k = choose|k: int|
            0 <= k < sub.len() && (#[trigger] sub[k]).0 == high_half(v) && sub[k].1.cset().contains(
                low_half(v),
            );
        assert(sub[k] == cs[k]);
    }
}

/// Appending a container with a larger key adds its values.
proof fn lemma_push_container(cs: Seq<(u16, Container)>, x: (u16, Container))
    requires
        keys_increasing(cs),
        containers_wf(cs),
        x.1.wf(),
        forall|k: int| 0 <= k < cs.len() ==> cs[k].0 < x.0,
    ensures
        keys_increasing(cs.push(x)),
        containers_wf(cs.push(x)),
        set_of(cs.push(x)) == set_of(cs).union(expand(x.0, x.1.cset())),
        set_of(cs.push(x)).len() == set_of(cs).len() + x.1.cset().len(),
{
    let t = cs.push(x);
    assert forall|a: int, b: int| 0 <= a < b < t.len() implies t[a].0 < t[b].0 by {
        if b < cs.len() {
            assert(t[a] == cs[a] && t[b] == cs[b]);
        } else {
            assert(t[a] == cs[a]);
        }
    }
    assert forall|a: int| 0 <= a < t.len() implies (#[trigger] t[a]).1.wf() by {
        if a < cs.len() {
            assert(t[a] == cs[a]);
        }
    }
    lemma_split(t, cs.len() as int);
    assert(t.remove(cs.len() as int) =~= cs);
}

/// Replacing one container (same key) changes exactly its values.
proof fn lemma_replace_container(cs0: Seq<(u16, Container)>, cs1: Seq<(u16, Container)>, i: int)
    requires
        keys_increasing(cs0),
        containers_wf(cs0),
        0 <= i < cs0.len(),
        cs1.len() == cs0.len(),
        forall|j: int| 0 <= j < cs0.len() && j != i ==> cs1[j] == cs0[j],
        cs1[i].0 == cs0[i].0,
        cs1[i].1.wf(),
    ensures
        keys_increasing(cs1),
        containers_wf(cs1),
        set_of(cs0) == set_of(cs0.remove(i)).union(expand(cs0[i].0, cs0[i].1.cset())),
        set_of(cs1) == set_of(cs0.remove(i)).union(expand(cs0[i].0, cs1[i].1.cset())),
        set_of(cs0).len() == set_of(cs0.remove(i)).len() + cs0[i].1.cset().len(),
        set_of(cs1).len() == set_of(cs0.remove(i)).len() + cs1[i].1.cset().len(),
{
    assert forall|a: int, b: int| 0 <= a < b < cs1.len() implies cs1[a].0 < cs1[b].0 by {
        assert(cs1[a].0 == cs0[a].0 && cs1[b].0 == cs0[b].0);
    }
    assert forall|a: int| 0 <= a < cs1.len() implies (#[trigger] cs1[a]).1.wf() by {
        if a != i {
            assert(cs1[a] == cs0[a]);
        }
    }
    lemma_split(cs0, i);
    lemma_split(cs1, i);
    assert(cs1.remove(i) =~= cs0.remove(i));
}

/// Inserting a container with a fresh key at its sorted position adds its values.
proof fn lemma_insert_container(cs0: Seq<(u16, Container)>, pos: int, x: (u16, Container))
    requires
        keys_increasing(cs0),
        containers_wf(cs0),
        x.1.wf(),
        0 <= pos <= cs0.len(),
        forall|j: int| 0 <= j < pos ==> cs0[j].0 < x.0,
        forall|j: int| pos <= j < cs0.len() ==> cs0[j].0 > x.0,
    ensures
        keys_increasing(cs0.insert(pos, x)),
        containers_wf(cs0.insert(pos, x)),
        set_of(cs0.insert(pos, x)) == set_of(cs0).union(expand(x.0, x.1.cset())),
        set_of(cs0.insert(pos, x)).len() == set_of(cs0).len() + x.1.cset().len(),
{
    let cs1 = cs0.insert(pos, x);
    assert forall|a: int, b: int| 0 <= a < b < cs1.len() implies cs1[a].0 < cs1[b].0 by {
        if a < pos && b > pos {
            assert(cs1[a] == cs0[a] && cs1[b] == cs0[b - 1]);
        } else if a < pos && b < pos {
            assert(cs1[a] == cs0[a] && cs1[b] == cs0[b]);
        } else if a > pos {
            assert(cs1[a] == cs0[a - 1] && cs1[b] == cs0[b - 1]);
        } else if a == pos {
            assert(cs1[b] == cs0[b - 1]);
        } else {
            assert(cs1[a] == cs0[a]);
        }
    }
    assert forall|a: int| 0 <= a < cs1.len() implies (#[trigger] cs1[a]).1.wf() by {
        if a < pos {
            assert(cs1[a] == cs0[a]);
        } else if a > pos {
            assert(cs1[a] == cs0[a - 1]);
        }
    }
    lemma_split(cs1, pos);
    assert(cs1.remove(pos) =~= cs0);
}

/// Binary search of a container key.
fn find_key(cs: &Vec<(u16, Container)>, key: u16) -> (r: Result<usize, usize>)
    requires
        keys_increasing(cs@),
    ensures
        match r {
            Ok(i) => i < cs@.len() && cs@[i as int].0 == key,
            Err(i) => i <= cs@.len() && (forall|j: int| 0 <= j < i ==> cs@[j].0 < key) && (forall|j: int|
                i <= j < cs@.len() ==> cs@[j].0 > key),
        },
{
    let mut lo: usize = 0;
    let mut hi: usize = cs.len();
    while lo < hi
        invariant
            lo <= hi <= cs@.len(),
            keys_increasing(cs@),
            forall|j: int| 0 <= j < lo ==> cs@[j].0 < key,
            forall|j: int| hi <= j < cs@.len() ==> cs@[j].0 > key,
        decreases hi - lo,
    {
        let mid = lo + (hi - lo) / 2;
        let k = cs[mid].0;
        if k == key {
            return Ok(mid);
        } else if k < key {
            lo = mid + 1;
        } else {
            hi = mid;
        }
    }
    Err(lo)
}

// ---------------------------------------------------------------------------
// RoaringBitmap
// ---------------------------------------------------------------------------

/// A compressed bitset for `u32` values using the Roaring layout.
#[derive(Debug, Clone)]
pub struct RoaringBitmap {
    containers: Vec<(u16, Container)>,
    len: usize,
}

impl View for RoaringBitmap {
    type V = Set<u32>;

    closed spec fn view(&self) -> Set<u32> {
        set_of(self.containers@)
    }
}

impl RoaringBitmap {
    /// Keys increase, containers are well formed and the cached length is
    /// the number of values held.
    pub closed spec fn wf(&self) -> bool {
        &&& keys_increasing(self.containers@)
        &&& containers_wf(self.containers@)
        &&& self.len == set_of(self.containers@).len()
    }

    /// An empty bitmap.
    pub fn new() -> (rb: Self)
        ensures
            rb.wf(),
            rb@ == Set::<u32>::empty(),
    {
        let rb = RoaringBitmap { containers: Vec::new(), len: 0 };
        proof {
            lemma_set_of_empty(rb.containers@);
        }
        rb
    }

    /// Whether `value` is present.
    pub fn contains(&self, value: u32) -> (r: bool)
        requires
            self.wf(),
        ensures
            r == self@.contains(value),
    {
        let key = (value >> 16) as u16;
        let low = (value & 0xFFFF) as u16;
        proof {
            lemma_split_value(value);
        }
        match find_key(&self.containers, key) {
            Ok(i) => {
                proof {
                    lemma_set_of_at(self.containers@, i as int, value);
                }
                self.containers[i].1.contains(low)
            },
            Err(_) => {
                proof {
                    lemma_set_of_missing(self.containers@, value);
                }
                false
            },
        }
    }

    /// Number of values held.
    pub fn len(&self) -> (r: usize)
        requires
            self.wf(),
        ensures
            r == self@.len(),
    {
        self.len
    }

    /// Whether no value is held.
    pub fn is_empty(&self) -> (r: bool)
        requires
            self.wf(),
        ensures
            r == (self@ == Set::<u32>::empty()),
    {
        proof {
            lemma_u32_set_len(self@);
            if self@.len() == 0 {
                assert(self@ =~= Set::<u32>::empty());
            } else {
                assert(self@ != Set::<u32>::empty());
            }
        }
        self.len == 0
    }

    /// Insert a value. Returns `true` if the value was newly added.
    pub fn add(&mut self, value: u32) -> (r: bool)
        requires
            old(self).wf(),
            old(self)@.len() < usize::MAX,
        ensures
            final(self).wf(),
            final(self)@ == old(self)@.insert(value),
            r == !old(self)@.contains(value),
    {
        let key = (value >> 16) as u16;
        let low = (value & 0xFFFF) as u16;
        proof {
            lemma_split_value(value);
        }
        let ghost cs0 = self.containers@;
        match find_key(&self.containers, key) {
            Ok(i) => {
                proof {
                    lemma_set_of_at(cs0, i as int, value);
                    lemma_split(cs0, i as int);
                }
                let added = self.containers[i].1.add(low);
                proof {
                    let cs1 = self.containers@;
                    assert(cs1.remove(i as int) =~= cs0.remove(i as int));
                    assert forall|a: int, b: int| 0 <= a < b < cs1.len() implies cs1[a].0 < cs1[b].0 by {
                        assert(cs1[a].0 == cs0[a].0 && cs1[b].0 == cs0[b].0);
                    }
                    assert forall|a: int| 0 <= a < cs1.len() implies (#[trigger] cs1[a]).1.wf() by {
                        if a != i {
                            assert(cs1[a] == cs0[a]);
                        }
                    }
                    lemma_split(cs1, i as int);
                    assert(expand(key, cs1[i as int].1.cset()) =~= expand(key, cs0[i as int].1.cset()).insert(value));
                    assert(set_of(cs1) =~= set_of(cs0).insert(value));
                    if added {
                        lemma_u32_set_len(set_of(cs0));
                    }
                }
                if added {
                    self.len = self.len + 1;
                }
                added
            },
            Err(pos) => {
                let mut c = Container::new_array();
                c.add(low);
                self.containers.insert(pos, (key, c));
                proof {
                    lemma_set_of_missing(cs0, value);
                    let cs1 = self.containers@;
                    assert(cs1.remove(pos as int) =~= cs0);
                    assert forall|a: int, b: int| 0 <= a < b < cs1.len() implies cs1[a].0 < cs1[b].0 by {
                        if a < pos as int && b > pos as int {
                            assert(cs1[a] == cs0[a] && cs1[b] == cs0[b - 1]);
                        } else if a < pos as int && b < pos as int {
                            assert(cs1[a] == cs0[a] && cs1[b] == cs0[b]);
                        } else if a > pos as int {
                            assert(cs1[a] == cs0[a - 1] && cs1[b] == cs0[b - 1]);
                        } else if a == pos as int {
                            assert(cs1[b] == cs0[b - 1]);
                        } else {
                            assert(cs1[a] == cs0[a]);
                        }
                    }
                    assert forall|a: int| 0 <= a < cs1.len() implies (#[trigger] cs1[a]).1.wf() by {
                        if a < pos as int {
                            assert(cs1[a] == cs0[a]);
                        } else if a > pos as int {
                            assert(cs1[a] == cs0[a - 1]);
                        }
                    }
                    lemma_split(cs1, pos as int);
                    assert(expand(key, cs1[pos as int].1.cset()) =~= Set::<u32>::empty().insert(value));
                    assert(set_of(cs1) =~= set_of(cs0).insert(value));
                    lemma_u32_set_len(set_of(cs0));
                }
                self.len = self.len + 1;
                true
            },
        }
    }

    /// Remove a value. Returns `true` if the value was present.
    pub fn remove(&mut self, value: u32) -> (r: bool)
        requires
            old(self).wf(),
        ensures
            final(self).wf(),
            final(self)@ == old(self)@.remove(value),
            r == old(self)@.contains(value),
    {
        let key = (value >> 16) as u16;
        let low = (value & 0xFFFF) as u16;
        proof {
            lemma_split_value(value);
        }
        let ghost cs0 = self.containers@;
        match find_key(&self.containers, key) {
            Ok(i) => {
                proof {
                    lemma_set_of_at(cs0, i as int, value);
                    lemma_split(cs0, i as int);
                }
                let removed = self.containers[i].1.remove(low);
                let ghost cs1 = self.containers@;
                proof {
                    assert(cs1.remove(i as int) =~= cs0.remove(i as int));
                    assert forall|a: int, b: int| 0 <= a < b < cs1.len() implies cs1[a].0 < cs1[b].0 by {
                        assert(cs1[a].0 == cs0[a].0 && cs1[b].0 == cs0[b].0);
                    }
                    assert forall|a: int| 0 <= a < cs1.len() implies (#[trigger] cs1[a]).1.wf() by {
                        if a != i {
                            assert(cs1[a] == cs0[a]);
                        }
                    }
                    lemma_split(cs1, i as int);
                    assert(expand(key, cs1[i as int].1.cset()) =~= expand(key, cs0[i as int].1.cset()).remove(value));
                    assert(set_of(cs1) =~= set_of(cs0).remove(value));
                }
                if removed {
                    self.len = self.len - 1;
                    if self.containers[i].1.is_empty() {
                        self.containers.remove(i);
                        proof {
                            assert(self.containers@ =~= cs1.remove(i as int));
                            assert(expand(key, cs1[i as int].1.cset()) =~= Set::<u32>::empty());
                            assert(set_of(cs1) =~= set_of(self.containers@));
                        }
                    }
                } else {
                    proof {
                        assert(set_of(cs0).remove(value) =~= set_of(cs0));
                    }
                }
                removed
            },
            Err(_) => {
                proof {
                    lemma_set_of_missing(cs0, value);
                    assert(set_of(cs0).remove(value) =~= set_of(cs0));
                }
                false
            },
        }
    }

    /// Union with another bitmap in place.
    pub fn union_with(&mut self, other: &RoaringBitmap)
        requires
            old(self).wf(),
            other.wf(),
            old(self)@.union(other@).len() <= usize::MAX,
        ensures
            final(self).wf(),
            final(self)@ == old(self)@.union(other@),
    {
        let ghost s0 = self@;
        let ghost ocs = other.containers@;
        let mut j: usize = 0;
        proof {
            lemma_set_of_empty(ocs.subrange(0, 0));
            assert(s0.union(set_of(ocs.subrange(0, 0))) =~= s0);
        }
        while j < other.containers.len()
            invariant
                self.wf(),
                other.wf(),
                ocs == other.containers@,
                j <= ocs.len(),
                self@ == s0.union(set_of(ocs.subrange(0, j as int))),
                s0.union(other@).len() <= usize::MAX,
            decreases ocs.len() - j,
        {
            let key = other.containers[j].0;
            let oc = &other.containers[j].1;
            let ghost cs0 = self.containers@;
            proof {
                lemma_prefix_set(ocs, j as int);
                lemma_prefix_subset(ocs, j as int + 1);
                lemma_u32_set_len(s0.union(other@));
                assert(s0.union(set_of(ocs.subrange(0, j + 1))).subset_of(s0.union(other@)));
                vstd::set_lib::lemma_len_subset(
                    s0.union(set_of(ocs.subrange(0, j + 1))),
                    s0.union(other@),
                );
                assert(oc.wf());
            }
            match find_key(&self.containers, key) {
                Ok(i) => {
                    let before = self.containers[i].1.len();
                    self.containers[i].1.insert_all_from(oc);
                    let after = self.containers[i].1.len();
                    proof {
                        let cs1 = self.containers@;
                        lemma_replace_container(cs0, cs1, i as int);
                        lemma_u16_set_finite(cs1[i as int].1.cset());
                        vstd::set_lib::lemma_len_subset(cs0[i as int].1.cset(), cs1[i as int].1.cset());
                        assert(expand(key, cs1[i as int].1.cset()) =~= expand(key, cs0[i as int].1.cset()).union(
                            expand(key, oc.cset()),
                        ));
                        assert(ocs[j as int].0 == key && ocs[j as int].1 == *oc);
                        assert(cs0[i as int].0 == key);
                        assert(set_of(cs0) == s0.union(set_of(ocs.subrange(0, j as int))));
                        assert(set_of(ocs.subrange(0, j + 1)) == set_of(ocs.subrange(0, j as int)).union(
                            expand(key, oc.cset()),
                        ));
                        assert(set_of(cs1) =~= set_of(cs0).union(expand(key, oc.cset())));
                        assert(set_of(cs1) =~= s0.union(set_of(ocs.subrange(0, j + 1))));
                    }
                    self.len = self.len + (after - before);
                },
                Err(pos) => {
                    let mut c = Container::new_array();
                    c.insert_all_from(oc);
                    let after = c.len();
                    proof {
                        lemma_insert_container(cs0, pos as int, (key, c));
                        assert(forall|v: u32|
                            #[trigger] expand(key, oc.cset()).contains(v) ==> !set_of(cs0).contains(v)) by {
                            assert forall|v: u32| #[trigger] expand(key, oc.cset()).contains(v) implies !set_of(
                                cs0,
                            ).contains(v) by {
                                lemma_set_of_missing(cs0, v);
                            }
                        }
                        assert(expand(key, c.cset()) =~= expand(key, oc.cset()));
                    }
                    self.containers.insert(pos, (key, c));
                    proof {
                        assert(set_of(self.containers@) =~= s0.union(set_of(ocs.subrange(0, j + 1))));
                    }
                    self.len = self.len + after;
                },
            }
            j = j + 1;
        }
        proof {
            lemma_prefix_full(ocs);
        }
    }

    /// Shared loop of intersection and difference: rebuild the containers,
    /// combining each with the container of `other` under the same key.
    fn filter_with(&mut self, other: &RoaringBitmap, keep: bool)
        requires
            old(self).wf(),
            other.wf(),
        ensures
            final(self).wf(),
            final(self)@ == if keep {
                old(self)@.intersect(other@)
            } else {
                old(self)@.difference(other@)
            },
    {
        let ghost s0 = self@;
        let ghost target = if keep { s0.intersect(other@) } else { s0.difference(other@) };
        let mut old_cs: Vec<(u16, Container)> = Vec::new();
        std::mem::swap(&mut self.containers, &mut old_cs);
        let ghost orig = old_cs@;
        let mut kept: Vec<(u16, Container)> = Vec::new();
        let mut new_len: usize = 0;
        let mut i: usize = 0;
        proof {
            lemma_set_of_empty(kept@);
            lemma_set_of_empty(orig.subrange(0, 0));
            assert(s0 == set_of(orig));
        }
        while i < old_cs.len()
            invariant
                old_cs@.len() == orig.len(),
                forall|k: int| i <= k < orig.len() ==> old_cs@[k] == orig[k],
                keys_increasing(orig),
                containers_wf(orig),
                s0 == set_of(orig),
                s0.len() <= usize::MAX,
                target == if keep { s0.intersect(other@) } else { s0.difference(other@) },
                other.wf(),
                i <= orig.len(),
                keys_increasing(kept@),
                containers_wf(kept@),
                forall|k: int| 0 <= k < kept@.len() ==> (i < orig.len() ==> kept@[k].0 < orig[i as int].0),
                set_of(kept@) == (if keep {
                    set_of(orig.subrange(0, i as int)).intersect(other@)
                } else {
                    set_of(orig.subrange(0, i as int)).difference(other@)
                }),
                new_len == set_of(kept@).len(),
            decreases orig.len() - i,
        {
            let key = old_cs[i].0;
            let mut c = Container::new_array();
            std::mem::swap(&mut old_cs[i].1, &mut c);
            let ghost prev = if keep {
                set_of(orig.subrange(0, i as int)).intersect(other@)
            } else {
                set_of(orig.subrange(0, i as int)).difference(other@)
            };
            let ghost next = if keep {
                set_of(orig.subrange(0, i + 1)).intersect(other@)
            } else {
                set_of(orig.subrange(0, i + 1)).difference(other@)
            };
            proof {
                assert(c == orig[i as int].1);
                lemma_prefix_set(orig, i as int);
                lemma_prefix_subset(orig, i + 1);
                lemma_u32_set_len(next);
                lemma_u32_set_len(s0);
                assert(next.subset_of(s0));
                vstd::set_lib::lemma_len_subset(next, s0);
            }
            let ghost kept0 = kept@;
            match find_key(&other.containers, key) {
                Ok(oi) => {
                    let oc = &other.containers[oi].1;
                    proof {
                        assert(oc.wf());
                    }
                    if keep {
                        c.retain_intersection(oc);
                    } else {
                        c.subtract(oc);
                    }
                    proof {
                        assert forall|v: u32| #[trigger] next.contains(v) == (prev.contains(v) || expand(
                            key,
                            c.cset(),
                        ).contains(v)) by {
                            if high_half(v) == key {
                                lemma_set_of_at(other.containers@, oi as int, v);
                            }
                        }
                    }
                    if !c.is_empty() {
                        let n = c.len();
                        proof {
                            lemma_push_container(kept0, (key, c));
                            assert(set_of(kept0.push((key, c))) =~= next);
                        }
                        kept.push((key, c));
                        new_len = new_len + n;
                    } else {
                        proof {
                            assert(next =~= prev);
                        }
                    }
                },
                Err(_) => {
                    proof {
                        assert forall|v: u32| #[trigger] next.contains(v) == (prev.contains(v) || (!keep
                            && expand(key, c.cset()).contains(v))) by {
                            if high_half(v) == key {
                                lemma_set_of_missing(other.containers@, v);
                            }
                        }
                    }
                    if !keep {
                        let n = c.len();
                        proof {
                            lemma_push_container(kept0, (key, c));
                            assert(set_of(kept0.push((key, c))) =~= next);
                        }
                        kept.push((key, c));
                        new_len = new_len + n;
                    } else {
                        proof {
                            assert(next =~= prev);
                        }
                    }
                },
            }
            i = i + 1;
        }
        proof {
            lemma_prefix_full(orig);
        }
        self.containers = kept;
        self.len = new_len;
    }

    /// Intersection with another bitmap in place.
    pub fn intersect_with(&mut self, other: &RoaringBitmap)
        requires
            old(self).wf(),
            other.wf(),
        ensures
            final(self).wf(),
            final(self)@ == old(self)@.intersect(other@),
    {
        self.filter_with(other, true);
    }

    /// Difference with another bitmap in place (`self = self \ other`).
    pub fn difference_with(&mut self, other: &RoaringBitmap)
        requires
            old(self).wf(),
            other.wf(),
        ensures
            final(self).wf(),
            final(self)@ == old(self)@.difference(other@),
    {
        self.filter_with(other, false);
    }

    /// A copy holding the same values.
    pub fn copy(&self) -> (r: RoaringBitmap)
        requires
            self.wf(),
        ensures
            r.wf(),
            r@ == self@,
    {
        let mut cs: Vec<(u16, Container)> = Vec::new();
        let mut i: usize = 0;
        let ghost src = self.containers@;
        proof {
            lemma_set_of_empty(cs@);
            lemma_set_of_empty(src.subrange(0, 0));
        }
        while i < self.containers.len()
            invariant
                src == self.containers@,
                keys_increasing(src),
                containers_wf(src),
                i <= src.len(),
                keys_increasing(cs@),
                containers_wf(cs@),
                cs@.len() == i,
                forall|k: int| 0 <= k < i ==> cs@[k].0 == src[k].0,
                set_of(cs@) == set_of(src.subrange(0, i as int)),
                set_of(cs@).len() == set_of(src.subrange(0, i as int)).len(),
            decreases src.len() - i,
        {
            let key = self.containers[i].0;
            let c = self.containers[i].1.copy();
            proof {
                assert(src[i as int].1.wf());
                assert forall|k: int| 0 <= k < cs@.len() implies cs@[k].0 < key by {
                    assert(cs@[k].0 == src[k].0);
                }
                lemma_push_container(cs@, (key, c));
                lemma_prefix_set(src, i as int);
            }
            cs.push((key, c));
            proof {
                assert(set_of(cs@) =~= set_of(src.subrange(0, i + 1)));
            }
            i = i + 1;
        }
        proof {
            lemma_prefix_full(src);
        }
        RoaringBitmap { containers: cs, len: self.len }
    }

    /// A new bitmap holding the union of `self` and `other`.
    pub fn union(&self, other: &RoaringBitmap) -> (r: RoaringBitmap)
        requires
            self.wf(),
            other.wf(),
            self@.union(other@).len() <= usize::MAX,
        ensures
            r.wf(),
            r@ == self@.union(other@),
    {
        let mut result = self.copy();
        result.union_with(other);
        result
    }

    /// A new bitmap holding the intersection of `self` and `other`.
    pub fn intersection(&self, other: &RoaringBitmap) -> (r: RoaringBitmap)
        requires
            self.wf(),
            other.wf(),
        ensures
            r.wf(),
            r@ == self@.intersect(other@),
    {
        let mut result = self.copy();
        result.intersect_with(other);
        result
    }

    /// A new bitmap holding the values of `self` that are not in `other`.
    pub fn difference(&self, other: &RoaringBitmap) -> (r: RoaringBitmap)
        requires
            self.wf(),
            other.wf(),
        ensures
            r.wf(),
            r@ == self@.difference(other@),
    {
        let mut result = self.copy();
        result.difference_with(other);
        result
    }

    /// A bitmap holding the given values (normally given in increasing
    /// order; repeats are held once).
    pub fn from_sorted(values: &[u32]) -> (rb: Self)
        ensures
            rb.wf(),
            rb@ == values@.to_set(),
    {
        let mut rb = Self::new();
        let mut i: usize = 0;
        proof {
            assert(values@.subrange(0, 0).to_set() =~= Set::<u32>::empty());
        }
        while i < values.len()
            invariant
                i <= values@.len(),
                rb.wf(),
                rb@ == values@.subrange(0, i as int).to_set(),
            decreases values@.len() - i,
        {
            proof {
                values@.subrange(0, i as int).lemma_cardinality_of_set();
                lemma_prefix_step(values@, i as int);
            }
            rb.add(values[i]);
            i = i + 1;
        }
        proof {
            lemma_prefix_full(values@);
        }
        rb
    }

    /// All values in increasing order.
    pub fn to_vec(&self) -> (r: Vec<u32>)
        requires
            self.wf(),
        ensures
            strictly_increasing_u32(r@),
            r@.to_set() == self@,
            r@.len() == self@.len(),
    {
        let mut r: Vec<u32> = Vec::new();
        let mut i: usize = 0;
        let ghost cs = self.containers@;
        proof {
            lemma_set_of_empty(cs.subrange(0, 0));
            assert(r@.to_set() =~= Set::<u32>::empty());
        }
        while i < self.containers.len()
            invariant
                cs == self.containers@,
                keys_increasing(cs),
                containers_wf(cs),
                i <= cs.len(),
                strictly_increasing_u32(r@),
                r@.to_set() == set_of(cs.subrange(0, i as int)),
                forall|k: int| 0 <= k < r@.len() ==> (i < cs.len() ==> high_half(r@[k]) < cs[i as int].0),
            decreases cs.len() - i,
        {
            let key = self.containers[i].0;
            let lows = self.containers[i].1.to_vec();
            let ghost base = r@.to_set();
            let mut j: usize = 0;
            proof {
                assert(cs[i as int].1.wf());
                assert(expand(key, lows@.subrange(0, 0).to_set()) =~= Set::<u32>::empty());
                assert(base.union(expand(key, lows@.subrange(0, 0).to_set())) =~= base);
            }
            while j < lows.len()
                invariant
                    strictly_sorted(lows@),
                    strictly_increasing_u32(r@),
                    j <= lows@.len(),
                    r@.to_set() == base.union(expand(key, lows@.subrange(0, j as int).to_set())),
                    forall|k: int| 0 <= k < r@.len() ==> (j < lows@.len() ==> r@[k] < compose(key, lows@[j as int])),
                    forall|k: int| 0 <= k < r@.len() ==> high_half(r@[k]) <= key,
                decreases lows@.len() - j,
            {
                let low = lows[j];
                let v = ((key as u32) << 16) | (low as u32);
                proof {
                    lemma_compose_value(key, low);
                    lemma_push_to_set(r@, v);
                    lemma_prefix_step(lows@, j as int);
                    if j + 1 < lows@.len() {
                        assert(lows@[j as int] < lows@[j + 1]);
                        lemma_compose_value(key, lows@[j + 1]);
                    }
                }
                r.push(v);
                proof {
                    assert(expand(key, lows@.subrange(0, j + 1).to_set()) =~= expand(
                        key,
                        lows@.subrange(0, j as int).to_set(),
                    ).insert(v));
                    assert(r@.to_set() =~= base.union(expand(key, lows@.subrange(0, j + 1).to_set())));
                }
                j = j + 1;
            }
            proof {
                lemma_prefix_full(lows@);
                lemma_prefix_set(cs, i as int);
                assert(r@.to_set() =~= set_of(cs.subrange(0, i + 1)));
            }
            i = i + 1;
        }
        proof {
            lemma_prefix_full(cs);
            assert(r@.no_duplicates());
            r@.unique_seq_to_set();
        }
        r
    }

    /// An iterator over all values in increasing order.
    pub fn iter(&self) -> (it: RoaringIter)
        requires
            self.wf(),
        ensures
            it.wf(),
            strictly_increasing_u32(it.remaining()),
            it.remaining().to_set() == self@,
    {
        let values = self.to_vec();
        let it = RoaringIter { values, pos: 0 };
        proof {
            assert(it.remaining() =~= it.values@);
        }
        it
    }
}

/// Strictly increasing sequence of `u32`.
pub open spec fn strictly_increasing_u32(s: Seq<u32>) -> bool {
    forall|i: int, j: int| 0 <= i < j < s.len() ==> s[i] < s[j]
}

/// A cursor over the values of a bitmap, smallest first.
pub struct RoaringIter {
    values: Vec<u32>,
    pos: usize,
}

impl RoaringIter {
    /// The cursor stays within the listed values.
    pub closed spec fn wf(&self) -> bool {
        self.pos <= self.values@.len()
    }

    /// The values not yet returned.
    pub closed spec fn remaining(&self) -> Seq<u32> {
        self.values@.subrange(self.pos as int, self.values@.len() as int)
    }

    /// The next value, or `None` once all values were returned.
    pub fn next(&mut self) -> (r: Option<u32>)
        requires
            old(self).wf(),
        ensures
            final(self).wf(),
            match r {
                Some(v) => old(self).remaining().len() > 0 && v == old(self).remaining()[0]
                    && final(self).remaining() == old(self).remaining().drop_first(),
                None => old(self).remaining().len() == 0 && final(self).remaining() == old(self).remaining(),
            },
    {
        if self.pos < self.values.len() {
            let v = self.values[self.pos];
            self.pos = self.pos + 1;
            proof {
                assert(self.remaining() =~= old(self).remaining().drop_first());
            }
            Some(v)
        } else {
            None
        }
    }
}

/// The values listed by `to_vec` can be given back to `from_sorted`: they
/// repeat nothing, and rebuild exactly the listed set.
pub proof fn law_to_vec_from_sorted(v: Seq<u32>, s: Set<u32>)
    requires
        strictly_increasing_u32(v),
        v.to_set() == s,
    ensures
        v.no_duplicates(),
        v.to_set() == s,
{
    assert forall|i: int, j: int| 0 <= i < v.len() && 0 <= j < v.len() && i != j implies v[i]
        != v[j] by {
        if i < j {
            assert(v[i] < v[j]);
        } else {
            assert(v[j] < v[i]);
        }
    }
}

/// Adding a value grows the length by one exactly when the value was
/// absent (what `add` returns); removing shrinks it by one exactly when
/// the value was present.
pub proof fn law_len_bookkeeping(s: Set<u32>, x: u32)
    ensures
        s.insert(x).len() == s.len() + if s.contains(x) { 0int } else { 1int },
        s.remove(x).len() == s.len() - if s.contains(x) { 1int } else { 0int },
{
    lemma_u32_set_len(s);
    if s.contains(x) {
        assert(s.insert(x) =~= s);
    } else {
        assert(s.remove(x) =~= s);
    }
}

/// Removing a value undoes adding it, and adding a value undoes removing
/// it.
pub proof fn law_add_remove_undo(s: Set<u32>, x: u32)
    ensures
        !s.contains(x) ==> s.insert(x).remove(x) == s,
        s.contains(x) ==> s.remove(x).insert(x) == s,
{
    if !s.contains(x) {
        assert(s.insert(x).remove(x) =~= s);
    } else {
        assert(s.remove(x).insert(x) =~= s);
    }
}

/// The difference with `b` shares nothing with `b`, and together with the
/// intersection it gives back `a`; the union holds both operands.
pub proof fn law_set_operations(a: Set<u32>, b: Set<u32>)
    ensures
        a.difference(b).intersect(b) == Set::<u32>::empty(),
        a.intersect(b).union(a.difference(b)) == a,
        a.subset_of(a.union(b)) && b.subset_of(a.union(b)),
        a.union(b) == b.union(a),
        a.intersect(b) == b.intersect(a),
{
    assert(a.difference(b).intersect(b) =~= Set::<u32>::empty());
    assert(a.intersect(b).union(a.difference(b)) =~= a);
    assert(a.union(b) =~= b.union(a));
    assert(a.intersect(b) =~= b.intersect(a));
}


/// Two increasing listings of one set are the same sequence: `to_vec` and
/// the values an iterator from `iter` yields list a bitmap alike.
pub proof fn law_sorted_listing_unique(a: Seq<u32>, b: Seq<u32>)
    requires
        strictly_increasing_u32(a),
        strictly_increasing_u32(b),
        a.to_set() == b.to_set(),
    ensures
        a == b,
    decreases a.len(),
{
    if a.len() == 0 {
        if b.len() > 0 {
            assert(b.to_set().contains(b[0]));
            assert(a.to_set().contains(b[0]));
        }
        assert(a =~= b);
    } else {
        assert(a.to_set().contains(a[0]));
        assert(b.to_set().contains(a[0]));
        assert(b.len() > 0);
        assert(b.to_set().contains(b[0]));
        assert(a.to_set().contains(b[0]));
        let i = choose|i: int| 0 <= i < b.len() && b[i] == a[0];
        let j = choose|j: int| 0 <= j < a.len() && a[j] == b[0];
        if i > 0 {
            assert(b[0] < b[i]);
        }
        if j > 0 {
            assert(a[0] < a[j]);
        }
        assert(a[0] == b[0]);
        let a1 = a.drop_first();
        let b1 = b.drop_first();
        assert forall|x: u32| a1.to_set().contains(x) implies b1.to_set().contains(x) by {
            assert(a1.contains(x));
            let k = choose|k: int| 0 <= k < a1.len() && a1[k] == x;
            assert(a[k + 1] == x && a[0] < a[k + 1]);
            assert(a.to_set().contains(x));
            assert(b.contains(x));
            let m = choose|m: int| 0 <= m < b.len() && b[m] == x;
            assert(m != 0);
            assert(b1[m - 1] == x);
        }
        assert forall|x: u32| b1.to_set().contains(x) implies a1.to_set().contains(x) by {
            assert(b1.contains(x));
            let k = choose|k: int| 0 <= k < b1.len() && b1[k] == x;
            assert(b[k + 1] == x && b[0] < b[k + 1]);
            assert(b.to_set().contains(x));
            assert(a.contains(x));
            let m = choose|m: int| 0 <= m < a.len() && a[m] == x;
            assert(m != 0);
            assert(a1[m - 1] == x);
        }
        assert(a1.to_set() =~= b1.to_set());
        law_sorted_listing_unique(a1, b1);
        assert(a =~= b) by {
            assert forall|k: int| 0 <= k < a.len() implies a[k] == b[k] by {
                if k > 0 {
                    assert(a[k] == a1[k - 1]);
                    assert(b[k] == b1[k - 1]);
                }
            }
        }
    }
}

} // verus!
