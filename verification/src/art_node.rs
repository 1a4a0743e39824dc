//! Adaptive radix tree (ART) nodes with arena blocks.
//!
//! Four node sizes:
//! - `Node4`: up to 4 children, keys scanned linearly
//! - `Node16`: up to 16 children, grown from a full `Node4`
//! - `Node48`: up to 48 children, reached through a 256-entry byte index
//! - `Node256`: one slot per byte
//!
//! Every node carries a compressed `prefix`, the row offsets stored at the
//! node (`offsets`, at most one) and further offsets of duplicate keys
//! (`overflow_offsets`).

use vstd::prelude::*;

verus! {

/// Maximum number of nodes per arena block.
pub const NODE_BLOCK_CAPACITY: usize = 16 * 1024;

/// Growth threshold of a `Node4`.
pub const NODE4_MAX: u16 = 4;

/// Growth threshold of a `Node16`.
pub const NODE16_MAX: u16 = 16;

/// Growth threshold of a `Node48`.
pub const NODE48_MAX: u16 = 48;

/// Marker for unused entries of a `Node48` byte index.
pub const EMPTY_MARKER: u8 = 255;

/// ART node kind.
#[derive(Debug, Clone, Copy, PartialEq, Eq)]
pub enum NodeKind {
    Node4,
    Node16,
    Node48,
    Node256,
}

/// An ART node: a prefix, child slots and value offsets.
///
/// Child slots are vectors of fixed length (4, 16, 48 or 256); `keys` and
/// `child_index` map bytes to slots as in the classic layout.
pub enum ArtNode {
    Node4 {
        prefix: Vec<u8>,
        keys: Vec<u8>,
        children: Vec<Option<Box<ArtNode>>>,
        offsets: Vec<u64>,
        overflow_offsets: Vec<u64>,
        count: u16,
    },
    Node16 {
        prefix: Vec<u8>,
        keys: Vec<u8>,
        children: Vec<Option<Box<ArtNode>>>,
        offsets: Vec<u64>,
        overflow_offsets: Vec<u64>,
        count: u16,
    },
    Node48 {
        prefix: Vec<u8>,
        child_index: Vec<u8>,
        children: Vec<Option<Box<ArtNode>>>,
        offsets: Vec<u64>,
        overflow_offsets: Vec<u64>,
        count: u16,
    },
    Node256 {
        prefix: Vec<u8>,
        children: Vec<Option<Box<ArtNode>>>,
        offsets: Vec<u64>,
        overflow_offsets: Vec<u64>,
        count: u16,
    },
}

/// `i` is the first slot below `count` whose key is `b`.
pub open spec fn is_first_key(keys: Seq<u8>, count: int, b: u8, i: int) -> bool {
    0 <= i < count && keys[i] == b && forall|j: int| 0 <= j < i ==> keys[j] != b
}

/// The first slot below `count` whose key is `b`, if any.
pub open spec fn first_key(keys: Seq<u8>, count: int, b: u8) -> Option<int> {
    if exists|i: int| is_first_key(keys, count, b, i) {
        Some(choose|i: int| is_first_key(keys, count, b, i))
    } else {
        None
    }
}

/// `i` is the last slot below `count` whose key is `b`.
pub open spec fn is_last_key(keys: Seq<u8>, count: int, b: u8, i: int) -> bool {
    0 <= i < count && keys[i] == b && forall|j: int| i < j < count ==> keys[j] != b
}

/// The last slot below `count` whose key is `b`, if any.
pub open spec fn last_key(keys: Seq<u8>, count: int, b: u8) -> Option<int> {
    if exists|i: int| is_last_key(keys, count, b, i) {
        Some(choose|i: int| is_last_key(keys, count, b, i))
    } else {
        None
    }
}

proof fn lemma_first_key_is(keys: Seq<u8>, count: int, b: u8, i: int)
    requires
        is_first_key(keys, count, b, i),
    ensures
        first_key(keys, count, b) == Some(i),
{
    let k = choose|k: int| is_first_key(keys, count, b, k);
    assert(k == i);
}

proof fn lemma_first_key_none(keys: Seq<u8>, count: int, b: u8)
    requires
        forall|j: int| 0 <= j < count ==> keys[j] != b,
    ensures
        first_key(keys, count, b) is None,
{
}

proof fn lemma_first_key_some(keys: Seq<u8>, count: int, b: u8, i: int)
    requires
        0 <= i < count,
        keys[i] == b,
    ensures
        first_key(keys, count, b) is Some,
    decreases i,
{
    if forall|j: int| 0 <= j < i ==> keys[j] != b {
        lemma_first_key_is(keys, count, b, i);
    } else {
        let j = choose|j: int| 0 <= j < i && keys[j] == b;
        lemma_first_key_some(keys, count, b, j);
    }
}

proof fn lemma_last_key_is(keys: Seq<u8>, count: int, b: u8, i: int)
    requires
        is_last_key(keys, count, b, i),
    ensures
        last_key(keys, count, b) == Some(i),
{
    let k = choose|k: int| is_last_key(keys, count, b, k);
    assert(k == i);
}

/// The first matching slot only depends on the first `n` keys.
proof fn lemma_first_key_ext(k1: Seq<u8>, k2: Seq<u8>, n: int, b: u8)
    requires
        forall|i: int| 0 <= i < n ==> k1[i] == k2[i],
    ensures
        first_key(k1, n, b) == first_key(k2, n, b),
{
    if exists|i: int| is_first_key(k1, n, b, i) {
        let i = choose|i: int| is_first_key(k1, n, b, i);
        lemma_first_key_is(k1, n, b, i);
        assert(is_first_key(k2, n, b, i));
        lemma_first_key_is(k2, n, b, i);
    } else if exists|i: int| is_first_key(k2, n, b, i) {
        let i = choose|i: int| is_first_key(k2, n, b, i);
        assert(is_first_key(k1, n, b, i));
    }
}

/// Appending key `x` at slot `n`.
proof fn lemma_first_key_append(k: Seq<u8>, k2: Seq<u8>, n: int, x: u8, b: u8)
    requires
        0 <= n,
        forall|i: int| 0 <= i < n ==> k2[i] == k[i],
        k2[n] == x,
    ensures
        first_key(k2, n + 1, b) == if first_key(k, n, b) is Some {
            first_key(k, n, b)
        } else if b == x {
            Some(n)
        } else {
            None::<int>
        },
{
    if first_key(k, n, b) is Some {
        let i = choose|i: int| is_first_key(k, n, b, i);
        assert(is_first_key(k2, n + 1, b, i));
        lemma_first_key_is(k2, n + 1, b, i);
    } else {
        assert forall|j: int| 0 <= j < n implies k[j] != b by {
            if k[j] == b {
                lemma_first_key_some(k, n, b, j);
            }
        }
        if b == x {
            assert(is_first_key(k2, n + 1, b, n));
            lemma_first_key_is(k2, n + 1, b, n);
        } else {
            lemma_first_key_none(k2, n + 1, b);
        }
    }
}

/// Bytes with an entry in a `Node48` index.
pub open spec fn used48(idx: Seq<u8>) -> Set<u8> {
    Set::new(|b: u8| idx[b as int] != EMPTY_MARKER)
}

/// Bytes with an occupied `Node256` slot.
pub open spec fn used256(ch: Seq<Option<Box<ArtNode>>>) -> Set<u8> {
    Set::new(|b: u8| ch[b as int] is Some)
}

/// Every set of bytes is finite and has at most 256 elements.
proof fn lemma_u8_set(s: Set<u8>)
    ensures
        s.finite(),
        s.len() <= 256,
{
    <u8 as vstd::set_lib::FiniteFull>::full_properties();
    vstd::set_lib::lemma_len_subset(s, Set::<u8>::full());
    assert(Set::<u8>::full() =~= Set::<u8>::range_inclusive(0u8, 255u8));
    <u8 as vstd::set_lib::FiniteRange>::range_properties(0u8, 255u8);
}

/// `b` is the smallest byte whose `Node48` index entry is `idx[b]`.
pub open spec fn first_owner(idx: Seq<u8>, b: int) -> bool {
    forall|b2: int| 0 <= b2 < b ==> idx[b2] != idx[b]
}

/// The `Node256` slot of byte `b` after growing a `Node48`: each `Node48`
/// slot goes to the smallest byte indexing it.
pub open spec fn grown_slot(idx: Seq<u8>, ch: Seq<Option<Box<ArtNode>>>, b: int) -> Option<Box<ArtNode>> {
    if idx[b] != EMPTY_MARKER && first_owner(idx, b) {
        ch[idx[b] as int]
    } else {
        None
    }
}

impl ArtNode {
    /// The node kind.
    pub open spec fn spec_kind(&self) -> NodeKind {
        match self {
            ArtNode::Node4 { .. } => NodeKind::Node4,
            ArtNode::Node16 { .. } => NodeKind::Node16,
            ArtNode::Node48 { .. } => NodeKind::Node48,
            ArtNode::Node256 { .. } => NodeKind::Node256,
        }
    }

    /// The number of children recorded by the node.
    pub open spec fn spec_count(&self) -> u16 {
        match self {
            ArtNode::Node4 { count, .. } => *count,
            ArtNode::Node16 { count, .. } => *count,
            ArtNode::Node48 { count, .. } => *count,
            ArtNode::Node256 { count, .. } => *count,
        }
    }

    /// The prefix bytes.
    pub open spec fn spec_prefix(&self) -> Seq<u8> {
        match self {
            ArtNode::Node4 { prefix, .. } => prefix@,
            ArtNode::Node16 { prefix, .. } => prefix@,
            ArtNode::Node48 { prefix, .. } => prefix@,
            ArtNode::Node256 { prefix, .. } => prefix@,
        }
    }

    /// The primary offsets.
    pub open spec fn spec_offsets(&self) -> Seq<u64> {
        match self {
            ArtNode::Node4 { offsets, .. } => offsets@,
            ArtNode::Node16 { offsets, .. } => offsets@,
            ArtNode::Node48 { offsets, .. } => offsets@,
            ArtNode::Node256 { offsets, .. } => offsets@,
        }
    }

    /// The overflow offsets.
    pub open spec fn spec_overflow(&self) -> Seq<u64> {
        match self {
            ArtNode::Node4 { overflow_offsets, .. } => overflow_offsets@,
            ArtNode::Node16 { overflow_offsets, .. } => overflow_offsets@,
            ArtNode::Node48 { overflow_offsets, .. } => overflow_offsets@,
            ArtNode::Node256 { overflow_offsets, .. } => overflow_offsets@,
        }
    }

    /// All offsets, primary first.
    pub open spec fn spec_all_offsets(&self) -> Seq<u64> {
        self.spec_offsets() + self.spec_overflow()
    }

    /// At most one primary offset, and overflow offsets only next to one.
    pub open spec fn offsets_wf(&self) -> bool {
        &&& self.spec_offsets().len() <= 1
        &&& self.spec_offsets().len() == 0 ==> self.spec_overflow().len() == 0
    }

    /// Slot vectors have their fixed lengths, counts stay within the
    /// capacity, occupied `Node4`/`Node16` slots hold a child, `Node48`
    /// index entries point into its 48 slots, no more bytes are in use
    /// than the count records, and a `Node256` count exceeds its occupied
    /// slots by at most the 48 slots it was grown from.
    pub open spec fn wf(&self) -> bool {
        &&& self.offsets_wf()
        &&& match self {
            ArtNode::Node4 { keys, children, count, .. } => {
                &&& keys@.len() == 4
                &&& children@.len() == 4
                &&& *count <= 4
                &&& forall|i: int| 0 <= i < *count ==> children@[i] is Some
            },
            ArtNode::Node16 { keys, children, count, .. } => {
                &&& keys@.len() == 16
                &&& children@.len() == 16
                &&& *count <= 16
                &&& forall|i: int| 0 <= i < *count ==> children@[i] is Some
            },
            ArtNode::Node48 { child_index, children, count, .. } => {
                &&& child_index@.len() == 256
                &&& children@.len() == 48
                &&& *count <= 48
                &&& forall|b: int| 0 <= b < 256 ==> child_index@[b] == EMPTY_MARKER || child_index@[b] < 48
                &&& used48(child_index@).len() <= *count
            },
            ArtNode::Node256 { children, count, .. } => {
                &&& children@.len() == 256
                &&& used256(children@).len() <= *count
                &&& *count <= used256(children@).len() + 48
            },
        }
    }

    /// Whether byte `b` has an entry in the node (key slot, index entry or
    /// occupied slot).
    pub open spec fn has_key(&self, b: u8) -> bool {
        match self {
            ArtNode::Node4 { keys, count, .. } => first_key(keys@, *count as int, b) is Some,
            ArtNode::Node16 { keys, count, .. } => first_key(keys@, *count as int, b) is Some,
            ArtNode::Node48 { child_index, .. } => child_index@[b as int] != EMPTY_MARKER,
            ArtNode::Node256 { children, .. } => children@[b as int] is Some,
        }
    }

    /// The child reached through byte `b`.
    pub open spec fn child(&self, b: u8) -> Option<Box<ArtNode>> {
        match self {
            ArtNode::Node4 { keys, children, count, .. } => match first_key(keys@, *count as int, b) {
                Some(i) => children@[i],
                None => None,
            },
            ArtNode::Node16 { keys, children, count, .. } => match first_key(keys@, *count as int, b) {
                Some(i) => children@[i],
                None => None,
            },
            ArtNode::Node48 { child_index, children, .. } => if child_index@[b as int] == EMPTY_MARKER {
                None
            } else {
                children@[child_index@[b as int] as int]
            },
            ArtNode::Node256 { children, .. } => children@[b as int],
        }
    }

    /// Compact layout: distinct keys in `Node4`/`Node16`; in `Node48` the
    /// used index entries are distinct, point to occupied slots and are as
    /// many as the count; in `Node256` the count is the
    /// number of occupied slots.
    pub open spec fn compact(&self) -> bool {
        match self {
            ArtNode::Node4 { keys, count, .. } => forall|i: int, j: int|
                0 <= i < j < *count ==> keys@[i] != keys@[j],
            ArtNode::Node16 { keys, count, .. } => forall|i: int, j: int|
                0 <= i < j < *count ==> keys@[i] != keys@[j],
            ArtNode::Node48 { child_index, children, count, .. } => {
                &&& forall|b: int|
                    0 <= b < 256 && child_index@[b] != EMPTY_MARKER ==> child_index@[b] < 48
                        && children@[child_index@[b] as int] is Some
                &&& forall|b1: int, b2: int|
                    0 <= b1 < 256 && 0 <= b2 < 256 && b1 != b2 && child_index@[b1] != EMPTY_MARKER
                        ==> child_index@[b1] != child_index@[b2]
                &&& used48(child_index@).len() == *count
            },
            ArtNode::Node256 { children, count, .. } => used256(children@).len() == *count,
        }
    }

    /// Whether inserting a child makes the node grow to the next kind.
    pub open spec fn grows_on_insert(&self) -> bool {
        match self {
            ArtNode::Node4 { count, .. } => *count == 4,
            ArtNode::Node16 { count, .. } => *count == 16,
            ArtNode::Node48 { count, .. } => *count == 48,
            ArtNode::Node256 { .. } => false,
        }
    }

    /// The kind after inserting a child.
    pub open spec fn kind_after_insert(&self) -> NodeKind {
        if self.grows_on_insert() {
            match self {
                ArtNode::Node4 { .. } => NodeKind::Node16,
                ArtNode::Node16 { .. } => NodeKind::Node48,
                _ => NodeKind::Node256,
            }
        } else {
            self.spec_kind()
        }
    }

    /// The child slot of byte `b` seen once a full `Node16` or `Node48`
    /// has grown, before the new child is inserted (for other kinds, the
    /// current child).
    pub open spec fn child_after_growth(&self, b: u8) -> Option<Box<ArtNode>> {
        match self {
            ArtNode::Node16 { keys, children, count, .. } => if *count == 16 {
                match last_key(keys@, 16, b) {
                    Some(i) => children@[i],
                    None => None,
                }
            } else {
                self.child(b)
            },
            ArtNode::Node48 { child_index, children, count, .. } => if *count == 48 {
                grown_slot(child_index@, children@, b as int)
            } else {
                self.child(b)
            },
            _ => self.child(b),
        }
    }

    /// The child of byte `b` after inserting `new_child` under `byte`.
    pub open spec fn child_after_insert(&self, byte: u8, new_child: Box<ArtNode>, b: u8) -> Option<
        Box<ArtNode>,
    > {
        match self {
            ArtNode::Node48 { count, .. } => if *count < 48 {
                if b == byte {
                    Some(new_child)
                } else {
                    self.child(b)
                }
            } else if b == byte && self.child_after_growth(b) is None {
                Some(new_child)
            } else {
                self.child_after_growth(b)
            },
            ArtNode::Node16 { count, .. } => if *count == 16 && b == byte {
                Some(new_child)
            } else if b == byte && self.child(b) is None {
                Some(new_child)
            } else {
                self.child_after_growth(b)
            },
            _ => if b == byte && self.child(b) is None {
                Some(new_child)
            } else {
                self.child(b)
            },
        }
    }

    /// The count after inserting a child under `byte`.
    pub open spec fn count_after_insert(&self, byte: u8) -> int {
        match self {
            ArtNode::Node48 { count, .. } => if *count < 48 || self.child_after_growth(byte) is None {
                *count + 1
            } else {
                *count as int
            },
            ArtNode::Node256 { count, .. } => if self.child(byte) is None {
                *count + 1
            } else {
                *count as int
            },
            _ => self.spec_count() + 1,
        }
    }

    /// Equal in every field except the offsets.
    pub open spec fn same_except_offsets(&self, other: &ArtNode) -> bool {
        match (self, other) {
            (
                ArtNode::Node4 { prefix: p1, keys: k1, children: c1, count: n1, .. },
                ArtNode::Node4 { prefix: p2, keys: k2, children: c2, count: n2, .. },
            ) => p1 == p2 && k1 == k2 && c1 == c2 && n1 == n2,
            (
                ArtNode::Node16 { prefix: p1, keys: k1, children: c1, count: n1, .. },
                ArtNode::Node16 { prefix: p2, keys: k2, children: c2, count: n2, .. },
            ) => p1 == p2 && k1 == k2 && c1 == c2 && n1 == n2,
            (
                ArtNode::Node48 { prefix: p1, child_index: k1, children: c1, count: n1, .. },
                ArtNode::Node48 { prefix: p2, child_index: k2, children: c2, count: n2, .. },
            ) => p1 == p2 && k1 == k2 && c1 == c2 && n1 == n2,
            (
                ArtNode::Node256 { prefix: p1, children: c1, count: n1, .. },
                ArtNode::Node256 { prefix: p2, children: c2, count: n2, .. },
            ) => p1 == p2 && c1 == c2 && n1 == n2,
            _ => false,
        }
    }
}

/// Append an offset: primary when none, overflow otherwise.
fn offsets_add(offsets: &mut Vec<u64>, overflow: &mut Vec<u64>, offset: u64)
    requires
        old(offsets)@.len() <= 1,
        old(offsets)@.len() == 0 ==> old(overflow)@.len() == 0,
    ensures
        final(offsets)@.len() <= 1,
        final(offsets)@.len() == 0 ==> final(overflow)@.len() == 0,
        final(offsets)@ + final(overflow)@ == (old(offsets)@ + old(overflow)@).push(offset),
{
    if offsets.len() == 0 {
        offsets.push(offset);
    } else {
        overflow.push(offset);
    }
    proof {
        assert(offsets@ + overflow@ =~= (old(offsets)@ + old(overflow)@).push(offset));
    }
}

impl ArtNode {
    /// Add a value offset to this node.
    pub fn add_offset(&mut self, offset: u64)
        requires
            old(self).wf(),
        ensures
            final(self).wf(),
            final(self).same_except_offsets(&*old(self)),
            final(self).spec_all_offsets() == old(self).spec_all_offsets().push(offset),
    {
        match self {
            ArtNode::Node4 { offsets, overflow_offsets, .. } => offsets_add(offsets, overflow_offsets, offset),
            ArtNode::Node16 { offsets, overflow_offsets, .. } => offsets_add(offsets, overflow_offsets, offset),
            ArtNode::Node48 { offsets, overflow_offsets, .. } => offsets_add(offsets, overflow_offsets, offset),
            ArtNode::Node256 { offsets, overflow_offsets, .. } => offsets_add(offsets, overflow_offsets, offset),
        }
    }

    /// Create a new empty `Node4`.
    pub fn new_node4() -> (n: Self)
        ensures
            n.wf(),
            n.compact(),
            n.spec_kind() == NodeKind::Node4,
            n.spec_count() == 0,
            n.spec_prefix() == Seq::<u8>::empty(),
            n.spec_all_offsets() == Seq::<u64>::empty(),
            forall|b: u8| #[trigger] n.child(b) is None && !n.has_key(b),
    {
        let n = ArtNode::Node4 {
            prefix: Vec::new(),
            keys: vec![0u8; 4],
            children: none_slots(4),
            offsets: Vec::new(),
            overflow_offsets: Vec::new(),
            count: 0,
        };
        proof {
            assert(n.spec_all_offsets() =~= Seq::<u64>::empty());
            assert forall|b: u8| #[trigger] n.child(b) is None && !n.has_key(b) by {
                match n {
                    ArtNode::Node4 { keys, .. } => lemma_first_key_none(keys@, 0, b),
                    _ => {},
                }
            }
        }
        n
    }

    /// The node kind.
    pub fn kind(&self) -> (k: NodeKind)
        ensures
            k == self.spec_kind(),
    {
        match self {
            ArtNode::Node4 { .. } => NodeKind::Node4,
            ArtNode::Node16 { .. } => NodeKind::Node16,
            ArtNode::Node48 { .. } => NodeKind::Node48,
            ArtNode::Node256 { .. } => NodeKind::Node256,
        }
    }

    /// The number of children.
    pub fn count(&self) -> (c: u16)
        ensures
            c == self.spec_count(),
    {
        match self {
            ArtNode::Node4 { count, .. } => *count,
            ArtNode::Node16 { count, .. } => *count,
            ArtNode::Node48 { count, .. } => *count,
            ArtNode::Node256 { count, .. } => *count,
        }
    }

    /// The prefix bytes.
    pub fn prefix(&self) -> (p: &[u8])
        ensures
            p@ == self.spec_prefix(),
    {
        match self {
            ArtNode::Node4 { prefix, .. } => prefix.as_slice(),
            ArtNode::Node16 { prefix, .. } => prefix.as_slice(),
            ArtNode::Node48 { prefix, .. } => prefix.as_slice(),
            ArtNode::Node256 { prefix, .. } => prefix.as_slice(),
        }
    }

    /// Whether this node has any offsets.
    pub fn has_offsets(&self) -> (r: bool)
        ensures
            r == (self.spec_all_offsets().len() > 0),
    {
        let (offsets, overflow) = match self {
            ArtNode::Node4 { offsets, overflow_offsets, .. } => (offsets, overflow_offsets),
            ArtNode::Node16 { offsets, overflow_offsets, .. } => (offsets, overflow_offsets),
            ArtNode::Node48 { offsets, overflow_offsets, .. } => (offsets, overflow_offsets),
            ArtNode::Node256 { offsets, overflow_offsets, .. } => (offsets, overflow_offsets),
        };
        offsets.len() != 0 || overflow.len() != 0
    }

    /// All offsets (primary first, then overflow).
    pub fn all_offsets(&self) -> (r: Vec<u64>)
        ensures
            r@ == self.spec_all_offsets(),
    {
        let (offsets, overflow) = match self {
            ArtNode::Node4 { offsets, overflow_offsets, .. } => (offsets, overflow_offsets),
            ArtNode::Node16 { offsets, overflow_offsets, .. } => (offsets, overflow_offsets),
            ArtNode::Node48 { offsets, overflow_offsets, .. } => (offsets, overflow_offsets),
            ArtNode::Node256 { offsets, overflow_offsets, .. } => (offsets, overflow_offsets),
        };
        let mut result: Vec<u64> = Vec::new();
        let mut i: usize = 0;
        while i < offsets.len()
            invariant
                i <= offsets@.len(),
                result@ == offsets@.subrange(0, i as int),
            decreases offsets@.len() - i,
        {
            result.push(offsets[i]);
            proof {
                assert(result@ =~= offsets@.subrange(0, i + 1));
            }
            i = i + 1;
        }
        let mut j: usize = 0;
        while j < overflow.len()
            invariant
                i == offsets@.len(),
                j <= overflow@.len(),
                result@ == offsets@ + overflow@.subrange(0, j as int),
            decreases overflow@.len() - j,
        {
            result.push(overflow[j]);
            proof {
                assert(result@ =~= offsets@ + overflow@.subrange(0, j + 1));
            }
            j = j + 1;
        }
        proof {
            assert(result@ =~= offsets@ + overflow@);
        }
        result
    }

    /// Remove the first occurrence of an offset (primary or overflow).
    /// Returns `true` if the offset was found and removed.
    pub fn remove_offset(&mut self, offset: u64) -> (r: bool)
        requires
            old(self).wf(),
        ensures
            final(self).wf(),
            final(self).same_except_offsets(&*old(self)),
            match first_index(old(self).spec_all_offsets(), offset) {
                Some(k) => r && final(self).spec_all_offsets() == old(self).spec_all_offsets().remove(k),
                None => !r && final(self).spec_all_offsets() == old(self).spec_all_offsets(),
            },
    {
        match self {
            ArtNode::Node4 { offsets, overflow_offsets, .. } => offsets_remove(offsets, overflow_offsets, offset),
            ArtNode::Node16 { offsets, overflow_offsets, .. } => offsets_remove(offsets, overflow_offsets, offset),
            ArtNode::Node48 { offsets, overflow_offsets, .. } => offsets_remove(offsets, overflow_offsets, offset),
            ArtNode::Node256 { offsets, overflow_offsets, .. } => offsets_remove(offsets, overflow_offsets, offset),
        }
    }

    /// Clear all offsets from this node.
    pub fn clear_offsets(&mut self)
        requires
            old(self).wf(),
        ensures
            final(self).wf(),
            final(self).same_except_offsets(&*old(self)),
            final(self).spec_all_offsets() == Seq::<u64>::empty(),
    {
        match self {
            ArtNode::Node4 { offsets, overflow_offsets, .. } => {
                offsets.clear();
                overflow_offsets.clear();
            },
            ArtNode::Node16 { offsets, overflow_offsets, .. } => {
                offsets.clear();
                overflow_offsets.clear();
            },
            ArtNode::Node48 { offsets, overflow_offsets, .. } => {
                offsets.clear();
                overflow_offsets.clear();
            },
            ArtNode::Node256 { offsets, overflow_offsets, .. } => {
                offsets.clear();
                overflow_offsets.clear();
            },
        }
        proof {
            assert(self.spec_all_offsets() =~= Seq::<u64>::empty());
        }
    }

    /// Whether this node has no children, no offsets and no prefix.
    pub fn is_empty(&self) -> (r: bool)
        ensures
            r == (self.spec_all_offsets().len() == 0 && self.spec_count() == 0
                && self.spec_prefix().len() == 0),
    {
        !self.has_offsets() && self.count() == 0 && self.prefix().len() == 0
    }
}

impl ArtNode {
    /// The child of byte `b` after removing the entry of `byte`.
    pub open spec fn child_after_remove(&self, byte: u8, b: u8) -> Option<Box<ArtNode>> {
        match self {
            ArtNode::Node4 { keys, children, count, .. } => match first_key(keys@, *count as int, byte) {
                Some(i) => match first_key(keys@.remove(i), *count - 1, b) {
                    Some(j) => children@.remove(i)[j],
                    None => None,
                },
                None => self.child(b),
            },
            ArtNode::Node16 { keys, children, count, .. } => match first_key(keys@, *count as int, byte) {
                Some(i) => match first_key(keys@.remove(i), *count - 1, b) {
                    Some(j) => children@.remove(i)[j],
                    None => None,
                },
                None => self.child(b),
            },
            ArtNode::Node48 { child_index, .. } => if b == byte {
                None
            } else if child_index@[byte as int] != EMPTY_MARKER && child_index@[b as int]
                == child_index@[byte as int] {
                None
            } else {
                self.child(b)
            },
            ArtNode::Node256 { .. } => if b == byte {
                None
            } else {
                self.child(b)
            },
        }
    }

    /// Get a child by byte, if it exists.
    pub fn get_child(&self, byte: u8) -> (r: Option<&Box<ArtNode>>)
        requires
            self.wf(),
        ensures
            match r {
                Some(c) => self.child(byte) == Some(*c),
                None => self.child(byte) is None,
            },
    {
        match self {
            ArtNode::Node4 { keys, children, count, .. } => {
                let mut i: usize = 0;
                while i < *count as usize
                    invariant
                        i <= *count as int,
                        *count <= 4,
                        keys@.len() == 4,
                        children@.len() == 4,
                        forall|j: int| 0 <= j < i ==> keys@[j] != byte,
                        forall|j: int| 0 <= j < *count ==> children@[j] is Some,
                        self.child(byte) == match first_key(keys@, *count as int, byte) {
                            Some(j) => children@[j],
                            None => None,
                        },
                    decreases *count as int - i,
                {
                    if keys[i] == byte {
                        proof {
                            lemma_first_key_is(keys@, *count as int, byte, i as int);
                            assert(self.child(byte) == children@[i as int]);
                        }
                        let r = children[i].as_ref();
                        proof {
                            assert(children@[i as int] is Some);
                        }
                        return r;
                    }
                    i = i + 1;
                }
                proof {
                    lemma_first_key_none(keys@, *count as int, byte);
                }
                None
            },
            ArtNode::Node16 { keys, children, count, .. } => {
                let mut i: usize = 0;
                while i < *count as usize
                    invariant
                        i <= *count as int,
                        *count <= 16,
                        keys@.len() == 16,
                        children@.len() == 16,
                        forall|j: int| 0 <= j < i ==> keys@[j] != byte,
                        forall|j: int| 0 <= j < *count ==> children@[j] is Some,
                        self.child(byte) == match first_key(keys@, *count as int, byte) {
                            Some(j) => children@[j],
                            None => None,
                        },
                    decreases *count as int - i,
                {
                    if keys[i] == byte {
                        proof {
                            lemma_first_key_is(keys@, *count as int, byte, i as int);
                            assert(self.child(byte) == children@[i as int]);
                        }
                        let r = children[i].as_ref();
                        proof {
                            assert(children@[i as int] is Some);
                        }
                        return r;
                    }
                    i = i + 1;
                }
                proof {
                    lemma_first_key_none(keys@, *count as int, byte);
                }
                None
            },
            ArtNode::Node48 { child_index, children, .. } => {
                let idx = child_index[byte as usize];
                if idx == EMPTY_MARKER {
                    None
                } else {
                    children[idx as usize].as_ref()
                }
            },
            ArtNode::Node256 { children, .. } => children[byte as usize].as_ref(),
        }
    }
}

impl ArtNode {
    /// Insert a child at the given byte, growing the node when it is full.
    pub fn insert_child(&mut self, byte: u8, child: Box<ArtNode>)
        requires
            old(self).wf(),
        ensures
            final(self).wf(),
            final(self).spec_kind() == old(self).kind_after_insert(),
            final(self).spec_count() == old(self).count_after_insert(byte),
            final(self).spec_prefix() == old(self).spec_prefix(),
            final(self).spec_offsets() == old(self).spec_offsets(),
            final(self).spec_overflow() == old(self).spec_overflow(),
            forall|b: u8| #[trigger] final(self).child(b) == old(self).child_after_insert(byte, child, b),
            old(self).compact() && !old(self).has_key(byte) ==> final(self).compact(),
            old(self).compact() && !old(self).has_key(byte) ==> final(self).has_key(byte),
    {
        let mut node = ArtNode::new_node4();
        std::mem::swap(self, &mut node);
        let ghost old_node = node;
        match node {
            ArtNode::Node4 { prefix, mut keys, mut children, offsets, overflow_offsets, count } => {
                proof {
                    assert(old_node.wf());
                    assert(forall|j: int| 0 <= j < count ==> children@[j] is Some);
                }
                if count < NODE4_MAX {
                    keys.set(count as usize, byte);
                    children.set(count as usize, Some(child));
                    let ghost ok = old_node->Node4_keys@;
                    proof {
                        assert forall|b: u8| #[trigger] first_key(keys@, count + 1, b) == if first_key(ok, count as int, b) is Some {
                            first_key(ok, count as int, b)
                        } else if b == byte {
                            Some(count as int)
                        } else {
                            None::<int>
                        } by {
                            lemma_first_key_append(ok, keys@, count as int, byte, b);
                        }
                        assert(first_key(keys@, count + 1, byte) is Some);
                    }
                    proof {
                        if old_node.compact() && !old_node.has_key(byte) {
                            assert forall|j: int| 0 <= j < count implies ok[j] != byte by {
                                if ok[j] == byte {
                                    lemma_first_key_some(ok, count as int, byte, j);
                                }
                            }
                        }
                    }
                    *self = ArtNode::Node4 { prefix, keys, children, offsets, overflow_offsets, count: count + 1 };
                    assert(self.wf());
                    assert(old_node.compact() && !old_node.has_key(byte) ==> self.compact());
                } else {
                    let (mut k16, mut c16) = grow_keys_4_16(keys, children);
                    let ghost gk = k16@;
                    let ghost gc = c16@;
                    let ghost ok = old_node->Node4_keys@;
                    assert(forall|j: int| 0 <= j < 4 ==> gc[j] == children@[j]);
                    assert(forall|j: int| 0 <= j < 4 ==> gc[j] is Some);
                    k16.set(4, byte);
                    c16.set(4, Some(child));
                    proof {
                        assert forall|b: u8| #[trigger] first_key(k16@, 5, b) == if first_key(ok, 4, b) is Some {
                            first_key(ok, 4, b)
                        } else if b == byte {
                            Some(4int)
                        } else {
                            None::<int>
                        } by {
                            lemma_first_key_append(ok, k16@, 4, byte, b);
                        }
                        assert(first_key(k16@, 5, byte) is Some);
                    }
                    assert(count == 4);
                    assert(c16@.len() == 16);
                    assert(forall|j: int| 0 <= j < 5 ==> c16@[j] is Some);
                    assert(offsets@.len() <= 1);
                    proof {
                        if old_node.compact() && !old_node.has_key(byte) {
                            assert forall|j: int| 0 <= j < 4 implies ok[j] != byte by {
                                if ok[j] == byte {
                                    lemma_first_key_some(ok, 4, byte, j);
                                }
                            }
                            assert(forall|j: int| 0 <= j < 4 ==> k16@[j] == ok[j]);
                            assert(k16@[4] == byte);
                            assert(old_node.compact());
                            assert(forall|i: int, j: int| 0 <= i < j < 4 ==> ok[i] != ok[j]);
                            assert forall|i: int, j: int| 0 <= i < j < 5 implies k16@[i] != k16@[j] by {
                                if j < 4 {
                                    assert(ok[i] != ok[j]);
                                }
                            }
                        }
                    }
                    *self = ArtNode::Node16 { prefix, keys: k16, children: c16, offsets, overflow_offsets, count: 5 };
                    assert(self.wf());
                    assert(old_node.compact() && !old_node.has_key(byte) ==> self.compact());
                }
            },
            ArtNode::Node16 { prefix, mut keys, mut children, offsets, overflow_offsets, count } => {
                proof {
                    assert(old_node.wf());
                    assert(forall|j: int| 0 <= j < count ==> children@[j] is Some);
                }
                if count < NODE16_MAX {
                    keys.set(count as usize, byte);
                    children.set(count as usize, Some(child));
                    let ghost ok = old_node->Node16_keys@;
                    proof {
                        assert forall|b: u8| #[trigger] first_key(keys@, count + 1, b) == if first_key(ok, count as int, b) is Some {
                            first_key(ok, count as int, b)
                        } else if b == byte {
                            Some(count as int)
                        } else {
                            None::<int>
                        } by {
                            lemma_first_key_append(ok, keys@, count as int, byte, b);
                        }
                        assert(first_key(keys@, count + 1, byte) is Some);
                    }
                    proof {
                        if old_node.compact() && !old_node.has_key(byte) {
                            assert forall|j: int| 0 <= j < count implies ok[j] != byte by {
                                if ok[j] == byte {
                                    lemma_first_key_some(ok, count as int, byte, j);
                                }
                            }
                        }
                    }
                    *self = ArtNode::Node16 { prefix, keys, children, offsets, overflow_offsets, count: count + 1 };
                    assert(self.wf());
                    assert(old_node.compact() && !old_node.has_key(byte) ==> self.compact());
                } else {
                    let ghost ok = old_node->Node16_keys@;
                    let ghost oc = old_node->Node16_children@;
                    proof {
                        assert(old_node.wf());
                        assert(forall|j: int| 0 <= j < 16 ==> oc[j] is Some);
                    }
                    let (mut idx, mut c48) = grow_keys_16_48(keys, children);
                    let ghost gidx = idx@;
                    idx.set(byte as usize, 16);
                    c48.set(16, Some(child));
                    proof {
                        lemma_u8_set(ok.to_set());
                        ok.lemma_cardinality_of_set();
                        assert(used48(idx@) =~= used48(gidx).insert(byte));
                        lemma_u8_set(used48(gidx));
                        assert forall|b: int| 0 <= b < 256 implies idx@[b] == EMPTY_MARKER || idx@[b] < 48 by {
                            if b != byte as int {
                                let bb = b as u8;
                                assert(gidx[bb as int] == match last_key(ok, 16, bb) {
                                    Some(i) => i as u8,
                                    None => EMPTY_MARKER,
                                });
                                if last_key(ok, 16, bb) is Some {
                                    let i = choose|i: int| is_last_key(ok, 16, bb, i);
                                }
                            }
                        }
                        assert forall|b: u8| #[trigger] self_child48(idx@, c48@, b) == old_node.child_after_insert(byte, child, b) by {
                            if b != byte {
                                assert(gidx[b as int] == match last_key(ok, 16, b) {
                                    Some(i) => i as u8,
                                    None => EMPTY_MARKER,
                                });
                                if last_key(ok, 16, b) is Some {
                                    let i = choose|i: int| is_last_key(ok, 16, b, i);
                                    assert(c48@[i] == oc[i]);
                                }
                            }
                        }
                        if old_node.compact() && !old_node.has_key(byte) {
                            assert forall|j: int| 0 <= j < 16 implies ok[j] != byte by {
                                if ok[j] == byte {
                                    lemma_first_key_some(ok, 16, byte, j);
                                }
                            }
                            assert forall|b: int| 0 <= b < 256 && idx@[b] != EMPTY_MARKER implies idx@[b] < 17
                                && c48@[idx@[b] as int] is Some by {
                                if b != byte as int {
                                    let bb = b as u8;
                                    assert(gidx[bb as int] == match last_key(ok, 16, bb) {
                                        Some(i) => i as u8,
                                        None => EMPTY_MARKER,
                                    });
                                    let i = last_key(ok, 16, bb)->0;
                                    assert(0 <= i < 16) by {
                                        let k = choose|k: int| is_last_key(ok, 16, bb, k);
                                    }
                                    assert(c48@[i] == oc[i]);
                                    assert(oc[i] is Some);
                                }
                            }
                            assert forall|b1: int, b2: int|
                                0 <= b1 < 256 && 0 <= b2 < 256 && b1 != b2 && idx@[b1] != EMPTY_MARKER
                                    implies idx@[b1] != idx@[b2] by {
                                let x1 = b1 as u8;
                                let x2 = b2 as u8;
                                assert(gidx[x1 as int] == match last_key(ok, 16, x1) {
                                    Some(i) => i as u8,
                                    None => EMPTY_MARKER,
                                });
                                assert(gidx[x2 as int] == match last_key(ok, 16, x2) {
                                    Some(i) => i as u8,
                                    None => EMPTY_MARKER,
                                });
                                if last_key(ok, 16, x1) is Some {
                                    let i = choose|i: int| is_last_key(ok, 16, x1, i);
                                    lemma_last_key_is(ok, 16, x1, i);
                                }
                                if last_key(ok, 16, x2) is Some {
                                    let i = choose|i: int| is_last_key(ok, 16, x2, i);
                                    lemma_last_key_is(ok, 16, x2, i);
                                }
                            }
                            assert(ok.no_duplicates());
                            ok.unique_seq_to_set();
                            assert(!used48(gidx).contains(byte));
                        }
                    }
                    *self = ArtNode::Node48 { prefix, child_index: idx, children: c48, offsets, overflow_offsets, count: 17 };
                    assert(self.wf());
                }
            },
            ArtNode::Node48 { prefix, mut child_index, mut children, offsets, overflow_offsets, count } => {
                if count < NODE48_MAX {
                    let ghost oi = child_index@;
                    let ghost oc = children@;
                    proof {
                        assert(old_node.wf());
                    }
                    let slot = free_slot(&child_index, count);
                    child_index.set(byte as usize, slot as u8);
                    children.set(slot, Some(child));
                    proof {
                        lemma_u8_set(used48(oi));
                        if oi[byte as int] == EMPTY_MARKER {
                            assert(used48(child_index@) =~= used48(oi).insert(byte));
                        } else {
                            assert(used48(child_index@) =~= used48(oi));
                        }
                        assert forall|b: int| 0 <= b < 256 implies child_index@[b] == EMPTY_MARKER || child_index@[b] < 48 by {}
                        if old_node.compact() && !old_node.has_key(byte) {
                            assert(!used48(oi).contains(byte));
                            assert forall|b: int| 0 <= b < 256 && child_index@[b] != EMPTY_MARKER implies
                                child_index@[b] < 48 && children@[child_index@[b] as int] is Some by {
                                if b != byte as int {
                                    assert(oi[b] != slot as u8);
                                }
                            }
                            assert forall|b1: int, b2: int|
                                0 <= b1 < 256 && 0 <= b2 < 256 && b1 != b2 && child_index@[b1] != EMPTY_MARKER
                                    implies child_index@[b1] != child_index@[b2] by {
                                if b1 == byte as int {
                                    assert(oi[b2] != slot as u8);
                                } else if b2 == byte as int {
                                    assert(oi[b1] != slot as u8);
                                }
                            }
                        }
                        assert forall|b: u8| b != byte implies #[trigger] self_child48(child_index@, children@, b)
                            == self_child48(oi, oc, b) by {
                            if oi[b as int] != EMPTY_MARKER {
                                assert(oi[b as int] != slot as u8);
                            }
                        }
                    }
                    *self = ArtNode::Node48 { prefix, child_index, children, offsets, overflow_offsets, count: count + 1 };
                    assert(self.wf());
                } else {
                    let ghost oi = child_index@;
                    let ghost oc = children@;
                    let mut c256 = grow_slots_48_256(&child_index, children);
                    let ghost g = c256@;
                    let mut new_count = count;
                    if c256[byte as usize].is_none() {
                        c256.set(byte as usize, Some(child));
                        new_count = count + 1;
                    }
                    proof {
                        assert(used256(g).subset_of(used48(oi)));
                        lemma_u8_set(used48(oi));
                        vstd::set_lib::lemma_len_subset(used256(g), used48(oi));
                        if new_count == count + 1 {
                            assert(used256(c256@) =~= used256(g).insert(byte));
                        } else {
                            assert(used256(c256@) =~= used256(g));
                        }
                        lemma_u8_set(used256(g));
                        if old_node.compact() && !old_node.has_key(byte) {
                            assert forall|b: u8| #[trigger] used256(g).contains(b) == used48(oi).contains(b) by {
                                if oi[b as int] != EMPTY_MARKER {
                                    assert(first_owner(oi, b as int));
                                }
                            }
                            assert(used256(g) =~= used48(oi));
                            assert(!used256(g).contains(byte));
                        }
                    }
                    *self = ArtNode::Node256 { prefix, children: c256, offsets, overflow_offsets, count: new_count };
                    assert(self.wf());
                }
            },
            ArtNode::Node256 { prefix, mut children, offsets, overflow_offsets, count } => {
                let ghost oc = children@;
                proof {
                    assert(old_node.wf());
                    lemma_u8_set(used256(oc));
                }
                let mut new_count = count;
                if children[byte as usize].is_none() {
                    children.set(byte as usize, Some(child));
                    new_count = count + 1;
                    proof {
                        assert(used256(children@) =~= used256(oc).insert(byte));
                        lemma_u8_set(used256(oc));
                    }
                }
                *self = ArtNode::Node256 { prefix, children, offsets, overflow_offsets, count: new_count };
                assert(self.wf());
            },
        }
    }
}

/// Drop slot `i` of a key/slot layout, shifting later slots left.
fn shift_remove(keys: &mut Vec<u8>, children: &mut Vec<Option<Box<ArtNode>>>, i: usize, count: u16)
    requires
        i < count <= old(keys)@.len(),
        old(keys)@.len() == old(children)@.len(),
    ensures
        final(keys)@.len() == old(keys)@.len(),
        final(children)@.len() == old(children)@.len(),
        forall|j: int| 0 <= j < count - 1 ==> final(keys)@[j] == old(keys)@.remove(i as int)[j],
        forall|j: int| 0 <= j < count - 1 ==> final(children)@[j] == old(children)@.remove(i as int)[j],
{
    let ghost ok = keys@;
    let ghost oc = children@;
    let last = (count - 1) as usize;
    let mut j: usize = i;
    while j < last
        invariant
            i <= j <= last,
            last == count - 1,
            count <= ok.len(),
            ok.len() == oc.len(),
            keys@.len() == ok.len(),
            children@.len() == oc.len(),
            forall|k: int| 0 <= k < i ==> keys@[k] == ok[k] && children@[k] == oc[k],
            forall|k: int| i <= k < j ==> keys@[k] == ok[k + 1] && children@[k] == oc[k + 1],
            forall|k: int| j < k < ok.len() ==> keys@[k] == ok[k] && children@[k] == oc[k],
        decreases last - j,
    {
        let k = keys[j + 1];
        keys.set(j, k);
        let t = children[j + 1].take();
        children.set(j, t);
        j = j + 1;
    }
    children.set(last, None);
}

impl ArtNode {
    /// The count after removing the entry of `byte`.
    pub open spec fn count_after_remove(&self, byte: u8) -> int {
        if self.has_key(byte) {
            self.spec_count() - 1
        } else {
            self.spec_count() as int
        }
    }

    /// Remove the child of a byte. Does not shrink the node.
    pub fn remove_child(&mut self, byte: u8)
        requires
            old(self).wf(),
        ensures
            final(self).wf(),
            final(self).spec_kind() == old(self).spec_kind(),
            final(self).spec_count() == old(self).count_after_remove(byte),
            final(self).spec_prefix() == old(self).spec_prefix(),
            final(self).spec_offsets() == old(self).spec_offsets(),
            final(self).spec_overflow() == old(self).spec_overflow(),
            forall|b: u8| #[trigger] final(self).child(b) == old(self).child_after_remove(byte, b),
            old(self).compact() && old(self).spec_kind() != NodeKind::Node48 ==> final(self).compact(),
    {
        let mut node = ArtNode::new_node4();
        std::mem::swap(self, &mut node);
        let ghost old_node = node;
        proof {
            assert(old_node.wf());
        }
        match node {
            ArtNode::Node4 { prefix, mut keys, mut children, offsets, overflow_offsets, count } => {
                let ghost ok = keys@;
                let ghost oc = children@;
                let mut i: usize = 0;
                let mut new_count = count;
                while i < count as usize && keys[i] != byte
                    invariant
                        i <= count,
                        count <= 4,
                        keys@ == ok,
                        children@ == oc,
                        ok.len() == 4,
                        oc.len() == 4,
                        forall|j: int| 0 <= j < i ==> ok[j] != byte,
                    decreases count - i,
                {
                    i = i + 1;
                }
                if i < count as usize {
                    proof {
                        lemma_first_key_is(ok, count as int, byte, i as int);
                    }
                    shift_remove(&mut keys, &mut children, i, count);
                    new_count = count - 1;
                    proof {
                        assert forall|b: u8| #[trigger] first_key(keys@, new_count as int, b) == first_key(
                            ok.remove(i as int),
                            new_count as int,
                            b,
                        ) by {
                            lemma_first_key_ext(keys@, ok.remove(i as int), new_count as int, b);
                        }
                    }
                } else {
                    proof {
                        lemma_first_key_none(ok, count as int, byte);
                    }
                }
                *self = ArtNode::Node4 { prefix, keys, children, offsets, overflow_offsets, count: new_count };
            },
            ArtNode::Node16 { prefix, mut keys, mut children, offsets, overflow_offsets, count } => {
                let ghost ok = keys@;
                let ghost oc = children@;
                let mut i: usize = 0;
                let mut new_count = count;
                while i < count as usize && keys[i] != byte
                    invariant
                        i <= count,
                        count <= 16,
                        keys@ == ok,
                        children@ == oc,
                        ok.len() == 16,
                        oc.len() == 16,
                        forall|j: int| 0 <= j < i ==> ok[j] != byte,
                    decreases count - i,
                {
                    i = i + 1;
                }
                if i < count as usize {
                    proof {
                        lemma_first_key_is(ok, count as int, byte, i as int);
                    }
                    shift_remove(&mut keys, &mut children, i, count);
                    new_count = count - 1;
                    proof {
                        assert forall|b: u8| #[trigger] first_key(keys@, new_count as int, b) == first_key(
                            ok.remove(i as int),
                            new_count as int,
                            b,
                        ) by {
                            lemma_first_key_ext(keys@, ok.remove(i as int), new_count as int, b);
                        }
                    }
                } else {
                    proof {
                        lemma_first_key_none(ok, count as int, byte);
                    }
                }
                *self = ArtNode::Node16 { prefix, keys, children, offsets, overflow_offsets, count: new_count };
            },
            ArtNode::Node48 { prefix, mut child_index, mut children, offsets, overflow_offsets, count } => {
                let ghost oi = child_index@;
                let idx = child_index[byte as usize];
                let mut new_count = count;
                if idx != EMPTY_MARKER {
                    children.set(idx as usize, None);
                    child_index.set(byte as usize, EMPTY_MARKER);
                    proof {
                        assert(used48(child_index@) =~= used48(oi).remove(byte));
                        lemma_u8_set(used48(oi));
                        assert(used48(oi).contains(byte));
                    }
                    new_count = count - 1;
                }
                *self = ArtNode::Node48 { prefix, child_index, children, offsets, overflow_offsets, count: new_count };
            },
            ArtNode::Node256 { prefix, mut children, offsets, overflow_offsets, count } => {
                let ghost oc = children@;
                let mut new_count = count;
                let taken = children[byte as usize].take();
                if taken.is_some() {
                    proof {
                        assert(used256(children@) =~= used256(oc).remove(byte));
                        lemma_u8_set(used256(oc));
                        assert(used256(oc).contains(byte));
                    }
                    new_count = count - 1;
                } else {
                    proof {
                        assert(children@ =~= oc);
                    }
                }
                *self = ArtNode::Node256 { prefix, children, offsets, overflow_offsets, count: new_count };
            },
        }
    }
}

impl ArtNode {
    /// Whether bytes `b` and `byte` reach the same child slot.
    pub open spec fn shares_slot(&self, b: u8, byte: u8) -> bool {
        match self {
            ArtNode::Node48 { child_index, .. } => child_index@[b as int] == child_index@[byte as int],
            _ => b == byte,
        }
    }

    /// A mutable reference to the child of a byte, if it exists.
    pub fn get_child_mut(&mut self, byte: u8) -> (r: Option<&mut Box<ArtNode>>)
        requires
            old(self).wf(),
        ensures
            match r {
                Some(c) => {
                    &&& old(self).child(byte) == Some(*c)
                    &&& final(self).wf()
                    &&& final(self).spec_kind() == old(self).spec_kind()
                    &&& final(self).spec_count() == old(self).spec_count()
                    &&& final(self).spec_prefix() == old(self).spec_prefix()
                    &&& final(self).spec_all_offsets() == old(self).spec_all_offsets()
                    &&& old(self).compact() ==> final(self).compact()
                    &&& forall|b: u8| #[trigger] final(self).has_key(b) == old(self).has_key(b)
                    &&& forall|b: u8| #[trigger] final(self).child(b) == if old(self).child(b) is Some
                        && old(self).shares_slot(b, byte) {
                        Some(*final(c))
                    } else {
                        old(self).child(b)
                    }
                },
                None => old(self).child(byte) is None && *final(self) == *old(self),
            },
    {
        match self {
            ArtNode::Node4 { keys, children, count, .. } => {
                let mut i: usize = 0;
                while i < *count as usize && keys[i] != byte
                    invariant
                        i <= *count as int,
                        *count <= 4,
                        keys@.len() == 4,
                        forall|j: int| 0 <= j < i ==> keys@[j] != byte,
                    decreases *count as int - i,
                {
                    i = i + 1;
                }
                if i < *count as usize {
                    proof {
                        lemma_first_key_is(keys@, *count as int, byte, i as int);
                    }
                    children[i].as_mut()
                } else {
                    proof {
                        lemma_first_key_none(keys@, *count as int, byte);
                    }
                    None
                }
            },
            ArtNode::Node16 { keys, children, count, .. } => {
                let mut i: usize = 0;
                while i < *count as usize && keys[i] != byte
                    invariant
                        i <= *count as int,
                        *count <= 16,
                        keys@.len() == 16,
                        forall|j: int| 0 <= j < i ==> keys@[j] != byte,
                    decreases *count as int - i,
                {
                    i = i + 1;
                }
                if i < *count as usize {
                    proof {
                        lemma_first_key_is(keys@, *count as int, byte, i as int);
                    }
                    children[i].as_mut()
                } else {
                    proof {
                        lemma_first_key_none(keys@, *count as int, byte);
                    }
                    None
                }
            },
            ArtNode::Node48 { child_index, children, .. } => {
                let idx = child_index[byte as usize];
                if idx == EMPTY_MARKER || children[idx as usize].is_none() {
                    None
                } else {
                    children[idx as usize].as_mut()
                }
            },
            ArtNode::Node256 { children, .. } => {
                if children[byte as usize].is_none() {
                    None
                } else {
                    proof {
                        assert forall|x: Box<ArtNode>| #[trigger] used256(children@.update(byte as int, Some(x)))
                            == used256(children@) by {
                            assert(used256(children@.update(byte as int, Some(x))) =~= used256(children@));
                        }
                    }
                    children[byte as usize].as_mut()
                }
            },
        }
    }
}

/// An empty `Node4` as created by `ArtNode::new_node4`.
pub open spec fn is_fresh_node4(n: ArtNode) -> bool {
    &&& n.wf()
    &&& n.compact()
    &&& n.spec_kind() == NodeKind::Node4
    &&& n.spec_count() == 0
    &&& n.spec_prefix() == Seq::<u8>::empty()
    &&& n.spec_all_offsets() == Seq::<u64>::empty()
    &&& forall|b: u8| #[trigger] n.child(b) is None && !n.has_key(b)
}

impl ArtNode {
    /// The child of a byte, inserting a new empty `Node4` there first when
    /// the byte has none.
    pub fn get_or_insert_child(&mut self, byte: u8) -> (r: &mut Box<ArtNode>)
        requires
            old(self).wf(),
        ensures
            final(self).wf(),
            final(self).spec_prefix() == old(self).spec_prefix(),
            final(self).spec_all_offsets() == old(self).spec_all_offsets(),
            final(self).child(byte) == Some(*final(r)),
            old(self).child(byte) is Some ==> {
                &&& old(self).child(byte) == Some(*r)
                &&& final(self).spec_kind() == old(self).spec_kind()
                &&& final(self).spec_count() == old(self).spec_count()
                &&& forall|b: u8| #[trigger] final(self).child(b) == if old(self).child(b) is Some
                    && old(self).shares_slot(b, byte) {
                    Some(*final(r))
                } else {
                    old(self).child(b)
                }
            },
            old(self).child(byte) is None ==> {
                &&& is_fresh_node4(**r)
                &&& final(self).spec_kind() == old(self).kind_after_insert()
                &&& final(self).spec_count() == old(self).count_after_insert(byte)
            },
            old(self).compact() && !old(self).has_key(byte) ==> {
                &&& final(self).compact()
                &&& forall|b: u8| b != byte ==> #[trigger] final(self).child(b) == old(self).child(b)
            },
    {
        if self.get_child(byte).is_some() {
            return self.get_child_mut(byte).unwrap();
        }
        let new_child = Box::new(ArtNode::new_node4());
        self.insert_child(byte, new_child);
        let ghost mid = *self;
        proof {
            assert(mid.child(byte) is Some);
            if old(self).compact() && !old(self).has_key(byte) {
                assert(mid.compact());
                assert forall|b: u8| b != byte && mid.child(b) is Some implies !mid.shares_slot(b, byte) by {
                    match mid {
                        ArtNode::Node48 { child_index, children, .. } => {
                            assert(mid.has_key(byte));
                        },
                        _ => {},
                    }
                }
                assert forall|b: u8| b != byte implies #[trigger] mid.child(b) == old(self).child(b) by {
                    assert(mid.child(b) == old(self).child_after_insert(byte, new_child, b));
                    match *old(self) {
                        ArtNode::Node48 { child_index, count, .. } => {
                            if count < 48 && child_index@[b as int] as int == count as int {
                                assert(child_index@[b as int] != EMPTY_MARKER);
                            }
                            if count == 48 {
                                if child_index@[b as int] != EMPTY_MARKER {
                                    assert(first_owner(child_index@, b as int));
                                }
                            }
                        },
                        ArtNode::Node16 { keys, children, count, .. } => {
                            if count == 16 {
                                if first_key(keys@, 16, b) is Some {
                                    let i = choose|i: int| is_first_key(keys@, 16, b, i);
                                    lemma_first_key_is(keys@, 16, b, i);
                                    assert(is_last_key(keys@, 16, b, i));
                                    lemma_last_key_is(keys@, 16, b, i);
                                } else {
                                    assert forall|i: int| !is_last_key(keys@, 16, b, i) by {
                                        if is_last_key(keys@, 16, b, i) {
                                            lemma_first_key_some(keys@, 16, b, i);
                                        }
                                    }
                                }
                            }
                        },
                        _ => {},
                    }
                }
            }
        }
        self.get_child_mut(byte).unwrap()
    }
}

impl ArtNode {
    /// The prefix bytes, for modification.
    pub fn prefix_mut(&mut self) -> (p: &mut Vec<u8>)
        ensures
            p@ == old(self).spec_prefix(),
            final(self).spec_prefix() == final(p)@,
            final(self).spec_kind() == old(self).spec_kind(),
            final(self).spec_count() == old(self).spec_count(),
            final(self).spec_offsets() == old(self).spec_offsets(),
            final(self).spec_overflow() == old(self).spec_overflow(),
            old(self).wf() ==> final(self).wf(),
            old(self).compact() ==> final(self).compact(),
            forall|b: u8| #[trigger] final(self).child(b) == old(self).child(b),
            forall|b: u8| #[trigger] final(self).has_key(b) == old(self).has_key(b),
    {
        match self {
            ArtNode::Node4 { prefix, .. } => prefix,
            ArtNode::Node16 { prefix, .. } => prefix,
            ArtNode::Node48 { prefix, .. } => prefix,
            ArtNode::Node256 { prefix, .. } => prefix,
        }
    }
}

// ---- Arena block for node storage ----

/// A block of nodes allocated in one vector. Nodes are appended and never
/// individually freed; the whole block is cleared at once.
pub struct NodeBlock {
    nodes: Vec<ArtNode>,
    used: usize,
}

impl NodeBlock {
    /// The stored nodes.
    pub closed spec fn spec_nodes(&self) -> Seq<ArtNode> {
        self.nodes@
    }

    /// The number of used slots matches the stored nodes and stays within capacity.
    pub closed spec fn wf(&self) -> bool {
        &&& self.used == self.nodes@.len()
        &&& self.used <= NODE_BLOCK_CAPACITY
    }

    /// An empty block.
    pub fn new() -> (b: Self)
        ensures
            b.wf(),
            b.spec_nodes() == Seq::<ArtNode>::empty(),
    {
        NodeBlock { nodes: Vec::with_capacity(NODE_BLOCK_CAPACITY), used: 0 }
    }

    /// Allocate a new node in this block; returns its index within the block.
    pub fn allocate(&mut self, node: ArtNode) -> (idx: usize)
        requires
            old(self).wf(),
            old(self).spec_nodes().len() < NODE_BLOCK_CAPACITY,
        ensures
            final(self).wf(),
            idx == old(self).spec_nodes().len(),
            final(self).spec_nodes() == old(self).spec_nodes().push(node),
    {
        let idx = self.used;
        self.nodes.push(node);
        self.used = self.used + 1;
        idx
    }

    /// The node at an index, if any.
    pub fn get(&self, idx: usize) -> (r: Option<&ArtNode>)
        requires
            self.wf(),
        ensures
            match r {
                Some(n) => idx < self.spec_nodes().len() && *n == self.spec_nodes()[idx as int],
                None => idx >= self.spec_nodes().len(),
            },
    {
        if idx < self.nodes.len() {
            Some(&self.nodes[idx])
        } else {
            None
        }
    }

    /// A mutable reference to the node at an index, if any.
    pub fn get_mut(&mut self, idx: usize) -> (r: Option<&mut ArtNode>)
        requires
            old(self).wf(),
        ensures
            final(self).wf(),
            match r {
                Some(n) => idx < old(self).spec_nodes().len() && *n == old(self).spec_nodes()[idx as int]
                    && final(self).spec_nodes() == old(self).spec_nodes().update(idx as int, *final(n)),
                None => idx >= old(self).spec_nodes().len() && final(self).spec_nodes() == old(
                    self,
                ).spec_nodes(),
            },
    {
        if idx < self.nodes.len() {
            Some(&mut self.nodes[idx])
        } else {
            None
        }
    }

    /// Number of used slots.
    pub fn len(&self) -> (n: usize)
        requires
            self.wf(),
        ensures
            n == self.spec_nodes().len(),
    {
        self.used
    }

    /// Whether no slot is used.
    pub fn is_empty(&self) -> (r: bool)
        requires
            self.wf(),
        ensures
            r == (self.spec_nodes().len() == 0),
    {
        self.used == 0
    }

    /// Capacity of this block.
    pub fn capacity(&self) -> (c: usize)
        ensures
            c == NODE_BLOCK_CAPACITY,
    {
        NODE_BLOCK_CAPACITY
    }

    /// How many slots remain.
    pub fn remaining(&self) -> (r: usize)
        requires
            self.wf(),
        ensures
            r == NODE_BLOCK_CAPACITY - self.spec_nodes().len(),
    {
        NODE_BLOCK_CAPACITY - self.used
    }

    /// Drop all nodes.
    pub fn clear(&mut self)
        ensures
            final(self).wf(),
            final(self).spec_nodes() == Seq::<ArtNode>::empty(),
    {
        self.nodes.clear();
        self.used = 0;
    }
}

impl Default for NodeBlock {
    fn default() -> (b: Self)
        ensures
            b.wf(),
            b.spec_nodes() == Seq::<ArtNode>::empty(),
    {
        Self::new()
    }
}

/// The child of byte `b` in a `Node48` layout.
pub open spec fn self_child48(idx: Seq<u8>, ch: Seq<Option<Box<ArtNode>>>, b: u8) -> Option<Box<ArtNode>> {
    if idx[b as int] == EMPTY_MARKER {
        None
    } else {
        ch[idx[b as int] as int]
    }
}

/// Every one of the 48 slots of a `Node48` is indexed by some byte only when
/// at least 48 bytes are in use.
proof fn lemma_all_slots_indexed(idx: Seq<u8>)
    requires
        idx.len() == 256,
        forall|s: int| 0 <= s < 48 ==> #[trigger] slot_indexed(idx, s),
    ensures
        used48(idx).len() >= 48,
{
    let owners = Seq::new(48, |s: int| (choose|b: int| 0 <= b < 256 && idx[b] == s as u8) as u8);
    assert forall|s: int| 0 <= s < 48 implies idx[owners[s] as int] == s as u8 by {
        assert(slot_indexed(idx, s));
    }
    assert(owners.no_duplicates()) by {
        assert forall|i: int, j: int| 0 <= i < owners.len() && 0 <= j < owners.len() && i != j implies owners[i]
            != owners[j] by {
            assert(idx[owners[i] as int] == i as u8);
            assert(idx[owners[j] as int] == j as u8);
        }
    }
    owners.unique_seq_to_set();
    assert(owners.to_set().subset_of(used48(idx))) by {
        assert forall|b: u8| owners.to_set().contains(b) implies used48(idx).contains(b) by {
            let i = choose|i: int| 0 <= i < owners.len() && owners[i] == b;
            assert(idx[owners[i] as int] == i as u8);
        }
    }
    lemma_u8_set(used48(idx));
    vstd::set_lib::lemma_len_subset(owners.to_set(), used48(idx));
}

/// Whether some byte's `Node48` index entry is slot `s`.
pub open spec fn slot_indexed(idx: Seq<u8>, s: int) -> bool {
    exists|b: int| 0 <= b < 256 && idx[b] == s as u8
}

/// A `Node48` slot that no byte's index entry names.
fn free_slot(idx: &Vec<u8>, count: u16) -> (s: usize)
    requires
        idx@.len() == 256,
        used48(idx@).len() <= count < 48,
    ensures
        s < 48,
        !slot_indexed(idx@, s as int),
{
    let mut s: usize = 0;
    while s < 48
        invariant
            s <= 48,
            idx@.len() == 256,
            used48(idx@).len() <= count < 48,
            forall|t: int| 0 <= t < s ==> #[trigger] slot_indexed(idx@, t),
        decreases 48 - s,
    {
        let mut b: usize = 0;
        let mut hit = false;
        while b < 256
            invariant
                b <= 256,
                s < 48,
                idx@.len() == 256,
                hit ==> slot_indexed(idx@, s as int),
                !hit ==> forall|c: int| 0 <= c < b ==> idx@[c] != s as u8,
            decreases 256 - b,
        {
            if idx[b] == s as u8 {
                hit = true;
            }
            b = b + 1;
        }
        if !hit {
            return s;
        }
        s = s + 1;
    }
    proof {
        lemma_all_slots_indexed(idx@);
    }
    0
}

/// Keys and slots of a full `Node4` copied into `Node16` vectors.
fn grow_keys_4_16(keys: Vec<u8>, children: Vec<Option<Box<ArtNode>>>) -> (r: (Vec<u8>, Vec<Option<Box<ArtNode>>>))
    requires
        keys@.len() == 4,
        children@.len() == 4,
    ensures
        r.0@.len() == 16,
        r.1@.len() == 16,
        forall|i: int| 0 <= i < 4 ==> r.0@[i] == keys@[i],
        forall|i: int| 0 <= i < 4 ==> r.1@[i] == children@[i],
        forall|i: int| 4 <= i < 16 ==> r.1@[i] is None,
{
    let mut old_children = children;
    let mut k16: Vec<u8> = vec![0u8; 16];
    let mut c16 = none_slots(16);
    let ghost orig = old_children@;
    let mut i: usize = 0;
    while i < 4
        invariant
            i <= 4,
            keys@.len() == 4,
            old_children@.len() == 4,
            orig.len() == 4,
            k16@.len() == 16,
            c16@.len() == 16,
            forall|j: int| i <= j < 4 ==> old_children@[j] == orig[j],
            orig == children@,
            forall|j: int| 0 <= j < i ==> k16@[j] == keys@[j],
            forall|j: int| 0 <= j < i ==> c16@[j] == orig[j],
            forall|j: int| 4 <= j < 16 ==> c16@[j] is None,
        decreases 4 - i,
    {
        let k = keys[i];
        k16.set(i, k);
        let c = old_children[i].take();
        assert(c == orig[i as int]);
        c16.set(i, c);
        i = i + 1;
    }
    (k16, c16)
}

/// Index and slots of a full `Node16` laid out as a `Node48`: each byte
/// indexes the last slot holding it.
fn grow_keys_16_48(keys: Vec<u8>, children: Vec<Option<Box<ArtNode>>>) -> (r: (Vec<u8>, Vec<Option<Box<ArtNode>>>))
    requires
        keys@.len() == 16,
        children@.len() == 16,
    ensures
        r.0@.len() == 256,
        r.1@.len() == 48,
        forall|b: u8| #[trigger] r.0@[b as int] == match last_key(keys@, 16, b) {
            Some(i) => i as u8,
            None => EMPTY_MARKER,
        },
        forall|i: int| 0 <= i < 16 ==> r.1@[i] == children@[i],
        forall|i: int| 16 <= i < 48 ==> r.1@[i] is None,
        used48(r.0@) == keys@.to_set(),
{
    let mut old_children = children;
    let mut idx: Vec<u8> = vec![EMPTY_MARKER; 256];
    let mut c48 = none_slots(48);
    let ghost orig = old_children@;
    let mut i: usize = 0;
    while i < 16
        invariant
            i <= 16,
            keys@.len() == 16,
            old_children@.len() == 16,
            orig.len() == 16,
            idx@.len() == 256,
            c48@.len() == 48,
            forall|j: int| i <= j < 16 ==> old_children@[j] == orig[j],
            forall|j: int| 0 <= j < i ==> c48@[j] == orig[j],
            forall|j: int| 16 <= j < 48 ==> c48@[j] is None,
            forall|b: u8|
                #![trigger idx@[b as int]]
                if idx@[b as int] == EMPTY_MARKER {
                    forall|j: int| 0 <= j < i ==> keys@[j] != b
                } else {
                    is_last_key(keys@, i as int, b, idx@[b as int] as int)
                },
        decreases 16 - i,
    {
        let k = keys[i];
        idx.set(k as usize, i as u8);
        let c = old_children[i].take();
        c48.set(i, c);
        i = i + 1;
    }
    proof {
        assert forall|b: u8| #[trigger] idx@[b as int] == match last_key(keys@, 16, b) {
            Some(i) => i as u8,
            None => EMPTY_MARKER,
        } by {
            if idx@[b as int] == EMPTY_MARKER {
                assert(!exists|i: int| is_last_key(keys@, 16, b, i));
            } else {
                lemma_last_key_is(keys@, 16, b, idx@[b as int] as int);
            }
        }
        assert forall|b: u8| #[trigger] used48(idx@).contains(b) == keys@.to_set().contains(b) by {
            if idx@[b as int] != EMPTY_MARKER {
                assert(keys@[idx@[b as int] as int] == b);
            } else if keys@.contains(b) {
                let j = choose|j: int| 0 <= j < keys@.len() && keys@[j] == b;
            }
        }
        assert(used48(idx@) =~= keys@.to_set());
    }
    (idx, c48)
}

/// Slots of a full `Node48` laid out as a `Node256`.
fn grow_slots_48_256(child_index: &Vec<u8>, children: Vec<Option<Box<ArtNode>>>) -> (r: Vec<Option<Box<ArtNode>>>)
    requires
        child_index@.len() == 256,
        children@.len() == 48,
        forall|b: int| 0 <= b < 256 ==> child_index@[b] == EMPTY_MARKER || child_index@[b] < 48,
    ensures
        r@.len() == 256,
        forall|b: int| 0 <= b < 256 ==> #[trigger] r@[b] == grown_slot(child_index@, children@, b),
{
    let mut old_children = children;
    let ghost orig = old_children@;
    let mut c256 = none_slots(256);
    let mut byte: usize = 0;
    while byte < 256
        invariant
            byte <= 256,
            child_index@.len() == 256,
            old_children@.len() == 48,
            c256@.len() == 256,
            orig.len() == 48,
            forall|b: int| 0 <= b < 256 ==> child_index@[b] == EMPTY_MARKER || child_index@[b] < 48,
            forall|b: int| 0 <= b < byte ==> #[trigger] c256@[b] == grown_slot(child_index@, orig, b),
            forall|b: int| byte <= b < 256 ==> c256@[b] is None,
            forall|s: int|
                #![trigger old_children@[s]]
                0 <= s < 48 ==> old_children@[s] == if exists|b2: int|
                    0 <= b2 < byte && child_index@[b2] as int == s {
                    None
                } else {
                    orig[s]
                },
        decreases 256 - byte,
    {
        let idx = child_index[byte];
        if idx != EMPTY_MARKER {
            let ghost before = old_children@;
            let c = old_children[idx as usize].take();
            proof {
                if first_owner(child_index@, byte as int) {
                    assert(!exists|b2: int| 0 <= b2 < byte && child_index@[b2] as int == idx as int);
                } else {
                    let b2 = choose|b2: int| 0 <= b2 < byte && child_index@[b2] == child_index@[byte as int];
                    assert(before[idx as int] is None);
                }
                assert forall|s: int| 0 <= s < 48 implies #[trigger] old_children@[s] == if exists|b2: int|
                    0 <= b2 < byte + 1 && child_index@[b2] as int == s {
                    None
                } else {
                    orig[s]
                } by {
                    if s == idx as int {
                        assert(child_index@[byte as int] as int == s);
                    } else {
                        if exists|b2: int| 0 <= b2 < byte + 1 && child_index@[b2] as int == s {
                            let b2 = choose|b2: int| 0 <= b2 < byte + 1 && child_index@[b2] as int == s;
                            assert(b2 != byte);
                        }
                    }
                }
            }
            c256.set(byte, c);
        } else {
            proof {
                assert forall|s: int| 0 <= s < 48 implies #[trigger] old_children@[s] == if exists|b2: int|
                    0 <= b2 < byte + 1 && child_index@[b2] as int == s {
                    None
                } else {
                    orig[s]
                } by {
                    if exists|b2: int| 0 <= b2 < byte + 1 && child_index@[b2] as int == s {
                        let b2 = choose|b2: int| 0 <= b2 < byte + 1 && child_index@[b2] as int == s;
                        assert(b2 != byte);
                    }
                }
            }
        }
        byte = byte + 1;
    }
    c256
}

/// `i` is the first position of `x` in `s`.
pub open spec fn is_first_index(s: Seq<u64>, x: u64, i: int) -> bool {
    0 <= i < s.len() && s[i] == x && forall|j: int| 0 <= j < i ==> s[j] != x
}

/// The first position of `x` in `s`, if any.
pub open spec fn first_index(s: Seq<u64>, x: u64) -> Option<int> {
    if exists|i: int| is_first_index(s, x, i) {
        Some(choose|i: int| is_first_index(s, x, i))
    } else {
        None
    }
}

proof fn lemma_first_index_is(s: Seq<u64>, x: u64, i: int)
    requires
        is_first_index(s, x, i),
    ensures
        first_index(s, x) == Some(i),
{
    let k = choose|k: int| is_first_index(s, x, k);
    assert(k == i);
}

/// Remove the first occurrence of an offset; a removed primary offset is
/// replaced by the first overflow offset.
fn offsets_remove(offsets: &mut Vec<u64>, overflow: &mut Vec<u64>, offset: u64) -> (r: bool)
    requires
        old(offsets)@.len() <= 1,
        old(offsets)@.len() == 0 ==> old(overflow)@.len() == 0,
    ensures
        final(offsets)@.len() <= 1,
        final(offsets)@.len() == 0 ==> final(overflow)@.len() == 0,
        match first_index(old(offsets)@ + old(overflow)@, offset) {
            Some(k) => r && final(offsets)@ + final(overflow)@ == (old(offsets)@ + old(overflow)@).remove(k),
            None => !r && final(offsets)@ + final(overflow)@ == old(offsets)@ + old(overflow)@,
        },
{
    let ghost all = old(offsets)@ + old(overflow)@;
    if offsets.len() == 1 && offsets[0] == offset {
        offsets.remove(0);
        if overflow.len() != 0 {
            let x = overflow.remove(0);
            offsets.push(x);
        }
        proof {
            lemma_first_index_is(all, offset, 0);
            assert(offsets@ + overflow@ =~= all.remove(0));
        }
        return true;
    }
    let mut p: usize = 0;
    while p < overflow.len()
        invariant
            p <= overflow@.len(),
            overflow@ == old(overflow)@,
            offsets@ == old(offsets)@,
            all == offsets@ + overflow@,
            offsets@.len() <= 1,
            offsets@.len() == 0 ==> overflow@.len() == 0,
            forall|j: int| 0 <= j < offsets@.len() ==> offsets@[j] != offset,
            forall|j: int| 0 <= j < p ==> overflow@[j] != offset,
        decreases overflow@.len() - p,
    {
        if overflow[p] == offset {
            overflow.remove(p);
            proof {
                let k = offsets@.len() + p;
                assert forall|j: int| 0 <= j < k implies all[j] != offset by {
                    if j < offsets@.len() {
                    } else {
                        assert(all[j] == old(overflow)@[j - offsets@.len()]);
                    }
                }
                assert(all[k] == offset);
                lemma_first_index_is(all, offset, k);
                assert(offsets@ + overflow@ =~= all.remove(k));
            }
            return true;
        }
        p = p + 1;
    }
    proof {
        assert forall|i: int| !is_first_index(all, offset, i) by {
            if 0 <= i < all.len() {
                if i < offsets@.len() {
                } else {
                    assert(all[i] == overflow@[i - offsets@.len()]);
                }
            }
        }
    }
    false
}

/// With distinct keys, the last matching slot is the first one.
proof fn lemma_distinct_last_is_first(keys: Seq<u8>, count: int, b: u8)
    requires
        forall|i: int, j: int| 0 <= i < j < count ==> keys[i] != keys[j],
    ensures
        last_key(keys, count, b) == first_key(keys, count, b),
{
    if exists|i: int| is_first_key(keys, count, b, i) {
        let i = choose|i: int| is_first_key(keys, count, b, i);
        lemma_first_key_is(keys, count, b, i);
        assert(is_last_key(keys, count, b, i));
        lemma_last_key_is(keys, count, b, i);
    } else {
        if exists|i: int| is_last_key(keys, count, b, i) {
            let i = choose|i: int| is_last_key(keys, count, b, i);
            assert(is_first_key(keys, count, b, i));
        }
    }
}

/// Removing slot `i` of distinct keys: the key of slot `i` is gone, and
/// any other key moves down one slot when it was above `i`.
proof fn lemma_first_key_remove(keys: Seq<u8>, count: int, i: int, b: u8)
    requires
        0 <= i < count <= keys.len(),
        forall|p: int, q: int| 0 <= p < q < count ==> keys[p] != keys[q],
    ensures
        b == keys[i] ==> first_key(keys.remove(i), count - 1, b) is None,
        b != keys[i] ==> match first_key(keys, count, b) {
            Some(j) => first_key(keys.remove(i), count - 1, b) == Some(if j < i { j } else { j - 1 }),
            None => first_key(keys.remove(i), count - 1, b) is None,
        },
{
    let r = keys.remove(i);
    if b == keys[i] {
        assert forall|j: int| 0 <= j < count - 1 implies r[j] != b by {
            if j < i {
                assert(r[j] == keys[j]);
            } else {
                assert(r[j] == keys[j + 1]);
            }
        }
        lemma_first_key_none(r, count - 1, b);
    } else {
        match first_key(keys, count, b) {
            Some(j) => {
                let k = choose|k: int| is_first_key(keys, count, b, k);
                assert(k == j);
                assert(j != i);
                let t = if j < i { j } else { j - 1 };
                assert(r[t] == b);
                assert forall|q: int| 0 <= q < t implies r[q] != b by {
                    if q < i {
                        assert(r[q] == keys[q]);
                    } else {
                        assert(r[q] == keys[q + 1]);
                    }
                }
                assert(is_first_key(r, count - 1, b, t));
                lemma_first_key_is(r, count - 1, b, t);
            },
            None => {
                assert forall|q: int| 0 <= q < count - 1 implies r[q] != b by {
                    let src = if q < i { q } else { q + 1 };
                    assert(r[q] == keys[src]);
                    if keys[src] == b {
                        lemma_first_key_some(keys, count, b, src);
                    }
                }
                lemma_first_key_none(r, count - 1, b);
            },
        }
    }
}

/// Reading a byte after inserting a child under it gives that child,
/// every other byte keeps its child, and the count grows by one (for a
/// compact node without the byte).
pub proof fn law_insert_then_get(n: ArtNode, byte: u8, c: Box<ArtNode>)
    requires
        n.wf(),
        n.compact(),
        !n.has_key(byte),
    ensures
        n.child_after_insert(byte, c, byte) == Some(c),
        forall|b: u8| b != byte ==> #[trigger] n.child_after_insert(byte, c, b) == n.child(b),
        n.count_after_insert(byte) == n.spec_count() + 1,
{
    lemma_insert_count(n, byte);
    match n {
        ArtNode::Node4 { keys, count, .. } => {
            assert(first_key(keys@, count as int, byte) is None);
        },
        ArtNode::Node16 { keys, count, .. } => {
            assert(first_key(keys@, count as int, byte) is None);
            assert forall|b: u8| b != byte implies #[trigger] n.child_after_insert(byte, c, b)
                == n.child(b) by {
                lemma_distinct_last_is_first(keys@, count as int, b);
            }
        },
        ArtNode::Node48 { child_index, children, count, .. } => {
            assert(child_index@[byte as int] == EMPTY_MARKER);
            assert forall|b: u8| b != byte implies #[trigger] n.child_after_insert(byte, c, b)
                == n.child(b) by {
                if child_index@[b as int] != EMPTY_MARKER {
                    assert forall|b2: int| 0 <= b2 < b implies child_index@[b2] != child_index@[b as int] by {
                        if child_index@[b2] != EMPTY_MARKER {
                            assert(b2 != b as int);
                        }
                    }
                }
            }
        },
        ArtNode::Node256 { .. } => {},
    }
}

/// After removing the entry of a byte, the byte has no child, and every
/// other byte keeps its child (for a compact node).
pub proof fn law_remove_then_get(n: ArtNode, byte: u8)
    requires
        n.wf(),
        n.compact(),
    ensures
        n.child_after_remove(byte, byte) is None,
        forall|b: u8| b != byte ==> #[trigger] n.child_after_remove(byte, b) == n.child(b),
{
    match n {
        ArtNode::Node4 { keys, children, count, .. } => {
            match first_key(keys@, count as int, byte) {
                Some(i) => {
                    let k = choose|k: int| is_first_key(keys@, count as int, byte, k);
                    assert(k == i);
                    lemma_first_key_remove(keys@, count as int, i, byte);
                    assert forall|b: u8| b != byte implies #[trigger] n.child_after_remove(byte, b)
                        == n.child(b) by {
                        lemma_first_key_remove(keys@, count as int, i, b);
                        match first_key(keys@, count as int, b) {
                            Some(j) => {
                                let t = if j < i { j } else { j - 1 };
                                assert(children@.remove(i)[t] == children@[j]);
                            },
                            None => {},
                        }
                    }
                },
                None => {},
            }
        },
        ArtNode::Node16 { keys, children, count, .. } => {
            match first_key(keys@, count as int, byte) {
                Some(i) => {
                    let k = choose|k: int| is_first_key(keys@, count as int, byte, k);
                    assert(k == i);
                    lemma_first_key_remove(keys@, count as int, i, byte);
                    assert forall|b: u8| b != byte implies #[trigger] n.child_after_remove(byte, b)
                        == n.child(b) by {
                        lemma_first_key_remove(keys@, count as int, i, b);
                        match first_key(keys@, count as int, b) {
                            Some(j) => {
                                let t = if j < i { j } else { j - 1 };
                                assert(children@.remove(i)[t] == children@[j]);
                            },
                            None => {},
                        }
                    }
                },
                None => {},
            }
        },
        ArtNode::Node48 { child_index, .. } => {
            assert forall|b: u8| b != byte implies #[trigger] n.child_after_remove(byte, b)
                == n.child(b) by {
                if child_index@[byte as int] != EMPTY_MARKER {
                    assert(child_index@[b as int] != child_index@[byte as int]);
                }
            }
        },
        ArtNode::Node256 { .. } => {},
    }
}

/// `n` empty child slots.
fn none_slots(n: usize) -> (v: Vec<Option<Box<ArtNode>>>)
    ensures
        v@.len() == n,
        forall|i: int| 0 <= i < n ==> v@[i] is None,
{
    let mut v: Vec<Option<Box<ArtNode>>> = Vec::new();
    let mut i: usize = 0;
    while i < n
        invariant
            i <= n,
            v@.len() == i,
            forall|k: int| 0 <= k < i ==> v@[k] is None,
        decreases n - i,
    {
        v.push(None);
        i = i + 1;
    }
    v
}


/// `new` is what `insert_child(byte, c)` leaves of `old`, as its contract
/// states.
pub open spec fn inserted(old: ArtNode, byte: u8, c: Box<ArtNode>, new: ArtNode) -> bool {
    &&& new.wf()
    &&& new.spec_kind() == old.kind_after_insert()
    &&& new.spec_count() == old.count_after_insert(byte)
    &&& new.spec_prefix() == old.spec_prefix()
    &&& new.spec_offsets() == old.spec_offsets()
    &&& new.spec_overflow() == old.spec_overflow()
    &&& forall|b: u8| #[trigger] new.child(b) == old.child_after_insert(byte, c, b)
    &&& old.compact() && !old.has_key(byte) ==> new.compact()
    &&& old.compact() && !old.has_key(byte) ==> new.has_key(byte)
}

/// The kind of a node grown from a `Node4` by `k` insertions.
pub open spec fn kind_for_count(k: int) -> NodeKind {
    if k <= 4 {
        NodeKind::Node4
    } else if k <= 16 {
        NodeKind::Node16
    } else if k <= 48 {
        NodeKind::Node48
    } else {
        NodeKind::Node256
    }
}

/// The child that byte `b` reaches after inserting `children[i]` under
/// `bytes[i]` for every `i < m`.
pub open spec fn child_after_inserts(bytes: Seq<u8>, children: Seq<Box<ArtNode>>, m: int, b: u8) -> Option<
    Box<ArtNode>,
> {
    if exists|i: int| 0 <= i < m && bytes[i] == b {
        Some(children[choose|i: int| 0 <= i < m && bytes[i] == b])
    } else {
        None
    }
}

proof fn lemma_key_iff_child(n: ArtNode, b: u8)
    requires
        n.wf(),
        n.compact(),
    ensures
        n.has_key(b) <==> n.child(b) is Some,
{
    match n {
        ArtNode::Node4 { keys, count, .. } => {
            if first_key(keys@, count as int, b) is Some {
                let i = choose|i: int| is_first_key(keys@, count as int, b, i);
                assert(is_first_key(keys@, count as int, b, i));
            }
        },
        ArtNode::Node16 { keys, count, .. } => {
            if first_key(keys@, count as int, b) is Some {
                let i = choose|i: int| is_first_key(keys@, count as int, b, i);
                assert(is_first_key(keys@, count as int, b, i));
            }
        },
        _ => {},
    }
}

proof fn lemma_insert_count(n: ArtNode, byte: u8)
    requires
        n.wf(),
        n.compact(),
        !n.has_key(byte),
    ensures
        n.count_after_insert(byte) == n.spec_count() + 1,
{
    lemma_key_iff_child(n, byte);
}

proof fn lemma_inserts_prefix(nodes: Seq<ArtNode>, bytes: Seq<u8>, children: Seq<Box<ArtNode>>, m: int)
    requires
        nodes.len() == bytes.len() + 1,
        children.len() == bytes.len(),
        nodes[0].wf(),
        nodes[0].compact(),
        nodes[0].spec_kind() == NodeKind::Node4,
        nodes[0].spec_count() == 0,
        nodes[0].spec_prefix() == Seq::<u8>::empty(),
        nodes[0].spec_all_offsets() == Seq::<u64>::empty(),
        forall|b: u8| #[trigger] nodes[0].child(b) is None,
        bytes.no_duplicates(),
        forall|i: int| 0 <= i < bytes.len() ==> #[trigger] inserted(nodes[i], bytes[i], children[i], nodes[i + 1]),
        0 <= m <= bytes.len(),
    ensures
        nodes[m].wf(),
        nodes[m].compact(),
        nodes[m].spec_count() == m,
        nodes[m].spec_kind() == kind_for_count(m),
        nodes[m].spec_prefix() == Seq::<u8>::empty(),
        nodes[m].spec_all_offsets() == Seq::<u64>::empty(),
        forall|b: u8| #[trigger] nodes[m].child(b) == child_after_inserts(bytes, children, m, b),
    decreases m,
{
    if m == 0 {
        assert forall|b: u8| #[trigger] nodes[0].child(b) == child_after_inserts(bytes, children, 0, b) by {
            assert(nodes[0].child(b) is None);
        }
    } else {
        let p = m - 1;
        lemma_inserts_prefix(nodes, bytes, children, p);
        let n = nodes[p];
        let byte = bytes[p];
        let c = children[p];
        assert(inserted(n, byte, c, nodes[p + 1]));
        assert(n.child(byte) is None) by {
            if exists|i: int| 0 <= i < p && bytes[i] == byte {
                let i = choose|i: int| 0 <= i < p && bytes[i] == byte;
                assert(bytes[i] == bytes[p]);
            }
        }
        lemma_key_iff_child(n, byte);
        lemma_insert_count(n, byte);
        law_insert_then_get(n, byte, c);
        let next = nodes[p + 1];
        assert forall|b: u8| #[trigger] next.child(b) == child_after_inserts(bytes, children, p + 1, b) by {
            assert(next.child(b) == n.child_after_insert(byte, c, b));
            if b == byte {
                assert(bytes[p] == b);
                let i = choose|i: int| 0 <= i < p + 1 && bytes[i] == b;
                if i != p {
                    assert(bytes[i] == bytes[p]);
                }
            } else {
                assert(n.child(b) == child_after_inserts(bytes, children, p, b));
                if exists|i: int| 0 <= i < p + 1 && bytes[i] == b {
                    let i = choose|i: int| 0 <= i < p + 1 && bytes[i] == b;
                    assert(i < p);
                    assert(exists|i: int| 0 <= i < p && bytes[i] == b);
                    let j = choose|j: int| 0 <= j < p && bytes[j] == b;
                    if i != j {
                        assert(bytes[i] == bytes[j]);
                    }
                }
            }
        }
        assert(next.spec_all_offsets() == n.spec_all_offsets());
        assert(next.spec_kind() == kind_for_count(p + 1)) by {
            match n {
                ArtNode::Node4 { .. } => {},
                ArtNode::Node16 { .. } => {},
                ArtNode::Node48 { .. } => {},
                ArtNode::Node256 { .. } => {},
            }
        }
    }
}

/// Inserting children under `k` distinct bytes, one after another, into a
/// new `Node4` (`nodes[0]` as `new_node4` returns it; `nodes[i + 1]` what
/// `insert_child(bytes[i], children[i])` leaves of `nodes[i]`) gives a node of `k` children, of the kind that holds them
/// (`Node4` up to 4, `Node16` up to 16, `Node48` up to 48, else
/// `Node256`), where each inserted byte reaches its child and no other
/// byte reaches any; prefix and offsets stay empty.
pub proof fn law_distinct_inserts(nodes: Seq<ArtNode>, bytes: Seq<u8>, children: Seq<Box<ArtNode>>)
    requires
        nodes.len() == bytes.len() + 1,
        children.len() == bytes.len(),
        nodes[0].wf(),
        nodes[0].compact(),
        nodes[0].spec_kind() == NodeKind::Node4,
        nodes[0].spec_count() == 0,
        nodes[0].spec_prefix() == Seq::<u8>::empty(),
        nodes[0].spec_all_offsets() == Seq::<u64>::empty(),
        forall|b: u8| #[trigger] nodes[0].child(b) is None,
        bytes.no_duplicates(),
        forall|i: int| 0 <= i < bytes.len() ==> #[trigger] inserted(nodes[i], bytes[i], children[i], nodes[i + 1]),
    ensures
        nodes.last().spec_count() == bytes.len(),
        nodes.last().spec_kind() == kind_for_count(bytes.len() as int),
        forall|b: u8| #[trigger] nodes.last().child(b) == child_after_inserts(bytes, children, bytes.len() as int, b),
        forall|i: int| 0 <= i < bytes.len() ==> nodes.last().child(#[trigger] bytes[i]) == Some(children[i]),
        nodes.last().spec_prefix() == Seq::<u8>::empty(),
        nodes.last().spec_all_offsets() == Seq::<u64>::empty(),
{
    let k = bytes.len() as int;
    lemma_inserts_prefix(nodes, bytes, children, k);
    assert forall|i: int| 0 <= i < bytes.len() implies nodes.last().child(#[trigger] bytes[i]) == Some(children[i]) by {
        let b = bytes[i];
        assert(nodes.last().child(b) == child_after_inserts(bytes, children, k, b));
        let j = choose|j: int| 0 <= j < k && bytes[j] == b;
        if i != j {
            assert(bytes[i] == bytes[j]);
        }
    }
}

} // verus!
