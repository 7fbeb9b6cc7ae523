//! Nodes of the radix tree.
//!
//! An inner node keeps its children in one of four layouts, chosen by how many
//! there are:
//! - Node4 and Node16: up to 4 and 16 children in arrays sorted by key byte;
//! - Node48: up to 48 children, found through a 256-entry index;
//! - Node256: a slot for every key byte.
//!
//! Nodes grow to the next layout when they are full and shrink back when the
//! smaller layout holds all their children.

use vstd::prelude::*;

use super::RowLocation;

verus! {

/// A node in the tree.
pub enum ArtNode {
    /// A leaf storing the full key and its value.
    Leaf(LeafNode),
    /// An inner node with path compression and children.
    Inner(Box<InnerNode>),
}

/// Leaf node: the full key, for verification, and the value.
pub struct LeafNode {
    pub key: Vec<u8>,
    pub value: RowLocation,
}

/// Inner node: a compressed path prefix, the entry whose key ends right after
/// the prefix, and the children for the byte that follows it.
pub struct InnerNode {
    /// Compressed path prefix.
    pub prefix: Vec<u8>,
    /// The entry whose key ends at this node.
    pub terminal: Option<LeafNode>,
    /// The children, by key byte.
    pub node_type: NodeType,
}

/// The layout of an inner node's children.
pub enum NodeType {
    Node4(SortedNode),
    Node16(SortedNode),
    Node48(Box<Node48>),
    Node256(Node256),
}

/// Children in arrays sorted by key byte: the layout of Node4 and Node16.
pub struct SortedNode {
    pub keys: Vec<u8>,
    pub children: Vec<Box<ArtNode>>,
}

/// Up to 48 children, found through an index from key byte to slot.
pub struct Node48 {
    /// Maps a key byte to a slot in `children`, or to `EMPTY_SLOT`.
    pub child_index: Vec<u8>,
    pub children: Vec<Option<Box<ArtNode>>>,
    pub count: u8,
}

/// A slot for every key byte.
pub struct Node256 {
    pub children: Vec<Option<Box<ArtNode>>>,
    pub count: u16,
}

/// Marks a key byte without a child in `Node48::child_index`.
pub const EMPTY_SLOT: u8 = 255;

/// Number of occupied slots.
pub open spec fn occupied(slots: Seq<Option<Box<ArtNode>>>) -> nat
    decreases slots.len(),
{
    if slots.len() == 0 {
        0
    } else {
        occupied(slots.drop_last()) + if slots.last() is Some {
            1nat
        } else {
            0nat
        }
    }
}

proof fn lemma_occupied_update(slots: Seq<Option<Box<ArtNode>>>, i: int, slot: Option<Box<ArtNode>>)
    requires
        0 <= i < slots.len(),
    ensures
        occupied(slots.update(i, slot)) == occupied(slots) + (if slot is Some {
            1int
        } else {
            0int
        }) - (if slots[i] is Some {
            1int
        } else {
            0int
        }),
    decreases slots.len(),
{
    let updated = slots.update(i, slot);
    if i == slots.len() - 1 {
        assert(updated.drop_last() =~= slots.drop_last());
    } else {
        assert(updated.drop_last() =~= slots.drop_last().update(i, slot));
        lemma_occupied_update(slots.drop_last(), i, slot);
    }
}

proof fn lemma_occupied_full(slots: Seq<Option<Box<ArtNode>>>)
    requires
        forall|i: int| 0 <= i < slots.len() ==> slots[i] is Some,
    ensures
        occupied(slots) == slots.len(),
    decreases slots.len(),
{
    if slots.len() > 0 {
        lemma_occupied_full(slots.drop_last());
    }
}

proof fn lemma_occupied_none(slots: Seq<Option<Box<ArtNode>>>)
    requires
        forall|i: int| 0 <= i < slots.len() ==> slots[i] is None,
    ensures
        occupied(slots) == 0,
    decreases slots.len(),
{
    if slots.len() > 0 {
        lemma_occupied_none(slots.drop_last());
    }
}

/// `n` empty slots.
fn empty_slots(n: usize) -> (slots: Vec<Option<Box<ArtNode>>>)
    ensures
        slots@.len() == n,
        forall|i: int| 0 <= i < n ==> slots@[i] is None,
{
    let mut slots: Vec<Option<Box<ArtNode>>> = Vec::new();
    while slots.len() < n
        invariant
            slots@.len() <= n,
            forall|i: int| 0 <= i < slots@.len() ==> slots@[i] is None,
        decreases n - slots@.len(),
    {
        slots.push(None);
    }
    slots
}

// Node4 and Node16

impl SortedNode {
    /// One child for each key, keys in increasing order.
    pub open spec fn inv(self) -> bool {
        &&& self.keys@.len() == self.children@.len()
        &&& forall|i: int, j: int| 0 <= i < j < self.keys@.len() ==> self.keys@[i] < self.keys@[j]
        &&& self@.dom().finite()
        &&& self@.dom().len() == self.keys@.len()
    }

    pub open spec fn has(self, byte: u8) -> bool {
        exists|i: int| 0 <= i < self.keys@.len() && self.keys@[i] == byte
    }

    pub open spec fn position(self, byte: u8) -> int {
        choose|i: int| 0 <= i < self.keys@.len() && self.keys@[i] == byte
    }

    /// The children by key byte.
    pub open spec fn view(self) -> Map<u8, ArtNode> {
        Map::new(|byte: u8| self.has(byte), |byte: u8| *self.children@[self.position(byte)])
    }

    fn new() -> (node: Self)
        ensures
            node.inv(),
            node@ == Map::<u8, ArtNode>::empty(),
    {
        let node = SortedNode { keys: Vec::new(), children: Vec::new() };
        assert(node@ =~= Map::<u8, ArtNode>::empty());
        node
    }

    /// Index of the first key that is not below `byte`.
    fn lower_bound(&self, byte: u8) -> (pos: usize)
        requires
            self.inv(),
        ensures
            pos <= self.keys@.len(),
            forall|j: int| 0 <= j < pos ==> self.keys@[j] < byte,
            forall|j: int| pos <= j < self.keys@.len() ==> self.keys@[j] >= byte,
            self@.contains_key(byte) <==> pos < self.keys@.len() && self.keys@[pos as int] == byte,
            self@.contains_key(byte) ==> self@[byte] == *self.children@[pos as int],
    {
        let mut pos: usize = 0;
        while pos < self.keys.len() && self.keys[pos] < byte
            invariant
                self.inv(),
                pos <= self.keys@.len(),
                forall|j: int| 0 <= j < pos ==> self.keys@[j] < byte,
            decreases self.keys@.len() - pos,
        {
            pos = pos + 1;
        }
        proof {
            if self.has(byte) {
                let i = self.position(byte);
                assert(self.keys@[i] == byte);
                assert(i >= pos);
                if i > pos {
                    assert(self.keys@[pos as int] < self.keys@[i]);
                }
                assert(i == pos);
            }
        }
        pos
    }

    fn find_child(&self, byte: u8) -> (child: Option<&ArtNode>)
        requires
            self.inv(),
        ensures
            child is Some <==> self@.contains_key(byte),
            child matches Some(c) ==> *c == self@[byte],
    {
        let pos: usize = self.lower_bound(byte);
        if pos < self.keys.len() && self.keys[pos] == byte {
            Some(&*self.children[pos])
        } else {
            None
        }
    }

    fn find_child_mut(&mut self, byte: u8) -> (child: Option<&mut Box<ArtNode>>)
        requires
            old(self).inv(),
        ensures
            child is Some <==> old(self)@.contains_key(byte),
            child is None ==> *final(self) == *old(self),
            child matches Some(c) ==> {
                &&& **c == old(self)@[byte]
                &&& final(self).inv()
                &&& final(self).keys@.len() == old(self).keys@.len()
                &&& final(self)@ == old(self)@.insert(byte, **final(c))
            },
    {
        let pos: usize = self.lower_bound(byte);
        if pos < self.keys.len() && self.keys[pos] == byte {
            proof {
                assert forall|after: SortedNode|
                    #![trigger after.inv()]
                    after.keys@ == self.keys@ && after.children@.len() == self.children@.len() && (
                    forall|j: int|
                        0 <= j < self.children@.len() && j != pos ==> after.children@[j]
                            == self.children@[j]) implies after.inv() && after@
                    == self@.insert(byte, *after.children@[pos as int]) by {
                    assert(forall|b: u8| after.has(b) == self.has(b));
                    assert(after@.dom() =~= self@.dom());
                    assert forall|b: u8| self.has(b) implies #[trigger] after@[b] == self@.insert(
                        byte,
                        *after.children@[pos as int],
                    )[b] by {
                        assert(after.position(b) == self.position(b));
                    }
                    assert(after@ =~= self@.insert(byte, *after.children@[pos as int]));
                }
            }
            Some(&mut self.children[pos])
        } else {
            None
        }
    }

    fn insert_child(&mut self, byte: u8, child: Box<ArtNode>)
        requires
            old(self).inv(),
            !old(self)@.contains_key(byte),
        ensures
            final(self).inv(),
            final(self).keys@.len() == old(self).keys@.len() + 1,
            final(self)@ == old(self)@.insert(byte, *child),
    {
        let pos: usize = self.lower_bound(byte);
        let ghost before = *self;
        let ghost node = *child;
        self.keys.insert(pos, byte);
        self.children.insert(pos, child);
        proof {
            assert forall|i: int, j: int| 0 <= i < j < self.keys@.len() implies self.keys@[i]
                < self.keys@[j] by {
                let bi = if i < pos {
                    i
                } else {
                    i - 1
                };
                let bj = if j < pos {
                    j
                } else {
                    j - 1
                };
                if i != pos {
                    assert(self.keys@[i] == before.keys@[bi]);
                }
                if j != pos {
                    assert(self.keys@[j] == before.keys@[bj]);
                }
            }
            assert forall|b: u8| #[trigger] self.has(b) == (before.has(b) || b == byte) by {
                if b == byte {
                    assert(self.keys@[pos as int] == byte);
                } else {
                    if before.has(b) {
                        let i = before.position(b);
                        let k = if i < pos {
                            i
                        } else {
                            i + 1
                        };
                        assert(self.keys@[k] == b);
                    }
                    if self.has(b) {
                        let k = self.position(b);
                        let i = if k < pos {
                            k
                        } else {
                            k - 1
                        };
                        assert(before.keys@[i] == b);
                    }
                }
            }
            assert(self@.dom() =~= before@.dom().insert(byte));
            assert forall|b: u8| #[trigger] self.has(b) implies self@[b] == before@.insert(
                byte,
                node,
            )[b] by {
                let k = self.position(b);
                if b == byte {
                    assert(self.keys@[pos as int] == byte);
                    assert(k == pos);
                } else {
                    let i = before.position(b);
                    let m = if i < pos {
                        i
                    } else {
                        i + 1
                    };
                    assert(self.keys@[m] == b);
                    assert(k == m);
                }
            }
            assert(self@ =~= before@.insert(byte, node));
        }
    }

    fn remove_child(&mut self, byte: u8) -> (child: Box<ArtNode>)
        requires
            old(self).inv(),
            old(self)@.contains_key(byte),
        ensures
            final(self).inv(),
            final(self).keys@.len() == old(self).keys@.len() - 1,
            *child == old(self)@[byte],
            final(self)@ == old(self)@.remove(byte),
    {
        let pos: usize = self.lower_bound(byte);
        let ghost before = *self;
        self.keys.remove(pos);
        let child = self.children.remove(pos);
        proof {
            assert forall|i: int, j: int| 0 <= i < j < self.keys@.len() implies self.keys@[i]
                < self.keys@[j] by {
                let bi = if i < pos {
                    i
                } else {
                    i + 1
                };
                let bj = if j < pos {
                    j
                } else {
                    j + 1
                };
                assert(self.keys@[i] == before.keys@[bi]);
                assert(self.keys@[j] == before.keys@[bj]);
            }
            assert forall|b: u8| #[trigger] self.has(b) == (before.has(b) && b != byte) by {
                if self.has(b) {
                    let k = self.position(b);
                    let i = if k < pos {
                        k
                    } else {
                        k + 1
                    };
                    assert(before.keys@[i] == b);
                }
                if before.has(b) && b != byte {
                    let i = before.position(b);
                    let k = if i < pos {
                        i
                    } else {
                        i - 1
                    };
                    assert(self.keys@[k] == b);
                }
            }
            assert(self@.dom() =~= before@.dom().remove(byte));
            assert forall|b: u8| #[trigger] self.has(b) implies self@[b] == before@[b] by {
                let k = self.position(b);
                let i = before.position(b);
                let m = if i < pos {
                    i
                } else {
                    i - 1
                };
                assert(self.keys@[m] == b);
                assert(k == m);
            }
            assert(self@ =~= before@.remove(byte));
        }
        child
    }
}

// Node48

impl Node48 {
    /// Every indexed byte has its own occupied slot, and `count` counts them.
    pub open spec fn inv(self) -> bool {
        &&& self.child_index@.len() == 256
        &&& self.children@.len() == 48
        &&& forall|b: int|
            #![trigger self.child_index@[b]]
            0 <= b < 256 && self.child_index@[b] != EMPTY_SLOT ==> self.child_index@[b] < 48
                && self.children@[self.child_index@[b] as int] is Some
        &&& forall|b: int, c: int|
            #![trigger self.child_index@[b], self.child_index@[c]]
            0 <= b < c < 256 && self.child_index@[b] != EMPTY_SLOT ==> self.child_index@[b]
                != self.child_index@[c]
        &&& self.count == occupied(self.children@)
        &&& self@.dom().finite()
        &&& self@.dom().len() == self.count
    }

    /// The children by key byte.
    pub open spec fn view(self) -> Map<u8, ArtNode> {
        Map::new(
            |byte: u8| self.child_index@[byte as int] != EMPTY_SLOT,
            |byte: u8| *self.children@[self.child_index@[byte as int] as int]->0,
        )
    }

    fn new() -> (node: Self)
        ensures
            node.inv(),
            node@ == Map::<u8, ArtNode>::empty(),
    {
        let node = Node48 {
            child_index: vec![EMPTY_SLOT; 256],
            children: empty_slots(48),
            count: 0,
        };
        proof {
            lemma_occupied_none(node.children@);
        }
        assert(node@ =~= Map::<u8, ArtNode>::empty());
        node
    }

    fn find_child(&self, byte: u8) -> (child: Option<&ArtNode>)
        requires
            self.inv(),
        ensures
            child is Some <==> self@.contains_key(byte),
            child matches Some(c) ==> *c == self@[byte],
    {
        let idx: u8 = self.child_index[byte as usize];
        if idx == EMPTY_SLOT {
            return None;
        }
        match &self.children[idx as usize] {
            Some(child) => Some(&**child),
            None => None,
        }
    }

    fn find_child_mut(&mut self, byte: u8) -> (child: Option<&mut Box<ArtNode>>)
        requires
            old(self).inv(),
        ensures
            child is Some <==> old(self)@.contains_key(byte),
            child is None ==> *final(self) == *old(self),
            child matches Some(c) ==> {
                &&& **c == old(self)@[byte]
                &&& final(self).inv()
                &&& final(self).count == old(self).count
                &&& final(self)@ == old(self)@.insert(byte, **final(c))
            },
    {
        let idx: u8 = self.child_index[byte as usize];
        if idx == EMPTY_SLOT {
            return None;
        }
        proof {
            let slot = idx as int;
            assert forall|after: Node48|
                #![trigger after.inv()]
                after.child_index@ == self.child_index@ && after.count == self.count
                    && after.children@[slot] is Some && after.children@ == self.children@.update(
                    slot,
                    after.children@[slot],
                ) implies after.inv() && after@ == self@.insert(byte, *after.children@[slot]->0) by {
                lemma_occupied_update(self.children@, slot, after.children@[slot]);
                assert(after@.dom() =~= self@.dom());
                assert(after@ =~= self@.insert(byte, *after.children@[slot]->0));
            }
        }
        match &mut self.children[idx as usize] {
            Some(child) => Some(child),
            None => None,
        }
    }

    fn insert_child(&mut self, byte: u8, child: Box<ArtNode>)
        requires
            old(self).inv(),
            old(self).count < 48,
            !old(self)@.contains_key(byte),
        ensures
            final(self).inv(),
            final(self).count == old(self).count + 1,
            final(self)@ == old(self)@.insert(byte, *child),
    {
        let ghost before = *self;
        let ghost node = *child;
        let mut slot: usize = 0;
        while slot < 48 && self.children[slot].is_some()
            invariant
                *self == before,
                self.inv(),
                slot <= 48,
                forall|j: int| 0 <= j < slot ==> self.children@[j] is Some,
            decreases 48 - slot,
        {
            slot = slot + 1;
        }
        proof {
            if slot == 48 {
                lemma_occupied_full(self.children@);
            }
            lemma_occupied_update(self.children@, slot as int, Some(child));
        }
        self.child_index[byte as usize] = slot as u8;
        self.children[slot] = Some(child);
        self.count = self.count + 1;
        proof {
            assert(self@.dom() =~= before@.dom().insert(byte));
            assert(self@ =~= before@.insert(byte, node));
        }
    }

    fn remove_child(&mut self, byte: u8) -> (child: Box<ArtNode>)
        requires
            old(self).inv(),
            old(self)@.contains_key(byte),
        ensures
            final(self).inv(),
            final(self).count == old(self).count - 1,
            *child == old(self)@[byte],
            final(self)@ == old(self)@.remove(byte),
    {
        let ghost before = *self;
        let idx: u8 = self.child_index[byte as usize];
        proof {
            lemma_occupied_update(self.children@, idx as int, None);
        }
        let child = self.children[idx as usize].take().unwrap();
        self.child_index[byte as usize] = EMPTY_SLOT;
        self.count = self.count - 1;
        proof {
            assert(self@.dom() =~= before@.dom().remove(byte));
            assert(self@ =~= before@.remove(byte));
        }
        child
    }
}

// Node256

impl Node256 {
    /// A slot for every byte, and `count` counts the occupied ones.
    pub open spec fn inv(self) -> bool {
        &&& self.children@.len() == 256
        &&& self@.dom().finite()
        &&& self@.dom().len() == self.count
    }

    /// The children by key byte.
    pub open spec fn view(self) -> Map<u8, ArtNode> {
        Map::new(
            |byte: u8| self.children@[byte as int] is Some,
            |byte: u8| *self.children@[byte as int]->0,
        )
    }

    fn new() -> (node: Self)
        ensures
            node.inv(),
            node@ == Map::<u8, ArtNode>::empty(),
    {
        let node = Node256 { children: empty_slots(256), count: 0 };
        assert(node@ =~= Map::<u8, ArtNode>::empty());
        node
    }

    fn find_child(&self, byte: u8) -> (child: Option<&ArtNode>)
        requires
            self.inv(),
        ensures
            child is Some <==> self@.contains_key(byte),
            child matches Some(c) ==> *c == self@[byte],
    {
        match &self.children[byte as usize] {
            Some(child) => Some(&**child),
            None => None,
        }
    }

    fn find_child_mut(&mut self, byte: u8) -> (child: Option<&mut Box<ArtNode>>)
        requires
            old(self).inv(),
        ensures
            child is Some <==> old(self)@.contains_key(byte),
            child is None ==> *final(self) == *old(self),
            child matches Some(c) ==> {
                &&& **c == old(self)@[byte]
                &&& final(self).inv()
                &&& final(self).count == old(self).count
                &&& final(self)@ == old(self)@.insert(byte, **final(c))
            },
    {
        if self.children[byte as usize].is_none() {
            return None;
        }
        proof {
            let slot = byte as int;
            assert forall|after: Node256|
                #![trigger after.inv()]
                after.count == self.count && after.children@[slot] is Some && after.children@
                    == self.children@.update(slot, after.children@[slot]) implies after.inv()
                && after@ == self@.insert(byte, *after.children@[slot]->0) by {
                assert(after@.dom() =~= self@.dom());
                assert(after@ =~= self@.insert(byte, *after.children@[slot]->0));
            }
        }
        match &mut self.children[byte as usize] {
            Some(child) => Some(child),
            None => None,
        }
    }

    fn insert_child(&mut self, byte: u8, child: Box<ArtNode>)
        requires
            old(self).inv(),
            !old(self)@.contains_key(byte),
        ensures
            final(self).inv(),
            final(self).count == old(self).count + 1,
            final(self)@ == old(self)@.insert(byte, *child),
    {
        let ghost before = *self;
        let ghost node = *child;
        proof {
            lemma_bytes_bounded(before@.dom());
        }
        self.children[byte as usize] = Some(child);
        self.count = self.count + 1;
        proof {
            assert(self@.dom() =~= before@.dom().insert(byte));
            assert(self@ =~= before@.insert(byte, node));
        }
    }

    fn remove_child(&mut self, byte: u8) -> (child: Box<ArtNode>)
        requires
            old(self).inv(),
            old(self)@.contains_key(byte),
        ensures
            final(self).inv(),
            final(self).count == old(self).count - 1,
            *child == old(self)@[byte],
            final(self)@ == old(self)@.remove(byte),
    {
        let ghost before = *self;
        let child = self.children[byte as usize].take().unwrap();
        self.count = self.count - 1;
        proof {
            assert(self@.dom() =~= before@.dom().remove(byte));
            assert(self@ =~= before@.remove(byte));
        }
        child
    }
}

/// A set of bytes has at most 256 elements.
proof fn lemma_bytes_bounded(bytes: Set<u8>)
    requires
        bytes.finite(),
    ensures
        bytes.len() <= 256,
{
    let values = bytes.map(|b: u8| b as int);
    vstd::set_lib::lemma_int_range(0, 256);
    assert(values.subset_of(vstd::set_lib::set_int_range(0, 256)));
    vstd::set_lib::lemma_len_subset(values, vstd::set_lib::set_int_range(0, 256));
    vstd::set_lib::lemma_map_size(bytes, values, |b: u8| b as int);
}

// Growing and shrinking

/// The children whose key byte is below `limit`.
spec fn below(children: Map<u8, ArtNode>, limit: int) -> Map<u8, ArtNode> {
    Map::new(|b: u8| children.contains_key(b) && b < limit, |b: u8| children[b])
}

/// The children whose key byte is not below `limit`.
spec fn from_byte(children: Map<u8, ArtNode>, limit: int) -> Map<u8, ArtNode> {
    Map::new(|b: u8| children.contains_key(b) && b >= limit, |b: u8| children[b])
}

proof fn lemma_split_step(children: Map<u8, ArtNode>, byte: u8)
    requires
        children.dom().finite(),
    ensures
        below(children, byte as int).dom().finite(),
        children.contains_key(byte) ==> {
            &&& below(children, byte + 1) == below(children, byte as int).insert(byte, children[byte])
            &&& from_byte(children, byte + 1) == from_byte(children, byte as int).remove(byte)
            &&& below(children, byte as int).dom().len() < children.dom().len()
        },
        !children.contains_key(byte) ==> {
            &&& below(children, byte + 1) == below(children, byte as int)
            &&& from_byte(children, byte + 1) == from_byte(children, byte as int)
        },
{
    let low = below(children, byte as int);
    assert(low.dom().subset_of(children.dom()));
    vstd::set_lib::lemma_len_subset(low.dom(), children.dom());
    if children.contains_key(byte) {
        let rest = children.dom().remove(byte);
        assert(low.dom().subset_of(rest));
        vstd::set_lib::lemma_len_subset(low.dom(), rest);
        assert(below(children, byte + 1) =~= low.insert(byte, children[byte]));
        assert(from_byte(children, byte + 1) =~= from_byte(children, byte as int).remove(byte));
    } else {
        assert(below(children, byte + 1) =~= low);
        assert(from_byte(children, byte + 1) =~= from_byte(children, byte as int));
    }
}

proof fn lemma_split_ends(children: Map<u8, ArtNode>)
    ensures
        below(children, 0) == Map::<u8, ArtNode>::empty(),
        from_byte(children, 0) == children,
        below(children, 256) == children,
{
    assert(below(children, 0) =~= Map::<u8, ArtNode>::empty());
    assert(from_byte(children, 0) =~= children);
    assert(below(children, 256) =~= children);
}

impl SortedNode {
    /// Moves all children into the Node48 layout.
    fn into_node48(self) -> (node: Node48)
        requires
            self.inv(),
            self.keys@.len() <= 16,
        ensures
            node.inv(),
            node@ == self@,
    {
        let mut source = self;
        let mut node = Node48::new();
        let ghost all = source@;
        proof {
            assert(all.remove_keys(node@.dom()) =~= all);
        }
        while source.keys.len() > 0
            invariant
                source.inv(),
                node.inv(),
                all.dom().finite(),
                all.dom().len() <= 16,
                node@.submap_of(all),
                source@ == all.remove_keys(node@.dom()),
                all.dom().len() == source@.dom().len() + node@.dom().len(),
            decreases source.keys@.len(),
        {
            let byte: u8 = source.keys[0];
            let ghost moved = node@;
            assert(source.has(byte));
            let child = source.remove_child(byte);
            proof {
                assert(source@.dom().len() >= 0);
                assert(all.contains_key(byte) && !moved.contains_key(byte));
            }
            node.insert_child(byte, child);
            proof {
                assert(source@ =~= all.remove_keys(node@.dom()));
            }
        }
        proof {
            assert(source@.dom() =~= Set::<u8>::empty());
            assert forall|b: u8| all.contains_key(b) implies node@.contains_key(b) by {
                if !node@.contains_key(b) {
                    assert(source@.contains_key(b));
                }
            }
            assert(node@ =~= all);
        }
        node
    }
}

impl Node48 {
    /// Moves all children into the Node16 layout.
    fn into_node16(self) -> (node: SortedNode)
        requires
            self.inv(),
            self.count <= 16,
        ensures
            node.inv(),
            node.keys@.len() == self.count,
            node@ == self@,
    {
        let mut source = self;
        let mut node = SortedNode::new();
        let ghost all = source@;
        proof {
            lemma_split_ends(all);
        }
        let mut byte: u16 = 0;
        while byte < 256
            invariant
                byte <= 256,
                source.inv(),
                node.inv(),
                all.dom().finite(),
                node@ == below(all, byte as int),
                source@ == from_byte(all, byte as int),
            decreases 256 - byte,
        {
            proof {
                lemma_split_step(all, byte as u8);
            }
            if source.child_index[byte as usize] != EMPTY_SLOT {
                let ghost b = byte as u8;
                assert(source@.contains_key(b));
                let child = source.remove_child(byte as u8);
                node.insert_child(byte as u8, child);
            } else {
                assert(!source@.contains_key(byte as u8));
            }
            byte = byte + 1;
        }
        proof {
            lemma_split_ends(all);
        }
        node
    }

    /// Moves all children into the Node256 layout.
    fn into_node256(self) -> (node: Node256)
        requires
            self.inv(),
        ensures
            node.inv(),
            node@ == self@,
    {
        let mut source = self;
        let mut node = Node256::new();
        let ghost all = source@;
        proof {
            lemma_split_ends(all);
        }
        let mut byte: u16 = 0;
        while byte < 256
            invariant
                byte <= 256,
                source.inv(),
                node.inv(),
                all.dom().finite(),
                node@ == below(all, byte as int),
                source@ == from_byte(all, byte as int),
            decreases 256 - byte,
        {
            proof {
                lemma_split_step(all, byte as u8);
            }
            if source.child_index[byte as usize] != EMPTY_SLOT {
                let ghost b = byte as u8;
                assert(source@.contains_key(b));
                let child = source.remove_child(byte as u8);
                node.insert_child(byte as u8, child);
            } else {
                assert(!source@.contains_key(byte as u8));
            }
            byte = byte + 1;
        }
        proof {
            lemma_split_ends(all);
        }
        node
    }
}

impl Node256 {
    /// Moves all children into the Node48 layout.
    fn into_node48(self) -> (node: Node48)
        requires
            self.inv(),
            self.count <= 48,
        ensures
            node.inv(),
            node@ == self@,
    {
        let mut source = self;
        let mut node = Node48::new();
        let ghost all = source@;
        proof {
            lemma_split_ends(all);
        }
        let mut byte: u16 = 0;
        while byte < 256
            invariant
                byte <= 256,
                source.inv(),
                node.inv(),
                all.dom().finite(),
                all.dom().len() <= 48,
                node@ == below(all, byte as int),
                source@ == from_byte(all, byte as int),
            decreases 256 - byte,
        {
            proof {
                lemma_split_step(all, byte as u8);
            }
            if source.children[byte as usize].is_some() {
                let ghost b = byte as u8;
                assert(source@.contains_key(b));
                let child = source.remove_child(byte as u8);
                node.insert_child(byte as u8, child);
            } else {
                assert(!source@.contains_key(byte as u8));
            }
            byte = byte + 1;
        }
        proof {
            lemma_split_ends(all);
        }
        node
    }
}

// Inner nodes

impl NodeType {
    /// The layout is well formed and holds no more children than it may.
    pub open spec fn inv(self) -> bool {
        match self {
            NodeType::Node4(n) => n.inv() && n.keys@.len() <= 4,
            NodeType::Node16(n) => n.inv() && n.keys@.len() <= 16,
            NodeType::Node48(n) => n.inv(),
            NodeType::Node256(n) => n.inv(),
        }
    }

    /// The children by key byte.
    pub open spec fn view(self) -> Map<u8, ArtNode> {
        match self {
            NodeType::Node4(n) => n@,
            NodeType::Node16(n) => n@,
            NodeType::Node48(n) => n@,
            NodeType::Node256(n) => n@,
        }
    }

    /// Most children that the layout holds.
    pub open spec fn capacity(self) -> nat {
        match self {
            NodeType::Node4(_) => 4,
            NodeType::Node16(_) => 16,
            NodeType::Node48(_) => 48,
            NodeType::Node256(_) => 256,
        }
    }
}

impl InnerNode {
    /// The children are laid out well.
    pub open spec fn inv(self) -> bool {
        self.node_type.inv()
    }

    /// The children by key byte.
    pub open spec fn view(self) -> Map<u8, ArtNode> {
        self.node_type@
    }

    /// Number of children and terminal entry together.
    pub open spec fn entries(self) -> nat {
        self@.dom().len() + if self.terminal is Some {
            1nat
        } else {
            0nat
        }
    }

    /// Creates an empty inner node, laid out as a Node4.
    pub fn new_node4() -> (node: Self)
        ensures
            node.inv(),
            node.node_type is Node4,
            node@ == Map::<u8, ArtNode>::empty(),
            node.prefix@ == Seq::<u8>::empty(),
            node.terminal is None,
    {
        InnerNode {
            prefix: Vec::new(),
            terminal: None,
            node_type: NodeType::Node4(SortedNode::new()),
        }
    }

    /// Finds a child by key byte.
    pub fn find_child(&self, byte: u8) -> (child: Option<&ArtNode>)
        requires
            self.inv(),
        ensures
            child is Some <==> self@.contains_key(byte),
            child matches Some(c) ==> *c == self@[byte],
    {
        match &self.node_type {
            NodeType::Node4(n) => n.find_child(byte),
            NodeType::Node16(n) => n.find_child(byte),
            NodeType::Node48(n) => n.find_child(byte),
            NodeType::Node256(n) => n.find_child(byte),
        }
    }

    /// Finds a child by key byte, to change it in place.
    pub fn find_child_mut(&mut self, byte: u8) -> (child: Option<&mut Box<ArtNode>>)
        requires
            old(self).inv(),
        ensures
            child is Some <==> old(self)@.contains_key(byte),
            child is None ==> *final(self) == *old(self),
            child matches Some(c) ==> {
                &&& **c == old(self)@[byte]
                &&& final(self).inv()
                &&& final(self)@ == old(self)@.insert(byte, **final(c))
                &&& final(self).prefix == old(self).prefix
                &&& final(self).terminal == old(self).terminal
            },
    {
        match &mut self.node_type {
            NodeType::Node4(n) => n.find_child_mut(byte),
            NodeType::Node16(n) => n.find_child_mut(byte),
            NodeType::Node48(n) => n.find_child_mut(byte),
            NodeType::Node256(n) => n.find_child_mut(byte),
        }
    }

    /// Adds a child, growing the layout if it is full.
    pub fn add_child(&mut self, byte: u8, child: Box<ArtNode>)
        requires
            old(self).inv(),
            !old(self)@.contains_key(byte),
        ensures
            final(self).inv(),
            final(self)@ == old(self)@.insert(byte, *child),
            final(self).prefix == old(self).prefix,
            final(self).terminal == old(self).terminal,
    {
        if self.is_full() {
            self.grow();
        }
        match &mut self.node_type {
            NodeType::Node4(n) => n.insert_child(byte, child),
            NodeType::Node16(n) => n.insert_child(byte, child),
            NodeType::Node48(n) => n.insert_child(byte, child),
            NodeType::Node256(n) => n.insert_child(byte, child),
        }
    }

    /// Removes the child of a key byte and returns it, shrinking the layout if
    /// the next smaller one holds what is left.
    pub fn remove_child(&mut self, byte: u8) -> (child: Option<Box<ArtNode>>)
        requires
            old(self).inv(),
        ensures
            final(self).inv(),
            child is Some <==> old(self)@.contains_key(byte),
            child matches Some(c) ==> *c == old(self)@[byte],
            final(self)@ == old(self)@.remove(byte),
            final(self).prefix == old(self).prefix,
            final(self).terminal == old(self).terminal,
    {
        if self.find_child(byte).is_none() {
            proof {
                assert(self@ =~= self@.remove(byte));
            }
            if self.should_shrink() {
                self.shrink();
            }
            return None;
        }
        let child = match &mut self.node_type {
            NodeType::Node4(n) => n.remove_child(byte),
            NodeType::Node16(n) => n.remove_child(byte),
            NodeType::Node48(n) => n.remove_child(byte),
            NodeType::Node256(n) => n.remove_child(byte),
        };
        if self.should_shrink() {
            self.shrink();
        }
        Some(child)
    }

    /// Number of children in this node.
    pub fn num_children(&self) -> (count: usize)
        requires
            self.inv(),
        ensures
            self@.dom().finite(),
            count == self@.dom().len(),
            count <= 256,
    {
        match &self.node_type {
            NodeType::Node4(n) => n.keys.len(),
            NodeType::Node16(n) => n.keys.len(),
            NodeType::Node48(n) => {
                proof {
                    lemma_bytes_bounded(n@.dom());
                }
                n.count as usize
            },
            NodeType::Node256(n) => {
                proof {
                    lemma_bytes_bounded(n@.dom());
                }
                n.count as usize
            },
        }
    }

    /// Takes the single remaining child out of this node.
    pub fn take_single_child(&mut self) -> (taken: (u8, Box<ArtNode>))
        requires
            old(self).inv(),
            old(self)@.dom().len() == 1,
        ensures
            final(self).inv(),
            old(self)@ == Map::<u8, ArtNode>::empty().insert(taken.0, *taken.1),
            final(self)@ == Map::<u8, ArtNode>::empty(),
            final(self).prefix == old(self).prefix,
            final(self).terminal == old(self).terminal,
    {
        let ghost before = self@;
        let byte: u8 = self.first_byte();
        let child = match self.remove_child(byte) {
            Some(child) => child,
            None => {
                assert(false);
                Box::new(ArtNode::Inner(Box::new(InnerNode::new_node4())))
            },
        };
        proof {
            assert(before.dom().remove(byte).len() == 0);
            assert(before.dom().remove(byte) =~= Set::<u8>::empty());
            assert(self@ =~= Map::<u8, ArtNode>::empty());
            assert forall|b: u8| before.contains_key(b) implies b == byte by {
                if b != byte {
                    assert(before.dom().remove(byte).contains(b));
                }
            }
            assert(before =~= Map::<u8, ArtNode>::empty().insert(byte, *child));
        }
        (byte, child)
    }

    /// The smallest key byte with a child.
    fn first_byte(&self) -> (byte: u8)
        requires
            self.inv(),
            self@.dom().len() > 0,
        ensures
            self@.contains_key(byte),
            forall|b: u8| b < byte ==> !self@.contains_key(b),
    {
        let mut byte: u8 = 0;
        while self.find_child(byte).is_none()
            invariant
                self.inv(),
                self@.dom().len() > 0,
                forall|b: u8| b < byte ==> !self@.contains_key(b),
            decreases 256 - byte,
        {
            proof {
                if byte == 255 {
                    assert(self@.dom() =~= Set::<u8>::empty());
                }
            }
            byte = byte + 1;
        }
        byte
    }

    fn is_full(&self) -> (full: bool)
        requires
            self.inv(),
        ensures
            full <==> !(self.node_type is Node256) && self@.dom().len() >= self.node_type.capacity(),
    {
        match &self.node_type {
            NodeType::Node4(n) => n.keys.len() >= 4,
            NodeType::Node16(n) => n.keys.len() >= 16,
            NodeType::Node48(n) => n.count >= 48,
            NodeType::Node256(_) => false,
        }
    }

    fn should_shrink(&self) -> (shrink: bool)
        requires
            self.inv(),
        ensures
            shrink <==> match self.node_type {
                NodeType::Node4(_) => false,
                NodeType::Node16(_) => self@.dom().len() <= 4,
                NodeType::Node48(_) => self@.dom().len() <= 16,
                NodeType::Node256(_) => self@.dom().len() <= 48,
            },
    {
        match &self.node_type {
            NodeType::Node4(_) => false,
            NodeType::Node16(n) => n.keys.len() <= 4,
            NodeType::Node48(n) => n.count <= 16,
            NodeType::Node256(n) => n.count <= 48,
        }
    }

    /// Moves the children to the next larger layout.
    fn grow(&mut self)
        requires
            old(self).inv(),
            !(old(self).node_type is Node256),
        ensures
            final(self).inv(),
            final(self)@ == old(self)@,
            final(self).prefix == old(self).prefix,
            final(self).terminal == old(self).terminal,
            final(self).node_type.capacity() > old(self).node_type.capacity(),
    {
        let mut old_type = NodeType::Node4(SortedNode::new());
        std::mem::swap(&mut self.node_type, &mut old_type);
        self.node_type = match old_type {
            NodeType::Node4(n) => NodeType::Node16(n),
            NodeType::Node16(n) => NodeType::Node48(Box::new(n.into_node48())),
            NodeType::Node48(n) => NodeType::Node256((*n).into_node256()),
            NodeType::Node256(n) => NodeType::Node256(n),
        };
    }

    /// Moves the children to the next smaller layout.
    fn shrink(&mut self)
        requires
            old(self).inv(),
            match old(self).node_type {
                NodeType::Node4(_) => false,
                NodeType::Node16(_) => old(self)@.dom().len() <= 4,
                NodeType::Node48(_) => old(self)@.dom().len() <= 16,
                NodeType::Node256(_) => old(self)@.dom().len() <= 48,
            },
        ensures
            final(self).inv(),
            final(self)@ == old(self)@,
            final(self).prefix == old(self).prefix,
            final(self).terminal == old(self).terminal,
            final(self).node_type.capacity() < old(self).node_type.capacity(),
    {
        let mut old_type = NodeType::Node4(SortedNode::new());
        std::mem::swap(&mut self.node_type, &mut old_type);
        self.node_type = match old_type {
            NodeType::Node4(n) => NodeType::Node4(n),
            NodeType::Node16(n) => NodeType::Node4(n),
            NodeType::Node48(n) => NodeType::Node16((*n).into_node16()),
            NodeType::Node256(n) => NodeType::Node48(Box::new(n.into_node48())),
        };
    }
}

} // verus!
