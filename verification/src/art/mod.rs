//! Adaptive radix tree: the primary key index.
//!
//! The tree maps primary keys to `RowLocation` values, with a lookup that is
//! linear in the length of the key. Inner nodes compress the path they share,
//! and adapt the layout of their children to how many there are.

pub mod node;

use vstd::prelude::*;
use vstd::slice::{slice_subrange, slice_to_vec};

use crate::bytes::{bytes_equal, common_prefix_len};
use node::{ArtNode, InnerNode, LeafNode, NodeType};

verus! {

/// Location of a row in the storage engine.
#[derive(Debug, PartialEq, Eq)]
pub enum RowLocation {
    /// Row lives in the active memtable.
    Memtable { shard: u8, key: Vec<u8> },
    /// Row lives in an SST file on disk.
    SST { sst_id: u64, block_offset: u64, row_offset: u32 },
}

/// What a `RowLocation` says.
pub ghost enum RowLocationView {
    Memtable { shard: u8, key: Seq<u8> },
    SST { sst_id: u64, block_offset: u64, row_offset: u32 },
}

impl View for RowLocation {
    type V = RowLocationView;

    open spec fn view(&self) -> RowLocationView {
        match *self {
            RowLocation::Memtable { shard, key } => RowLocationView::Memtable { shard, key: key@ },
            RowLocation::SST { sst_id, block_offset, row_offset } => RowLocationView::SST {
                sst_id,
                block_offset,
                row_offset,
            },
        }
    }
}

impl Clone for RowLocation {
    fn clone(&self) -> (copy: Self)
        ensures
            copy@ == self@,
    {
        match self {
            RowLocation::Memtable { shard, key } => RowLocation::Memtable {
                shard: *shard,
                key: slice_to_vec(key.as_slice()),
            },
            RowLocation::SST { sst_id, block_offset, row_offset } => RowLocation::SST {
                sst_id: *sst_id,
                block_offset: *block_offset,
                row_offset: *row_offset,
            },
        }
    }
}

// Well-formed trees

/// The subtree under `node` holds only keys that start with `path`, each where
/// a descent along its own bytes finds it, and every inner node has at least
/// two entries.
pub open spec fn wf(node: ArtNode, path: Seq<u8>) -> bool
    decreases node,
{
    match node {
        ArtNode::Leaf(leaf) => path.is_prefix_of(leaf.key@),
        ArtNode::Inner(inner) => {
            &&& inner.inv()
            &&& inner.entries() >= 2
            &&& inner.terminal matches Some(leaf) ==> leaf.key@ == path + inner.prefix@
            &&& match inner.node_type {
                NodeType::Node4(n) => forall|i: int|
                    0 <= i < n.children@.len() ==> wf(
                        *#[trigger] n.children@[i],
                        (path + inner.prefix@).push(n.keys@[i]),
                    ),
                NodeType::Node16(n) => forall|i: int|
                    0 <= i < n.children@.len() ==> wf(
                        *#[trigger] n.children@[i],
                        (path + inner.prefix@).push(n.keys@[i]),
                    ),
                NodeType::Node48(n) => forall|b: int|
                    0 <= b < 256 && #[trigger] n.child_index@[b] != node::EMPTY_SLOT && 0
                        <= n.child_index@[b] < n.children@.len() ==> (
                    n.children@[n.child_index@[b] as int] matches Some(child) ==> wf(
                        *child,
                        (path + inner.prefix@).push(b as u8),
                    )),
                NodeType::Node256(n) => forall|b: int|
                    0 <= b < 256 && b < n.children@.len() ==> (
                    #[trigger] n.children@[b] matches Some(child) ==> wf(
                        *child,
                        (path + inner.prefix@).push(b as u8),
                    )),
            }
        },
    }
}

/// The children of `inner` are well formed below `stem`.
spec fn children_wf(inner: InnerNode, stem: Seq<u8>) -> bool {
    forall|b: u8| #[trigger]
        inner@.contains_key(b) ==> wf(inner@[b], stem.push(b))
}

/// The entry that ends at `inner` has the key `stem`.
spec fn terminal_wf(inner: InnerNode, stem: Seq<u8>) -> bool {
    inner.terminal matches Some(leaf) ==> leaf.key@ == stem
}

/// Well-formedness of an inner node in terms of its children by key byte.
proof fn lemma_inner_wf(inner: InnerNode, path: Seq<u8>)
    ensures
        wf(ArtNode::Inner(Box::new(inner)), path) <==> {
            &&& inner.inv()
            &&& inner.entries() >= 2
            &&& terminal_wf(inner, path + inner.prefix@)
            &&& children_wf(inner, path + inner.prefix@)
        },
{
    let stem = path + inner.prefix@;
    let node = ArtNode::Inner(Box::new(inner));
    if inner.inv() {
        match inner.node_type {
            NodeType::Node4(n) => {
                lemma_sorted_children(inner, n, stem);
            },
            NodeType::Node16(n) => {
                lemma_sorted_children(inner, n, stem);
            },
            NodeType::Node48(n) => {
                if wf(node, path) {
                    assert forall|b: u8| #[trigger] inner@.contains_key(b) implies wf(
                        inner@[b],
                        stem.push(b),
                    ) by {
                        assert(n.child_index@[b as int] != node::EMPTY_SLOT);
                    }
                }
                if children_wf(inner, stem) {
                    assert forall|b: int|
                        0 <= b < 256 && #[trigger] n.child_index@[b] != node::EMPTY_SLOT && 0
                            <= n.child_index@[b] < n.children@.len() implies (
                    n.children@[n.child_index@[b] as int] matches Some(child) ==> wf(
                        *child,
                        stem.push(b as u8),
                    )) by {
                        assert(inner@.contains_key(b as u8));
                    }
                }
            },
            NodeType::Node256(n) => {
                if wf(node, path) {
                    assert forall|b: u8| #[trigger] inner@.contains_key(b) implies wf(
                        inner@[b],
                        stem.push(b),
                    ) by {
                        assert(n.children@[b as int] is Some);
                    }
                }
                if children_wf(inner, stem) {
                    assert forall|b: int| 0 <= b < 256 && b < n.children@.len() implies (
                    #[trigger] n.children@[b] matches Some(child) ==> wf(
                        *child,
                        stem.push(b as u8),
                    )) by {
                        if n.children@[b] is Some {
                            assert(inner@.contains_key(b as u8));
                        }
                    }
                }
            },
        }
    }
}

proof fn lemma_sorted_children(inner: InnerNode, n: node::SortedNode, stem: Seq<u8>)
    requires
        n.inv(),
        inner@ == n@,
    ensures
        children_wf(inner, stem) <==> forall|i: int|
            0 <= i < n.children@.len() ==> wf(*#[trigger] n.children@[i], stem.push(n.keys@[i])),
{
    if children_wf(inner, stem) {
        assert forall|i: int| 0 <= i < n.children@.len() implies wf(
            *#[trigger] n.children@[i],
            stem.push(n.keys@[i]),
        ) by {
            let b = n.keys@[i];
            assert(n.has(b));
            assert(n.position(b) == i);
            assert(inner@.contains_key(b));
        }
    }
    if forall|i: int|
        0 <= i < n.children@.len() ==> wf(*#[trigger] n.children@[i], stem.push(n.keys@[i])) {
        assert forall|b: u8| #[trigger] inner@.contains_key(b) implies wf(
            inner@[b],
            stem.push(b),
        ) by {
            let i = n.position(b);
            assert(n.has(b));
            assert(*n.children@[i] == inner@[b]);
        }
    }
}

// Contents

/// What a descent along `key` from `node`, `depth` bytes down, finds.
pub open spec fn find(node: ArtNode, key: Seq<u8>, depth: nat) -> Option<RowLocationView>
    decreases key.len() - depth,
{
    match node {
        ArtNode::Leaf(leaf) => if leaf.key@ == key {
            Some(leaf.value@)
        } else {
            None
        },
        ArtNode::Inner(inner) => {
            let end = depth + inner.prefix@.len();
            if end > key.len() || key.subrange(depth as int, end as int) != inner.prefix@ {
                None
            } else if end == key.len() {
                match inner.terminal {
                    Some(leaf) if leaf.key@ == key => Some(leaf.value@),
                    _ => None,
                }
            } else if inner@.contains_key(key[end as int]) {
                find(inner@[key[end as int]], key, (end + 1) as nat)
            } else {
                None
            }
        },
    }
}

/// An inner node finds the same keys when part of its prefix moves to the path above it.
proof fn lemma_find_reprefix(
    inner: InnerNode,
    depth: nat,
    other: InnerNode,
    other_depth: nat,
    key: Seq<u8>,
)
    requires
        inner.terminal == other.terminal,
        inner@ == other@,
        depth + inner.prefix@.len() == other_depth + other.prefix@.len(),
        depth + inner.prefix@.len() <= key.len(),
        key.subrange(depth as int, (depth + inner.prefix@.len()) as int) == inner.prefix@,
        key.subrange(other_depth as int, (other_depth + other.prefix@.len()) as int)
            == other.prefix@,
    ensures
        find(ArtNode::Inner(Box::new(inner)), key, depth) == find(
            ArtNode::Inner(Box::new(other)),
            key,
            other_depth,
        ),
{
}

// Operations on subtrees

/// Puts `leaf` into `inner`, whose prefix ends `end` bytes down its path.
fn place(inner: &mut InnerNode, leaf: LeafNode, end: usize)
    requires
        old(inner).inv(),
        end <= leaf.key@.len(),
        end == leaf.key@.len() ==> old(inner).terminal is None,
        end < leaf.key@.len() ==> !old(inner)@.contains_key(leaf.key@[end as int]),
    ensures
        final(inner).inv(),
        final(inner).prefix == old(inner).prefix,
        final(inner).entries() == old(inner).entries() + 1,
        end == leaf.key@.len() ==> final(inner).terminal == Some(leaf) && final(inner)@ == old(
            inner,
        )@,
        end < leaf.key@.len() ==> final(inner).terminal == old(inner).terminal && final(inner)@
            == old(inner)@.insert(leaf.key@[end as int], ArtNode::Leaf(leaf)),
{
    if end == leaf.key.len() {
        inner.terminal = Some(leaf);
    } else {
        let byte: u8 = leaf.key[end];
        inner.add_child(byte, Box::new(ArtNode::Leaf(leaf)));
    }
}

/// Replaces a leaf by an inner node that holds it and a new leaf.
fn split_leaf(leaf: LeafNode, key: &[u8], value: RowLocation, depth: usize) -> (node: ArtNode)
    requires
        depth <= key@.len(),
        key@.take(depth as int).is_prefix_of(leaf.key@),
        leaf.key@ != key@,
    ensures
        wf(node, key@.take(depth as int)),
        forall|k: Seq<u8>| #[trigger]
            find(node, k, depth as nat) == if k == key@ {
                Some(value@)
            } else {
                find(ArtNode::Leaf(leaf), k, depth as nat)
            },
{
    let ghost path = key@.take(depth as int);
    let ghost old_leaf = leaf;
    let shared: usize = common_prefix_len(
        slice_subrange(leaf.key.as_slice(), depth, leaf.key.len()),
        slice_subrange(key, depth, key.len()),
    );
    let end: usize = depth + shared;
    let ghost old_key = leaf.key@;
    proof {
        let a = old_key.subrange(depth as int, old_key.len() as int);
        let b = key@.subrange(depth as int, key@.len() as int);
        assert forall|i: int| 0 <= i < end implies old_key[i] == key@[i] by {
            if i < depth {
                assert(path[i] == key@[i]);
            } else {
                assert(a[i - depth] == old_key[i]);
                assert(b[i - depth] == key@[i]);
            }
        }
        if end == old_key.len() && end == key@.len() {
            assert(old_key =~= key@);
        }
        if end < old_key.len() && end < key@.len() {
            assert(a[shared as int] == old_key[end as int]);
            assert(b[shared as int] == key@[end as int]);
        }
    }
    let mut inner = InnerNode::new_node4();
    inner.prefix = slice_to_vec(slice_subrange(key, depth, end));
    let ghost stem = key@.take(end as int);
    assert(path + inner.prefix@ =~= stem);
    place(&mut inner, leaf, end);
    let new_leaf = LeafNode { key: slice_to_vec(key), value };
    place(&mut inner, new_leaf, end);
    proof {
        reveal_with_fuel(find, 2);
        assert(inner.prefix@.len() == shared);
        assert(path + inner.prefix@ =~= stem);
        if end == old_key.len() {
            assert(old_key =~= stem);
        }
        if end == key@.len() {
            assert(key@ =~= stem);
        }
        assert forall|b: u8| #[trigger] inner@.contains_key(b) implies wf(
            inner@[b],
            stem.push(b),
        ) by {}
        lemma_inner_wf(inner, path);
        assert forall|k: Seq<u8>| #[trigger]
            find(ArtNode::Inner(Box::new(inner)), k, depth as nat) == if k == key@ {
                Some(value@)
            } else {
                find(ArtNode::Leaf(old_leaf), k, depth as nat)
            } by {
            if k == key@ || k == old_key {
                assert(k.subrange(depth as int, end as int) =~= inner.prefix@);
            }
        }
    }
    ArtNode::Inner(Box::new(inner))
}

/// Splits the prefix of an inner node after `matched` bytes, and adds a leaf
/// where the key leaves it.
fn split_prefix(
    inner: Box<InnerNode>,
    key: &[u8],
    value: RowLocation,
    depth: usize,
    matched: usize,
) -> (node: ArtNode)
    requires
        depth + matched <= key@.len(),
        matched < inner.prefix@.len(),
        wf(ArtNode::Inner(inner), key@.take(depth as int)),
        forall|i: int| 0 <= i < matched ==> inner.prefix@[i] == key@[depth + i],
        depth + matched < key@.len() ==> inner.prefix@[matched as int] != key@[depth + matched],
    ensures
        wf(node, key@.take(depth as int)),
        forall|k: Seq<u8>| #[trigger]
            find(node, k, depth as nat) == if k == key@ {
                Some(value@)
            } else {
                find(ArtNode::Inner(inner), k, depth as nat)
            },
        find(ArtNode::Inner(inner), key@, depth as nat) is None,
{
    let ghost path = key@.take(depth as int);
    let ghost before = *inner;
    let ghost prefix = inner.prefix@;
    assert(key.len() == key@.len());
    let end: usize = depth + matched;
    let mut lower = inner;
    assert(lower.prefix.len() == prefix.len());
    let byte: u8 = lower.prefix[matched];
    let mut upper = InnerNode::new_node4();
    upper.prefix = slice_to_vec(slice_subrange(lower.prefix.as_slice(), 0, matched));
    lower.prefix = slice_to_vec(
        slice_subrange(lower.prefix.as_slice(), matched + 1, lower.prefix.len()),
    );
    let ghost below = *lower;
    let ghost stem = key@.take(end as int);
    proof {
        assert(path + upper.prefix@ =~= stem);
        lemma_inner_wf(before, path);
        assert(stem.push(byte) + below.prefix@ =~= path + prefix);
        lemma_inner_wf(below, stem.push(byte));
    }
    upper.add_child(byte, Box::new(ArtNode::Inner(lower)));
    let new_leaf = LeafNode { key: slice_to_vec(key), value };
    place(&mut upper, new_leaf, end);
    proof {
        reveal_with_fuel(find, 2);
        assert(stem.is_prefix_of(key@));
        if end == key@.len() {
            assert(key@ =~= stem);
        }
        assert(path + upper.prefix@ =~= stem);
        assert forall|b: u8| #[trigger] upper@.contains_key(b) implies wf(
            upper@[b],
            stem.push(b),
        ) by {}
        lemma_inner_wf(upper, path);
        assert(upper.prefix@ == prefix.take(matched as int));
        assert(below.prefix@ == prefix.skip(matched + 1));
        let whole = depth + prefix.len();
        assert forall|k: Seq<u8>| #[trigger]
            find(ArtNode::Inner(Box::new(upper)), k, depth as nat) == if k == key@ {
                Some(value@)
            } else {
                find(ArtNode::Inner(Box::new(before)), k, depth as nat)
            } by {
            if k == key@ {
                assert(k.subrange(depth as int, end as int) =~= upper.prefix@);
            } else if whole <= k.len() && k.subrange(depth as int, whole as int) == prefix {
                assert(k.subrange(depth as int, end as int) =~= upper.prefix@);
                assert(k[end as int] == prefix[matched as int]);
                assert(k.subrange(end + 1, whole as int) =~= below.prefix@);
                lemma_find_reprefix(before, depth as nat, below, (end + 1) as nat, k);
            } else if end < k.len() && k.subrange(depth as int, end as int) == upper.prefix@
                && k[end as int] == byte {
                if whole <= k.len() && k.subrange(end + 1, whole as int) == below.prefix@ {
                    assert forall|i: int| 0 <= i < prefix.len() implies #[trigger] k.subrange(
                        depth as int,
                        whole as int,
                    )[i] == prefix[i] by {
                        if i < matched {
                            assert(k.subrange(depth as int, end as int)[i] == upper.prefix@[i]);
                        } else if i > matched {
                            assert(k.subrange(end + 1, whole as int)[i - matched - 1]
                                == below.prefix@[i - matched - 1]);
                        }
                    }
                    assert(k.subrange(depth as int, whole as int) =~= prefix);
                }
            }
        }
        if whole <= key@.len() {
            assert(key@.subrange(depth as int, whole as int)[matched as int] == key@[end as int]);
        }
    }
    ArtNode::Inner(Box::new(upper))
}

/// Inserts below `node`, which stands `depth` bytes down the path of `key`.
/// Returns whether the key was there before.
fn insert_recursive(node: &mut ArtNode, key: &[u8], value: RowLocation, depth: usize) -> (replaced:
    bool)
    requires
        depth <= key@.len(),
        wf(*old(node), key@.take(depth as int)),
    ensures
        wf(*final(node), key@.take(depth as int)),
        replaced == (find(*old(node), key@, depth as nat) is Some),
        forall|k: Seq<u8>| #[trigger]
            find(*final(node), k, depth as nat) == if k == key@ {
                Some(value@)
            } else {
                find(*old(node), k, depth as nat)
            },
    decreases key@.len() - depth,
{
    let ghost before = *node;
    let ghost path = key@.take(depth as int);
    match node {
        ArtNode::Leaf(leaf) => {
            if bytes_equal(leaf.key.as_slice(), key) {
                leaf.value = value;
                return true;
            }
            let mut taken = ArtNode::Inner(Box::new(InnerNode::new_node4()));
            std::mem::swap(node, &mut taken);
            if let ArtNode::Leaf(leaf) = taken {
                *node = split_leaf(leaf, key, value, depth);
            }
            false
        },
        ArtNode::Inner(inner) => {
            proof {
                lemma_inner_wf(**inner, path);
            }
            let rest = slice_subrange(key, depth, key.len());
            let matched: usize = common_prefix_len(inner.prefix.as_slice(), rest);
            proof {
                assert forall|i: int| 0 <= i < matched implies inner.prefix@[i] == key@[depth
                    + i] by {
                    assert(rest@[i] == key@[depth + i]);
                }
                if matched < rest@.len() {
                    assert(rest@[matched as int] == key@[depth + matched]);
                }
            }
            if matched < inner.prefix.len() {
                let mut taken = ArtNode::Inner(Box::new(InnerNode::new_node4()));
                std::mem::swap(node, &mut taken);
                if let ArtNode::Inner(inner) = taken {
                    *node = split_prefix(inner, key, value, depth, matched);
                }
                return false;
            }
            let end: usize = depth + matched;
            let ghost stem = key@.take(end as int);
            let ghost old_inner = **inner;
            proof {
                assert(key@.subrange(depth as int, end as int) =~= inner.prefix@);
                assert(path + inner.prefix@ =~= stem);
            }
            if end == key.len() {
                assert(stem =~= key@);
                let replaced = inner.terminal.is_some();
                inner.terminal = Some(LeafNode { key: slice_to_vec(key), value });
                proof {
                    lemma_inner_wf(**inner, path);
                }
                return replaced;
            }
            let byte: u8 = key[end];
            assert(stem.push(byte) =~= key@.take(end + 1));
            if let Some(child) = inner.find_child_mut(byte) {
                let replaced = insert_recursive(&mut **child, key, value, end + 1);
                proof {
                    lemma_inner_wf(**inner, path);
                    let after = **inner;
                    assert forall|k: Seq<u8>| #[trigger]
                        find(ArtNode::Inner(Box::new(after)), k, depth as nat) == if k == key@ {
                            Some(value@)
                        } else {
                            find(before, k, depth as nat)
                        } by {
                        if end < k.len() && k[end as int] == byte {
                            assert(find(after@[byte], k, (end + 1) as nat) == if k == key@ {
                                Some(value@)
                            } else {
                                find(old_inner@[byte], k, (end + 1) as nat)
                            });
                        }
                    }
                }
                return replaced;
            }
            let new_leaf = LeafNode { key: slice_to_vec(key), value };
            place(&mut **inner, new_leaf, end);
            proof {
                reveal_with_fuel(find, 2);
                assert(stem.push(byte).is_prefix_of(key@));
                lemma_inner_wf(**inner, path);
            }
            false
        },
    }
}

/// Looks a key up below `node`, which stands `depth` bytes down its path.
fn lookup_recursive(node: &ArtNode, key: &[u8], depth: usize) -> (found: Option<RowLocation>)
    requires
        depth <= key@.len(),
        wf(*node, key@.take(depth as int)),
    ensures
        match found {
            Some(location) => find(*node, key@, depth as nat) == Some(location@),
            None => find(*node, key@, depth as nat) is None,
        },
    decreases key@.len() - depth,
{
    match node {
        ArtNode::Leaf(leaf) => {
            if bytes_equal(leaf.key.as_slice(), key) {
                Some(leaf.value.clone())
            } else {
                None
            }
        },
        ArtNode::Inner(inner) => {
            let ghost path = key@.take(depth as int);
            proof {
                lemma_inner_wf(**inner, path);
            }
            if !prefix_matches(inner, key, depth) {
                return None;
            }
            assert(key.len() == key@.len());
            let end: usize = depth + inner.prefix.len();
            let ghost stem = key@.take(end as int);
            assert(path + inner.prefix@ =~= stem);
            if end == key.len() {
                assert(stem =~= key@);
                return match &inner.terminal {
                    Some(leaf) => Some(leaf.value.clone()),
                    None => None,
                };
            }
            let byte: u8 = key[end];
            assert(stem.push(byte) =~= key@.take(end + 1));
            match inner.find_child(byte) {
                Some(child) => lookup_recursive(child, key, end + 1),
                None => None,
            }
        },
    }
}

/// Whether `key` goes on with the prefix of `inner` after `depth` bytes.
fn prefix_matches(inner: &InnerNode, key: &[u8], depth: usize) -> (matches: bool)
    requires
        depth <= key@.len(),
    ensures
        matches == (depth + inner.prefix@.len() <= key@.len() && key@.subrange(
            depth as int,
            depth + inner.prefix@.len(),
        ) == inner.prefix@),
{
    let rest = slice_subrange(key, depth, key.len());
    let matched: usize = common_prefix_len(inner.prefix.as_slice(), rest);
    proof {
        let end = depth + inner.prefix@.len();
        if matched == inner.prefix@.len() {
            assert forall|i: int| 0 <= i < inner.prefix@.len() implies key@.subrange(
                depth as int,
                end as int,
            )[i] == inner.prefix@[i] by {
                assert(rest@[i] == key@[depth + i]);
            }
            assert(key@.subrange(depth as int, end as int) =~= inner.prefix@);
        } else if end <= key@.len() {
            assert(rest@[matched as int] == key@[depth + matched]);
            assert(key@.subrange(depth as int, end as int)[matched as int] == key@[depth
                + matched]);
        }
    }
    matched == inner.prefix.len()
}

/// Turns an inner node back into a subtree: one that has a single entry left
/// gives way to that entry.
fn collapse(inner: Box<InnerNode>, Ghost(path): Ghost<Seq<u8>>) -> (node: ArtNode)
    requires
        inner.inv(),
        inner.entries() >= 1,
        terminal_wf(*inner, path + inner.prefix@),
        children_wf(*inner, path + inner.prefix@),
    ensures
        wf(node, path),
        forall|k: Seq<u8>| #[trigger]
            find(node, k, path.len()) == find(ArtNode::Inner(inner), k, path.len()),
{
    let ghost before = *inner;
    let ghost stem = path + inner.prefix@;
    let mut inner = inner;
    let count: usize = inner.num_children();
    if count >= 2 || (count == 1 && inner.terminal.is_some()) {
        proof {
            lemma_inner_wf(*inner, path);
        }
        return ArtNode::Inner(inner);
    }
    if count == 0 {
        if let Some(leaf) = inner.terminal {
            proof {
                assert(path.is_prefix_of(leaf.key@));
                assert forall|k: Seq<u8>| #[trigger]
                    find(ArtNode::Leaf(leaf), k, path.len()) == find(
                        ArtNode::Inner(Box::new(before)),
                        k,
                        path.len(),
                    ) by {
                    let end = stem.len();
                    if k == leaf.key@ {
                        assert(k.subrange(path.len() as int, end as int) =~= before.prefix@);
                    }
                    if end < k.len() && before@.contains_key(k[end as int]) {
                        assert(before@.dom() =~= Set::<u8>::empty());
                    }
                }
            }
            return ArtNode::Leaf(leaf);
        }
    }
    let (byte, child) = inner.take_single_child();
    proof {
        assert(before@.contains_key(byte));
        assert(wf(*child, stem.push(byte)));
    }
    match *child {
        ArtNode::Leaf(leaf) => {
            proof {
                reveal_with_fuel(find, 2);
                assert(stem.push(byte)[stem.len() as int] == byte);
                assert forall|i: int| 0 <= i < path.len() implies path[i] == leaf.key@[i] by {
                    assert(stem.push(byte)[i] == leaf.key@[i]);
                }
                assert(path.is_prefix_of(leaf.key@));
                assert forall|k: Seq<u8>| #[trigger]
                    find(ArtNode::Leaf(leaf), k, path.len()) == find(
                        ArtNode::Inner(Box::new(before)),
                        k,
                        path.len(),
                    ) by {
                    let end = stem.len();
                    if k == leaf.key@ {
                        assert forall|i: int| 0 <= i < before.prefix@.len() implies #[trigger] k.subrange(
                            path.len() as int,
                            end as int,
                        )[i] == before.prefix@[i] by {
                            assert(stem.push(byte)[path.len() + i] == k[path.len() + i]);
                        }
                        assert(k.subrange(path.len() as int, end as int) =~= before.prefix@);
                    }
                }
            }
            ArtNode::Leaf(leaf)
        },
        ArtNode::Inner(lower) => {
            let ghost below = *lower;
            let mut lower = lower;
            let mut merged: Vec<u8> = inner.prefix;
            merged.push(byte);
            merged.extend_from_slice(lower.prefix.as_slice());
            proof {
                assert(merged@ =~= before.prefix@.push(byte) + below.prefix@);
            }
            lower.prefix = merged;
            proof {
                reveal_with_fuel(find, 2);
                let after = *lower;
                lemma_inner_wf(below, stem.push(byte));
                assert(path + after.prefix@ =~= stem.push(byte) + below.prefix@);
                lemma_inner_wf(after, path);
                let d = path.len() as int;
                let end = stem.len() as int;
                let whole = d + after.prefix@.len();
                assert forall|k: Seq<u8>| #[trigger]
                    find(ArtNode::Inner(Box::new(after)), k, path.len()) == find(
                        ArtNode::Inner(Box::new(before)),
                        k,
                        path.len(),
                    ) by {
                    if whole <= k.len() && k.subrange(d, whole) == after.prefix@ {
                        assert forall|i: int| 0 <= i < before.prefix@.len() implies #[trigger] k.subrange(
                            d,
                            end,
                        )[i] == before.prefix@[i] by {
                            assert(k.subrange(d, whole)[i] == after.prefix@[i]);
                        }
                        assert(k.subrange(d, end) =~= before.prefix@);
                        assert(k.subrange(d, whole)[before.prefix@.len() as int] == byte);
                        assert(k[end] == byte);
                        assert forall|i: int| 0 <= i < below.prefix@.len() implies #[trigger] k.subrange(
                            end + 1,
                            whole,
                        )[i] == below.prefix@[i] by {
                            assert(k.subrange(d, whole)[before.prefix@.len() + 1 + i]
                                == after.prefix@[before.prefix@.len() + 1 + i]);
                        }
                        assert(k.subrange(end + 1, whole) =~= below.prefix@);
                        lemma_find_reprefix(after, path.len(), below, (end + 1) as nat, k);
                    } else if end < k.len() && k.subrange(d, end) == before.prefix@ && k[end] == byte
                        && whole <= k.len() && k.subrange(end + 1, whole) == below.prefix@ {
                        assert forall|i: int| 0 <= i < after.prefix@.len() implies #[trigger] k.subrange(
                            d,
                            whole,
                        )[i] == after.prefix@[i] by {
                            if i < before.prefix@.len() {
                                assert(k.subrange(d, end)[i] == before.prefix@[i]);
                            } else if i > before.prefix@.len() {
                                assert(k.subrange(end + 1, whole)[i - before.prefix@.len() - 1]
                                    == below.prefix@[i - before.prefix@.len() - 1]);
                            }
                        }
                        assert(k.subrange(d, whole) =~= after.prefix@);
                    }
                }
            }
            ArtNode::Inner(lower)
        },
    }
}

/// Deletes a key below an inner node, which stands `depth` bytes down its path.
/// Returns what was stored under the key.
fn delete_recursive(node: &mut ArtNode, key: &[u8], depth: usize) -> (removed: Option<RowLocation>)
    requires
        *old(node) is Inner,
        depth <= key@.len(),
        wf(*old(node), key@.take(depth as int)),
    ensures
        wf(*final(node), key@.take(depth as int)),
        match removed {
            Some(location) => find(*old(node), key@, depth as nat) == Some(location@),
            None => find(*old(node), key@, depth as nat) is None,
        },
        forall|k: Seq<u8>| #[trigger]
            find(*final(node), k, depth as nat) == if k == key@ {
                None
            } else {
                find(*old(node), k, depth as nat)
            },
    decreases key@.len() - depth,
{
    let ghost before = *node;
    let ghost path = key@.take(depth as int);
    let mut taken = ArtNode::Inner(Box::new(InnerNode::new_node4()));
    std::mem::swap(node, &mut taken);
    let mut inner = match taken {
        ArtNode::Inner(inner) => inner,
        ArtNode::Leaf(leaf) => {
            assert(false);
            return None;
        },
    };
    let ghost old_inner = *inner;
    proof {
        lemma_inner_wf(*inner, path);
    }
    if !prefix_matches(&*inner, key, depth) {
        *node = ArtNode::Inner(inner);
        return None;
    }
    assert(key.len() == key@.len());
    let end: usize = depth + inner.prefix.len();
    let ghost stem = key@.take(end as int);
    assert(path + inner.prefix@ =~= stem);
    if end == key.len() {
        assert(stem =~= key@);
        let removed = inner.terminal.take();
        proof {
            assert forall|k: Seq<u8>| #[trigger]
                find(ArtNode::Inner(inner), k, depth as nat) == if k == key@ {
                    None
                } else {
                    find(before, k, depth as nat)
                } by {
                if k != key@ && k.len() == end && k.subrange(depth as int, end as int)
                    == old_inner.prefix@ {
                    assert(old_inner.terminal matches Some(leaf) ==> leaf.key@ != k);
                }
            }
        }
        *node = collapse(inner, Ghost(path));
        return match removed {
            Some(leaf) => Some(leaf.value),
            None => None,
        };
    }
    let byte: u8 = key[end];
    assert(stem.push(byte) =~= key@.take(end + 1));
    let is_leaf: bool = match inner.find_child(byte) {
        None => {
            *node = ArtNode::Inner(inner);
            return None;
        },
        Some(ArtNode::Leaf(leaf)) => {
            if !bytes_equal(leaf.key.as_slice(), key) {
                proof {
                    reveal_with_fuel(find, 2);
                }
                *node = ArtNode::Inner(inner);
                return None;
            }
            true
        },
        Some(ArtNode::Inner(_)) => false,
    };
    if is_leaf {
        let child = inner.remove_child(byte);
        proof {
            reveal_with_fuel(find, 2);
            assert(old_inner@.dom().len() >= 1);
            assert(inner@.dom().len() == old_inner@.dom().len() - 1);
            assert forall|k: Seq<u8>| #[trigger]
                find(ArtNode::Inner(inner), k, depth as nat) == if k == key@ {
                    None
                } else {
                    find(before, k, depth as nat)
                } by {}
        }
        *node = collapse(inner, Ghost(path));
        return match child {
            Some(child) => match *child {
                ArtNode::Leaf(leaf) => Some(leaf.value),
                ArtNode::Inner(_) => None,
            },
            None => None,
        };
    }
    let removed = match inner.find_child_mut(byte) {
        Some(child) => delete_recursive(&mut **child, key, end + 1),
        None => None,
    };
    proof {
        let after = *inner;
        assert(after@.dom() =~= old_inner@.dom());
        lemma_inner_wf(after, path);
        assert forall|k: Seq<u8>| #[trigger]
            find(ArtNode::Inner(Box::new(after)), k, depth as nat) == if k == key@ {
                None
            } else {
                find(before, k, depth as nat)
            } by {
            if end < k.len() && k[end as int] == byte {
                assert(find(after@[byte], k, (end + 1) as nat) == if k == key@ {
                    None
                } else {
                    find(old_inner@[byte], k, (end + 1) as nat)
                });
            }
        }
    }
    *node = ArtNode::Inner(inner);
    removed
}

// The tree

/// The radix tree with its number of entries.
struct AdaptiveRadixTree {
    root: Option<Box<ArtNode>>,
    len: usize,
}

impl AdaptiveRadixTree {
    /// What is stored under a key.
    spec fn get(self, key: Seq<u8>) -> Option<RowLocationView> {
        match self.root {
            Some(node) => find(*node, key, 0),
            None => None,
        }
    }

    /// The stored locations by key.
    spec fn view(self) -> Map<Seq<u8>, RowLocationView> {
        Map::new(|key: Seq<u8>| self.get(key) is Some, |key: Seq<u8>| self.get(key)->0)
    }

    /// The tree is well formed and `len` counts its entries.
    spec fn inv(self) -> bool {
        &&& self.root matches Some(node) ==> wf(*node, Seq::<u8>::empty())
        &&& self@.dom().finite()
        &&& self.len == self@.dom().len()
    }

    fn new() -> (tree: Self)
        ensures
            tree.inv(),
            tree@ == Map::<Seq<u8>, RowLocationView>::empty(),
    {
        let tree = AdaptiveRadixTree { root: None, len: 0 };
        assert(tree@ =~= Map::<Seq<u8>, RowLocationView>::empty());
        tree
    }

    fn insert(&mut self, key: Vec<u8>, value: RowLocation)
        requires
            old(self).inv(),
            old(self)@.contains_key(key@) || old(self)@.dom().len() < usize::MAX,
        ensures
            final(self).inv(),
            final(self)@ == old(self)@.insert(key@, value@),
    {
        let ghost before = *self;
        let ghost location = value@;
        assert(key@.take(0) =~= Seq::<u8>::empty());
        let replaced = match &mut self.root {
            None => {
                let ghost k = key@;
                self.root = Some(Box::new(ArtNode::Leaf(LeafNode { key, value })));
                false
            },
            Some(node) => insert_recursive(&mut **node, key.as_slice(), value, 0),
        };
        proof {
            assert forall|k: Seq<u8>| #[trigger] self.get(k) == if k == key@ {
                Some(location)
            } else {
                before.get(k)
            } by {}
            assert(self@ =~= before@.insert(key@, location));
        }
        if !replaced {
            self.len = self.len + 1;
        }
        proof {
            assert(self@ =~= before@.insert(key@, location));
        }
    }

    fn lookup(&self, key: &[u8]) -> (found: Option<RowLocation>)
        requires
            self.inv(),
        ensures
            match found {
                Some(location) => self@.contains_key(key@) && self@[key@] == location@,
                None => !self@.contains_key(key@),
            },
    {
        assert(key@.take(0) =~= Seq::<u8>::empty());
        match &self.root {
            Some(node) => lookup_recursive(&**node, key, 0),
            None => None,
        }
    }

    fn delete(&mut self, key: &[u8]) -> (removed: Option<RowLocation>)
        requires
            old(self).inv(),
        ensures
            final(self).inv(),
            final(self)@ == old(self)@.remove(key@),
            match removed {
                Some(location) => old(self)@.contains_key(key@) && old(self)@[key@] == location@,
                None => !old(self)@.contains_key(key@),
            },
    {
        let ghost before = *self;
        assert(key@.take(0) =~= Seq::<u8>::empty());
        let removed = match self.root.take() {
            None => None,
            Some(node) => {
                match *node {
                    ArtNode::Leaf(leaf) => {
                        if bytes_equal(leaf.key.as_slice(), key) {
                            Some(leaf.value)
                        } else {
                            self.root = Some(Box::new(ArtNode::Leaf(leaf)));
                            None
                        }
                    },
                    ArtNode::Inner(inner) => {
                        let mut subtree = ArtNode::Inner(inner);
                        let removed = delete_recursive(&mut subtree, key, 0);
                        self.root = Some(Box::new(subtree));
                        removed
                    },
                }
            },
        };
        proof {
            assert forall|k: Seq<u8>| #[trigger] self.get(k) == if k == key@ {
                None
            } else {
                before.get(k)
            } by {}
            assert(self@ =~= before@.remove(key@));
        }
        if removed.is_some() {
            self.len = self.len - 1;
        }
        proof {
            assert(self@ =~= before@.remove(key@));
        }
        removed
    }
}

/// Primary key index over an adaptive radix tree.
pub struct ArtIndex {
    inner: AdaptiveRadixTree,
}

impl View for ArtIndex {
    type V = Map<Seq<u8>, RowLocationView>;

    closed spec fn view(&self) -> Map<Seq<u8>, RowLocationView> {
        self.inner@
    }
}

/// `map` after the entries were inserted in order.
pub open spec fn insert_all(
    map: Map<Seq<u8>, RowLocationView>,
    entries: Seq<(Vec<u8>, RowLocation)>,
) -> Map<Seq<u8>, RowLocationView>
    decreases entries.len(),
{
    if entries.len() == 0 {
        map
    } else {
        insert_all(map, entries.drop_last()).insert(entries.last().0@, entries.last().1@)
    }
}

/// Of the pairs that are inserted in order, the last one of each key counts.
pub proof fn lemma_last_pair_counts(
    map: Map<Seq<u8>, RowLocationView>,
    entries: Seq<(Vec<u8>, RowLocation)>,
    i: int,
)
    requires
        0 <= i < entries.len(),
        forall|j: int| i < j < entries.len() ==> (#[trigger] entries[j]).0@ != entries[i].0@,
    ensures
        insert_all(map, entries).contains_key(entries[i].0@),
        insert_all(map, entries)[entries[i].0@] == entries[i].1@,
    decreases entries.len(),
{
    let last = entries.len() - 1;
    if i < last {
        let front = entries.drop_last();
        assert(front[i] == entries[i]);
        assert forall|j: int| i < j < front.len() implies (#[trigger] front[j]).0@
            != front[i].0@ by {
            assert(entries[j] == front[j]);
        }
        lemma_last_pair_counts(map, front, i);
        assert(entries[last].0@ != entries[i].0@);
    }
}

/// Inserting pairs leaves the keys alone that none of them has.
pub proof fn lemma_other_keys_stay(
    map: Map<Seq<u8>, RowLocationView>,
    entries: Seq<(Vec<u8>, RowLocation)>,
    key: Seq<u8>,
)
    requires
        forall|j: int| 0 <= j < entries.len() ==> (#[trigger] entries[j]).0@ != key,
    ensures
        insert_all(map, entries).contains_key(key) == map.contains_key(key),
        map.contains_key(key) ==> insert_all(map, entries)[key] == map[key],
    decreases entries.len(),
{
    if entries.len() > 0 {
        let front = entries.drop_last();
        assert forall|j: int| 0 <= j < front.len() implies (#[trigger] front[j]).0@ != key by {
            assert(entries[j] == front[j]);
        }
        lemma_other_keys_stay(map, front, key);
        assert(entries[entries.len() - 1].0@ != key);
    }
}

impl ArtIndex {
    /// The tree behind the index is well formed.
    pub closed spec fn inv(&self) -> bool {
        self.inner.inv()
    }

    /// Where a key is stored, if it is.
    pub open spec fn found(&self, key: Seq<u8>) -> Option<RowLocationView> {
        if self@.contains_key(key) {
            Some(self@[key])
        } else {
            None
        }
    }

    /// An index has finitely many entries.
    pub proof fn lemma_finite(&self)
        requires
            self.inv(),
        ensures
            self@.dom().finite(),
    {
    }

    /// Creates an empty index.
    pub fn new() -> (index: Self)
        ensures
            index.inv(),
            index@ == Map::<Seq<u8>, RowLocationView>::empty(),
    {
        ArtIndex { inner: AdaptiveRadixTree::new() }
    }

    /// Inserts or updates a key.
    pub fn insert(&mut self, key: Vec<u8>, location: RowLocation)
        requires
            old(self).inv(),
            old(self)@.contains_key(key@) || old(self)@.dom().len() < usize::MAX,
        ensures
            final(self).inv(),
            final(self)@ == old(self)@.insert(key@, location@),
            final(self).found(key@) == Some(location@),
            forall|k: Seq<u8>|
                k != key@ ==> #[trigger] final(self).found(k) == old(self).found(k),
            final(self)@.dom().len() == old(self)@.dom().len() + if old(self)@.contains_key(key@) {
                0int
            } else {
                1int
            },
    {
        proof {
            self.lemma_finite();
        }
        self.inner.insert(key, location);
    }

    /// Looks up a key, returning its location if found.
    pub fn lookup(&self, key: &[u8]) -> (found: Option<RowLocation>)
        requires
            self.inv(),
        ensures
            match found {
                Some(location) => self.found(key@) == Some(location@),
                None => self.found(key@) is None,
            },
    {
        self.inner.lookup(key)
    }

    /// Deletes a key, returning its previous location if it existed.
    pub fn delete(&mut self, key: &[u8]) -> (removed: Option<RowLocation>)
        requires
            old(self).inv(),
        ensures
            final(self).inv(),
            final(self)@ == old(self)@.remove(key@),
            match removed {
                Some(location) => old(self)@.contains_key(key@) && old(self)@[key@] == location@,
                None => !old(self)@.contains_key(key@),
            },
    {
        self.inner.delete(key)
    }

    /// Rebuilds the index from (key, location) pairs: what was there is
    /// dropped, and the pairs are inserted in order, later ones winning.
    pub fn rebuild_from_entries(&mut self, entries: Vec<(Vec<u8>, RowLocation)>)
        ensures
            final(self).inv(),
            final(self)@ == insert_all(Map::<Seq<u8>, RowLocationView>::empty(), entries@),
    {
        self.inner = AdaptiveRadixTree::new();
        let ghost empty = Map::<Seq<u8>, RowLocationView>::empty();
        let ghost all = entries@;
        let n: usize = entries.len();
        let mut done: usize = 0;
        for entry in iter: entries
            invariant
                iter.seq() == all,
                done == iter.index(),
                n == all.len(),
                self.inv(),
                self@ == insert_all(empty, all.take(done as int)),
                self@.dom().len() <= done,
        {
            proof {
                assert(all.take(done + 1).drop_last() =~= all.take(done as int));
            }
            self.insert(entry.0, entry.1);
            done = done + 1;
        }
        assert(all.take(n as int) =~= all);
    }

    /// Moves a key to a new location if it points into one of the given SST
    /// files. Returns whether it did.
    pub fn relocate_if_points_to(
        &mut self,
        key: &[u8],
        sst_ids: &Vec<u64>,
        location: RowLocation,
    ) -> (moved: bool)
        requires
            old(self).inv(),
        ensures
            final(self).inv(),
            moved == (old(self)@.contains_key(key@) && (
            old(self)@[key@] matches RowLocationView::SST { sst_id, .. } && sst_ids@.contains(
                sst_id,
            ))),
            final(self)@ == if moved {
                old(self)@.insert(key@, location@)
            } else {
                old(self)@
            },
    {
        let found = self.lookup(key);
        let sst: u64 = match found {
            Some(RowLocation::SST { sst_id, .. }) => sst_id,
            _ => {
                return false;
            },
        };
        let mut i: usize = 0;
        while i < sst_ids.len()
            invariant
                i <= sst_ids@.len(),
                self.inv(),
                *self == *old(self),
                self@.contains_key(key@),
                self@[key@] matches RowLocationView::SST { sst_id, .. } && sst_id == sst,
                forall|j: int| 0 <= j < i ==> sst_ids@[j] != sst,
            decreases sst_ids@.len() - i,
        {
            if sst_ids[i] == sst {
                self.replace_existing(key, location);
                return true;
            }
            i = i + 1;
        }
        false
    }

    /// Updates a key that is in the index.
    fn replace_existing(&mut self, key: &[u8], location: RowLocation)
        requires
            old(self).inv(),
            old(self)@.contains_key(key@),
        ensures
            final(self).inv(),
            final(self)@ == old(self)@.insert(key@, location@),
    {
        let ghost before = self@;
        self.delete(key);
        proof {
            assert(before.dom().remove(key@).len() < before.dom().len());
        }
        self.insert(slice_to_vec(key), location);
        assert(self@ =~= before.insert(key@, location@));
    }

    /// Number of entries.
    pub fn len(&self) -> (n: usize)
        requires
            self.inv(),
        ensures
            self@.dom().finite(),
            n == self@.dom().len(),
    {
        self.inner.len
    }

    /// Whether the index has no entry.
    pub fn is_empty(&self) -> (empty: bool)
        requires
            self.inv(),
        ensures
            empty == (self@ == Map::<Seq<u8>, RowLocationView>::empty()),
    {
        proof {
            if self@.dom().len() == 0 {
                assert(self@.dom() =~= Set::<Seq<u8>>::empty());
                assert(self@ =~= Map::<Seq<u8>, RowLocationView>::empty());
            }
        }
        self.len() == 0
    }
}

impl Default for ArtIndex {
    fn default() -> (index: Self)
        ensures
            index.inv(),
            index@ == Map::<Seq<u8>, RowLocationView>::empty(),
    {
        ArtIndex::new()
    }
}

} // verus!
