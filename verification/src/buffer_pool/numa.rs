//! One part for each memory node.

use vstd::prelude::*;
use vstd::slice::slice_subrange;

use crate::bytes::starts_with;
use crate::engine::names::{
    digits, lemma_digits, lemma_number_read, parse_decimal, parse_number,
};

verus! {

/// The bytes of `node`.
pub open spec fn node_prefix() -> Seq<u8> {
    seq![110u8, 111u8, 100u8, 101u8]
}

/// Whether a directory stands for a memory node: `node` and a 32-bit number.
pub open spec fn names_node(name: Seq<u8>) -> bool {
    node_prefix().is_prefix_of(name) && match parse_number(name.skip(4)) {
        Some(n) => n <= u32::MAX,
        None => false,
    }
}

/// Number of names that stand for a memory node.
pub open spec fn count_nodes(names: Seq<Vec<u8>>) -> nat
    decreases names.len(),
{
    if names.len() == 0 {
        0
    } else {
        count_nodes(names.drop_last()) + if names_node(names.last()@) {
            1nat
        } else {
            0nat
        }
    }
}

fn is_node_name(name: &[u8]) -> (result: bool)
    ensures
        result == names_node(name@),
{
    let prefix: Vec<u8> = vec![110, 111, 100, 101];
    assert(prefix@ =~= node_prefix());
    if !starts_with(name, prefix.as_slice()) {
        return false;
    }
    let number = slice_subrange(name, 4, name.len());
    assert(number@ =~= name@.skip(4));
    match parse_decimal(number) {
        Some(n) => n <= u32::MAX as u64,
        None => false,
    }
}

/// Number of memory nodes, from the names in the directory of nodes: at least one.
pub fn detect_numa_nodes(names: &[Vec<u8>]) -> (n: usize)
    ensures
        n == (if count_nodes(names@) == 0 {
            1
        } else {
            count_nodes(names@)
        }),
{
    let mut n: usize = 0;
    let mut i: usize = 0;
    while i < names.len()
        invariant
            i <= names@.len(),
            n == count_nodes(names@.take(i as int)),
            n <= i,
        decreases names@.len() - i,
    {
        proof {
            assert(names@.take(i + 1).drop_last() =~= names@.take(i as int));
        }
        if is_node_name(names[i].as_slice()) {
            n = n + 1;
        }
        i = i + 1;
    }
    assert(names@.take(i as int) =~= names@);
    if n == 0 {
        1
    } else {
        n
    }
}

/// Whether bytes are the UTF-8 form of a character that is white space.
pub open spec fn is_blank(bytes: Seq<u8>) -> bool {
    ||| bytes.len() == 1 && (bytes[0] == 0x20 || 0x09 <= bytes[0] <= 0x0d)
    ||| bytes.len() == 2 && bytes[0] == 0xc2 && (bytes[1] == 0x85 || bytes[1] == 0xa0)
    ||| bytes.len() == 3 && bytes[0] == 0xe1 && bytes[1] == 0x9a && bytes[2] == 0x80
    ||| bytes.len() == 3 && bytes[0] == 0xe2 && bytes[1] == 0x80 && (0x80 <= bytes[2] <= 0x8a
        || bytes[2] == 0xa8 || bytes[2] == 0xa9 || bytes[2] == 0xaf)
    ||| bytes.len() == 3 && bytes[0] == 0xe2 && bytes[1] == 0x81 && bytes[2] == 0x9f
    ||| bytes.len() == 3 && bytes[0] == 0xe3 && bytes[1] == 0x80 && bytes[2] == 0x80
}

/// Length of the white space that a text begins with: that of one character, or 0.
pub open spec fn blank_front(text: Seq<u8>) -> nat {
    if text.len() >= 1 && is_blank(text.take(1)) {
        1
    } else if text.len() >= 2 && is_blank(text.take(2)) {
        2
    } else if text.len() >= 3 && is_blank(text.take(3)) {
        3
    } else {
        0
    }
}

/// Length of the white space that a text ends with: that of one character, or 0.
pub open spec fn blank_back(text: Seq<u8>) -> nat {
    let n = text.len() as int;
    if n >= 1 && is_blank(text.skip(n - 1)) {
        1
    } else if n >= 2 && is_blank(text.skip(n - 2)) {
        2
    } else if n >= 3 && is_blank(text.skip(n - 3)) {
        3
    } else {
        0
    }
}

/// A text without the white space around it.
pub open spec fn trimmed(text: Seq<u8>) -> Seq<u8>
    decreases text.len(),
{
    if blank_front(text) > 0 {
        trimmed(text.skip(blank_front(text) as int))
    } else if blank_back(text) > 0 {
        trimmed(text.take(text.len() - blank_back(text)))
    } else {
        text
    }
}

/// Whether a part of a text is the UTF-8 form of a character that is white space.
fn blank_part(text: &[u8], start: usize, end: usize) -> (result: bool)
    requires
        start <= end <= text@.len(),
    ensures
        result == is_blank(text@.subrange(start as int, end as int)),
{
    let len: usize = end - start;
    if len == 1 {
        let a: u8 = text[start];
        a == 0x20 || (0x09 <= a && a <= 0x0d)
    } else if len == 2 {
        let a: u8 = text[start];
        let b: u8 = text[start + 1];
        a == 0xc2 && (b == 0x85 || b == 0xa0)
    } else if len == 3 {
        let a: u8 = text[start];
        let b: u8 = text[start + 1];
        let c: u8 = text[start + 2];
        if a == 0xe1 {
            b == 0x9a && c == 0x80
        } else if a == 0xe2 && b == 0x80 {
            (0x80 <= c && c <= 0x8a) || c == 0xa8 || c == 0xa9 || c == 0xaf
        } else if a == 0xe2 {
            b == 0x81 && c == 0x9f
        } else {
            a == 0xe3 && b == 0x80 && c == 0x80
        }
    } else {
        false
    }
}

/// Length of the white space that a part of a text begins with.
fn front_of(text: &[u8], start: usize, end: usize) -> (n: usize)
    requires
        start <= end <= text@.len(),
    ensures
        n == blank_front(text@.subrange(start as int, end as int)),
        n <= end - start,
{
    let len: usize = end - start;
    let ghost part = text@.subrange(start as int, end as int);
    let mut n: usize = 1;
    while n <= 3 && n <= len
        invariant
            start + len == end,
            end <= text@.len(),
            part == text@.subrange(start as int, end as int),
            1 <= n <= 4,
            forall|k: int| 1 <= k < n ==> !is_blank(#[trigger] part.take(k)),
        decreases 4 - n,
    {
        assert(part.take(n as int) =~= text@.subrange(start as int, start + n));
        if blank_part(text, start, start + n) {
            return n;
        }
        n = n + 1;
    }
    0
}

/// Length of the white space that a part of a text ends with.
fn back_of(text: &[u8], start: usize, end: usize) -> (n: usize)
    requires
        start <= end <= text@.len(),
    ensures
        n == blank_back(text@.subrange(start as int, end as int)),
        n <= end - start,
{
    let len: usize = end - start;
    let ghost part = text@.subrange(start as int, end as int);
    let mut n: usize = 1;
    while n <= 3 && n <= len
        invariant
            start + len == end,
            end <= text@.len(),
            part == text@.subrange(start as int, end as int),
            1 <= n <= 4,
            forall|k: int| 1 <= k < n ==> !is_blank(#[trigger] part.skip(len - k)),
        decreases 4 - n,
    {
        assert(part.skip(len - n) =~= text@.subrange(end - n, end as int));
        if blank_part(text, end - n, end) {
            return n;
        }
        n = n + 1;
    }
    assert forall|k: int| 1 <= k <= 3 && k <= len implies !is_blank(#[trigger] part.skip(len - k)) by {}
    0
}

/// The memory node that a text names, 0 if it names none.
pub open spec fn node_of_text(text: Seq<u8>) -> usize {
    match parse_number(trimmed(text)) {
        Some(n) => if n <= usize::MAX {
            n as usize
        } else {
            0
        },
        None => 0,
    }
}

/// The memory node of the current processor, from the text that the system gives.
pub fn current_numa_node(text: &[u8]) -> (node: usize)
    ensures
        node == node_of_text(text@),
{
    let mut start: usize = 0;
    let mut end: usize = text.len();
    assert(text@.subrange(0, text@.len() as int) =~= text@);
    while start < end
        invariant
            start <= end <= text@.len(),
            trimmed(text@) == trimmed(text@.subrange(start as int, end as int)),
        ensures
            start <= end <= text@.len(),
            trimmed(text@) == text@.subrange(start as int, end as int),
        decreases end - start,
    {
        let ghost part = text@.subrange(start as int, end as int);
        let front: usize = front_of(text, start, end);
        let back: usize = back_of(text, start, end);
        if front > 0 {
            assert(part.skip(front as int) =~= text@.subrange(start + front, end as int));
            start = start + front;
        } else if back > 0 {
            assert(part.take(part.len() - back) =~= text@.subrange(start as int, end - back));
            end = end - back;
        } else {
            break;
        }
    }
    match parse_decimal(slice_subrange(text, start, end)) {
        Some(n) => if n <= usize::MAX as u64 {
            n as usize
        } else {
            0
        },
        None => 0,
    }
}

/// `node` and a number stand for a memory node if 32 bits hold the number; a name that does
/// not begin with `node` stands for none.
pub proof fn lemma_node_names(n: nat, name: Seq<u8>)
    ensures
        names_node(seq![110u8, 111u8, 100u8, 101u8] + digits(n)) <==> n <= u32::MAX,
        names_node(name) ==> name.len() > 4 && name.take(4) == seq![110u8, 111u8, 100u8, 101u8],
{
    let spelled = seq![110u8, 111u8, 100u8, 101u8] + digits(n);
    assert(spelled.subrange(0, 4) =~= node_prefix());
    assert(spelled.skip(4) =~= digits(n));
    lemma_number_read(n);
    if names_node(name) {
        assert(name.take(4) =~= name.subrange(0, 4));
    }
}

/// Each name counts by itself.
pub proof fn lemma_nodes_counted(a: Seq<Vec<u8>>, b: Seq<Vec<u8>>)
    ensures
        count_nodes(a + b) == count_nodes(a) + count_nodes(b),
        b.len() == 1 ==> count_nodes(b) == (if names_node(b[0]@) {
            1nat
        } else {
            0nat
        }),
    decreases b.len(),
{
    reveal_with_fuel(count_nodes, 2);
    if b.len() == 0 {
        assert(a + b =~= a);
    } else {
        assert((a + b).drop_last() =~= a + b.drop_last());
        assert((a + b).last() == b.last());
        lemma_nodes_counted(a, b.drop_last());
    }
}

/// Whether a text is spaces, tabs and line ends.
pub open spec fn all_blank(text: Seq<u8>) -> bool {
    forall|i: int| 0 <= i < text.len() ==> #[trigger] text[i] == 32 || 9 <= text[i] <= 13
}

/// Spaces, tabs and line ends round a text are taken away, and a text that neither begins nor
/// ends with white space stays as it is.
pub proof fn lemma_trimmed(front: Seq<u8>, text: Seq<u8>, back: Seq<u8>)
    requires
        all_blank(front),
        all_blank(back),
        text.len() > 0,
        blank_front(text) == 0,
        blank_back(text) == 0,
        text[0] < 128,
    ensures
        trimmed(front + text + back) == text,
    decreases front.len() + back.len(),
{
    let whole = front + text + back;
    if front.len() > 0 {
        assert(whole.take(1)[0] == front[0]);
        assert(is_blank(whole.take(1)));
        assert(blank_front(whole) == 1);
        assert(whole.skip(1) =~= front.skip(1) + text + back);
        assert(all_blank(front.skip(1))) by {
            assert forall|i: int| 0 <= i < front.skip(1).len() implies #[trigger] front.skip(1)[i]
                == 32 || 9 <= front.skip(1)[i] <= 13 by {
                assert(front.skip(1)[i] == front[i + 1]);
            }
        }
        lemma_trimmed(front.skip(1), text, back);
    } else {
        assert(whole =~= text + back);
        assert(blank_front(whole) == 0) by {
            assert(whole.take(1)[0] == text[0]);
            assert(whole.take(1) =~= text.take(1));
            if whole.len() >= 2 {
                assert(whole.take(2)[0] == text[0]);
            }
            if whole.len() >= 3 {
                assert(whole.take(3)[0] == text[0]);
            }
        }
        if back.len() > 0 {
            let n = whole.len() as int;
            assert(whole.skip(n - 1)[0] == back[back.len() - 1]);
            assert(is_blank(whole.skip(n - 1)));
            assert(blank_back(whole) == 1);
            assert(whole.take(n - 1) =~= front + text + back.drop_last());
            assert(all_blank(back.drop_last())) by {
                assert forall|i: int| 0 <= i < back.drop_last().len() implies #[trigger]
                    back.drop_last()[i] == 32 || 9 <= back.drop_last()[i] <= 13 by {
                    assert(back.drop_last()[i] == back[i]);
                }
            }
            lemma_trimmed(front, text, back.drop_last());
        } else {
            assert(whole =~= text);
        }
    }
}

/// The number of a memory node is read out of a text that spells it, whatever spaces and line
/// ends stand round it.
pub proof fn lemma_node_read(front: Seq<u8>, n: usize, back: Seq<u8>)
    requires
        all_blank(front),
        all_blank(back),
    ensures
        node_of_text(front + digits(n as nat) + back) == n,
{
    let text = digits(n as nat);
    lemma_digits(n as nat);
    lemma_number_read(n as nat);
    lemma_spelled(n as nat);
    assert(blank_front(text) == 0) by {
        assert(text.take(1)[0] == text[0]);
        if text.len() >= 2 {
            assert(text.take(2)[0] == text[0]);
        }
        if text.len() >= 3 {
            assert(text.take(3)[0] == text[0]);
        }
    }
    assert(blank_back(text) == 0) by {
        let len = text.len() as int;
        assert(text.skip(len - 1)[0] == text[len - 1]);
        if len >= 2 {
            assert(text.skip(len - 2)[0] == text[len - 2]);
        }
        if len >= 3 {
            assert(text.skip(len - 3)[0] == text[len - 3]);
        }
    }
    lemma_trimmed(front, text, back);
}

proof fn lemma_spelled(n: nat)
    ensures
        forall|i: int| 0 <= i < digits(n).len() ==> 48 <= #[trigger] digits(n)[i] <= 57,
    decreases n,
{
    if n >= 10 {
        lemma_spelled(n / 10);
        assert forall|i: int| 0 <= i < digits(n).len() implies 48 <= #[trigger] digits(n)[i] <= 57 by {
            if i < digits(n).len() - 1 {
                assert(digits(n)[i] == digits(n / 10)[i]);
            }
        }
    }
}

/// One value for each memory node.
pub struct NumaPartitioned<T> {
    per_node: Vec<T>,
}

impl<T> NumaPartitioned<T> {
    /// The value of each node.
    pub closed spec fn parts(&self) -> Seq<T> {
        self.per_node@
    }

    /// There is a node.
    pub open spec fn wf(&self) -> bool {
        self.parts().len() > 0
    }

    /// The part that a node uses: the last one if there is none for the node.
    pub open spec fn index(&self, node: usize) -> int {
        if node < self.parts().len() {
            node as int
        } else {
            self.parts().len() - 1
        }
    }

    /// The value of a node.
    pub open spec fn part(&self, node: usize) -> T {
        self.parts()[self.index(node)]
    }

    /// A value for each of `num_nodes` nodes, at least one, made by `factory`.
    pub fn new<F: FnMut() -> T>(num_nodes: usize, factory: F) -> (result: Self)
        requires
            factory.requires(()),
        ensures
            result.wf(),
            result.parts().len() == (if num_nodes == 0 {
                1
            } else {
                num_nodes as nat
            }),
            forall|i: int|
                0 <= i < result.parts().len() ==> factory.ensures((), #[trigger] result.parts()[i]),
    {
        let nodes: usize = if num_nodes == 0 {
            1
        } else {
            num_nodes
        };
        let mut per_node: Vec<T> = Vec::new();
        let mut make = factory;
        while per_node.len() < nodes
            invariant
                per_node@.len() <= nodes,
                make == factory,
                factory.requires(()),
                forall|i: int|
                    0 <= i < per_node@.len() ==> factory.ensures((), #[trigger] per_node@[i]),
            decreases nodes - per_node@.len(),
        {
            per_node.push(make());
        }
        NumaPartitioned { per_node }
    }

    /// The values of the nodes.
    pub fn from_parts(per_node: Vec<T>) -> (result: Self)
        requires
            per_node@.len() > 0,
        ensures
            result.wf(),
            result.parts() == per_node@,
    {
        NumaPartitioned { per_node }
    }

    /// Number of nodes.
    pub fn node_count(&self) -> (n: usize)
        ensures
            n == self.parts().len(),
    {
        self.per_node.len()
    }

    /// The value of a node.
    pub fn get(&self, node: usize) -> (part: &T)
        requires
            self.wf(),
        ensures
            *part == self.part(node),
            0 <= self.index(node) < self.parts().len(),
    {
        let len: usize = self.per_node.len();
        let idx: usize = if node < len {
            node
        } else {
            len - 1
        };
        &self.per_node[idx]
    }

    /// The value of a node, to be changed.
    pub fn get_mut(&mut self, node: usize) -> (part: &mut T)
        requires
            old(self).wf(),
        ensures
            *part == old(self).part(node),
            0 <= old(self).index(node) < old(self).parts().len(),
            final(self).parts() == old(self).parts().update(old(self).index(node), *final(part)),
    {
        let len: usize = self.per_node.len();
        let idx: usize = if node < len {
            node
        } else {
            len - 1
        };
        &mut self.per_node[idx]
    }

    /// The value of the node that the current processor belongs to, from the text that
    /// the system gives.
    pub fn get_local(&self, text: &[u8]) -> (part: &T)
        requires
            self.wf(),
        ensures
            *part == self.part(node_of_text(text@)),
    {
        self.get(current_numa_node(text))
    }

    /// The value of the node that the current processor belongs to, to be changed.
    pub fn get_local_mut(&mut self, text: &[u8]) -> (part: &mut T)
        requires
            old(self).wf(),
        ensures
            *part == old(self).part(node_of_text(text@)),
            final(self).parts() == old(self).parts().update(
                old(self).index(node_of_text(text@)),
                *final(part),
            ),
    {
        self.get_mut(current_numa_node(text))
    }
}

/// Nodes that there are parts for have parts of their own; all others share the last.
pub proof fn lemma_nodes_apart<T>(parts: NumaPartitioned<T>, a: usize, b: usize)
    requires
        parts.wf(),
        a < b,
    ensures
        0 <= parts.index(a) < parts.parts().len(),
        b < parts.parts().len() ==> parts.index(a) < parts.index(b),
        a >= parts.parts().len() - 1 ==> parts.index(b) == parts.index(a),
        a == 0 ==> parts.index(a) == 0,
{
}

} // verus!
