//! The SST files that the engine reads from.

use vstd::prelude::*;

use crate::sst::{block_at, parse_index, BlockIndexEntry, SstBlockIndex};

verus! {

/// An SST file: the id that names it on disk, its block index, and whether its
/// blocks are encrypted.
#[derive(Debug)]
pub struct SstEntry {
    /// Id under which the file is registered.
    pub id: u64,
    /// Id in the name of the file.
    pub file_id: u64,
    /// Where each block stands in the file.
    pub block_index: SstBlockIndex,
    /// Whether the blocks are encrypted.
    pub encrypted: bool,
}

/// What is known of an SST file.
#[verifier::ext_equal]
pub ghost struct SstEntryView {
    pub file_id: u64,
    pub blocks: Seq<BlockIndexEntry>,
    pub encrypted: bool,
}

impl View for SstEntry {
    type V = SstEntryView;

    open spec fn view(&self) -> SstEntryView {
        SstEntryView {
            file_id: self.file_id,
            blocks: self.block_index.entries@,
            encrypted: self.encrypted,
        }
    }
}

/// The block index of a file. A file without a readable index is one block.
pub open spec fn index_or_whole(data: Seq<u8>) -> Seq<BlockIndexEntry> {
    match parse_index(data) {
        Ok(entries) => entries,
        Err(_) => seq![BlockIndexEntry { file_offset: 0, block_len: data.len() as u32 }],
    }
}

/// A file whose index cannot be read is one block: all of it.
pub proof fn lemma_unreadable_is_whole(data: Seq<u8>)
    requires
        parse_index(data) is Err,
        data.len() <= u32::MAX,
    ensures
        index_or_whole(data).len() == 1,
        block_at(data, index_or_whole(data)[0]) == data,
{
    assert(data.subrange(0, data.len() as int) =~= data);
}

/// Reads the block index of a file. A file without a readable index is taken
/// as one block.
pub fn index_of_file(data: &[u8]) -> (index: SstBlockIndex)
    ensures
        index.entries@ == index_or_whole(data@),
{
    match SstBlockIndex::from_file_data(data) {
        Ok(index) => index,
        Err(_) => {
            let mut index = SstBlockIndex::new();
            index.add_block(0, #[verifier::truncate] (data.len() as u32));
            assert(index.entries@ =~= index_or_whole(data@));
            index
        },
    }
}

/// The files by their ids.
pub open spec fn entries_map(entries: Seq<SstEntry>) -> Map<u64, SstEntryView>
    decreases entries.len(),
{
    if entries.len() == 0 {
        Map::<u64, SstEntryView>::empty()
    } else {
        entries_map(entries.drop_last()).insert(entries.last().id, entries.last()@)
    }
}

/// No two files have the same id.
pub open spec fn ids_distinct(entries: Seq<SstEntry>) -> bool {
    forall|i: int, j: int|
        #![trigger entries[i], entries[j]]
        0 <= i < j < entries.len() ==> entries[i].id != entries[j].id
}

proof fn lemma_map_has(entries: Seq<SstEntry>, i: int)
    requires
        ids_distinct(entries),
        0 <= i < entries.len(),
    ensures
        entries_map(entries).contains_key(entries[i].id),
        entries_map(entries)[entries[i].id] == entries[i]@,
    decreases entries.len(),
{
    if i < entries.len() - 1 {
        assert(entries[i].id != entries[entries.len() - 1].id);
        assert(entries.drop_last()[i] == entries[i]);
        lemma_map_has(entries.drop_last(), i);
    }
}

proof fn lemma_map_only(entries: Seq<SstEntry>, id: u64)
    requires
        entries_map(entries).contains_key(id),
    ensures
        exists|i: int| 0 <= i < entries.len() && (#[trigger] entries[i]).id == id,
    decreases entries.len(),
{
    if entries.len() > 0 {
        if entries.last().id == id {
            assert(entries[entries.len() - 1].id == id);
        } else {
            lemma_map_only(entries.drop_last(), id);
            let i = choose|i: int|
                0 <= i < entries.drop_last().len() && (#[trigger] entries.drop_last()[i]).id == id;
            assert(entries[i].id == id);
        }
    }
}

/// The SST files that the engine reads from.
#[derive(Debug)]
pub struct SstRegistry {
    entries: Vec<SstEntry>,
}

impl View for SstRegistry {
    type V = Map<u64, SstEntryView>;

    closed spec fn view(&self) -> Map<u64, SstEntryView> {
        entries_map(self.entries@)
    }
}

impl SstRegistry {
    /// No two files have the same id.
    pub closed spec fn inv(&self) -> bool {
        ids_distinct(self.entries@)
    }

    /// The files, in the order in which they are walked.
    pub closed spec fn list(&self) -> Seq<SstEntry> {
        self.entries@
    }

    /// The files that are walked are those that are registered.
    pub proof fn lemma_list(&self)
        requires
            self.inv(),
        ensures
            forall|i: int|
                0 <= i < self.list().len() ==> self@.contains_key((#[trigger] self.list()[i]).id)
                    && self@[self.list()[i].id] == self.list()[i]@,
            forall|id: u64| #[trigger]
                self@.contains_key(id) ==> exists|i: int|
                    0 <= i < self.list().len() && (#[trigger] self.list()[i]).id == id,
            ids_distinct(self.list()),
    {
        assert forall|i: int| 0 <= i < self.list().len() implies self@.contains_key(
            (#[trigger] self.list()[i]).id,
        ) && self@[self.list()[i].id] == self.list()[i]@ by {
            lemma_map_has(self.entries@, i);
        }
        assert forall|id: u64| #[trigger] self@.contains_key(id) implies exists|i: int|
            0 <= i < self.list().len() && (#[trigger] self.list()[i]).id == id by {
            lemma_map_only(self.entries@, id);
            let i = choose|i: int|
                0 <= i < self.entries@.len() && (#[trigger] self.entries@[i]).id == id;
            assert(self.list()[i].id == id);
        }
    }

    /// Creates an empty registry.
    pub fn new() -> (registry: Self)
        ensures
            registry.inv(),
            registry@ == Map::<u64, SstEntryView>::empty(),
            registry.list() == Seq::<SstEntry>::empty(),
    {
        SstRegistry { entries: Vec::new() }
    }

    /// Number of files.
    pub fn len(&self) -> (len: usize)
        ensures
            len == self.list().len(),
    {
        self.entries.len()
    }

    /// The file at a place in the order in which files are walked.
    pub fn entry(&self, i: usize) -> (entry: &SstEntry)
        requires
            i < self.list().len(),
        ensures
            *entry == self.list()[i as int],
    {
        &self.entries[i]
    }

    fn position(&self, id: u64) -> (position: Option<usize>)
        ensures
            match position {
                Some(i) => i < self.entries@.len() && self.entries@[i as int].id == id,
                None => forall|i: int|
                    0 <= i < self.entries@.len() ==> (#[trigger] self.entries@[i]).id != id,
            },
    {
        let mut i: usize = 0;
        while i < self.entries.len()
            invariant
                i <= self.entries@.len(),
                forall|j: int| 0 <= j < i ==> (#[trigger] self.entries@[j]).id != id,
            decreases self.entries@.len() - i,
        {
            if self.entries[i].id == id {
                return Some(i);
            }
            i = i + 1;
        }
        None
    }

    /// Looks up a file by its id.
    pub fn get(&self, id: u64) -> (entry: Option<&SstEntry>)
        requires
            self.inv(),
        ensures
            match entry {
                Some(e) => self@.contains_key(id) && self@[id] == e@,
                None => !self@.contains_key(id),
            },
    {
        match self.position(id) {
            Some(i) => {
                proof {
                    lemma_map_has(self.entries@, i as int);
                }
                Some(&self.entries[i])
            },
            None => {
                proof {
                    if self@.contains_key(id) {
                        lemma_map_only(self.entries@, id);
                    }
                }
                None
            },
        }
    }

    /// Removes a file. No effect if there is none with this id.
    pub fn remove(&mut self, id: u64)
        requires
            old(self).inv(),
        ensures
            final(self).inv(),
            final(self)@ == old(self)@.remove(id),
            final(self).list().len() <= old(self).list().len(),
    {
        let ghost before = self.entries@;
        match self.position(id) {
            Some(i) => {
                let _ = self.entries.remove(i);
                proof {
                    let after = self.entries@;
                    assert forall|a: int, b: int|
                        #![trigger after[a], after[b]]
                        0 <= a < b < after.len() implies after[a].id != after[b].id by {
                        let x = if a < i { a } else { a + 1 };
                        let y = if b < i { b } else { b + 1 };
                        assert(after[a] == before[x] && after[b] == before[y]);
                    }
                    assert forall|k: u64| #[trigger]
                        entries_map(after).contains_key(k) == entries_map(before).remove(
                            id,
                        ).contains_key(k) by {
                        if entries_map(after).contains_key(k) {
                            lemma_map_only(after, k);
                            let a = choose|a: int|
                                0 <= a < after.len() && (#[trigger] after[a]).id == k;
                            let x = if a < i { a } else { a + 1 };
                            assert(after[a] == before[x]);
                            lemma_map_has(before, x);
                            assert(before[x].id != before[i as int].id);
                        }
                        if entries_map(before).contains_key(k) && k != id {
                            lemma_map_only(before, k);
                            let x = choose|x: int|
                                0 <= x < before.len() && (#[trigger] before[x]).id == k;
                            let a = if x < i { x } else { x - 1 };
                            assert(after[a] == before[x]);
                            lemma_map_has(after, a);
                        }
                    }
                    assert forall|k: u64| #[trigger]
                        entries_map(after).contains_key(k) implies entries_map(after)[k]
                        == entries_map(before).remove(id)[k] by {
                        lemma_map_only(after, k);
                        let a = choose|a: int|
                            0 <= a < after.len() && (#[trigger] after[a]).id == k;
                        let x = if a < i { a } else { a + 1 };
                        assert(after[a] == before[x]);
                        lemma_map_has(before, x);
                        lemma_map_has(after, a);
                        assert(before[x].id != before[i as int].id);
                    }
                    assert(entries_map(after) =~= entries_map(before).remove(id));
                }
            },
            None => {
                proof {
                    if entries_map(before).contains_key(id) {
                        lemma_map_only(before, id);
                    }
                    assert(entries_map(before) =~= entries_map(before).remove(id));
                }
            },
        }
    }

    /// Adds a file under an id; one that had the id before is replaced.
    pub fn insert(&mut self, entry: SstEntry)
        requires
            old(self).inv(),
        ensures
            final(self).inv(),
            final(self)@ == old(self)@.insert(entry.id, entry@),
    {
        self.remove(entry.id);
        let ghost before = self.entries@;
        proof {
            assert forall|i: int| 0 <= i < before.len() implies (#[trigger] before[i]).id
                != entry.id by {
                lemma_map_has(before, i);
            }
        }
        self.entries.push(entry);
        proof {
            assert(self.entries@.drop_last() =~= before);
            assert(self@ =~= old(self)@.insert(entry.id, entry@));
        }
    }

    /// Registers a file: reads its block index from its contents, if they could
    /// be read.
    pub fn register(&mut self, sst_id: u64, file_id: u64, data: Option<&[u8]>, encrypted: bool)
        requires
            old(self).inv(),
        ensures
            final(self).inv(),
            final(self)@ == old(self)@.insert(sst_id, registered(file_id, data, encrypted)),
    {
        let block_index = match data {
            Some(bytes) => index_of_file(bytes),
            None => SstBlockIndex::new(),
        };
        self.insert(SstEntry { id: sst_id, file_id, block_index, encrypted });
    }
}

/// What is known of a file once it is registered.
pub open spec fn registered(file_id: u64, data: Option<&[u8]>, encrypted: bool) -> SstEntryView {
    SstEntryView {
        file_id,
        blocks: match data {
            Some(bytes) => index_or_whole(bytes@),
            None => Seq::<BlockIndexEntry>::empty(),
        },
        encrypted,
    }
}

} // verus!
