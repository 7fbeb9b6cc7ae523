//! The levels of the tree and the files in them.

use vstd::prelude::*;
use vstd::slice::slice_to_vec;

use crate::bytes::{compare_bytes, lex_le, lex_lt, Compared};
use crate::bytes::{lemma_lex_asymmetric, lemma_lex_irreflexive, lemma_lex_le_le, lemma_lex_le_lt};
use crate::compaction::{BOTTOM_LEVEL, DEFAULT_SIZE_RATIO, NUM_LEVELS};
use crate::flush::counted_up;

verus! {

/// What is known of a file.
#[verifier::ext_equal]
pub ghost struct SstView {
    pub sst_id: u64,
    pub level: nat,
    pub min_key: Seq<u8>,
    pub max_key: Seq<u8>,
    pub size_bytes: u64,
    pub row_count: u64,
}

impl SstView {
    /// Whether the keys of the file can meet those from `min` to `max`.
    pub open spec fn meets(self, min: Seq<u8>, max: Seq<u8>) -> bool {
        lex_le(self.min_key, max) && lex_le(min, self.max_key)
    }
}

/// What is known of one file in the tree.
#[derive(Debug, PartialEq, Eq)]
pub struct SstMetadata {
    /// Id of the file.
    pub sst_id: u64,
    /// Level that the file belongs to.
    pub level: usize,
    /// Smallest key in the file.
    pub min_key: Vec<u8>,
    /// Largest key in the file.
    pub max_key: Vec<u8>,
    /// Size of the file in bytes.
    pub size_bytes: u64,
    /// Number of rows in the file.
    pub row_count: u64,
}

impl View for SstMetadata {
    type V = SstView;

    open spec fn view(&self) -> SstView {
        SstView {
            sst_id: self.sst_id,
            level: self.level as nat,
            min_key: self.min_key@,
            max_key: self.max_key@,
            size_bytes: self.size_bytes,
            row_count: self.row_count,
        }
    }
}

impl Clone for SstMetadata {
    fn clone(&self) -> (copy: Self)
        ensures
            copy@ == self@,
    {
        SstMetadata {
            sst_id: self.sst_id,
            level: self.level,
            min_key: slice_to_vec(self.min_key.as_slice()),
            max_key: slice_to_vec(self.max_key.as_slice()),
            size_bytes: self.size_bytes,
            row_count: self.row_count,
        }
    }
}

impl SstMetadata {
    /// Whether the file's key range overlaps the range from `min` to `max`.
    pub fn overlaps(&self, min: &[u8], max: &[u8]) -> (result: bool)
        ensures
            result == self@.meets(min@, max@),
    {
        compare_bytes(max, self.min_key.as_slice()) != Compared::Less && compare_bytes(
            self.max_key.as_slice(),
            min,
        ) != Compared::Less
    }
}

/// A key that both ranges hold shows that a file meets a range; a file that holds a key
/// is found by every range that holds it.
pub proof fn lemma_holder_meets(sst: SstView, min: Seq<u8>, max: Seq<u8>, key: Seq<u8>)
    requires
        lex_le(sst.min_key, key),
        lex_le(key, sst.max_key),
        lex_le(min, key),
        lex_le(key, max),
    ensures
        sst.meets(min, max),
{
    lemma_lex_le_le(sst.min_key, key, max);
    lemma_lex_le_le(min, key, sst.max_key);
}

/// A file and a range meet exactly if some key lies in both.
pub proof fn lemma_meets_shares_key(sst: SstView, min: Seq<u8>, max: Seq<u8>)
    requires
        lex_le(sst.min_key, sst.max_key),
        lex_le(min, max),
    ensures
        sst.meets(min, max) <==> exists|key: Seq<u8>|
            #![trigger lex_le(min, key)]
            lex_le(sst.min_key, key) && lex_le(key, sst.max_key) && lex_le(min, key) && lex_le(
                key,
                max,
            ),
{
    lemma_lex_irreflexive(min);
    lemma_lex_irreflexive(sst.min_key);
    if sst.meets(min, max) {
        if lex_le(sst.min_key, min) {
            assert(lex_le(min, min));
        } else {
            lemma_lex_asymmetric(min, sst.min_key);
            assert(lex_le(min, sst.min_key));
        }
    }
    if exists|key: Seq<u8>|
        #![trigger lex_le(min, key)]
        lex_le(sst.min_key, key) && lex_le(key, sst.max_key) && lex_le(min, key) && lex_le(
            key,
            max,
        ) {
        let key = choose|key: Seq<u8>|
            #![trigger lex_le(min, key)]
            lex_le(sst.min_key, key) && lex_le(key, sst.max_key) && lex_le(min, key) && lex_le(
                key,
                max,
            );
        lemma_holder_meets(sst, min, max, key);
    }
}

/// What is known of files.
pub open spec fn sst_views(ssts: Seq<SstMetadata>) -> Seq<SstView> {
    Seq::new(ssts.len(), |i: int| ssts[i]@)
}

/// The files are in the order of their smallest keys.
pub open spec fn by_min_key(ssts: Seq<SstView>) -> bool {
    forall|i: int, j: int|
        #![trigger ssts[i], ssts[j]]
        0 <= i <= j < ssts.len() ==> lex_le(ssts[i].min_key, ssts[j].min_key)
}

/// Whether `pos` is the first file with this id.
pub open spec fn first_with_id(ssts: Seq<SstView>, sst_id: u64, pos: int) -> bool {
    &&& 0 <= pos < ssts.len()
    &&& ssts[pos].sst_id == sst_id
    &&& forall|k: int| 0 <= k < pos ==> (#[trigger] ssts[k]).sst_id != sst_id
}

/// Whether a file has this id.
pub open spec fn has_id(ssts: Seq<SstView>, sst_id: u64) -> bool {
    exists|k: int| 0 <= k < ssts.len() && (#[trigger] ssts[k]).sst_id == sst_id
}

/// If a file has an id, one place is that of the first such file, and no other is; taking that
/// file out of files whose ids differ leaves none with the id.
pub proof fn lemma_first_with_id(ssts: Seq<SstView>, sst_id: u64, k: int)
    requires
        0 <= k < ssts.len(),
        ssts[k].sst_id == sst_id,
    ensures
        has_id(ssts, sst_id),
        exists|pos: int| #[trigger] first_with_id(ssts, sst_id, pos) && pos <= k,
        forall|a: int, b: int|
            #[trigger] first_with_id(ssts, sst_id, a) && #[trigger] first_with_id(ssts, sst_id, b)
                ==> a == b,
        forall|pos: int|
            #[trigger] first_with_id(ssts, sst_id, pos) && (forall|i: int, j: int|
                #![trigger ssts[i], ssts[j]]
                0 <= i < j < ssts.len() ==> ssts[i].sst_id != ssts[j].sst_id) ==> !has_id(
                ssts.remove(pos),
                sst_id,
            ),
    decreases k,
{
    if forall|j: int| 0 <= j < k ==> (#[trigger] ssts[j]).sst_id != sst_id {
        assert(first_with_id(ssts, sst_id, k));
    } else {
        let j = choose|j: int| 0 <= j < k && (#[trigger] ssts[j]).sst_id == sst_id;
        lemma_first_with_id(ssts, sst_id, j);
    }
    assert forall|pos: int|
        #[trigger] first_with_id(ssts, sst_id, pos) && (forall|i: int, j: int|
            #![trigger ssts[i], ssts[j]]
            0 <= i < j < ssts.len() ==> ssts[i].sst_id != ssts[j].sst_id) implies !has_id(
        ssts.remove(pos),
        sst_id,
    ) by {
        let rest = ssts.remove(pos);
        if has_id(rest, sst_id) {
            let i = choose|i: int| 0 <= i < rest.len() && (#[trigger] rest[i]).sst_id == sst_id;
            let was = if i < pos {
                i
            } else {
                i + 1
            };
            assert(rest[i] == ssts[was]);
            assert(ssts[pos].sst_id == sst_id);
        }
    }
}

/// Total size of files in bytes.
pub open spec fn total_bytes(ssts: Seq<SstView>) -> nat
    decreases ssts.len(),
{
    if ssts.len() == 0 {
        0
    } else {
        total_bytes(ssts.drop_last()) + ssts.last().size_bytes as nat
    }
}

/// The size of files is that of some of them and that of the others.
pub proof fn lemma_total_bytes_parts(a: Seq<SstView>, b: Seq<SstView>)
    ensures
        total_bytes(a + b) == total_bytes(a) + total_bytes(b),
        a.len() == 1 ==> total_bytes(a) == a[0].size_bytes,
    decreases b.len(),
{
    if a.len() == 1 {
        assert(a.drop_last() =~= Seq::<SstView>::empty());
        assert(total_bytes(a.drop_last()) == 0);
    }
    if b.len() == 0 {
        assert(a + b =~= a);
    } else {
        lemma_total_bytes_parts(a, b.drop_last());
        assert((a + b).drop_last() =~= a + b.drop_last());
        assert((a + b).last() == b.last());
    }
}

/// A level of the tree.
#[derive(Debug)]
pub struct LsmLevel {
    /// Index of the level.
    pub level: usize,
    /// The files of the level, in the order of their smallest keys.
    pub ssts: Vec<SstMetadata>,
}

impl View for LsmLevel {
    type V = Seq<SstView>;

    open spec fn view(&self) -> Seq<SstView> {
        sst_views(self.ssts@)
    }
}

/// Whether a file was added, and those that were there stayed in their order.
pub open spec fn inserted(before: Seq<SstView>, sst: SstView, after: Seq<SstView>) -> bool {
    exists|pos: int|
        0 <= pos <= before.len() && after == #[trigger] before.insert(pos, sst)
}

/// Whether these are the files at each stage of adding some one after the other.
pub open spec fn stages_of(
    before: Seq<SstView>,
    added: Seq<SstView>,
    stages: Seq<Seq<SstView>>,
) -> bool {
    &&& stages.len() == added.len() + 1
    &&& stages[0] == before
    &&& forall|k: int|
        0 <= k < added.len() ==> inserted(stages[k], #[trigger] added[k], stages[k + 1])
}

/// Whether files were added one after the other.
pub open spec fn all_inserted(
    before: Seq<SstView>,
    added: Seq<SstView>,
    after: Seq<SstView>,
) -> bool {
    exists|stages: Seq<Seq<SstView>>| #[trigger]
        stages_of(before, added, stages) && stages.last() == after
}

impl LsmLevel {
    /// The files are in order.
    pub open spec fn wf(&self) -> bool {
        by_min_key(self@)
    }

    /// An empty level.
    pub fn new(level: usize) -> (result: Self)
        ensures
            result.wf(),
            result.level == level,
            result@ == Seq::<SstView>::empty(),
    {
        let result = LsmLevel { level, ssts: Vec::new() };
        assert(result@ =~= Seq::<SstView>::empty());
        result
    }

    /// Total size of the files in bytes, counted up to the greatest 64-bit number.
    pub fn total_size_bytes(&self) -> (total: u64)
        ensures
            total == counted_up(total_bytes(self@)),
    {
        let mut total: u64 = 0;
        let mut i: usize = 0;
        while i < self.ssts.len()
            invariant
                i <= self.ssts@.len(),
                total == counted_up(total_bytes(self@.take(i as int))),
            decreases self.ssts@.len() - i,
        {
            proof {
                assert(self@.take(i + 1).drop_last() =~= self@.take(i as int));
            }
            total = total.saturating_add(self.ssts[i].size_bytes);
            i = i + 1;
        }
        assert(self@.take(i as int) =~= self@);
        total
    }

    /// Number of files.
    pub fn file_count(&self) -> (n: usize)
        ensures
            n == self@.len(),
    {
        self.ssts.len()
    }

    /// Adds a file at a place that keeps the files in order.
    pub fn add_sst(&mut self, sst: SstMetadata)
        requires
            old(self).wf(),
        ensures
            final(self).wf(),
            final(self).level == old(self).level,
            final(self)@.to_multiset() == old(self)@.to_multiset().insert(sst@),
            inserted(old(self)@, sst@, final(self)@),
    {
        let ghost before = self@;
        let mut low: usize = 0;
        let mut high: usize = self.ssts.len();
        while low < high
            invariant
                low <= high <= self.ssts@.len(),
                self@ == before,
                by_min_key(before),
                forall|k: int| 0 <= k < low ==> lex_lt((#[trigger] before[k]).min_key, sst@.min_key),
                forall|k: int|
                    high <= k < before.len() ==> lex_le(
                        sst@.min_key,
                        (#[trigger] before[k]).min_key,
                    ),
            decreases high - low,
        {
            let mid: usize = low + (high - low) / 2;
            assert(before[mid as int] == self.ssts@[mid as int]@);
            if compare_bytes(self.ssts[mid].min_key.as_slice(), sst.min_key.as_slice())
                == Compared::Less {
                proof {
                    assert forall|k: int| 0 <= k < mid + 1 implies lex_lt(
                        (#[trigger] before[k]).min_key,
                        sst@.min_key,
                    ) by {
                        lemma_lex_le_lt(before[k].min_key, before[mid as int].min_key, sst@.min_key);
                    }
                }
                low = mid + 1;
            } else {
                proof {
                    assert forall|k: int| mid <= k < before.len() implies lex_le(
                        sst@.min_key,
                        (#[trigger] before[k]).min_key,
                    ) by {
                        lemma_lex_le_le(sst@.min_key, before[mid as int].min_key, before[k].min_key);
                    }
                }
                high = mid;
            }
        }
        let ghost added = sst@;
        self.ssts.insert(low, sst);
        proof {
            let after = self@;
            assert(after =~= before.insert(low as int, added));
            vstd::seq_lib::to_multiset_insert(before, low as int, added);
            lemma_insert_in_order(before, low as int, added);
        }
    }

    /// Removes the first file with an id.
    pub fn remove_sst(&mut self, sst_id: u64) -> (removed: Option<SstMetadata>)
        ensures
            final(self).level == old(self).level,
            old(self).wf() ==> final(self).wf(),
            match removed {
                Some(sst) => exists|pos: int|
                    {
                        &&& #[trigger] first_with_id(old(self)@, sst_id, pos)
                        &&& sst@ == old(self)@[pos]
                        &&& final(self)@ == old(self)@.remove(pos)
                    },
                None => !has_id(old(self)@, sst_id) && final(self)@ == old(self)@,
            },
    {
        let ghost before = self@;
        let mut i: usize = 0;
        while i < self.ssts.len()
            invariant
                i <= self.ssts@.len(),
                *self == *old(self),
                self@ == before,
                forall|k: int| 0 <= k < i ==> (#[trigger] before[k]).sst_id != sst_id,
            decreases self.ssts@.len() - i,
        {
            assert(before[i as int] == self.ssts@[i as int]@);
            if self.ssts[i].sst_id == sst_id {
                let sst = self.ssts.remove(i);
                proof {
                    assert(first_with_id(before, sst_id, i as int));
                    assert(self@ =~= before.remove(i as int));
                    assert forall|a: int, b: int|
                        #![trigger self@[a], self@[b]]
                        by_min_key(before) && 0 <= a <= b < self@.len() implies lex_le(
                        self@[a].min_key,
                        self@[b].min_key,
                    ) by {
                        let x = if a < i {
                            a
                        } else {
                            a + 1
                        };
                        let y = if b < i {
                            b
                        } else {
                            b + 1
                        };
                        assert(self@[a] == before[x]);
                        assert(self@[b] == before[y]);
                    }
                }
                return Some(sst);
            }
            i = i + 1;
        }
        None
    }

    /// Whether this is the bottom level.
    pub fn is_bottom(&self) -> (result: bool)
        ensures
            result == (self.level == BOTTOM_LEVEL),
    {
        self.level == BOTTOM_LEVEL
    }

    /// Whether this is level 0.
    pub fn is_l0(&self) -> (result: bool)
        ensures
            result == (self.level == 0),
    {
        self.level == 0
    }

    /// The files whose key ranges overlap the range from `min_key` to `max_key`.
    pub fn overlapping_ssts(&self, min_key: &[u8], max_key: &[u8]) -> (found: Vec<&SstMetadata>)
        ensures
            Seq::new(found@.len(), |i: int| found@[i]@) == self@.filter(
                |sst: SstView| sst.meets(min_key@, max_key@),
            ),
    {
        let ghost meets = |sst: SstView| sst.meets(min_key@, max_key@);
        let mut found: Vec<&SstMetadata> = Vec::new();
        let mut i: usize = 0;
        proof {
            reveal(Seq::filter);
            assert(Seq::new(found@.len(), |i: int| found@[i]@) =~= self@.take(0).filter(meets));
        }
        while i < self.ssts.len()
            invariant
                i <= self.ssts@.len(),
                meets == (|sst: SstView| sst.meets(min_key@, max_key@)),
                Seq::new(found@.len(), |k: int| found@[k]@) == self@.take(i as int).filter(meets),
            decreases self.ssts@.len() - i,
        {
            let ghost before = Seq::new(found@.len(), |k: int| found@[k]@);
            assert(self@[i as int] == self.ssts@[i as int]@);
            proof {
                reveal(Seq::filter);
                assert(self@.take(i + 1).drop_last() =~= self@.take(i as int));
                assert(self@.take(i + 1).last() == self.ssts@[i as int]@);
            }
            if self.ssts[i].overlaps(min_key, max_key) {
                found.push(&self.ssts[i]);
                assert(Seq::new(found@.len(), |k: int| found@[k]@) =~= before.push(
                    self.ssts@[i as int]@,
                ));
            }
            i = i + 1;
        }
        assert(self@.take(i as int) =~= self@);
        found
    }
}

proof fn lemma_insert_in_order(ssts: Seq<SstView>, pos: int, sst: SstView)
    requires
        by_min_key(ssts),
        0 <= pos <= ssts.len(),
        forall|k: int| 0 <= k < pos ==> lex_lt((#[trigger] ssts[k]).min_key, sst.min_key),
        forall|k: int|
            pos <= k < ssts.len() ==> lex_le(sst.min_key, (#[trigger] ssts[k]).min_key),
    ensures
        by_min_key(ssts.insert(pos, sst)),
{
    let after = ssts.insert(pos, sst);
    assert forall|i: int, j: int|
        #![trigger after[i], after[j]]
        0 <= i <= j < after.len() implies lex_le(after[i].min_key, after[j].min_key) by {
        if i < pos {
            assert(after[i] == ssts[i]);
        } else if i > pos {
            assert(after[i] == ssts[i - 1]);
        }
        if j < pos {
            assert(after[j] == ssts[j]);
        } else if j > pos {
            assert(after[j] == ssts[j - 1]);
        }
        if i < pos && j == pos {
            lemma_lex_asymmetric(ssts[i].min_key, sst.min_key);
        }
        lemma_lex_irreflexive(sst.min_key);
    }
}

/// Total number of files of levels.
pub open spec fn file_total(levels: Seq<LsmLevel>) -> nat
    decreases levels.len(),
{
    if levels.len() == 0 {
        0
    } else {
        file_total(levels.drop_last()) + levels.last()@.len()
    }
}

/// The files of levels are those of some of them and those of the others.
pub proof fn lemma_file_total_parts(a: Seq<LsmLevel>, b: Seq<LsmLevel>)
    ensures
        file_total(a + b) == file_total(a) + file_total(b),
        b.len() == 1 ==> file_total(b) == b[0]@.len(),
    decreases b.len(),
{
    reveal_with_fuel(file_total, 2);
    if b.len() == 0 {
        assert(a + b =~= a);
    } else {
        assert((a + b).drop_last() =~= a + b.drop_last());
        assert((a + b).last() == b.last());
        lemma_file_total_parts(a, b.drop_last());
    }
}

/// The levels and the files in them.
#[derive(Debug)]
pub struct LsmTree {
    /// The levels, from level 0 down.
    pub levels: Vec<LsmLevel>,
    /// Size ratio between adjacent levels.
    pub size_ratio: u32,
}

impl LsmTree {
    /// Every level is there and in order.
    pub open spec fn wf(&self) -> bool {
        &&& self.levels@.len() == NUM_LEVELS
        &&& forall|i: int| 0 <= i < NUM_LEVELS ==> (#[trigger] self.levels@[i]).wf()
    }

    /// An empty tree.
    pub fn new() -> (tree: Self)
        ensures
            tree.wf(),
            tree.size_ratio == DEFAULT_SIZE_RATIO,
            forall|i: int|
                0 <= i < NUM_LEVELS ==> (#[trigger] tree.levels@[i]).level == i
                    && tree.levels@[i]@ == Seq::<SstView>::empty(),
    {
        Self::with_size_ratio(DEFAULT_SIZE_RATIO)
    }

    /// An empty tree with a size ratio.
    pub fn with_size_ratio(size_ratio: u32) -> (tree: Self)
        ensures
            tree.wf(),
            tree.size_ratio == size_ratio,
            forall|i: int|
                0 <= i < NUM_LEVELS ==> (#[trigger] tree.levels@[i]).level == i
                    && tree.levels@[i]@ == Seq::<SstView>::empty(),
    {
        let mut levels: Vec<LsmLevel> = Vec::new();
        let mut i: usize = 0;
        while i < NUM_LEVELS
            invariant
                i <= NUM_LEVELS,
                levels@.len() == i,
                forall|k: int|
                    0 <= k < i ==> (#[trigger] levels@[k]).wf() && levels@[k].level == k
                        && levels@[k]@ == Seq::<SstView>::empty(),
            decreases NUM_LEVELS - i,
        {
            levels.push(LsmLevel::new(i));
            i = i + 1;
        }
        LsmTree { levels, size_ratio }
    }

    /// A level.
    pub fn level(&self, idx: usize) -> (level: &LsmLevel)
        requires
            idx < self.levels@.len(),
        ensures
            *level == self.levels@[idx as int],
    {
        &self.levels[idx]
    }

    /// A level, to be changed.
    pub fn level_mut(&mut self, idx: usize) -> (level: &mut LsmLevel)
        requires
            idx < old(self).levels@.len(),
        ensures
            *level == old(self).levels@[idx as int],
            final(self).size_ratio == old(self).size_ratio,
            final(self).levels@ == old(self).levels@.update(idx as int, *final(level)),
    {
        &mut self.levels[idx]
    }

    /// Adds a file to a level.
    pub fn add_sst(&mut self, level: usize, sst: SstMetadata)
        requires
            old(self).wf(),
            level < NUM_LEVELS,
        ensures
            final(self).wf(),
            final(self).size_ratio == old(self).size_ratio,
            final(self).levels@[level as int].level == old(self).levels@[level as int].level,
            final(self).levels@[level as int]@.to_multiset()
                == old(self).levels@[level as int]@.to_multiset().insert(sst@),
            inserted(
                old(self).levels@[level as int]@,
                sst@,
                final(self).levels@[level as int]@,
            ),
            forall|i: int|
                0 <= i < NUM_LEVELS && i != level ==> #[trigger] final(self).levels@[i]
                    == old(self).levels@[i],
    {
        self.level_mut(level).add_sst(sst);
    }

    /// Removes the first file with an id from a level.
    pub fn remove_sst(&mut self, level: usize, sst_id: u64) -> (removed: Option<SstMetadata>)
        requires
            old(self).wf(),
            level < NUM_LEVELS,
        ensures
            final(self).wf(),
            final(self).size_ratio == old(self).size_ratio,
            final(self).levels@[level as int].level == old(self).levels@[level as int].level,
            match removed {
                Some(sst) => exists|pos: int|
                    {
                        &&& #[trigger] first_with_id(old(self).levels@[level as int]@, sst_id, pos)
                        &&& sst@ == old(self).levels@[level as int]@[pos]
                        &&& final(self).levels@[level as int]@
                            == old(self).levels@[level as int]@.remove(pos)
                    },
                None => !has_id(old(self).levels@[level as int]@, sst_id)
                    && final(self).levels@[level as int]@ == old(self).levels@[level as int]@,
            },
            forall|i: int|
                0 <= i < NUM_LEVELS && i != level ==> #[trigger] final(self).levels@[i]
                    == old(self).levels@[i],
    {
        self.level_mut(level).remove_sst(sst_id)
    }

    /// Number of files in all levels, counted up to the greatest machine word.
    pub fn total_sst_count(&self) -> (total: usize)
        ensures
            total == (if file_total(self.levels@) > usize::MAX {
                usize::MAX as nat
            } else {
                file_total(self.levels@)
            }),
    {
        let mut total: usize = 0;
        let mut i: usize = 0;
        while i < self.levels.len()
            invariant
                i <= self.levels@.len(),
                total == (if file_total(self.levels@.take(i as int)) > usize::MAX {
                    usize::MAX as nat
                } else {
                    file_total(self.levels@.take(i as int))
                }),
            decreases self.levels@.len() - i,
        {
            proof {
                assert(self.levels@.take(i + 1).drop_last() =~= self.levels@.take(i as int));
            }
            total = total.saturating_add(self.levels[i].file_count());
            i = i + 1;
        }
        assert(self.levels@.take(i as int) =~= self.levels@);
        total
    }
}

impl Default for LsmTree {
    fn default() -> (tree: Self)
        ensures
            tree.wf(),
            tree.size_ratio == DEFAULT_SIZE_RATIO,
            forall|i: int|
                0 <= i < NUM_LEVELS ==> (#[trigger] tree.levels@[i]).level == i
                    && tree.levels@[i]@ == Seq::<SstView>::empty(),
    {
        Self::new()
    }
}

} // verus!
