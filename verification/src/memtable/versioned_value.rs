//! Version chains.
//!
//! Each key maps to its versions, the latest written first. A version without
//! a value is a tombstone: it marks a deletion.

use vstd::prelude::*;
use vstd::slice::slice_to_vec;

verus! {

/// A version of a value, with the versions before it.
#[derive(Debug)]
pub struct VersionedValue {
    /// Commit timestamp of this version.
    pub timestamp: u64,
    /// The value bytes, or `None` for a tombstone.
    pub value: Option<Vec<u8>>,
    /// The version before this one.
    pub prev: Option<Box<VersionedValue>>,
}

/// What one version says.
#[verifier::ext_equal]
pub ghost struct Version {
    pub timestamp: u64,
    pub value: Option<Seq<u8>>,
}

/// The bytes of an optional value.
pub open spec fn value_view(value: Option<Vec<u8>>) -> Option<Seq<u8>> {
    match value {
        Some(bytes) => Some(bytes@),
        None => None,
    }
}

/// The bytes of an optional result.
pub open spec fn read_view(read: Option<Option<Vec<u8>>>) -> Option<Option<Seq<u8>>> {
    match read {
        Some(value) => Some(value_view(value)),
        None => None,
    }
}

/// The first version of a chain that is visible at `read_ts`.
pub open spec fn visible(chain: Seq<Version>, read_ts: u64) -> Option<Version>
    decreases chain.len(),
{
    if chain.len() == 0 {
        None
    } else if chain[0].timestamp <= read_ts {
        Some(chain[0])
    } else {
        visible(chain.skip(1), read_ts)
    }
}

/// In a chain that was written in the order of time, the visible version is the
/// latest one that is not after `read_ts`.
pub proof fn lemma_visible_is_latest(chain: Seq<Version>, read_ts: u64)
    requires
        forall|i: int, j: int|
            #![trigger chain[i], chain[j]]
            0 <= i < j < chain.len() ==> chain[i].timestamp >= chain[j].timestamp,
    ensures
        match visible(chain, read_ts) {
            Some(version) => {
                &&& chain.contains(version)
                &&& version.timestamp <= read_ts
                &&& forall|i: int|
                    0 <= i < chain.len() && (#[trigger] chain[i]).timestamp <= read_ts
                        ==> chain[i].timestamp <= version.timestamp
            },
            None => forall|i: int|
                0 <= i < chain.len() ==> (#[trigger] chain[i]).timestamp > read_ts,
        },
    decreases chain.len(),
{
    if chain.len() > 0 {
        if chain[0].timestamp <= read_ts {
            assert(chain.contains(chain[0]));
        } else {
            let rest = chain.skip(1);
            lemma_visible_is_latest(rest, read_ts);
            assert forall|i: int| 1 <= i < chain.len() implies #[trigger] chain[i] == rest[i - 1] by {}
            if let Some(version) = visible(chain, read_ts) {
                let i = choose|i: int| 0 <= i < rest.len() && rest[i] == version;
                assert(chain[i + 1] == version);
            }
        }
    }
}

/// The visible version is the one written last of those that are not after `read_ts`.
pub proof fn lemma_visible_place(chain: Seq<Version>, read_ts: u64)
    ensures
        match visible(chain, read_ts) {
            Some(version) => version.timestamp <= read_ts && exists|i: int|
                0 <= i < chain.len() && #[trigger] chain[i] == version && forall|j: int|
                    0 <= j < i ==> (#[trigger] chain[j]).timestamp > read_ts,
            None => forall|i: int|
                0 <= i < chain.len() ==> (#[trigger] chain[i]).timestamp > read_ts,
        },
    decreases chain.len(),
{
    if chain.len() > 0 {
        if chain[0].timestamp <= read_ts {
            assert(chain[0] == visible(chain, read_ts)->0);
        } else {
            let rest = chain.skip(1);
            lemma_visible_place(rest, read_ts);
            assert forall|i: int| 1 <= i < chain.len() implies #[trigger] chain[i] == rest[i - 1] by {}
            if let Some(version) = visible(chain, read_ts) {
                let i = choose|i: int|
                    0 <= i < rest.len() && #[trigger] rest[i] == version && forall|j: int|
                        0 <= j < i ==> (#[trigger] rest[j]).timestamp > read_ts;
                assert(chain[i + 1] == version);
                assert forall|j: int| 0 <= j < i + 1 implies (#[trigger] chain[j]).timestamp
                    > read_ts by {
                    if j > 0 {
                        assert(rest[j - 1] == chain[j]);
                    }
                }
            }
        }
    }
}

impl VersionedValue {
    /// The versions, the latest written first.
    pub open spec fn chain(self) -> Seq<Version>
        decreases self,
    {
        let head = Version { timestamp: self.timestamp, value: value_view(self.value) };
        match self.prev {
            Some(prev) => seq![head] + prev.chain(),
            None => seq![head],
        }
    }

    /// Creates a versioned value with no previous version.
    pub fn new(timestamp: u64, value: Option<Vec<u8>>) -> (versioned: Self)
        ensures
            versioned.timestamp == timestamp,
            versioned.value == value,
            versioned.prev is None,
            versioned.chain() == seq![Version { timestamp, value: value_view(value) }],
    {
        VersionedValue { timestamp, value, prev: None }
    }

    /// Creates a versioned value on top of an existing version.
    pub fn with_prev(timestamp: u64, value: Option<Vec<u8>>, prev: VersionedValue) -> (versioned:
        Self)
        ensures
            versioned.timestamp == timestamp,
            versioned.value == value,
            versioned.prev == Some(Box::new(prev)),
            versioned.chain() == seq![Version { timestamp, value: value_view(value) }]
                + prev.chain(),
    {
        VersionedValue { timestamp, value, prev: Some(Box::new(prev)) }
    }

    /// Returns the value visible at the given read timestamp: `None` if no
    /// version is visible, `Some(None)` if the visible version is a tombstone.
    pub fn get_at(&self, read_ts: u64) -> (read: Option<Option<Vec<u8>>>)
        ensures
            read_view(read) == (match visible(self.chain(), read_ts) {
                Some(version) => Some(version.value),
                None => None,
            }),
    {
        match self.get_at_with_ts(read_ts) {
            Some((value, _)) => Some(value),
            None => None,
        }
    }

    /// Returns the value visible at the given read timestamp, with the
    /// timestamp of its version.
    pub fn get_at_with_ts(&self, read_ts: u64) -> (read: Option<(Option<Vec<u8>>, u64)>)
        ensures
            match read {
                Some((value, timestamp)) => visible(self.chain(), read_ts) == Some(
                    Version { timestamp, value: value_view(value) },
                ),
                None => visible(self.chain(), read_ts) is None,
            },
        decreases self,
    {
        if self.timestamp <= read_ts {
            return Some((copy_value(&self.value), self.timestamp));
        }
        match &self.prev {
            Some(prev) => {
                proof {
                    assert(self.chain().skip(1) =~= prev.chain());
                }
                prev.get_at_with_ts(read_ts)
            },
            None => {
                proof {
                    assert(self.chain().skip(1) =~= Seq::<Version>::empty());
                    assert(visible(self.chain().skip(1), read_ts) is None);
                }
                None
            },
        }
    }

    /// Returns the latest timestamp in this version chain.
    pub fn latest_timestamp(&self) -> (timestamp: u64)
        ensures
            timestamp == self.timestamp,
            timestamp == self.chain()[0].timestamp,
    {
        self.timestamp
    }

    /// Returns the number of versions in this chain.
    pub fn chain_length(&self) -> (count: usize)
        requires
            self.chain().len() <= usize::MAX,
        ensures
            count == self.chain().len(),
    {
        let mut count: usize = 1;
        let mut current: &VersionedValue = self;
        loop
            invariant
                self.chain().len() <= usize::MAX,
                count + current.chain().len() == self.chain().len() + 1,
            decreases current,
        {
            match &current.prev {
                Some(prev) => {
                    proof {
                        assert(prev.chain().len() >= 1);
                    }
                    count = count + 1;
                    current = &**prev;
                },
                None => {
                    return count;
                },
            }
        }
    }

    /// Returns `true` if the latest version is a tombstone.
    pub fn is_tombstone(&self) -> (tombstone: bool)
        ensures
            tombstone == (self.value is None),
            tombstone == (self.chain()[0].value is None),
    {
        self.value.is_none()
    }
}

/// A copy of an optional value.
pub fn copy_value(value: &Option<Vec<u8>>) -> (copy: Option<Vec<u8>>)
    ensures
        value_view(copy) == value_view(*value),
{
    match value {
        Some(bytes) => Some(slice_to_vec(bytes.as_slice())),
        None => None,
    }
}

impl Clone for VersionedValue {
    fn clone(&self) -> (copy: Self)
        ensures
            copy.chain() == self.chain(),
        decreases self,
    {
        VersionedValue {
            timestamp: self.timestamp,
            value: copy_value(&self.value),
            prev: match &self.prev {
                Some(prev) => Some(Box::new((**prev).clone())),
                None => None,
            },
        }
    }
}

} // verus!
