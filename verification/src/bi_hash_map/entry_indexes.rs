//! The slots that a pair of keys reaches in a [`BiHashMap`](super::BiHashMap).

use vstd::prelude::*;

verus! {

/// The slots an occupied entry reaches through its two keys.
#[derive(Clone, Copy, Debug, PartialEq, Eq)]
pub enum EntryIndexes {
    /// Both keys reach the same slot.
    Unique(usize),
    /// The keys reach different slots, or only one of them reaches a slot.
    NonUnique { index1: Option<usize>, index2: Option<usize> },
}

/// The slots of an entry, each once, with the ones that overlap told apart.
#[derive(Clone, Copy, Debug, PartialEq, Eq)]
pub enum DisjointKeys {
    Unique(usize),
    Key1(usize),
    Key2(usize),
    Key12([usize; 2]),
}

impl EntryIndexes {
    /// At least one key reaches a slot, and a non-unique entry does not reach
    /// the same slot through both keys.
    pub open spec fn valid(self) -> bool {
        match self {
            EntryIndexes::Unique(_) => true,
            EntryIndexes::NonUnique { index1, index2 } => {
                &&& (index1 is Some || index2 is Some)
                &&& !(index1 is Some && index2 is Some && index1->0 == index2->0)
            },
        }
    }

    /// What the lookups of the two keys make of an entry: none when neither
    /// key is present.
    pub open spec fn classify_spec(index1: Option<usize>, index2: Option<usize>) -> Option<
        EntryIndexes,
    > {
        match (index1, index2) {
            (None, None) => None,
            (Some(a), Some(b)) => if a == b {
                Some(EntryIndexes::Unique(a))
            } else {
                Some(EntryIndexes::NonUnique { index1, index2 })
            },
            _ => Some(EntryIndexes::NonUnique { index1, index2 }),
        }
    }

    /// The slot reached through the first key.
    pub open spec fn spec_index1(self) -> Option<usize> {
        match self {
            EntryIndexes::Unique(i) => Some(i),
            EntryIndexes::NonUnique { index1, .. } => index1,
        }
    }

    /// The slot reached through the second key.
    pub open spec fn spec_index2(self) -> Option<usize> {
        match self {
            EntryIndexes::Unique(i) => Some(i),
            EntryIndexes::NonUnique { index2, .. } => index2,
        }
    }

    /// Classifies the slots that the two keys reach.
    pub fn classify(index1: Option<usize>, index2: Option<usize>) -> (r: Option<EntryIndexes>)
        ensures
            r == Self::classify_spec(index1, index2),
            r matches Some(e) ==> e.valid() && e.spec_index1() == index1 && e.spec_index2()
                == index2,
    {
        match (index1, index2) {
            (None, None) => None,
            (Some(a), Some(b)) => {
                if a == b {
                    Some(EntryIndexes::Unique(a))
                } else {
                    Some(EntryIndexes::NonUnique { index1, index2 })
                }
            },
            _ => Some(EntryIndexes::NonUnique { index1, index2 }),
        }
    }

    /// A non-unique entry with the given slots.
    pub fn from_non_unique(index1: Option<usize>, index2: Option<usize>) -> (r: Self)
        requires
            index1 is Some || index2 is Some,
            !(index1 is Some && index2 is Some && index1->0 == index2->0),
        ensures
            r == (EntryIndexes::NonUnique { index1, index2 }),
            r.valid(),
    {
        EntryIndexes::NonUnique { index1, index2 }
    }

    /// Whether both keys reach the same slot.
    pub fn is_unique(&self) -> (b: bool)
        ensures
            b <==> *self is Unique,
    {
        match self {
            EntryIndexes::Unique(_) => true,
            EntryIndexes::NonUnique { .. } => false,
        }
    }

    /// The slots of the entry, each once.
    pub fn disjoint_keys(&self) -> (d: DisjointKeys)
        requires
            self.valid(),
        ensures
            d == (match *self {
                EntryIndexes::Unique(i) => DisjointKeys::Unique(i),
                EntryIndexes::NonUnique { index1: Some(a), index2: Some(b) } => DisjointKeys::Key12(
                    [a, b],
                ),
                EntryIndexes::NonUnique { index1: Some(a), index2: None } => DisjointKeys::Key1(a),
                EntryIndexes::NonUnique { index1: None, index2: Some(b) } => DisjointKeys::Key2(b),
                EntryIndexes::NonUnique { index1: None, index2: None } => DisjointKeys::Unique(0),
            }),
    {
        match self {
            EntryIndexes::Unique(index) => DisjointKeys::Unique(*index),
            EntryIndexes::NonUnique { index1: Some(index1), index2: Some(index2) } => {
                DisjointKeys::Key12([*index1, *index2])
            },
            EntryIndexes::NonUnique { index1: Some(index), index2: None } => DisjointKeys::Key1(
                *index,
            ),
            EntryIndexes::NonUnique { index1: None, index2: Some(index) } => DisjointKeys::Key2(
                *index,
            ),
            EntryIndexes::NonUnique { index1: None, index2: None } => {
                proof {
                    assert(false);
                }
                DisjointKeys::Unique(0)
            },
        }
    }
}

} // verus!
