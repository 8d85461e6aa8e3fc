//! Maps from texts that are kept in the order of the texts.

use crate::order::{compare_text, text_laws, text_rank, text_rank_flip, Rank};
use crate::text::texts;
use vstd::prelude::*;

verus! {

/// Each text stands before those that follow it.
pub open spec fn strictly_sorted(keys: Seq<Seq<char>>) -> bool {
    forall|i: int, j: int|
        0 <= i < j < keys.len() ==> text_rank(#[trigger] keys[i], #[trigger] keys[j])
            == Rank::Before
}

/// Values by text, in the order of the texts.
pub struct SortedMap<V> {
    pub keys: Vec<String>,
    pub values: Vec<V>,
}

impl<V> SortedMap<V> {
    /// The texts.
    pub open spec fn spec_keys(&self) -> Seq<Seq<char>> {
        texts(self.keys@)
    }

    /// There is a value for each text, and the texts are in order.
    pub open spec fn well_formed(&self) -> bool {
        &&& self.keys@.len() == self.values@.len()
        &&& strictly_sorted(self.spec_keys())
    }

    /// No texts.
    pub fn new() -> (map: SortedMap<V>)
        ensures
            map.well_formed(),
            map.keys@.len() == 0,
    {
        SortedMap { keys: Vec::new(), values: Vec::new() }
    }

    /// The number of texts.
    pub fn len(&self) -> (length: usize)
        ensures
            length == self.keys@.len(),
    {
        self.keys.len()
    }

    /// The place of a text, and whether it is there already.
    fn place(&self, key: &str) -> (found: (usize, bool))
        requires
            self.well_formed(),
        ensures
            found.0 <= self.keys@.len(),
            forall|i: int|
                0 <= i < found.0 ==> text_rank(#[trigger] self.spec_keys()[i], key@)
                    == Rank::Before,
            forall|i: int|
                (if found.1 {
                    found.0 < i
                } else {
                    found.0 <= i
                }) && i < self.keys@.len() ==> text_rank(key@, #[trigger] self.spec_keys()[i])
                    == Rank::Before,
            found.1 ==> found.0 < self.keys@.len() && self.spec_keys()[found.0 as int] == key@,
            !found.1 ==> !self.spec_keys().contains(key@),
    {
        let ghost keys = self.spec_keys();
        let mut low: usize = 0;
        let mut high: usize = self.keys.len();
        while low < high
            invariant
                self.well_formed(),
                keys == self.spec_keys(),
                low <= high <= self.keys@.len(),
                forall|i: int|
                    0 <= i < low ==> text_rank(#[trigger] keys[i], key@) == Rank::Before,
                forall|i: int|
                    high <= i < keys.len() ==> text_rank(key@, #[trigger] keys[i])
                        == Rank::Before,
            decreases high - low,
        {
            let middle = low + (high - low) / 2;
            let rank = compare_text(self.keys[middle].as_str(), key);
            let ghost found = keys[middle as int];
            proof {
                assert(found == self.keys@[middle as int]@);
                text_laws(found, key@, key@);
                text_rank_flip(found, key@);
                assert forall|i: int| 0 <= i < middle && rank != Rank::After implies text_rank(
                    #[trigger] keys[i],
                    key@,
                ) == Rank::Before by {
                    assert(text_rank(keys[i], keys[middle as int]) == Rank::Before);
                    text_laws(keys[i], found, key@);
                }
                assert forall|i: int|
                    middle < i < keys.len() && rank != Rank::Before implies text_rank(
                    key@,
                    #[trigger] keys[i],
                ) == Rank::Before by {
                    assert(text_rank(keys[middle as int], keys[i]) == Rank::Before);
                    text_laws(key@, found, keys[i]);
                }
            }
            match rank {
                Rank::Before => {
                    low = middle + 1;
                },
                Rank::Same => {
                    return (middle, true);
                },
                Rank::After => {
                    high = middle;
                },
            }
        }
        proof {
            assert forall|i: int| 0 <= i < keys.len() implies keys[i] != key@ by {
                text_laws(keys[i], key@, keys[i]);
            }
        }
        (low, false)
    }

    /// The place of a text.
    pub fn find(&self, key: &str) -> (place: Option<usize>)
        requires
            self.well_formed(),
        ensures
            match place {
                Some(place) => place < self.keys@.len() && self.spec_keys()[place as int] == key@,
                None => !self.spec_keys().contains(key@),
            },
    {
        let (place, there) = self.place(key);
        if there {
            Some(place)
        } else {
            None
        }
    }

    /// The place of a text, which is added with a value if it is new.
    pub fn slot(&mut self, key: &str, default: V) -> (place: usize)
        requires
            old(self).well_formed(),
        ensures
            final(self).well_formed(),
            place <= old(self).keys@.len(),
            place < final(self).keys@.len(),
            final(self).spec_keys()[place as int] == key@,
            old(self).spec_keys().contains(key@) ==> final(self).spec_keys() == old(
                self,
            ).spec_keys() && final(self).values@ == old(self).values@,
            !old(self).spec_keys().contains(key@) ==> final(self).spec_keys() == old(
                self,
            ).spec_keys().insert(place as int, key@) && final(self).values@ == old(
                self,
            ).values@.insert(place as int, default),
    {
        let (place, there) = self.place(key);
        let ghost before = self.spec_keys();
        if there {
            assert(before.contains(before[place as int]));
            return place;
        }
        self.keys.insert(place, key.to_owned());
        self.values.insert(place, default);
        proof {
            let after = self.spec_keys();
            assert(after =~= before.insert(place as int, key@));
            assert forall|i: int, j: int| 0 <= i < j < after.len() implies text_rank(
                #[trigger] after[i],
                #[trigger] after[j],
            ) == Rank::Before by {
                if i < place && j > place {
                    assert(after[i] == before[i] && after[j] == before[j - 1]);
                } else if i < place && j == place {
                    assert(after[i] == before[i]);
                } else if i == place {
                    assert(after[j] == before[j - 1]);
                } else if i > place {
                    assert(after[i] == before[i - 1] && after[j] == before[j - 1]);
                } else {
                    assert(after[i] == before[i] && after[j] == before[j]);
                }
            }
        }
        place
    }
}

} // verus!
