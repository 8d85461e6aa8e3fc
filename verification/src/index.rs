//! An index of texts: each distinct text has a place, in the order in which they came.

use crate::text::{texts, texts_push};
use vstd::hash_map::StringHashMap;
use vstd::prelude::*;

verus! {

/// The distinct texts of a list, in the order in which they first come.
pub open spec fn distinct(list: Seq<Seq<char>>) -> Seq<Seq<char>>
    decreases list.len(),
{
    if list.len() == 0 {
        list
    } else {
        let before = distinct(list.drop_last());
        if before.contains(list.last()) {
            before
        } else {
            before.push(list.last())
        }
    }
}

/// The distinct texts of a list are its texts, each once.
pub proof fn distinct_texts(list: Seq<Seq<char>>)
    ensures
        distinct(list).no_duplicates(),
        distinct(list).to_set() == list.to_set(),
    decreases list.len(),
{
    if list.len() > 0 {
        distinct_texts(list.drop_last());
        let before = distinct(list.drop_last());
        assert forall|text: Seq<char>| #[trigger] distinct(list).to_set().contains(text)
            == list.to_set().contains(text) by {
            assert(before.to_set().contains(text) == list.drop_last().to_set().contains(text));
            assert(list[list.len() - 1] == list.last());
            if list.drop_last().contains(text) {
                assert(list[list.drop_last().index_of(text)] == text);
            }
            if list.contains(text) && text != list.last() {
                assert(list.drop_last()[list.index_of(text)] == text);
            }
            if before.contains(text) && !before.contains(list.last()) {
                assert(distinct(list)[before.index_of(text)] == text);
            }
            if !before.contains(list.last()) {
                assert(distinct(list)[before.len() as int] == list.last());
            }
            if distinct(list).contains(text) && text != list.last() && !before.contains(
                list.last(),
            ) {
                assert(before[distinct(list).index_of(text)] == text);
            }
        }
        assert(distinct(list).to_set() =~= list.to_set());
    }
}

/// Distinct texts, each with its place.
pub struct TextIndex {
    places: StringHashMap<usize>,
    keys: Vec<String>,
}

impl View for TextIndex {
    type V = Seq<Seq<char>>;

    closed spec fn view(&self) -> Seq<Seq<char>> {
        texts(self.keys@)
    }
}

impl TextIndex {
    /// Each text is found at its place, and nothing else is found.
    pub closed spec fn well_formed(&self) -> bool {
        &&& forall|i: int|
            0 <= i < self.keys@.len() ==> self.places@.contains_key(
                (#[trigger] self.keys@[i])@,
            ) && self.places@[self.keys@[i]@] == i
        &&& forall|key: Seq<char>| #[trigger]
            self.places@.contains_key(key) ==> {
                &&& self.places@[key] < self.keys@.len()
                &&& self.keys@[self.places@[key] as int]@ == key
            }
    }

    /// No text stands twice.
    pub proof fn texts_are_distinct(&self)
        requires
            self.well_formed(),
        ensures
            self@.no_duplicates(),
    {
        assert forall|i: int, j: int| 0 <= i < j < self@.len() implies self@[i] != self@[j] by {
            assert(self@[i] == self.keys@[i]@);
            assert(self@[j] == self.keys@[j]@);
        }
    }

    /// An index without texts.
    pub fn new() -> (index: TextIndex)
        ensures
            index.well_formed(),
            index@ == Seq::<Seq<char>>::empty(),
    {
        let index = TextIndex { places: StringHashMap::new(), keys: Vec::new() };
        assert(index@ =~= Seq::<Seq<char>>::empty());
        index
    }

    /// The number of texts.
    pub fn len(&self) -> (length: usize)
        ensures
            length == self@.len(),
    {
        self.keys.len()
    }

    /// The text at a place.
    pub fn key(&self, place: usize) -> (key: &String)
        requires
            place < self@.len(),
        ensures
            key@ == self@[place as int],
    {
        &self.keys[place]
    }

    /// The place of a text.
    pub fn find(&self, key: &str) -> (place: Option<usize>)
        requires
            self.well_formed(),
        ensures
            match place {
                Some(place) => place < self@.len() && self@[place as int] == key@,
                None => !self@.contains(key@),
            },
    {
        match self.places.get(key) {
            Some(place) => Some(*place),
            None => {
                assert forall|i: int| 0 <= i < self@.len() implies self@[i] != key@ by {
                    assert(self@[i] == self.keys@[i]@);
                }
                None
            },
        }
    }

    /// The place of a text, which is added at the end if it is new.
    pub fn intern(&mut self, key: String) -> (place: usize)
        requires
            old(self).well_formed(),
        ensures
            final(self).well_formed(),
            place < final(self)@.len(),
            final(self)@[place as int] == key@,
            final(self)@ == if old(self)@.contains(key@) {
                old(self)@
            } else {
                old(self)@.push(key@)
            },
    {
        if let Some(place) = self.find(key.as_str()) {
            assert(self@.contains(self@[place as int]));
            return place;
        }
        let place = self.keys.len();
        let ghost before = self.keys@;
        self.places.insert(key.clone(), place);
        proof {
            texts_push(self.keys@, key);
        }
        self.keys.push(key);
        assert forall|i: int| 0 <= i < self.keys@.len() implies self.places@.contains_key(
            (#[trigger] self.keys@[i])@,
        ) && self.places@[self.keys@[i]@] == i by {
            if i < place {
                assert(self.keys@[i] == before[i]);
                assert(texts(before)[i] == before[i]@);
                assert(texts(before).contains(texts(before)[i]));
            }
        }
        place
    }

    /// The texts, in order of their places.
    pub fn into_keys(self) -> (keys: Vec<String>)
        ensures
            texts(keys@) == self@,
    {
        self.keys
    }
}

} // verus!
