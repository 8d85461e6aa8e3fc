//! Hash maps with the Fx hash of the `rustc_hash` crate.

use crate::ngram::tokens::{TokenKey, TokenView};
use crate::order::{int_rank, Rank};
use rustc_hash::FxHashMap;
use vstd::prelude::*;
use vstd::std_specs::hash::obeys_key_model;

verus! {

#[verifier::external_type_specification]
#[verifier::external_body]
pub struct ExFxBuildHasher(rustc_hash::FxBuildHasher);

/// Integers that n-grams are packed to.
pub trait Packed: Copy + Eq + std::hash::Hash {
    /// The integer as a number.
    spec fn number(self) -> nat;

    proof fn numbers_differ(left: Self, right: Self)
        requires
            left.number() == right.number(),
        ensures
            left == right,
    ;

    /// Equal integers have equal hashes.
    proof fn is_key()
        ensures
            obeys_key_model::<Self>(),
    ;

    fn compare_numbers(left: Self, right: Self) -> (rank: Rank)
        ensures
            rank == int_rank(left.number() as int, right.number() as int),
    ;
}

impl Packed for u64 {
    open spec fn number(self) -> nat {
        self as nat
    }

    proof fn numbers_differ(left: u64, right: u64) {
    }

    proof fn is_key() {
    }

    fn compare_numbers(left: u64, right: u64) -> (rank: Rank) {
        if left < right {
            Rank::Before
        } else if left == right {
            Rank::Same
        } else {
            Rank::After
        }
    }
}

impl Packed for u128 {
    open spec fn number(self) -> nat {
        self as nat
    }

    proof fn numbers_differ(left: u128, right: u128) {
    }

    proof fn is_key() {
    }

    fn compare_numbers(left: u128, right: u128) -> (rank: Rank) {
        if left < right {
            Rank::Before
        } else if left == right {
            Rank::Same
        } else {
            Rank::After
        }
    }
}

/// `FxHashMap::default`: the map is empty.
#[verifier::external_body]
pub(crate) fn no_counts<K: Packed>() -> (counts: FxHashMap<K, u64>)
    ensures
        forall|key: K| !(#[trigger] counts@.contains_key(key)),
{
    FxHashMap::default()
}

/// `FxHashMap::get` gives the value of a key, nothing where the map does not hold it.
#[verifier::external_body]
pub(crate) fn count_of<K: Packed>(counts: &FxHashMap<K, u64>, key: K) -> (count: Option<u64>)
    requires
        obeys_key_model::<K>(),
    ensures
        match count {
            Some(count) => counts@.contains_key(key) && counts@[key] == count,
            None => !counts@.contains_key(key),
        },
{
    counts.get(&key).copied()
}

/// `FxHashMap::insert` gives a key a value, whether the map held the key or not.
#[verifier::external_body]
pub(crate) fn set_count<K: Packed>(counts: &mut FxHashMap<K, u64>, key: K, count: u64)
    requires
        obeys_key_model::<K>(),
    ensures
        final(counts)@ == old(counts)@.insert(key, count),
{
    counts.insert(key, count);
}

/// `FxHashMap::iter` walks the keys and values of the map, each once, in an order that it does
/// not promise.
#[verifier::external_body]
pub(crate) fn counted<K: Packed>(counts: &FxHashMap<K, u64>) -> (list: Vec<(K, u64)>)
    requires
        obeys_key_model::<K>(),
    ensures
        forall|i: int|
            0 <= i < list@.len() ==> counts@.contains_key((#[trigger] list@[i]).0)
                && counts@[list@[i].0] == list@[i].1,
        forall|i: int, j: int|
            0 <= i < j < list@.len() ==> (#[trigger] list@[i]).0 != (#[trigger] list@[j]).0,
        forall|key: K| #[trigger]
            counts@.contains_key(key) ==> list@.contains((key, counts@[key])),
{
    counts.iter().map(|(key, count)| (*key, *count)).collect()
}

/// The keys of a map from tokens: reading, surface, left and right context ID.
pub type TokenIds = FxHashMap<(String, String, u16, u16), u32>;

/// The number that a map has for each token.
pub uninterp spec fn ids_in(map: FxHashMap<(String, String, u16, u16), u32>) -> Map<TokenView, u32>;

/// `FxHashMap::default`: the map is empty.
#[verifier::external_body]
pub(crate) fn no_ids() -> (map: TokenIds)
    ensures
        forall|token: TokenView| !(#[trigger] ids_in(map).contains_key(token)),
{
    FxHashMap::default()
}

/// `FxHashMap::get`: the number of a token, nothing where the map does not hold it.
#[verifier::external_body]
pub(crate) fn id_of(map: &TokenIds, token: &TokenKey) -> (id: Option<u32>)
    ensures
        match id {
            Some(id) => ids_in(*map).contains_key(token@) && ids_in(*map)[token@] == id,
            None => !ids_in(*map).contains_key(token@),
        },
{
    let reading = token.reading.clone();
    let surface = token.surface.clone();
    map.get(&(reading, surface, token.left_id, token.right_id)).copied()
}

/// `FxHashMap::insert` gives a token a number, whether the map held the token or not.
#[verifier::external_body]
pub(crate) fn set_id(map: &mut TokenIds, token: &TokenKey, id: u32)
    ensures
        ids_in(*final(map)) == ids_in(*old(map)).insert(token@, id),
{
    let reading = token.reading.clone();
    let surface = token.surface.clone();
    map.insert((reading, surface, token.left_id, token.right_id), id);
}

} // verus!
