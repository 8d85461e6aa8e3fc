//! Pairs and triples of vocabulary numbers, packed to integers.

use vstd::prelude::*;

verus! {

/// Two numbers in one integer: the first in the upper half.
pub open spec fn packed_pair(first: u32, second: u32) -> u64 {
    (first * 0x1_0000_0000 + second) as u64
}

/// Three numbers in one integer.
pub open spec fn packed_triple(first: u32, second: u32, third: u32) -> u128 {
    (first * 0x1_0000_0000_0000_0000 + second * 0x1_0000_0000 + third) as u128
}

/// The two numbers of an integer.
pub open spec fn pair_of(key: u64) -> (u32, u32) {
    ((key / 0x1_0000_0000) as u32, (key % 0x1_0000_0000) as u32)
}

/// The three numbers of an integer.
pub open spec fn triple_of(key: u128) -> (u32, u32, u32) {
    (
        ((key / 0x1_0000_0000_0000_0000) % 0x1_0000_0000) as u32,
        ((key / 0x1_0000_0000) % 0x1_0000_0000) as u32,
        (key % 0x1_0000_0000) as u32,
    )
}

/// Packs two numbers.
pub fn pack_bigram(first: u32, second: u32) -> (key: u64)
    ensures
        key == packed_pair(first, second),
{
    let key = ((first as u64) << 32) | (second as u64);
    assert(((first as u64) << 32) | (second as u64) == first * 0x1_0000_0000 + second)
        by (bit_vector);
    key
}

/// Unpacks two numbers.
pub fn unpack_bigram(key: u64) -> (pair: (u32, u32))
    ensures
        pair == pair_of(key),
{
    assert((key >> 32) == key / 0x1_0000_0000) by (bit_vector);
    assert((key >> 32) <= 0xFFFF_FFFF) by (bit_vector);
    assert((key & 0xFFFF_FFFF) == key % 0x1_0000_0000) by (bit_vector);
    assert((key & 0xFFFF_FFFF) <= 0xFFFF_FFFF) by (bit_vector);
    ((key >> 32) as u32, (key & 0xFFFF_FFFF) as u32)
}

/// Packs three numbers.
pub fn pack_trigram(first: u32, second: u32, third: u32) -> (key: u128)
    ensures
        key == packed_triple(first, second, third),
{
    let key = ((first as u128) << 64) | ((second as u128) << 32) | (third as u128);
    assert(((first as u128) << 64) | ((second as u128) << 32) | (third as u128) == first
        * 0x1_0000_0000_0000_0000 + second * 0x1_0000_0000 + third) by (bit_vector);
    key
}

/// Unpacks three numbers.
pub fn unpack_trigram(key: u128) -> (triple: (u32, u32, u32))
    ensures
        triple == triple_of(key),
{
    let first = (key >> 64) & 0xFFFF_FFFF;
    let second = (key >> 32) & 0xFFFF_FFFF;
    let third = key & 0xFFFF_FFFF;
    assert(((key >> 64) & 0xFFFF_FFFF) == (key / 0x1_0000_0000_0000_0000) % 0x1_0000_0000)
        by (bit_vector);
    assert(((key >> 32) & 0xFFFF_FFFF) == (key / 0x1_0000_0000) % 0x1_0000_0000) by (bit_vector);
    assert((key & 0xFFFF_FFFF) == key % 0x1_0000_0000) by (bit_vector);
    (first as u32, second as u32, third as u32)
}

/// Unpacking gives back two numbers that were packed, and packing two that were unpacked.
pub proof fn pairs_round_trip(first: u32, second: u32, key: u64)
    ensures
        pair_of(packed_pair(first, second)) == (first, second),
        packed_pair(pair_of(key).0, pair_of(key).1) == key,
{
}

/// Unpacking gives back three numbers that were packed.
pub proof fn triples_round_trip(first: u32, second: u32, third: u32)
    ensures
        triple_of(packed_triple(first, second, third)) == (first, second, third),
{
    let key = packed_triple(first, second, third) as int;
    let low = second * 0x1_0000_0000 + third;
    assert(0 <= low < 0x1_0000_0000_0000_0000);
    assert(key / 0x1_0000_0000_0000_0000 == first);
    assert(key / 0x1_0000_0000 == first * 0x1_0000_0000 + second);
}

/// Different pairs and different triples are packed to different integers.
pub proof fn packing_is_injective(
    first: u32,
    second: u32,
    third: u32,
    other_first: u32,
    other_second: u32,
    other_third: u32,
)
    ensures
        packed_pair(first, second) == packed_pair(other_first, other_second) ==> first
            == other_first && second == other_second,
        packed_triple(first, second, third) == packed_triple(
            other_first,
            other_second,
            other_third,
        ) ==> first == other_first && second == other_second && third == other_third,
{
    pairs_round_trip(first, second, 0);
    pairs_round_trip(other_first, other_second, 0);
    triples_round_trip(first, second, third);
    triples_round_trip(other_first, other_second, other_third);
}

} // verus!
