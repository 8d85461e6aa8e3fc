//! The tokens that are counted.

use crate::order::{
    compare_text, compare_u64, int_rank, text_laws, text_rank, text_rank_flip, text_rank_same, Rank,
};
use vstd::prelude::*;

verus! {

/// A word as it stands in the dictionary: its surface, its reading and its context IDs.
#[derive(Clone, Debug, PartialEq, Eq, Hash)]
pub struct TokenKey {
    pub surface: String,
    pub reading: String,
    pub left_id: u16,
    pub right_id: u16,
}

#[verifier::ext_equal]
pub struct TokenView {
    pub surface: Seq<char>,
    pub reading: Seq<char>,
    pub left_id: u16,
    pub right_id: u16,
}

impl View for TokenKey {
    type V = TokenView;

    open spec fn view(&self) -> TokenView {
        TokenView {
            surface: self.surface@,
            reading: self.reading@,
            left_id: self.left_id,
            right_id: self.right_id,
        }
    }
}

impl TokenKey {
    /// Another token with the same contents.
    pub fn duplicate(&self) -> (copy: TokenKey)
        ensures
            copy@ == self@,
    {
        TokenKey {
            surface: self.surface.clone(),
            reading: self.reading.clone(),
            left_id: self.left_id,
            right_id: self.right_id,
        }
    }
}

/// The order by reading, surface and context IDs.
pub open spec fn token_order(left: TokenView, right: TokenView) -> Rank {
    text_rank(left.reading, right.reading).then_by(
        text_rank(left.surface, right.surface),
    ).then_by(int_rank(left.left_id as int, right.left_id as int)).then_by(
        int_rank(left.right_id as int, right.right_id as int),
    )
}

/// Compares two tokens.
pub fn compare_tokens(left: &TokenKey, right: &TokenKey) -> (rank: Rank)
    ensures
        rank == token_order(left@, right@),
{
    let reading = compare_text(left.reading.as_str(), right.reading.as_str());
    if reading != Rank::Same {
        return reading;
    }
    let surface = compare_text(left.surface.as_str(), right.surface.as_str());
    if surface != Rank::Same {
        return surface;
    }
    let left_id = compare_u64(left.left_id as u64, right.left_id as u64);
    if left_id != Rank::Same {
        return left_id;
    }
    compare_u64(left.right_id as u64, right.right_id as u64)
}

/// Tokens have one rank only if they are equal, and the order is total.
pub proof fn token_laws(first: TokenView, second: TokenView, third: TokenView)
    ensures
        token_order(first, second) == Rank::Same <==> first == second,
        token_order(first, second) == token_order(second, first).flip(),
        token_order(first, second) != Rank::After && token_order(second, third) != Rank::After
            ==> token_order(first, third) != Rank::After,
{
    text_laws(first.reading, second.reading, third.reading);
    text_laws(first.surface, second.surface, third.surface);
    text_rank_flip(first.reading, second.reading);
    text_rank_flip(first.surface, second.surface);
    text_rank_same(first.reading, second.reading);
    text_rank_same(first.surface, second.surface);
    if token_order(first, second) == Rank::Same {
        assert(first =~= second);
    }
}

} // verus!
