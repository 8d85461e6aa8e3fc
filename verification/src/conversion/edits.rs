//! Edits of texts, and that the edit distance is the least number of them.

use crate::conversion::ajimee::{
    distance_has_no_detours, distance_is_zero_for_equal_texts, edit_distance,
};
use vstd::prelude::*;

verus! {

/// An edit of one character of a text. A character is inserted before the one at its place.
pub enum Edit {
    Replace(int, char),
    Insert(int, char),
    Delete(int),
}

impl Edit {
    /// The place of the edit is one of the text, or its end where a character is inserted.
    pub open spec fn fits(self, text: Seq<char>) -> bool {
        match self {
            Edit::Replace(place, _) => 0 <= place < text.len(),
            Edit::Insert(place, _) => 0 <= place <= text.len(),
            Edit::Delete(place) => 0 <= place < text.len(),
        }
    }

    /// The text after the edit.
    pub open spec fn of(self, text: Seq<char>) -> Seq<char> {
        match self {
            Edit::Replace(place, character) => text.update(place, character),
            Edit::Insert(place, character) => text.insert(place, character),
            Edit::Delete(place) => text.remove(place),
        }
    }
}

/// The text after one edit and then the next, up to the last.
pub open spec fn edited(text: Seq<char>, edits: Seq<Edit>) -> Seq<char>
    decreases edits.len(),
{
    if edits.len() == 0 {
        text
    } else {
        edits.last().of(edited(text, edits.drop_last()))
    }
}

/// Each edit fits the text that those before it leave.
pub open spec fn all_fit(text: Seq<char>, edits: Seq<Edit>) -> bool
    decreases edits.len(),
{
    edits.len() == 0 || all_fit(text, edits.drop_last()) && edits.last().fits(
        edited(text, edits.drop_last()),
    )
}

/// The edits turn one text into the other.
pub open spec fn turns_into(left: Seq<char>, edits: Seq<Edit>, right: Seq<char>) -> bool {
    all_fit(left, edits) && edited(left, edits) == right
}

/// What follows both texts does not part them further.
proof fn same_end_adds_nothing(left: Seq<char>, right: Seq<char>, end: Seq<char>)
    ensures
        edit_distance(left + end, right + end) <= edit_distance(left, right),
    decreases end.len(),
{
    if end.len() == 0 {
        assert(left + end =~= left);
        assert(right + end =~= right);
    } else {
        same_end_adds_nothing(left, right, end.drop_last());
        assert((left + end).drop_last() =~= left + end.drop_last());
        assert((right + end).drop_last() =~= right + end.drop_last());
    }
}

/// One edit leads no further than to the distance of one.
proof fn one_edit_is_near(text: Seq<char>, edit: Edit)
    requires
        edit.fits(text),
    ensures
        edit_distance(text, edit.of(text)) <= 1,
{
    match edit {
        Edit::Replace(place, character) => {
            let start = text.take(place);
            let end = text.skip(place + 1);
            let before = start.push(text[place]);
            let after = start.push(character);
            distance_is_zero_for_equal_texts(start, start);
            assert(before.drop_last() =~= start);
            assert(after.drop_last() =~= start);
            same_end_adds_nothing(before, after, end);
            assert(before + end =~= text);
            assert(after + end =~= edit.of(text));
        },
        Edit::Insert(place, character) => {
            let start = text.take(place);
            let end = text.skip(place);
            let after = start.push(character);
            distance_is_zero_for_equal_texts(start, start);
            assert(after.drop_last() =~= start);
            same_end_adds_nothing(start, after, end);
            assert(start + end =~= text);
            assert(after + end =~= edit.of(text));
        },
        Edit::Delete(place) => {
            let start = text.take(place);
            let end = text.skip(place + 1);
            let before = start.push(text[place]);
            distance_is_zero_for_equal_texts(start, start);
            assert(before.drop_last() =~= start);
            same_end_adds_nothing(before, start, end);
            assert(before + end =~= text);
            assert(start + end =~= edit.of(text));
        },
    }
}

/// No edits that turn one text into the other are fewer than their distance.
pub proof fn distance_is_least(left: Seq<char>, edits: Seq<Edit>, right: Seq<char>)
    requires
        turns_into(left, edits, right),
    ensures
        edit_distance(left, right) <= edits.len(),
    decreases edits.len(),
{
    if edits.len() == 0 {
        distance_is_zero_for_equal_texts(left, right);
    } else {
        let middle = edited(left, edits.drop_last());
        distance_is_least(left, edits.drop_last(), middle);
        one_edit_is_near(middle, edits.last());
        distance_has_no_detours(left, middle, right);
    }
}

/// Edits of the start of a text leave its last character.
proof fn last_character_stays(left: Seq<char>, edits: Seq<Edit>, right: Seq<char>, last: char)
    requires
        turns_into(left, edits, right),
    ensures
        turns_into(left.push(last), edits, right.push(last)),
    decreases edits.len(),
{
    if edits.len() > 0 {
        let middle = edited(left, edits.drop_last());
        let edit = edits.last();
        last_character_stays(left, edits.drop_last(), middle, last);
        assert(edit.of(middle.push(last)) =~= edit.of(middle).push(last));
    }
}

/// The edits turn one text into the other and are as many as their distance.
pub open spec fn are_fewest(left: Seq<char>, edits: Seq<Edit>, right: Seq<char>) -> bool {
    turns_into(left, edits, right) && edits.len() == edit_distance(left, right)
}

/// One more edit after those that turn one text into another, where the distance is as much more.
proof fn one_more_edit(
    left: Seq<char>,
    edits: Seq<Edit>,
    middle: Seq<char>,
    edit: Edit,
    right: Seq<char>,
)
    requires
        turns_into(left, edits, middle),
        edit.fits(middle),
        edit.of(middle) == right,
        edits.len() + 1 == edit_distance(left, right),
    ensures
        exists|more: Seq<Edit>| #[trigger] are_fewest(left, more, right),
{
    assert(edits.push(edit).drop_last() =~= edits);
    assert(are_fewest(left, edits.push(edit), right));
}

/// Some edits that turn one text into the other are as many as their distance.
pub proof fn distance_is_reached(left: Seq<char>, right: Seq<char>)
    ensures
        exists|edits: Seq<Edit>| #[trigger] are_fewest(left, edits, right),
    decreases left.len(), right.len(),
{
    if left.len() == 0 && right.len() == 0 {
        assert(left =~= right);
        assert(are_fewest(left, Seq::empty(), right));
    } else if right.len() > 0 && (left.len() == 0 || edit_distance(left, right) == edit_distance(
        left,
        right.drop_last(),
    ) + 1) {
        let start = right.drop_last();
        distance_is_reached(left, start);
        let before = choose|edits: Seq<Edit>| #[trigger] are_fewest(left, edits, start);
        let edit = Edit::Insert(start.len() as int, right.last());
        assert(edit.of(start) =~= right);
        one_more_edit(left, before, start, edit, right);
    } else if left.len() > 0 && (right.len() == 0 || edit_distance(left, right) == edit_distance(
        left.drop_last(),
        right,
    ) + 1) {
        let start = left.drop_last();
        distance_is_reached(start, right);
        let before = choose|edits: Seq<Edit>| #[trigger] are_fewest(start, edits, right);
        let middle = right.push(left.last());
        let edit = Edit::Delete(right.len() as int);
        last_character_stays(start, before, right, left.last());
        assert(start.push(left.last()) =~= left);
        assert(edit.of(middle) =~= right);
        one_more_edit(left, before, middle, edit, right);
    } else {
        let start = right.drop_last();
        distance_is_reached(left.drop_last(), start);
        let before = choose|edits: Seq<Edit>| #[trigger]
            are_fewest(left.drop_last(), edits, start);
        let middle = start.push(left.last());
        last_character_stays(left.drop_last(), before, start, left.last());
        assert(left.drop_last().push(left.last()) =~= left);
        if left.last() == right.last() {
            assert(middle =~= right);
            assert(are_fewest(left, before, right));
        } else {
            let edit = Edit::Replace(start.len() as int, right.last());
            assert(edit.of(middle) =~= right);
            one_more_edit(left, before, middle, edit, right);
        }
    }
}

} // verus!
