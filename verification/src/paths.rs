//! The order of paths: part by part, as directories hold one another.

use crate::order::{
    compare_text, sort_by, sorted_by, text_laws, text_rank, text_rank_flip, Rank, Ranking,
};
use crate::text::{any_text, same_text, split, split_on, texts};
use vstd::prelude::*;

verus! {

/// The key of a part of a path, by which it is sorted: the root first, then the directory itself,
/// then the one above it, then names. Repeated separators and the directory itself are left out
/// behind the first part.
pub open spec fn part_key(part: Seq<char>, first: bool) -> Seq<char> {
    if part.len() == 0 {
        if first {
            seq!['\u{1}', '\u{0}']
        } else {
            Seq::empty()
        }
    } else if part == "."@ {
        if first {
            seq!['\u{2}', '\u{0}']
        } else {
            Seq::empty()
        }
    } else if part == ".."@ {
        seq!['\u{3}', '\u{0}']
    } else {
        seq!['\u{4}'] + part + seq!['\u{0}']
    }
}

/// The keys of the first `count` parts, one after the other.
pub open spec fn parts_key(parts: Seq<Seq<char>>, count: int) -> Seq<char>
    decreases count,
{
    if count <= 0 {
        Seq::empty()
    } else {
        parts_key(parts, count - 1) + part_key(parts[count - 1], count == 1)
    }
}

/// The key of a path, by which it is sorted. Paths with one key lead to one file; the null character
/// behind each part stands in no name.
pub open spec fn path_key(path: Seq<char>) -> Seq<char> {
    if path.len() == 0 {
        Seq::empty()
    } else {
        parts_key(split_on(path, '/'), split_on(path, '/').len() as int)
    }
}

/// The key of a path.
pub fn key_of_path(path: &str) -> (key: String)
    ensures
        key@ == path_key(path@),
{
    let mut key = String::new();
    if path.is_empty() {
        return key;
    }
    let parts = split(path, '/');
    let ghost all = texts(parts@);
    let mut i: usize = 0;
    assert(key@ =~= Seq::empty());
    while i < parts.len()
        invariant
            all == texts(parts@),
            i <= parts@.len(),
            key@ == parts_key(all, i as int),
        decreases parts@.len() - i,
    {
        let ghost before = key@;
        let part = parts[i].as_str();
        assert(all[i as int] == part@);
        if part.is_empty() {
            if i == 0 {
                key.push('\u{1}');
                key.push('\u{0}');
            }
        } else if same_text(part, ".") {
            if i == 0 {
                key.push('\u{2}');
                key.push('\u{0}');
            }
        } else if same_text(part, "..") {
            key.push('\u{3}');
            key.push('\u{0}');
        } else {
            key.push('\u{4}');
            key.append(part);
            key.push('\u{0}');
        }
        assert(key@ =~= before + part_key(part@, i == 0));
        i += 1;
    }
    key
}

/// The order of paths.
pub open spec fn path_rank(left: Seq<char>, right: Seq<char>) -> Rank {
    text_rank(path_key(left), path_key(right))
}

/// Compares two paths.
pub fn compare_paths(left: &str, right: &str) -> (rank: Rank)
    ensures
        rank == path_rank(left@, right@),
{
    compare_text(key_of_path(left).as_str(), key_of_path(right).as_str())
}

/// Whether two paths have the same parts.
pub fn same_path(left: &str, right: &str) -> (same: bool)
    ensures
        same == (path_key(left@) == path_key(right@)),
{
    same_text(key_of_path(left).as_str(), key_of_path(right).as_str())
}

/// The order of paths.
pub struct ByPath;

impl Ranking<String> for ByPath {
    open spec fn rank(left: String, right: String) -> Rank {
        path_rank(left@, right@)
    }

    proof fn rank_flip(left: String, right: String) {
        text_rank_flip(path_key(left@), path_key(right@));
    }

    proof fn rank_transitive(first: String, second: String, third: String) {
        text_laws(path_key(first@), path_key(second@), path_key(third@));
    }

    fn compare(left: &String, right: &String) -> (rank: Rank) {
        compare_paths(left.as_str(), right.as_str())
    }
}

/// The first of the paths from `start` on that is not among those that are there.
pub open spec fn first_missing(
    paths: Seq<Seq<char>>,
    present: Seq<Seq<char>>,
    start: int,
) -> int
    decreases paths.len() - start,
{
    if start >= paths.len() || !present.contains(paths[start]) {
        start
    } else {
        first_missing(paths, present, start + 1)
    }
}

/// Finds the first of the paths that is not among those that are there.
pub(crate) fn find_missing(paths: &[String], present: &[String]) -> (missing: Option<usize>)
    ensures
        match missing {
            Some(i) => i < paths@.len() && i == first_missing(texts(paths@), texts(present@), 0),
            None => first_missing(texts(paths@), texts(present@), 0) == paths@.len(),
        },
{
    let ghost all = texts(paths@);
    let ghost there = texts(present@);
    let mut i: usize = 0;
    while i < paths.len()
        invariant
            all == texts(paths@),
            there == texts(present@),
            i <= paths@.len(),
            first_missing(all, there, 0) == first_missing(all, there, i as int),
        decreases paths@.len() - i,
    {
        assert(all[i as int] == paths@[i as int]@);
        if !any_text(present, paths[i].as_str()) {
            return Some(i);
        }
        i += 1;
    }
    None
}

/// The paths are the same, each as often as before, and now in order.
pub open spec fn is_sorted_from(paths: Seq<String>, before: Seq<String>) -> bool {
    &&& sorted_by::<String, ByPath>(paths)
    &&& paths.to_multiset() == before.to_multiset()
    &&& paths.len() == before.len()
}

/// Puts the paths in order.
pub fn sort_paths(paths: &mut Vec<String>)
    ensures
        is_sorted_from(final(paths)@, old(paths)@),
{
    let ghost before = paths@;
    let all = paths.split_off(0);
    assert(all@ =~= before);
    *paths = sort_by::<String, ByPath>(all);
    proof {
        before.to_multiset_ensures();
        paths@.to_multiset_ensures();
    }
}

/// A name that can stand in a path: it is not empty, neither a dot nor two, and holds neither a
/// separator nor a null character.
pub open spec fn is_name(name: Seq<char>) -> bool {
    &&& name.len() > 0
    &&& name != "."@ && name != ".."@
    &&& forall|i: int| 0 <= i < name.len() ==> #[trigger] name[i] != '/' && name[i] > '\u{0}'
}

proof fn key_of_name(name: Seq<char>)
    requires
        is_name(name),
    ensures
        path_key(name) == seq!['\u{4}'] + name + seq!['\u{0}'],
{
    crate::mozc::split_single(name, '/');
    let parts = seq![name];
    assert(parts_key(parts, 0) =~= Seq::<char>::empty());
    assert(parts_key(parts, 1) =~= seq!['\u{4}'] + name + seq!['\u{0}']);
}

proof fn key_below_name(name: Seq<char>, inner: Seq<char>)
    requires
        is_name(name),
        is_name(inner),
    ensures
        path_key(name.push('/') + inner) == seq!['\u{4}'] + name + seq!['\u{0}', '\u{4}'] + inner
            + seq!['\u{0}'],
{
    crate::mozc::split_single(name, '/');
    crate::mozc::split_behind(name, inner, '/');
    let parts = seq![name].push(inner);
    assert(split_on(name.push('/') + inner, '/') == parts);
    assert(parts_key(parts, 0) =~= Seq::<char>::empty());
    assert(parts_key(parts, 1) =~= seq!['\u{4}'] + name + seq!['\u{0}']);
    assert(parts_key(parts, 2) =~= seq!['\u{4}'] + name + seq!['\u{0}', '\u{4}'] + inner + seq![
        '\u{0}',
    ]);
}

proof fn first_difference(left: Seq<char>, right: Seq<char>) -> (place: int)
    ensures
        0 <= place <= left.len(),
        place <= right.len(),
        forall|i: int| 0 <= i < place ==> left[i] == right[i],
        place < left.len() && place < right.len() ==> left[place] != right[place],
    decreases left.len(),
{
    if left.len() == 0 || right.len() == 0 || left[0] != right[0] {
        0
    } else {
        let place = first_difference(left.drop_first(), right.drop_first());
        assert forall|i: int| 0 <= i < place + 1 implies left[i] == right[i] by {
            if i > 0 {
                assert(left.drop_first()[i - 1] == right.drop_first()[i - 1]);
            }
        }
        place + 1
    }
}

/// Names stand in the order of their texts. What a directory holds stands behind it, and before the
/// names that follow that of the directory.
pub proof fn directories_stand_before_their_files(
    name: Seq<char>,
    inner: Seq<char>,
    other: Seq<char>,
)
    requires
        is_name(name),
        is_name(inner),
        is_name(other),
    ensures
        path_rank(name, other) == text_rank(name, other),
        path_rank(name, name.push('/') + inner) == Rank::Before,
        text_rank(name, other) == Rank::Before ==> path_rank(name.push('/') + inner, other)
            == Rank::Before,
        text_rank(name, other) == Rank::After ==> path_rank(name.push('/') + inner, other)
            == Rank::After,
{
    key_of_name(name);
    key_of_name(other);
    key_below_name(name, inner);
    let place = first_difference(name, other);
    let left = path_key(name);
    let right = path_key(other);
    let below = path_key(name.push('/') + inner);
    crate::text_laws::texts_are_ordered_by_first_difference(name, other, place);
    assert forall|i: int| 0 <= i < place + 1 implies left[i] == right[i] && below[i]
        == right[i] by {
        if i > 0 {
            assert(name[i - 1] == other[i - 1]);
        }
    }
    if place < name.len() {
        assert(name[place] > '\u{0}');
        assert(left[place + 1] == name[place] && below[place + 1] == name[place]);
    } else {
        assert(left[place + 1] == '\u{0}' && below[place + 1] == '\u{0}');
    }
    if place < other.len() {
        assert(other[place] > '\u{0}');
        assert(right[place + 1] == other[place]);
    } else {
        assert(right[place + 1] == '\u{0}');
    }
    if place == name.len() && place == other.len() {
        assert(left =~= right);
        crate::text_laws::texts_are_ordered_by_first_difference(left, right, left.len() as int);
    } else {
        crate::text_laws::texts_are_ordered_by_first_difference(left, right, place + 1);
        crate::text_laws::texts_are_ordered_by_first_difference(below, right, place + 1);
    }
    assert forall|i: int| 0 <= i < left.len() implies left[i] == below[i] by {}
    crate::text_laws::texts_are_ordered_by_first_difference(left, below, left.len() as int);
}

} // verus!
