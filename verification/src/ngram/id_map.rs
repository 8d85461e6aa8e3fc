//! Mozc's context IDs, found by the features of IPADIC.

use crate::id_def::{id_on, read_id, IdDefError, IdFault};
use crate::text::{join, joined, lines, lines_of, same_text, split, split_on, texts, texts_push};
use vstd::hash_map::StringHashMap;
use vstd::prelude::*;

verus! {

/// An ID and the feature that it stands for. A field `*` stands for any.
#[derive(Debug)]
pub struct IdEntry {
    pub id: u16,
    pub fields: Vec<String>,
}

pub struct IdEntryView {
    pub id: u16,
    pub fields: Seq<Seq<char>>,
}

impl View for IdEntry {
    type V = IdEntryView;

    open spec fn view(&self) -> IdEntryView {
        IdEntryView { id: self.id, fields: texts(self.fields@) }
    }
}

/// The contents of the entries.
pub open spec fn entry_views(entries: Seq<IdEntry>) -> Seq<IdEntryView> {
    Seq::new(entries.len(), |i: int| entries[i]@)
}

/// The fields as one text.
pub open spec fn feature_key(fields: Seq<Seq<char>>) -> Seq<char> {
    joined(fields, "\u{1f}"@)
}

/// The smallest ID of a feature with exactly these fields.
pub open spec fn exact_id(entries: Seq<IdEntryView>, key: Seq<char>) -> Option<u16>
    decreases entries.len(),
{
    if entries.len() == 0 {
        None
    } else {
        let before = exact_id(entries.drop_last(), key);
        let last = entries.last();
        if feature_key(last.fields) == key {
            match before {
                Some(id) if id <= last.id => Some(id),
                _ => Some(last.id),
            }
        } else {
            before
        }
    }
}

/// How well the first `count` fields fit: 16 for the first field, one for each other, nothing
/// for any that stands for all. `None` where one differs.
pub open spec fn fit(fields: Seq<Seq<char>>, feature: Seq<Seq<char>>, count: int) -> Option<int>
    decreases count,
{
    if count <= 0 {
        Some(0)
    } else {
        match fit(fields, feature, count - 1) {
            Some(score) => if fields[count - 1] == "*"@ {
                Some(score)
            } else if fields[count - 1] == feature[count - 1] {
                Some(score + if count == 1 {
                    16int
                } else {
                    1
                })
            } else {
                None
            },
            None => None,
        }
    }
}

/// The score and the ID of the entry that fits a feature best: the highest score, then the
/// smallest ID.
pub open spec fn best_fit(entries: Seq<IdEntryView>, feature: Seq<Seq<char>>) -> Option<(int, u16)>
    decreases entries.len(),
{
    if entries.len() == 0 {
        None
    } else {
        let before = best_fit(entries.drop_last(), feature);
        let last = entries.last();
        match fit(last.fields, feature, 7) {
            Some(score) => match before {
                Some((best, id)) if best > score || (best == score && id <= last.id) => before,
                _ => Some((score, last.id)),
            },
            None => before,
        }
    }
}

/// The ID of the entry that fits a feature best.
pub open spec fn best_id(entries: Seq<IdEntryView>, feature: Seq<Seq<char>>) -> Option<u16> {
    match best_fit(entries, feature) {
        Some((score, id)) => Some(id),
        None => None,
    }
}

fn score_of(fields: &[String], feature: &[String]) -> (score: Option<u16>)
    requires
        fields@.len() == 7,
        feature@.len() == 7,
    ensures
        match score {
            Some(score) => fit(texts(fields@), texts(feature@), 7) == Some(score as int),
            None => fit(texts(fields@), texts(feature@), 7) is None,
        },
{
    let ghost expected = texts(fields@);
    let ghost actual = texts(feature@);
    let mut score: u16 = 0;
    let mut i: usize = 0;
    while i < 7
        invariant
            expected == texts(fields@),
            actual == texts(feature@),
            fields@.len() == 7,
            feature@.len() == 7,
            i <= 7,
            fit(expected, actual, i as int) == Some(score as int),
            score <= 16 + i,
        decreases 7 - i,
    {
        assert(expected[i as int] == fields@[i as int]@);
        assert(actual[i as int] == feature@[i as int]@);
        if !same_text(fields[i].as_str(), "*") {
            if !same_text(fields[i].as_str(), feature[i].as_str()) {
                proof {
                    misfit_stays(expected, actual, i + 1, 7);
                }
                return None;
            }
            if i == 0 {
                score += 16;
            } else {
                score += 1;
            }
        }
        i += 1;
    }
    Some(score)
}

proof fn misfit_stays(fields: Seq<Seq<char>>, feature: Seq<Seq<char>>, count: int, more: int)
    requires
        0 <= count <= more,
        fit(fields, feature, count) is None,
    ensures
        fit(fields, feature, more) is None,
    decreases more,
{
    if count < more {
        misfit_stays(fields, feature, count, more - 1);
    }
}

/// Each entry has the seven fields of a feature.
pub open spec fn have_seven_fields(entries: Seq<IdEntry>) -> bool {
    forall|i: int| 0 <= i < entries.len() ==> (#[trigger] entries[i]).fields@.len() == 7
}

/// The ID of the entry that fits a feature best.
pub fn best_match(entries: &[IdEntry], feature: &[String]) -> (id: Option<u16>)
    requires
        have_seven_fields(entries@),
        feature@.len() == 7,
    ensures
        id == best_id(entry_views(entries@), texts(feature@)),
{
    let ghost all = entry_views(entries@);
    let mut best: Option<(u16, u16)> = None;
    let mut i: usize = 0;
    assert(all.take(0) =~= Seq::empty());
    while i < entries.len()
        invariant
            all == entry_views(entries@),
            have_seven_fields(entries@),
            feature@.len() == 7,
            i <= entries@.len(),
            match best {
                Some((score, id)) => best_fit(all.take(i as int), texts(feature@)) == Some(
                    (score as int, id),
                ),
                None => best_fit(all.take(i as int), texts(feature@)) is None,
            },
        decreases entries@.len() - i,
    {
        proof {
            assert(all.take(i + 1).drop_last() =~= all.take(i as int));
            assert(all.take(i + 1).last() == entries@[i as int]@);
        }
        let entry = &entries[i];
        if let Some(score) = score_of(&entry.fields, feature) {
            let keep = match best {
                Some((top, id)) => top > score || (top == score && id <= entry.id),
                None => false,
            };
            if !keep {
                best = Some((score, entry.id));
            }
        }
        i += 1;
    }
    assert(all.take(i as int) =~= all);
    match best {
        Some((_, id)) => Some(id),
        None => None,
    }
}

/// The entries that the lines give, or the number of the first line that has a fault: `None` as
/// the fault stands for a feature without seven fields.
pub open spec fn entries_on(lines: Seq<Seq<char>>) -> Result<
    Seq<IdEntryView>,
    (nat, Option<IdFault>),
>
    decreases lines.len(),
{
    if lines.len() == 0 {
        Ok(Seq::empty())
    } else {
        match entries_on(lines.drop_last()) {
            Ok(entries) => match id_on(lines.last()) {
                Ok(Some((id, fields))) => if fields.len() == 7 {
                    Ok(entries.push(IdEntryView { id, fields }))
                } else {
                    Err((lines.len(), None))
                },
                Ok(None) => Ok(entries),
                Err(fault) => Err((lines.len(), Some(fault))),
            },
            Err(error) => Err(error),
        }
    }
}

proof fn first_entry_fault(lines: Seq<Seq<char>>, count: int)
    requires
        0 <= count <= lines.len(),
        entries_on(lines.take(count)) is Err,
    ensures
        entries_on(lines) == entries_on(lines.take(count)),
    decreases lines.len(),
{
    if count < lines.len() {
        assert(lines.drop_last().take(count) =~= lines.take(count));
        first_entry_fault(lines.drop_last(), count);
    } else {
        assert(lines.take(count) =~= lines);
    }
}

/// The feature of a common noun of no special kind.
pub open spec fn generic_noun() -> Seq<Seq<char>> {
    seq!["名詞"@, "一般"@, "*"@, "*"@, "*"@, "*"@, "*"@]
}

fn generic_noun_feature() -> (feature: Vec<String>)
    ensures
        texts(feature@) == generic_noun(),
{
    let mut feature: Vec<String> = Vec::new();
    feature.push("名詞".to_owned());
    feature.push("一般".to_owned());
    feature.push("*".to_owned());
    feature.push("*".to_owned());
    feature.push("*".to_owned());
    feature.push("*".to_owned());
    feature.push("*".to_owned());
    assert(texts(feature@) =~= generic_noun());
    feature
}

/// The first `kept` fields of a feature, and `*` for the others.
pub open spec fn generalized(parts: Seq<Seq<char>>, kept: int) -> Seq<Seq<char>> {
    Seq::new(
        7,
        |i: int|
            if i < kept {
                parts[i]
            } else {
                "*"@
            },
    )
}

/// The ID of the most special of these generalizations that has one: with six fields, then four,
/// three, two and one.
pub open spec fn general_id(entries: Seq<IdEntryView>, parts: Seq<Seq<char>>) -> Option<u16> {
    match exact_id(entries, feature_key(generalized(parts, 6))) {
        Some(id) => Some(id),
        None => match exact_id(entries, feature_key(generalized(parts, 4))) {
            Some(id) => Some(id),
            None => match exact_id(entries, feature_key(generalized(parts, 3))) {
                Some(id) => Some(id),
                None => match exact_id(entries, feature_key(generalized(parts, 2))) {
                    Some(id) => Some(id),
                    None => exact_id(entries, feature_key(generalized(parts, 1))),
                },
            },
        },
    }
}

/// The ID of a feature: that of the feature itself, of a generalization, or of the entry that
/// fits best. Unknown words and short features count as generic nouns.
pub open spec fn resolved(
    entries: Seq<IdEntryView>,
    generic: u16,
    feature: Seq<char>,
) -> u16 {
    let parts = split_on(feature, ',');
    if parts.len() < 7 || parts[0] == "UNK"@ {
        generic
    } else {
        match exact_id(entries, feature_key(parts.take(7))) {
            Some(id) => id,
            None => match general_id(entries, parts) {
                Some(id) => id,
                None => match best_id(entries, parts.take(7)) {
                    Some(id) => id,
                    None => generic,
                },
            },
        }
    }
}

/// The context IDs of an `id.def`.
pub struct MozcIdMap {
    entries: Vec<IdEntry>,
    exact: StringHashMap<u16>,
    generic_noun_id: u16,
}

/// What is known of the context IDs.
pub struct IdMapView {
    pub entries: Seq<IdEntryView>,
    pub generic_noun_id: u16,
}

impl View for MozcIdMap {
    type V = IdMapView;

    closed spec fn view(&self) -> IdMapView {
        IdMapView {
            entries: entry_views(self.entries@),
            generic_noun_id: self.generic_noun_id,
        }
    }
}

/// The map holds the smallest ID of each feature.
spec fn holds_exact(exact: Map<Seq<char>, u16>, entries: Seq<IdEntryView>) -> bool {
    forall|key: Seq<char>|
        #![trigger exact.contains_key(key)]
        #![trigger exact_id(entries, key)]
        match exact_id(entries, key) {
            Some(id) => exact.contains_key(key) && exact[key] == id,
            None => !exact.contains_key(key),
        }
}

/// The error says why the lines give no context IDs.
pub open spec fn is_map_error(error: IdDefError, lines: Seq<Seq<char>>) -> bool {
    match entries_on(lines) {
        Ok(entries) => if entries.len() == 0 {
            error is NoEntries
        } else {
            error is NoGenericNoun && best_id(entries, generic_noun()) is None
        },
        Err((number, Some(fault))) => 0 < number <= lines.len() && error.is_fault(
            fault,
            number,
            lines[number - 1],
        ),
        Err((number, None)) => {
            &&& 0 < number <= lines.len()
            &&& match (error, id_on(lines[number - 1])) {
                (
                    IdDefError::Fields { line_number, count },
                    Ok(Some((id, fields))),
                ) => line_number == number && count == fields.len(),
                _ => false,
            }
        },
    }
}

impl MozcIdMap {
    #[verifier::type_invariant]
    closed spec fn well_formed(&self) -> bool {
        &&& have_seven_fields(self.entries@)
        &&& holds_exact(self.exact@, entry_views(self.entries@))
    }

    /// Takes the context IDs from the text of an `id.def`.
    pub fn load(text: &str) -> (result: Result<MozcIdMap, IdDefError>)
        ensures
            match result {
                Ok(map) => {
                    &&& entries_on(lines_of(text@)) == Ok::<_, (nat, Option<IdFault>)>(
                        map@.entries,
                    )
                    &&& map@.entries.len() > 0
                    &&& best_id(map@.entries, generic_noun()) == Some(map@.generic_noun_id)
                },
                Err(error) => is_map_error(error, lines_of(text@)),
            },
    {
        let file_lines = lines(text);
        let ghost all = lines_of(text@);
        let mut entries: Vec<IdEntry> = Vec::new();
        let mut exact: StringHashMap<u16> = StringHashMap::new();
        let mut i: usize = 0;
        assert(all.take(0) =~= Seq::empty());
        assert(entry_views(entries@) =~= Seq::empty());
        while i < file_lines.len()
            invariant
                all == texts(file_lines@),
                all == lines_of(text@),
                i <= file_lines@.len(),
                have_seven_fields(entries@),
                holds_exact(exact@, entry_views(entries@)),
                entries_on(all.take(i as int)) == Ok::<_, (nat, Option<IdFault>)>(
                    entry_views(entries@),
                ),
            decreases file_lines@.len() - i,
        {
            proof {
                assert(all.take(i + 1).drop_last() =~= all.take(i as int));
                assert(all.take(i + 1).last() == file_lines@[i as int]@);
            }
            match read_id(file_lines[i].as_str(), i + 1) {
                Ok(Some((id, fields))) => {
                    if fields.len() != 7 {
                        proof {
                            first_entry_fault(all, i + 1);
                        }
                        return Err(
                            IdDefError::Fields { line_number: i + 1, count: fields.len() },
                        );
                    }
                    let key = join(&fields, "\u{1f}");
                    let least = match exact.get(key.as_str()) {
                        Some(known) => if *known <= id {
                            *known
                        } else {
                            id
                        },
                        None => id,
                    };
                    let ghost before = entry_views(entries@);
                    let ghost known = exact@;
                    let ghost name = key@;
                    exact.insert(key, least);
                    entries.push(IdEntry { id, fields });
                    proof {
                        let after = entry_views(entries@);
                        assert(after =~= before.push(IdEntryView { id, fields: texts(fields@) }));
                        assert(after.drop_last() =~= before);
                        assert forall|other: Seq<char>|
                            #![trigger exact@.contains_key(other)]
                            #![trigger exact_id(after, other)]
                            match exact_id(after, other) {
                                Some(id) => exact@.contains_key(other) && exact@[other] == id,
                                None => !exact@.contains_key(other),
                            } by {
                            assert(known.contains_key(other) == exact_id(before, other) is Some);
                        }
                    }
                },
                Ok(None) => {},
                Err(error) => {
                    proof {
                        first_entry_fault(all, i + 1);
                    }
                    return Err(error);
                },
            }
            i += 1;
        }
        assert(all.take(i as int) =~= all);
        if entries.len() == 0 {
            return Err(IdDefError::NoEntries);
        }
        let noun = generic_noun_feature();
        proof {
            assert(texts(noun@).len() == 7);
        }
        match best_match(&entries, &noun) {
            Some(id) => Ok(MozcIdMap { entries, exact, generic_noun_id: id }),
            None => Err(IdDefError::NoGenericNoun),
        }
    }

    fn find(&self, fields: &[String]) -> (id: Option<u16>)
        ensures
            id == exact_id(self@.entries, feature_key(texts(fields@))),
    {
        proof {
            use_type_invariant(self);
        }
        let key = join(fields, "\u{1f}");
        match self.exact.get(key.as_str()) {
            Some(id) => Some(*id),
            None => None,
        }
    }

    fn find_general(&self, parts: &[String], kept: usize) -> (id: Option<u16>)
        requires
            parts@.len() >= 7,
            kept <= 7,
        ensures
            id == exact_id(
                self@.entries,
                feature_key(generalized(texts(parts@), kept as int)),
            ),
    {
        let ghost wanted = generalized(texts(parts@), kept as int);
        let mut fields: Vec<String> = Vec::new();
        let mut i: usize = 0;
        assert(texts(fields@) =~= wanted.take(0));
        while i < 7
            invariant
                parts@.len() >= 7,
                kept <= 7,
                wanted == generalized(texts(parts@), kept as int),
                i <= 7,
                texts(fields@) == wanted.take(i as int),
            decreases 7 - i,
        {
            let field = if i < kept {
                parts[i].clone()
            } else {
                "*".to_owned()
            };
            proof {
                texts_push(fields@, field);
                assert(wanted.take(i + 1) =~= wanted.take(i as int).push(field@));
            }
            fields.push(field);
            i += 1;
        }
        assert(wanted.take(7) =~= wanted);
        self.find(&fields)
    }

    /// The ID of a feature.
    pub fn resolve(&self, feature: &str) -> (id: u16)
        ensures
            id == resolved(self@.entries, self@.generic_noun_id, feature@),
    {
        proof {
            use_type_invariant(self);
        }
        let parts = split(feature, ',');
        let ghost all = split_on(feature@, ',');
        if parts.len() < 7 {
            return self.generic_noun_id;
        }
        assert(all[0] == parts@[0]@);
        if same_text(parts[0].as_str(), "UNK") {
            return self.generic_noun_id;
        }
        let mut first: Vec<String> = Vec::new();
        let mut i: usize = 0;
        assert(texts(first@) =~= all.take(0));
        while i < 7
            invariant
                all == texts(parts@),
                parts@.len() >= 7,
                i <= 7,
                texts(first@) == all.take(i as int),
            decreases 7 - i,
        {
            let field = parts[i].clone();
            proof {
                texts_push(first@, field);
                assert(all.take(i + 1) =~= all.take(i as int).push(field@));
            }
            first.push(field);
            i += 1;
        }
        if let Some(id) = self.find(&first) {
            return id;
        }
        if let Some(id) = self.find_general(&parts, 6) {
            return id;
        }
        if let Some(id) = self.find_general(&parts, 4) {
            return id;
        }
        if let Some(id) = self.find_general(&parts, 3) {
            return id;
        }
        if let Some(id) = self.find_general(&parts, 2) {
            return id;
        }
        if let Some(id) = self.find_general(&parts, 1) {
            return id;
        }
        proof {
            assert(texts(first@).len() == 7);
        }
        match best_match(&self.entries, &first) {
            Some(id) => id,
            None => self.generic_noun_id,
        }
    }
}

} // verus!
