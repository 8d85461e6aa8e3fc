//! The context ID that all rows of the dictionary share: that of a generic noun.

use crate::id_def::{id_on, read_id, IdDefError, IdFault};
use crate::text::{lines, lines_of, same_text, texts};
use vstd::prelude::*;

verus! {

/// The feature is that of a noun.
pub open spec fn is_noun(fields: Seq<Seq<char>>) -> bool {
    fields.len() > 0 && fields[0] == "名詞"@
}

/// The feature is that of a common noun.
pub open spec fn is_common_noun(fields: Seq<Seq<char>>) -> bool {
    is_noun(fields) && fields.len() > 1 && fields[1] == "一般"@
}

/// The first ID of a common noun from line `start` on, or else the first one of a noun, of which
/// `fallback` came before. `Err` holds the line and the fault that comes before a common noun, or
/// nothing where there is no noun at all.
pub open spec fn noun_id_from(
    lines: Seq<Seq<char>>,
    start: int,
    fallback: Option<u16>,
) -> Result<u16, Option<(nat, IdFault)>>
    decreases lines.len() - start,
{
    if start >= lines.len() {
        match fallback {
            Some(id) => Ok(id),
            None => Err(None),
        }
    } else {
        match id_on(lines[start]) {
            Ok(Some((id, fields))) => if is_common_noun(fields) {
                Ok(id)
            } else if is_noun(fields) && fallback is None {
                noun_id_from(lines, start + 1, Some(id))
            } else {
                noun_id_from(lines, start + 1, fallback)
            },
            Ok(None) => noun_id_from(lines, start + 1, fallback),
            Err(fault) => Err(Some(((start + 1) as nat, fault))),
        }
    }
}

/// The error says why no ID of a noun is found on the lines.
pub open spec fn is_noun_error(error: IdDefError, lines: Seq<Seq<char>>) -> bool {
    match noun_id_from(lines, 0, None) {
        Ok(_) => false,
        Err(None) => error is NoNoun,
        Err(Some((number, fault))) => 0 < number <= lines.len() && error.is_fault(
            fault,
            number,
            lines[number - 1],
        ),
    }
}

/// The context ID of a generic noun.
pub fn generic_noun_id(id_def: &str) -> (result: Result<u16, IdDefError>)
    ensures
        match result {
            Ok(id) => noun_id_from(lines_of(id_def@), 0, None) == Ok::<_, Option<(nat, IdFault)>>(
                id,
            ),
            Err(error) => is_noun_error(error, lines_of(id_def@)),
        },
{
    let file_lines = lines(id_def);
    let ghost all = lines_of(id_def@);
    let mut fallback: Option<u16> = None;
    let mut i: usize = 0;
    while i < file_lines.len()
        invariant
            all == texts(file_lines@),
            all == lines_of(id_def@),
            i <= file_lines@.len(),
            noun_id_from(all, 0, None) == noun_id_from(all, i as int, fallback),
        decreases file_lines@.len() - i,
    {
        assert(all[i as int] == file_lines@[i as int]@);
        match read_id(file_lines[i].as_str(), i + 1) {
            Ok(Some((id, fields))) => {
                let ghost parts = texts(fields@);
                assert(fields@.len() > 0 ==> parts[0] == fields@[0]@);
                assert(fields@.len() > 1 ==> parts[1] == fields@[1]@);
                if fields.len() > 0 && same_text(fields[0].as_str(), "名詞") {
                    if fields.len() > 1 && same_text(fields[1].as_str(), "一般") {
                        return Ok(id);
                    }
                    if fallback.is_none() {
                        fallback = Some(id);
                    }
                }
            },
            Ok(None) => {},
            Err(error) => {
                return Err(error);
            },
        }
        i += 1;
    }
    match fallback {
        Some(id) => Ok(id),
        None => Err(IdDefError::NoNoun),
    }
}

} // verus!
