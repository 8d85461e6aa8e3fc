//! The lines of Mozc's `id.def`: context IDs and the features that they stand for.

use crate::text::{
    cut_once, decimal, decimal_of, first_is, parse_unsigned, split_once, texts, trim, trimmed,
    unsigned_value,
};
use vstd::prelude::*;

verus! {

#[verifier::external_type_specification]
#[verifier::external_body]
pub struct ExCsvError(csv::Error);

/// The fields of the first record of a text of comma-separated values, nothing where there is
/// no record. `Some(None)` where the record cannot be read.
pub uninterp spec fn csv_record(text: Seq<char>) -> Option<Option<Seq<Seq<char>>>>;

/// `csv::ReaderBuilder` without headers, and the first item of `csv::Reader::records`: the
/// record is a function of the text alone.
#[verifier::external_body]
fn first_record(text: &str) -> (record: Option<Result<Vec<String>, csv::Error>>)
    ensures
        match record {
            Some(Ok(fields)) => csv_record(text@) == Some(Some(texts(fields@))),
            Some(Err(_)) => csv_record(text@) == Some(None::<Seq<Seq<char>>>),
            None => csv_record(text@) is None,
        },
{
    let mut reader = csv::ReaderBuilder::new().has_headers(false).from_reader(text.as_bytes());
    let record = reader.records().next();
    record.map(|found| found.map(|fields| fields.iter().map(str::to_owned).collect()))
}

/// What is wrong with a line.
#[derive(Clone, Copy, Debug, PartialEq, Eq, Structural)]
pub enum IdFault {
    /// There is no space between the ID and the feature.
    Malformed,
    /// The ID is no number of 16 bits.
    Number,
    /// The feature is no record.
    Record,
    /// The feature is empty.
    Empty,
}

/// What a line says: an ID and the fields of a feature, nothing where it is empty or a comment.
pub open spec fn id_on(line: Seq<char>) -> Result<Option<(u16, Seq<Seq<char>>)>, IdFault> {
    let shown = trim(line);
    if shown.len() == 0 || shown[0] == '#' {
        Ok(None)
    } else {
        match cut_once(shown, ' ') {
            Some((id, feature)) => match unsigned_value(id) {
                Some(number) if number <= 65535 => match csv_record(feature) {
                    Some(Some(fields)) => Ok(Some((number as u16, fields))),
                    Some(None) => Err(IdFault::Record),
                    None => Err(IdFault::Empty),
                },
                _ => Err(IdFault::Number),
            },
            None => Err(IdFault::Malformed),
        }
    }
}

/// Why an `id.def` cannot be used.
#[derive(Debug)]
pub enum IdDefError {
    /// The line of this number, which reads so, has no space.
    Malformed { line_number: usize, line: String },
    /// The line of this number has no ID.
    Number { line_number: usize },
    /// The feature on the line of this number cannot be read.
    Record { line_number: usize, error: csv::Error },
    /// The feature on the line of this number is empty.
    Empty { line_number: usize },
    /// The feature on the line of this number has this many fields.
    Fields { line_number: usize, count: usize },
    /// No line has an ID.
    NoEntries,
    /// No ID stands for nouns in general.
    NoNoun,
    /// No ID can stand for a generic noun.
    NoGenericNoun,
}

impl IdDefError {
    /// The error is the fault of this line.
    pub open spec fn is_fault(self, fault: IdFault, number: nat, line: Seq<char>) -> bool {
        match self {
            IdDefError::Malformed { line_number, line: shown } => fault == IdFault::Malformed
                && line_number == number && shown@ == trim(line),
            IdDefError::Number { line_number } => fault == IdFault::Number && line_number == number,
            IdDefError::Record { line_number, error } => fault == IdFault::Record && line_number
                == number,
            IdDefError::Empty { line_number } => fault == IdFault::Empty && line_number == number,
            _ => false,
        }
    }

    /// The error in words.
    pub open spec fn text(self) -> Seq<char> {
        match self {
            IdDefError::Malformed { line_number, line } => "malformed id.def line "@ + decimal_of(
                line_number as nat,
            ) + ": "@ + line@,
            IdDefError::Number { line_number } => "invalid context ID at id.def line "@
                + decimal_of(line_number as nat),
            IdDefError::Record { line_number, error } => "unreadable id.def feature at line "@
                + decimal_of(line_number as nat),
            IdDefError::Empty { line_number } => "empty id.def feature at line "@ + decimal_of(
                line_number as nat,
            ),
            IdDefError::Fields { line_number, count } => "id.def line "@ + decimal_of(
                line_number as nat,
            ) + " has "@ + decimal_of(count as nat) + " fields instead of 7"@,
            IdDefError::NoEntries => "Mozc id.def is empty"@,
            IdDefError::NoNoun => "Mozc id.def has no noun context ID"@,
            IdDefError::NoGenericNoun => "Mozc id.def has no generic noun context ID"@,
        }
    }

    /// Says the error in words.
    pub fn message(&self) -> (message: String)
        ensures
            message@ == self.text(),
    {
        match self {
            IdDefError::Malformed { line_number, line } => {
                let mut message = "malformed id.def line ".to_owned();
                message.append(decimal(*line_number as u128).as_str());
                message.append(": ");
                message.append(line.as_str());
                message
            },
            IdDefError::Number { line_number } => {
                let mut message = "invalid context ID at id.def line ".to_owned();
                message.append(decimal(*line_number as u128).as_str());
                message
            },
            IdDefError::Record { line_number, error: _ } => {
                let mut message = "unreadable id.def feature at line ".to_owned();
                message.append(decimal(*line_number as u128).as_str());
                message
            },
            IdDefError::Empty { line_number } => {
                let mut message = "empty id.def feature at line ".to_owned();
                message.append(decimal(*line_number as u128).as_str());
                message
            },
            IdDefError::Fields { line_number, count } => {
                let mut message = "id.def line ".to_owned();
                message.append(decimal(*line_number as u128).as_str());
                message.append(" has ");
                message.append(decimal(*count as u128).as_str());
                message.append(" fields instead of 7");
                message
            },
            IdDefError::NoEntries => "Mozc id.def is empty".to_owned(),
            IdDefError::NoNoun => "Mozc id.def has no noun context ID".to_owned(),
            IdDefError::NoGenericNoun => "Mozc id.def has no generic noun context ID".to_owned(),
        }
    }
}

/// Reads a line, whose number is given for the error.
pub fn read_id(line: &str, line_number: usize) -> (result: Result<
    Option<(u16, Vec<String>)>,
    IdDefError,
>)
    ensures
        match result {
            Ok(Some((id, fields))) => id_on(line@) == Ok::<_, IdFault>(
                Some((id, texts(fields@))),
            ),
            Ok(None) => id_on(line@) == Ok::<Option<(u16, Seq<Seq<char>>)>, IdFault>(None),
            Err(error) => id_on(line@) is Err && error.is_fault(
                id_on(line@)->Err_0,
                line_number as nat,
                line@,
            ),
        },
{
    let shown = trimmed(line);
    if shown.as_str().is_empty() || first_is(shown.as_str(), '#') {
        return Ok(None);
    }
    let (number, feature) = match split_once(shown.as_str(), ' ') {
        Some(parts) => parts,
        None => {
            return Err(IdDefError::Malformed { line_number, line: shown });
        },
    };
    let id = match parse_unsigned(number.as_str(), 65535) {
        Some(id) => id as u16,
        None => {
            return Err(IdDefError::Number { line_number });
        },
    };
    match first_record(feature.as_str()) {
        Some(Ok(fields)) => Ok(Some((id, fields))),
        Some(Err(error)) => Err(IdDefError::Record { line_number, error }),
        None => Err(IdDefError::Empty { line_number }),
    }
}

} // verus!
