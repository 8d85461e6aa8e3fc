//! Reading dictionary files: five tab-separated columns a line.

use crate::conversion::dictionary::{
    entry_fault, entry_views, first_fault, is_made, making_is_deterministic, normalized_entries,
    selects, validate_entry, Dictionary, DictionaryEntry, DictionaryError, EntryFault, EntryView,
};
use crate::grouping::{first_of_groups, has_first, holds_firsts, Grouping};
use crate::order::{
    strictly_sorted_is_unique, text_laws, text_rank_flip, text_rank_same, Rank, Ranking,
};
use crate::paths::{compare_paths, path_key, path_rank, same_path};
use crate::text::{
    begins_with, contains_text, decimal, decimal_of, ends_with, finishes_with, first_is, lines,
    lines_of, occurs_in, parse_i32, parse_unsigned, signed_value, split, split_on, starts_with,
    texts, unsigned_value,
};
use crate::views::{views, views_push};
use vstd::prelude::*;

verus! {

/// The file name belongs to a shard of a generated dictionary.
pub open spec fn names_dictionary(name: Seq<char>) -> bool {
    &&& begins_with(name, "mozc-"@)
    &&& occurs_in(name, "-unigram-"@) || occurs_in(name, "-bigram-"@) || occurs_in(
        name,
        "-trigram-"@,
    )
    &&& finishes_with(name, ".txt"@) || finishes_with(name, ".txt.zst"@)
}

/// Whether the file name belongs to a shard of a generated dictionary.
pub fn is_dictionary_filename(name: &str) -> (result: bool)
    ensures
        result == names_dictionary(name@),
{
    starts_with(name, "mozc-") && (contains_text(name, "-unigram-") || contains_text(
        name,
        "-bigram-",
    ) || contains_text(name, "-trigram-")) && (ends_with(name, ".txt") || ends_with(
        name,
        ".txt.zst",
    ))
}

/// The n-gram order that a file name tells.
pub open spec fn named_order(name: Seq<char>) -> Option<u8> {
    if occurs_in(name, "unigram"@) {
        Some(1)
    } else if occurs_in(name, "bigram"@) {
        Some(2)
    } else if occurs_in(name, "trigram"@) {
        Some(3)
    } else {
        None
    }
}

/// Infers the n-gram order from the file name of a dictionary.
pub fn order_from_path(file_name: &str) -> (order: Option<u8>)
    ensures
        order == named_order(file_name@),
{
    if contains_text(file_name, "unigram") {
        Some(1)
    } else if contains_text(file_name, "bigram") {
        Some(2)
    } else if contains_text(file_name, "trigram") {
        Some(3)
    } else {
        None
    }
}

/// The numeric columns of a dictionary line.
#[derive(Clone, Copy, Debug, PartialEq, Eq, Structural)]
pub enum Column {
    LeftId,
    RightId,
    Cost,
}

impl Column {
    /// The name of the column.
    pub open spec fn text(self) -> Seq<char> {
        match self {
            Column::LeftId => "left_id"@,
            Column::RightId => "right_id"@,
            Column::Cost => "cost"@,
        }
    }

    /// Names the column.
    pub fn name(&self) -> (name: &'static str)
        ensures
            name@ == self.text(),
    {
        match self {
            Column::LeftId => "left_id",
            Column::RightId => "right_id",
            Column::Cost => "cost",
        }
    }
}

/// What is wrong with a dictionary line.
pub enum LineFaultView {
    Columns(nat),
    Number(Column, Seq<char>),
    Entry(EntryFault),
}

/// What is wrong with a dictionary line.
#[derive(Clone, Debug, PartialEq, Eq)]
pub enum LineFault {
    /// The line has this many columns in place of five.
    Columns(usize),
    /// The column does not hold a number of its range, but this text.
    Number(Column, String),
    /// The entry of the line cannot stand in a dictionary.
    Entry(EntryFault),
}

impl View for LineFault {
    type V = LineFaultView;

    open spec fn view(&self) -> LineFaultView {
        match self {
            LineFault::Columns(found) => LineFaultView::Columns(*found as nat),
            LineFault::Number(column, value) => LineFaultView::Number(*column, value@),
            LineFault::Entry(fault) => LineFaultView::Entry(*fault),
        }
    }
}

/// The number that a column holds, where it is in the range of 16 bits.
pub open spec fn context_id(text: Seq<char>) -> Option<u16> {
    match unsigned_value(text) {
        Some(value) => if value <= u16::MAX {
            Some(value as u16)
        } else {
            None
        },
        None => None,
    }
}

/// The integer that a column holds, where it is in the range of 32 bits.
pub open spec fn cost_value(text: Seq<char>) -> Option<i32> {
    match signed_value(text) {
        Some(value) => if i32::MIN <= value <= i32::MAX {
            Some(value as i32)
        } else {
            None
        },
        None => None,
    }
}

/// What a dictionary line says: nothing for an empty line or a comment, an entry, or a fault.
pub open spec fn line_entry(line: Seq<char>, order: u8) -> Result<Option<EntryView>, LineFaultView> {
    let fields = split_on(line, '\t');
    if line.len() == 0 || line[0] == '#' {
        Ok(None)
    } else if fields.len() != 5 {
        Err(LineFaultView::Columns(fields.len()))
    } else if context_id(fields[1]) is None {
        Err(LineFaultView::Number(Column::LeftId, fields[1]))
    } else if context_id(fields[2]) is None {
        Err(LineFaultView::Number(Column::RightId, fields[2]))
    } else if cost_value(fields[3]) is None {
        Err(LineFaultView::Number(Column::Cost, fields[3]))
    } else {
        let entry = EntryView {
            reading: fields[0],
            surface: fields[4],
            left_id: context_id(fields[1])->0,
            right_id: context_id(fields[2])->0,
            cost: cost_value(fields[3])->0,
            order,
        };
        match entry_fault(entry) {
            Some(fault) => Err(LineFaultView::Entry(fault)),
            None => Ok(Some(entry)),
        }
    }
}

/// Reads a column of 16 bits.
fn parse_context_id(text: &str) -> (id: Option<u16>)
    ensures
        id == context_id(text@),
{
    match parse_unsigned(text, 65535) {
        Some(value) => Some(value as u16),
        None => None,
    }
}

/// Reads one line of a dictionary file.
pub fn parse_line(line: &str, order: u8) -> (result: Result<Option<DictionaryEntry>, LineFault>)
    ensures
        match result {
            Ok(Some(entry)) => line_entry(line@, order) == Ok::<_, LineFaultView>(Some(entry@)),
            Ok(None) => line_entry(line@, order) == Ok::<Option<EntryView>, LineFaultView>(None),
            Err(fault) => line_entry(line@, order) == Err::<Option<EntryView>, _>(fault@),
        },
{
    if line.is_empty() || first_is(line, '#') {
        return Ok(None);
    }
    let fields = split(line, '\t');
    let ghost parts = split_on(line@, '\t');
    if fields.len() != 5 {
        return Err(LineFault::Columns(fields.len()));
    }
    assert(forall|i: int| 0 <= i < 5 ==> (#[trigger] fields@[i])@ == parts[i]);
    let left_id = match parse_context_id(fields[1].as_str()) {
        Some(id) => id,
        None => {
            return Err(LineFault::Number(Column::LeftId, fields[1].clone()));
        },
    };
    let right_id = match parse_context_id(fields[2].as_str()) {
        Some(id) => id,
        None => {
            return Err(LineFault::Number(Column::RightId, fields[2].clone()));
        },
    };
    let cost = match parse_i32(fields[3].as_str()) {
        Some(cost) => cost,
        None => {
            return Err(LineFault::Number(Column::Cost, fields[3].clone()));
        },
    };
    let entry = DictionaryEntry {
        reading: fields[0].clone(),
        surface: fields[4].clone(),
        left_id,
        right_id,
        cost,
        order,
    };
    match validate_entry(&entry) {
        Ok(()) => Ok(Some(entry)),
        Err(fault) => Err(LineFault::Entry(fault)),
    }
}

/// The entries of all lines, or the number of the first line with a fault, counted from one, and
/// its fault.
pub open spec fn file_entries(
    file_lines: Seq<Seq<char>>,
    order: u8,
) -> Result<Seq<EntryView>, (nat, LineFaultView)>
    decreases file_lines.len(),
{
    if file_lines.len() == 0 {
        Ok(Seq::empty())
    } else {
        match file_entries(file_lines.drop_last(), order) {
            Err(error) => Err(error),
            Ok(entries) => match line_entry(file_lines.last(), order) {
                Err(fault) => Err((file_lines.len(), fault)),
                Ok(None) => Ok(entries),
                Ok(Some(entry)) => Ok(entries.push(entry)),
            },
        }
    }
}

/// A fault among the first lines is the first of all lines.
proof fn line_fault_stays(file_lines: Seq<Seq<char>>, order: u8, count: int)
    requires
        0 <= count <= file_lines.len(),
        file_entries(file_lines.take(count), order) is Err,
    ensures
        file_entries(file_lines, order) == file_entries(file_lines.take(count), order),
    decreases file_lines.len(),
{
    if count < file_lines.len() {
        assert(file_lines.drop_last().take(count) =~= file_lines.take(count));
        line_fault_stays(file_lines.drop_last(), order, count);
    } else {
        assert(file_lines.take(count) =~= file_lines);
    }
}

/// Why a dictionary file cannot be loaded.
#[derive(Clone, Debug, PartialEq, Eq)]
pub enum LoadError {
    /// The line of this number, counted from one, has a fault.
    Line { path: String, line_number: usize, fault: LineFault },
    Dictionary(DictionaryError),
    /// The entries of this many files give no dictionary.
    Files { count: usize, error: DictionaryError },
    /// The path does not exist.
    MissingPath { path: String },
    /// The name of the file is no text.
    UnreadableName { path: String },
    /// The name of the file does not tell the order of its entries.
    UnknownOrder { path: String },
    /// No dictionary files were found.
    NoFiles,
}

/// The text in double quotes, with escapes.
pub uninterp spec fn quoted_of(text: Seq<char>) -> Seq<char>;

/// The `Debug` format of `str` in std: the text in double quotes, its special characters
/// escaped. What it gives is a function of the text alone.
#[verifier::external_body]
fn quoted(text: &str) -> (result: String)
    ensures
        result@ == quoted_of(text@),
{
    format!("{:?}", text)
}

/// Where a line stands: the path and the number of the line.
pub open spec fn place_text(path: Seq<char>, line_number: nat) -> Seq<char> {
    path + ":"@ + decimal_of(line_number)
}

impl LoadError {
    /// The error in words.
    pub open spec fn text(self) -> Seq<char> {
        match self {
            LoadError::Line { path, line_number, fault } => {
                let place = place_text(path@, line_number as nat);
                match fault {
                    LineFault::Columns(found) => place
                        + ": expected 5 tab-separated columns, found "@ + decimal_of(found as nat),
                    LineFault::Number(column, value) => place + ": invalid "@ + column.text()
                        + " value "@ + quoted_of(value@),
                    LineFault::Entry(_) => place,
                }
            },
            LoadError::Dictionary(error) => error.text(),
            LoadError::Files { count, .. } => "no usable entries were loaded from "@ + decimal_of(
                count as nat,
            ) + " dictionary file(s)"@,
            LoadError::MissingPath { path } => "dictionary path does not exist: "@ + path@,
            LoadError::UnreadableName { path } => "dictionary filename is not UTF-8: "@ + path@,
            LoadError::UnknownOrder { path } => {
                "cannot infer n-gram order from dictionary filename: "@ + path@
            },
            LoadError::NoFiles => {
                "no mozc-unigram/bigram/trigram .txt or .txt.zst files were found"@
            },
        }
    }

    /// Says the error in words.
    pub fn message(&self) -> (message: String)
        ensures
            message@ == self.text(),
    {
        match self {
            LoadError::Line { path, line_number, fault } => {
                let mut message = path.clone();
                message.append(":");
                message.append(decimal(*line_number as u128).as_str());
                match fault {
                    LineFault::Columns(found) => {
                        message.append(": expected 5 tab-separated columns, found ");
                        message.append(decimal(*found as u128).as_str());
                    },
                    LineFault::Number(column, value) => {
                        message.append(": invalid ");
                        message.append(column.name());
                        message.append(" value ");
                        message.append(quoted(value.as_str()).as_str());
                    },
                    LineFault::Entry(_) => {},
                }
                message
            },
            LoadError::Dictionary(error) => error.message(),
            LoadError::Files { count, .. } => {
                let mut message = "no usable entries were loaded from ".to_owned();
                message.append(decimal(*count as u128).as_str());
                message.append(" dictionary file(s)");
                message
            },
            LoadError::MissingPath { path } => {
                let mut message = "dictionary path does not exist: ".to_owned();
                message.append(path.as_str());
                message
            },
            LoadError::UnreadableName { path } => {
                let mut message = "dictionary filename is not UTF-8: ".to_owned();
                message.append(path.as_str());
                message
            },
            LoadError::UnknownOrder { path } => {
                let mut message =
                    "cannot infer n-gram order from dictionary filename: ".to_owned();
                message.append(path.as_str());
                message
            },
            LoadError::NoFiles => {
                "no mozc-unigram/bigram/trigram .txt or .txt.zst files were found".to_owned()
            },
        }
    }

    /// What lies behind the error, in words.
    pub open spec fn cause_text(self) -> Option<Seq<char>> {
        match self {
            LoadError::Line { fault: LineFault::Entry(fault), .. } => Some(fault.text()),
            LoadError::Files { error, .. } => Some(error.text()),
            _ => None,
        }
    }

    /// What lies behind the error, in words.
    pub fn cause(&self) -> (cause: Option<String>)
        ensures
            match cause {
                Some(words) => self.cause_text() == Some(words@),
                None => self.cause_text() is None,
            },
    {
        match self {
            LoadError::Line { fault: LineFault::Entry(fault), .. } => Some(fault.message()),
            LoadError::Files { error, .. } => Some(error.message()),
            _ => None,
        }
    }
}

/// Reads the lines of a dictionary file and adds their entries to others. Where a line has a
/// fault, the entries of the lines before it are added.
pub fn load_reader(text: &str, path: &str, order: u8, output: &mut Vec<DictionaryEntry>) -> (result:
    Result<(), LoadError>)
    ensures
        match result {
            Ok(()) => {
                &&& file_entries(lines_of(text@), order) is Ok
                &&& entry_views(final(output)@) == entry_views(old(output)@) + file_entries(
                    lines_of(text@),
                    order,
                )->Ok_0
            },
            Err(LoadError::Line { path: shown, line_number, fault }) => {
                &&& shown@ == path@
                &&& 0 < line_number <= lines_of(text@).len()
                &&& file_entries(lines_of(text@), order) == Err::<Seq<EntryView>, _>(
                    (line_number as nat, fault@),
                )
                &&& file_entries(lines_of(text@).take(line_number - 1), order) is Ok
                &&& entry_views(final(output)@) == entry_views(old(output)@) + file_entries(
                    lines_of(text@).take(line_number - 1),
                    order,
                )->Ok_0
            },
            Err(_) => false,
        },
{
    let file_lines = lines(text);
    let ghost contents = lines_of(text@);
    let ghost given = entry_views(output@);
    assert(entry_views(output@) =~= given + Seq::<EntryView>::empty());
    let mut i: usize = 0;
    while i < file_lines.len()
        invariant
            contents == texts(file_lines@),
            contents == lines_of(text@),
            given == entry_views(old(output)@),
            i <= file_lines@.len(),
            file_entries(contents.take(i as int), order) is Ok,
            entry_views(output@) == given + file_entries(contents.take(i as int), order)->Ok_0,
        decreases file_lines@.len() - i,
    {
        proof {
            assert(contents.take(i + 1).drop_last() =~= contents.take(i as int));
            assert(contents.take(i + 1).last() == file_lines@[i as int]@);
        }
        match parse_line(file_lines[i].as_str(), order) {
            Ok(Some(entry)) => {
                let ghost before = output@;
                output.push(entry);
                assert(entry_views(output@) =~= entry_views(before).push(entry@));
                assert(entry_views(output@) =~= given + file_entries(
                    contents.take(i + 1),
                    order,
                )->Ok_0);
            },
            Ok(None) => {},
            Err(fault) => {
                proof {
                    line_fault_stays(contents, order, i + 1);
                }
                return Err(LoadError::Line { path: path.to_owned(), line_number: i + 1, fault });
            },
        }
        i += 1;
    }
    assert(contents.take(i as int) =~= contents);
    Ok(())
}

/// Makes a dictionary of one uncompressed dictionary text.
pub fn load_dictionary_text(text: &str, order: u8) -> (result: Result<Dictionary, LoadError>)
    ensures
        match result {
            Ok(dictionary) => {
                &&& file_entries(lines_of(text@), order) matches Ok(entries)
                &&& first_fault(
                    normalized_entries(entries),
                ) is None
                &&& entries.len() > 0
                &&& selects(
                    dictionary@,
                    normalized_entries(entries),
                )
            },
            Err(LoadError::Line { path, line_number, fault }) => path@ == "<dictionary>"@
                && file_entries(lines_of(text@), order) == Err::<
                Seq<EntryView>,
                _,
            >((line_number as nat, fault@)),
            Err(LoadError::Dictionary(DictionaryError::InvalidEntry(fault))) => {
                &&& file_entries(lines_of(text@), order) matches Ok(entries)
                &&& first_fault(
                    normalized_entries(entries),
                ) == Some(fault)
            },
            Err(LoadError::Dictionary(DictionaryError::NoEntries)) => file_entries(
                lines_of(text@),
                order,
            ) == Ok::<_, (nat, LineFaultView)>(Seq::<EntryView>::empty()),
            Err(_) => false,
        },
{
    let mut entries: Vec<DictionaryEntry> = Vec::new();
    assert(entry_views(entries@) =~= Seq::empty());
    match load_reader(text, "<dictionary>", order, &mut entries) {
        Err(error) => Err(error),
        Ok(()) => {
            assert(entry_views(entries@) =~= file_entries(lines_of(text@), order)->Ok_0);
            let ghost views = entry_views(entries@);
            match Dictionary::from_entries(entries) {
                Ok(dictionary) => Ok(dictionary),
                Err(error) => {
                    assert(error == DictionaryError::NoEntries ==> views =~= Seq::<
                        EntryView,
                    >::empty());
                    Err(LoadError::Dictionary(error))
                },
            }
        },
    }
}

/// A file that a path leads to: the path and the name of the file, if that is a text.
#[derive(Clone, Debug, PartialEq, Eq)]
pub struct NamedFile {
    pub path: String,
    pub name: Option<String>,
}

#[verifier::ext_equal]
pub struct NamedView {
    pub path: Seq<char>,
    pub name: Option<Seq<char>>,
}

impl View for NamedFile {
    type V = NamedView;

    open spec fn view(&self) -> NamedView {
        NamedView {
            path: self.path@,
            name: match self.name {
                Some(name) => Some(name@),
                None => None,
            },
        }
    }
}

/// What is found at a path: a directory with files in it, a file, or nothing.
#[derive(Clone, Debug, PartialEq, Eq)]
pub enum FoundPath {
    Directory(Vec<NamedFile>),
    File(NamedFile),
    Missing(String),
}

/// The file of a directory belongs to a dictionary.
pub open spec fn is_dictionary_file(file: NamedView) -> bool {
    match file.name {
        Some(name) => names_dictionary(name),
        None => false,
    }
}

/// The order of the entries of a file, or why it is not known.
pub open spec fn file_order(file: NamedView) -> Result<u8, bool> {
    match file.name {
        Some(name) => match named_order(name) {
            Some(order) => Ok(order),
            None => Err(true),
        },
        None => Err(false),
    }
}

/// The error says why the order of a file is not known.
pub open spec fn is_order_error(error: LoadError, file: NamedView) -> bool {
    match file_order(file) {
        Ok(_) => false,
        Err(named) => match error {
            LoadError::UnknownOrder { path } => named && path@ == file.path,
            LoadError::UnreadableName { path } => !named && path@ == file.path,
            _ => false,
        },
    }
}

fn order_of(file: &NamedFile) -> (result: Result<u8, LoadError>)
    ensures
        match result {
            Ok(order) => file_order(file@) == Ok::<_, bool>(order),
            Err(error) => is_order_error(error, file@),
        },
{
    match &file.name {
        Some(name) => match order_from_path(name.as_str()) {
            Some(order) => Ok(order),
            None => Err(LoadError::UnknownOrder { path: file.path.clone() }),
        },
        None => Err(LoadError::UnreadableName { path: file.path.clone() }),
    }
}

/// The files of a directory that belong to a dictionary.
pub open spec fn dictionary_files(files: Seq<NamedView>) -> Seq<NamedView>
    decreases files.len(),
{
    if files.len() == 0 {
        Seq::empty()
    } else if is_dictionary_file(files.last()) {
        dictionary_files(files.drop_last()).push(files.last())
    } else {
        dictionary_files(files.drop_last())
    }
}

/// What is found at a path can be taken: it exists, and a file that is named tells its order.
pub open spec fn can_be_taken(found: FoundPath) -> bool {
    match found {
        FoundPath::Directory(_) => true,
        FoundPath::File(file) => file_order(file@) is Ok,
        FoundPath::Missing(_) => false,
    }
}

/// The dictionary files at a path.
pub open spec fn files_at(found: FoundPath) -> Seq<NamedView> {
    match found {
        FoundPath::Directory(files) => dictionary_files(views(files@)),
        FoundPath::File(file) => seq![file@],
        FoundPath::Missing(_) => Seq::empty(),
    }
}

/// The dictionary files at the first `count` paths.
pub open spec fn files_found(paths: Seq<FoundPath>, count: int) -> Seq<NamedView>
    decreases count,
{
    if count <= 0 {
        Seq::empty()
    } else {
        files_found(paths, count - 1) + files_at(paths[count - 1])
    }
}

fn add_dictionary_files(files: Vec<NamedFile>, list: &mut Vec<NamedFile>)
    ensures
        views(final(list)@) == views(old(list)@) + dictionary_files(views(files@)),
{
    let ghost all = views(files@);
    let ghost given = views(list@);
    assert(given + dictionary_files(all.take(0)) =~= given);
    for file in it: files
        invariant
            views(it.seq()) == all,
            views(list@) == given + dictionary_files(all.take(it.index())),
    {
        let ghost done = it.index();
        proof {
            assert(all[done] == file@);
            assert(all.take(done + 1).drop_last() =~= all.take(done));
        }
        let wanted = match &file.name {
            Some(name) => is_dictionary_filename(name.as_str()),
            None => false,
        };
        if wanted {
            proof {
                views_push(list@, file);
            }
            list.push(file);
            assert(views(list@) =~= given + dictionary_files(all.take(done + 1)));
        }
    }
    assert(all.take(all.len() as int) =~= all);
}

/// The path at this place cannot be taken, and all before it can.
pub open spec fn is_first_refused(paths: Seq<FoundPath>, place: int) -> bool {
    &&& 0 <= place < paths.len()
    &&& !can_be_taken(paths[place])
    &&& forall|i: int| 0 <= i < place ==> can_be_taken(#[trigger] paths[i])
}

/// The error says why the path cannot be taken.
pub open spec fn is_path_error(error: LoadError, found: FoundPath) -> bool {
    match found {
        FoundPath::Directory(_) => false,
        FoundPath::File(file) => is_order_error(error, file@),
        FoundPath::Missing(path) => match error {
            LoadError::MissingPath { path: shown } => shown@ == path@,
            _ => false,
        },
    }
}

/// The order of files by their paths. Files with one path are one group.
pub struct ByFilePath;

impl Ranking<NamedFile> for ByFilePath {
    open spec fn rank(left: NamedFile, right: NamedFile) -> Rank {
        path_rank(left.path@, right.path@)
    }

    proof fn rank_flip(left: NamedFile, right: NamedFile) {
        text_rank_flip(path_key(left.path@), path_key(right.path@));
    }

    proof fn rank_transitive(first: NamedFile, second: NamedFile, third: NamedFile) {
        text_laws(path_key(first.path@), path_key(second.path@), path_key(third.path@));
    }

    fn compare(left: &NamedFile, right: &NamedFile) -> (rank: Rank) {
        compare_paths(left.path.as_str(), right.path.as_str())
    }
}

impl Grouping<NamedFile> for ByFilePath {
    open spec fn same_group(left: NamedFile, right: NamedFile) -> bool {
        path_key(left.path@) == path_key(right.path@)
    }

    proof fn groups_are_reflexive(value: NamedFile) {
    }

    proof fn groups_stand_together(first: NamedFile, second: NamedFile, third: NamedFile) {
        text_rank_flip(path_key(first.path@), path_key(second.path@));
        text_rank_same(path_key(first.path@), path_key(second.path@));
    }

    fn alike(left: &NamedFile, right: &NamedFile) -> (alike: bool) {
        same_path(left.path.as_str(), right.path.as_str())
    }
}

/// The files chosen of those found: in the order of their paths, no path twice, and one for each
/// path that was found.
pub open spec fn are_chosen(files: Seq<NamedView>, found: Seq<NamedView>) -> bool {
    &&& forall|i: int, j: int|
        0 <= i < j < files.len() ==> path_rank(
            (#[trigger] files[i]).path,
            (#[trigger] files[j]).path,
        ) == Rank::Before
    &&& forall|i: int| 0 <= i < files.len() ==> found.contains(#[trigger] files[i])
    &&& forall|i: int|
        0 <= i < found.len() ==> holds_path(files, (#[trigger] found[i]).path)
}

/// One of the files has the path.
pub open spec fn holds_path(files: Seq<NamedView>, path: Seq<char>) -> bool {
    exists|i: int| 0 <= i < files.len() && path_key((#[trigger] files[i]).path) == path_key(path)
}

proof fn paths_are_apart(left: NamedFile, right: NamedFile)
    requires
        !ByFilePath::same_group(left, right),
        ByFilePath::rank(left, right) != Rank::After,
    ensures
        path_rank(left@.path, right@.path) == Rank::Before,
{
    text_rank_same(path_key(left.path@), path_key(right.path@));
}

proof fn path_is_held(firsts: Seq<NamedFile>, file: NamedFile)
    requires
        has_first::<NamedFile, ByFilePath>(firsts, file),
    ensures
        holds_path(views(firsts), file@.path),
        firsts.len() > 0,
{
    let p = choose|p: int|
        0 <= p < firsts.len() && ByFilePath::same_group(#[trigger] firsts[p], file)
            && ByFilePath::rank(firsts[p], file) != Rank::After;
    assert(views(firsts)[p] == firsts[p]@);
}

/// The first files of each path are chosen files.
proof fn firsts_are_chosen(firsts: Seq<NamedFile>, files: Seq<NamedFile>)
    requires
        holds_firsts::<NamedFile, ByFilePath>(firsts, files),
    ensures
        are_chosen(views(firsts), views(files)),
        files.len() > 0 ==> firsts.len() > 0,
{
    let chosen = views(firsts);
    let found = views(files);
    assert forall|i: int, j: int| 0 <= i < j < chosen.len() implies path_rank(
        (#[trigger] chosen[i]).path,
        (#[trigger] chosen[j]).path,
    ) == Rank::Before by {
        paths_are_apart(firsts[i], firsts[j]);
    }
    assert forall|i: int| 0 <= i < chosen.len() implies found.contains(#[trigger] chosen[i]) by {
        assert(files.contains(firsts[i]));
        let p = files.index_of(firsts[i]);
        assert(found[p] == chosen[i]);
    }
    assert forall|i: int| 0 <= i < found.len() implies holds_path(
        chosen,
        (#[trigger] found[i]).path,
    ) by {
        path_is_held(firsts, files[i]);
    }
    if files.len() > 0 {
        path_is_held(firsts, files[0]);
    }
}

/// Files with one path are the same file: each path is written in one way.
pub open spec fn written_in_one_way(files: Seq<NamedView>) -> bool {
    forall|i: int, j: int|
        0 <= i < files.len() && 0 <= j < files.len() && path_key(
            (#[trigger] files[i]).path,
        ) == path_key((#[trigger] files[j]).path) ==> files[i] == files[j]
}

proof fn files_found_hold(paths: Seq<FoundPath>, count: int, file: NamedView)
    requires
        0 <= count <= paths.len(),
    ensures
        files_found(paths, count).contains(file) <==> exists|i: int|
            0 <= i < count && files_at(#[trigger] paths[i]).contains(file),
    decreases count,
{
    if count > 0 {
        files_found_hold(paths, count - 1, file);
        let before = files_found(paths, count - 1);
        let added = files_at(paths[count - 1]);
        let all = files_found(paths, count);
        assert(all =~= before + added);
        if before.contains(file) {
            assert(all[before.index_of(file)] == file);
        }
        if added.contains(file) {
            assert(all[before.len() + added.index_of(file)] == file);
        }
        if all.contains(file) {
            let p = all.index_of(file);
            if p < before.len() {
                assert(before[p] == file);
            } else {
                assert(added[p - before.len()] == file);
            }
        }
    }
}

/// Paths that are all among others have no files but theirs.
proof fn among_other_paths(first: Seq<FoundPath>, second: Seq<FoundPath>)
    requires
        forall|found: FoundPath| #[trigger] first.contains(found) ==> second.contains(found),
    ensures
        forall|file: NamedView| #[trigger]
            files_found(first, first.len() as int).contains(file) ==> files_found(
                second,
                second.len() as int,
            ).contains(file),
{
    assert forall|file: NamedView| #[trigger]
        files_found(first, first.len() as int).contains(file) implies files_found(
        second,
        second.len() as int,
    ).contains(file) by {
        files_found_hold(first, first.len() as int, file);
        files_found_hold(second, second.len() as int, file);
        let i = choose|i: int| 0 <= i < first.len() && files_at(#[trigger] first[i]).contains(file);
        assert(first.contains(first[i]));
        let j = second.index_of(first[i]);
        assert(files_at(second[j]).contains(file));
    }
}

proof fn chosen_elsewhere(
    first: Seq<NamedView>,
    first_found: Seq<NamedView>,
    second: Seq<NamedView>,
    second_found: Seq<NamedView>,
    file: NamedView,
)
    requires
        are_chosen(first, first_found),
        are_chosen(second, second_found),
        written_in_one_way(second_found),
        forall|file: NamedView| #[trigger] first_found.contains(file) ==> second_found.contains(
            file,
        ),
        first.contains(file),
    ensures
        second.contains(file),
{
    let i = first.index_of(file);
    assert(first_found.contains(first[i]));
    let j = second_found.index_of(file);
    assert(second_found[j] == file);
    assert(holds_path(second, second_found[j].path));
    let k = choose|k: int|
        0 <= k < second.len() && path_key((#[trigger] second[k]).path) == path_key(file.path);
    assert(second_found.contains(second[k]));
    let l = second_found.index_of(second[k]);
    assert(second_found[l] == second_found[j]);
    assert(second[k] == file);
}

/// Which files are collected, and in what order, does not depend on the order in which the paths
/// are given, nor on how often each is given.
pub proof fn collecting_is_deterministic(
    first: Seq<NamedView>,
    first_paths: Seq<FoundPath>,
    second: Seq<NamedView>,
    second_paths: Seq<FoundPath>,
)
    requires
        are_chosen(first, files_found(first_paths, first_paths.len() as int)),
        are_chosen(second, files_found(second_paths, second_paths.len() as int)),
        written_in_one_way(files_found(first_paths, first_paths.len() as int)),
        forall|found: FoundPath| #[trigger]
            first_paths.contains(found) <==> second_paths.contains(found),
    ensures
        first == second,
{
    let left = files_found(first_paths, first_paths.len() as int);
    let right = files_found(second_paths, second_paths.len() as int);
    assert forall|found: FoundPath| #[trigger] second_paths.contains(found) implies
        first_paths.contains(found) by {}
    among_other_paths(first_paths, second_paths);
    among_other_paths(second_paths, first_paths);
    assert(written_in_one_way(right)) by {
        assert forall|i: int, j: int|
            0 <= i < right.len() && 0 <= j < right.len() && path_key(
                (#[trigger] right[i]).path,
            ) == path_key((#[trigger] right[j]).path) implies right[i] == right[j] by {
            assert(right.contains(right[i]) && right.contains(right[j]));
            assert(left.contains(right[i]) && left.contains(right[j]));
            let k = left.index_of(right[i]);
            let l = left.index_of(right[j]);
            assert(left[k] == left[l]);
        }
    }
    assert forall|file: NamedView|
        #![trigger first.contains(file)]
        #![trigger second.contains(file)]
        first.contains(file) <==> second.contains(file) by {
        if first.contains(file) {
            chosen_elsewhere(first, left, second, right, file);
        }
        if second.contains(file) {
            chosen_elsewhere(second, right, first, left, file);
        }
    }
    let precedes = |left: NamedView, right: NamedView|
        path_rank(left.path, right.path) == Rank::Before;
    assert forall|left: NamedView, right: NamedView| #[trigger] precedes(
        left,
        right,
    ) implies !precedes(right, left) by {
        text_rank_flip(path_key(left.path), path_key(right.path));
    }
    strictly_sorted_is_unique(first, second, precedes);
}

/// Collects dictionary files: those that are named, and those in directories whose names are
/// those of generated dictionaries. They come in the order of their paths, each path once.
pub fn collect_dictionary_files(paths: Vec<FoundPath>) -> (result: Result<
    Vec<NamedFile>,
    LoadError,
>)
    ensures
        match result {
            Ok(files) => {
                &&& forall|i: int| 0 <= i < paths@.len() ==> can_be_taken(#[trigger] paths@[i])
                &&& files@.len() > 0
                &&& are_chosen(views(files@), files_found(paths@, paths@.len() as int))
            },
            Err(LoadError::NoFiles) => {
                &&& forall|i: int| 0 <= i < paths@.len() ==> can_be_taken(#[trigger] paths@[i])
                &&& files_found(paths@, paths@.len() as int).len() == 0
            },
            Err(error) => exists|i: int| #[trigger]
                is_first_refused(paths@, i) && is_path_error(error, paths@[i]),
        },
{
    let ghost all = paths@;
    let mut files: Vec<NamedFile> = Vec::new();
    assert(views(files@) =~= files_found(all, 0));
    for found in it: paths
        invariant
            it.seq() == all,
            all == paths@,
            forall|i: int| 0 <= i < it.index() ==> can_be_taken(#[trigger] all[i]),
            views(files@) == files_found(all, it.index()),
    {
        let ghost done = it.index();
        assert(all[done] == found);
        match found {
            FoundPath::Directory(list) => {
                add_dictionary_files(list, &mut files);
            },
            FoundPath::File(file) => {
                match order_of(&file) {
                    Ok(_) => {},
                    Err(error) => {
                        assert(is_first_refused(all, done));
                        return Err(error);
                    },
                }
                let ghost before = views(files@);
                proof {
                    views_push(files@, file);
                }
                files.push(file);
                assert(views(files@) =~= before + files_at(found));
            },
            FoundPath::Missing(path) => {
                assert(is_first_refused(all, done));
                return Err(LoadError::MissingPath { path });
            },
        }
    }
    assert(views(files@).len() == files@.len());
    if files.len() == 0 {
        return Err(LoadError::NoFiles);
    }
    let chosen = first_of_groups::<NamedFile, ByFilePath>(files);
    proof {
        firsts_are_chosen(chosen@, files@);
    }
    Ok(chosen)
}

/// A dictionary file with its contents, not compressed.
#[derive(Clone, Debug, PartialEq, Eq)]
pub struct DictionaryFile {
    pub file: NamedFile,
    pub text: String,
}

impl Ranking<DictionaryFile> for ByFilePath {
    open spec fn rank(left: DictionaryFile, right: DictionaryFile) -> Rank {
        path_rank(left.file.path@, right.file.path@)
    }

    proof fn rank_flip(left: DictionaryFile, right: DictionaryFile) {
        text_rank_flip(path_key(left.file.path@), path_key(right.file.path@));
    }

    proof fn rank_transitive(
        first: DictionaryFile,
        second: DictionaryFile,
        third: DictionaryFile,
    ) {
        text_laws(
            path_key(first.file.path@),
            path_key(second.file.path@),
            path_key(third.file.path@),
        );
    }

    fn compare(left: &DictionaryFile, right: &DictionaryFile) -> (rank: Rank) {
        compare_paths(left.file.path.as_str(), right.file.path.as_str())
    }
}

impl Grouping<DictionaryFile> for ByFilePath {
    open spec fn same_group(left: DictionaryFile, right: DictionaryFile) -> bool {
        path_key(left.file.path@) == path_key(right.file.path@)
    }

    proof fn groups_are_reflexive(value: DictionaryFile) {
    }

    proof fn groups_stand_together(
        first: DictionaryFile,
        second: DictionaryFile,
        third: DictionaryFile,
    ) {
        text_rank_flip(path_key(first.file.path@), path_key(second.file.path@));
        text_rank_same(path_key(first.file.path@), path_key(second.file.path@));
    }

    fn alike(left: &DictionaryFile, right: &DictionaryFile) -> (alike: bool) {
        same_path(left.file.path.as_str(), right.file.path.as_str())
    }
}

/// The entries of a file.
pub open spec fn entries_in(file: DictionaryFile) -> Result<Seq<EntryView>, ()> {
    match file_order(file.file@) {
        Ok(order) => match file_entries(lines_of(file.text@), order) {
            Ok(entries) => Ok(entries),
            Err(_) => Err(()),
        },
        Err(_) => Err(()),
    }
}

/// The entries of the first `count` files.
pub open spec fn all_entries(files: Seq<DictionaryFile>, count: int) -> Seq<EntryView>
    decreases count,
{
    if count <= 0 {
        Seq::empty()
    } else {
        all_entries(files, count - 1) + entries_in(files[count - 1])->Ok_0
    }
}

/// The error says why a file has no entries.
pub open spec fn is_file_error(error: LoadError, file: DictionaryFile) -> bool {
    match file_order(file.file@) {
        Ok(order) => match error {
            LoadError::Line { path, line_number, fault } => path@ == file.file.path@
                && file_entries(lines_of(file.text@), order) == Err::<
                Seq<EntryView>,
                _,
            >((line_number as nat, fault@)),
            _ => false,
        },
        Err(_) => is_order_error(error, file.file@),
    }
}

/// The file at this place cannot be read, and all before it can.
pub open spec fn is_first_unread(files: Seq<DictionaryFile>, place: int) -> bool {
    &&& 0 <= place < files.len()
    &&& entries_in(files[place]) is Err
    &&& forall|i: int| 0 <= i < place ==> entries_in(#[trigger] files[i]) is Ok
}

/// What comes of loading files: a dictionary of all their entries, or the first thing that is
/// wrong with them.
pub open spec fn is_loaded(
    result: Result<Dictionary, LoadError>,
    files: Seq<DictionaryFile>,
) -> bool {
    match result {
        Ok(dictionary) => {
            &&& forall|i: int|
                0 <= i < files.len() ==> entries_in(#[trigger] files[i]) is Ok
            &&& is_made(Ok(dictionary), all_entries(files, files.len() as int))
        },
        Err(LoadError::Files { count, error }) => {
            &&& forall|i: int|
                0 <= i < files.len() ==> entries_in(#[trigger] files[i]) is Ok
            &&& count == files.len()
            &&& is_made(Err(error), all_entries(files, files.len() as int))
        },
        Err(error) => exists|i: int| #[trigger]
            is_first_unread(files, i) && is_file_error(error, files[i]),
    }
}

/// The files among the first `count` that belong to a dictionary by their names.
pub open spec fn shards_among(files: Seq<DictionaryFile>, count: int) -> Seq<DictionaryFile>
    decreases count,
{
    if count <= 0 {
        Seq::empty()
    } else if is_dictionary_file(files[count - 1].file@) {
        shards_among(files, count - 1).push(files[count - 1])
    } else {
        shards_among(files, count - 1)
    }
}

impl Dictionary {
    /// Makes a dictionary of the entries of files, in the order in which they are given.
    pub fn load_paths(files: &[DictionaryFile]) -> (result: Result<Dictionary, LoadError>)
        ensures
            is_loaded(result, files@),
    {
        let mut entries: Vec<DictionaryEntry> = Vec::new();
        let mut i: usize = 0;
        assert(entry_views(entries@) =~= all_entries(files@, 0));
        while i < files.len()
            invariant
                i <= files@.len(),
                forall|j: int| 0 <= j < i ==> entries_in(#[trigger] files@[j]) is Ok,
                entry_views(entries@) == all_entries(files@, i as int),
            decreases files@.len() - i,
        {
            let file = &files[i];
            let order = match order_of(&file.file) {
                Ok(order) => order,
                Err(error) => {
                    assert(is_first_unread(files@, i as int));
                    return Err(error);
                },
            };
            match load_reader(
                file.text.as_str(),
                file.file.path.as_str(),
                order,
                &mut entries,
            ) {
                Ok(()) => {},
                Err(error) => {
                    assert(is_first_unread(files@, i as int));
                    return Err(error);
                },
            }
            i += 1;
        }
        let ghost loaded = entry_views(entries@);
        match Dictionary::from_entries(entries) {
            Ok(dictionary) => Ok(dictionary),
            Err(error) => {
                assert(loaded.len() == all_entries(files@, files@.len() as int).len());
                Err(LoadError::Files { count: files.len(), error })
            },
        }
    }

    /// Makes a dictionary of the files of a directory that belong to one by their names, in the
    /// order of their paths.
    pub fn load_dir(files: Vec<DictionaryFile>) -> (result: Result<Dictionary, LoadError>)
        ensures
            match result {
                Err(LoadError::NoFiles) => shards_among(files@, files@.len() as int).len() == 0,
                _ => {
                    let shards = shards_among(files@, files@.len() as int);
                    &&& shards.len() > 0
                    &&& exists|sorted: Seq<DictionaryFile>| #[trigger]
                        holds_firsts::<DictionaryFile, ByFilePath>(sorted, shards) && is_loaded(
                            result,
                            sorted,
                        )
                },
            },
    {
        let ghost all = files@;
        let mut shards: Vec<DictionaryFile> = Vec::new();
        assert(shards@ =~= shards_among(all, 0));
        for file in it: files
            invariant
                it.seq() == all,
                shards@ == shards_among(all, it.index()),
        {
            assert(all[it.index()] == file);
            let belongs = match &file.file.name {
                Some(name) => is_dictionary_filename(name.as_str()),
                None => false,
            };
            if belongs {
                shards.push(file);
            }
        }
        if shards.len() == 0 {
            return Err(LoadError::NoFiles);
        }
        let sorted = first_of_groups::<DictionaryFile, ByFilePath>(shards);
        Dictionary::load_paths(&sorted)
    }
}

/// What is read of a file: its name and its contents.
pub open spec fn file_views(files: Seq<DictionaryFile>) -> Seq<(NamedView, Seq<char>)> {
    Seq::new(files.len(), |i: int| (files[i].file@, files[i].text@))
}

proof fn all_entries_hold(files: Seq<DictionaryFile>, count: int, entry: EntryView)
    requires
        0 <= count <= files.len(),
    ensures
        all_entries(files, count).contains(entry) <==> exists|i: int|
            0 <= i < count && entries_in(#[trigger] files[i])->Ok_0.contains(entry),
    decreases count,
{
    if count > 0 {
        all_entries_hold(files, count - 1, entry);
        let before = all_entries(files, count - 1);
        let added = entries_in(files[count - 1])->Ok_0;
        let all = all_entries(files, count);
        assert(all =~= before + added);
        if before.contains(entry) {
            assert(all[before.index_of(entry)] == entry);
        }
        if added.contains(entry) {
            assert(all[before.len() + added.index_of(entry)] == entry);
        }
        if all.contains(entry) {
            let p = all.index_of(entry);
            if p < before.len() {
                assert(before[p] == entry);
            } else {
                assert(added[p - before.len()] == entry);
            }
        }
    }
}

/// Files that are all among others have no entries but theirs, and can be read if those can.
proof fn among_other_files(first: Seq<DictionaryFile>, second: Seq<DictionaryFile>)
    requires
        forall|file: (NamedView, Seq<char>)| #[trigger]
            file_views(first).contains(file) ==> file_views(second).contains(file),
    ensures
        forall|entry: EntryView|
            all_entries(first, first.len() as int).contains(entry) ==> all_entries(
                second,
                second.len() as int,
            ).contains(entry),
        (forall|i: int| 0 <= i < second.len() ==> entries_in(#[trigger] second[i]) is Ok) ==> (
        forall|i: int| 0 <= i < first.len() ==> entries_in(#[trigger] first[i]) is Ok),
{
    let left = file_views(first);
    let right = file_views(second);
    assert forall|i: int| 0 <= i < first.len() implies exists|j: int|
        0 <= j < second.len() && entries_in(#[trigger] second[j]) == entries_in(
            #[trigger] first[i],
        ) by {
        assert(left[i] == (first[i].file@, first[i].text@));
        assert(left.contains(left[i]));
        assert(right.contains(left[i]));
        let j = right.index_of(left[i]);
        assert(right[j] == (second[j].file@, second[j].text@));
        assert(entries_in(second[j]) == entries_in(first[i]));
    }
    assert forall|entry: EntryView|
        all_entries(first, first.len() as int).contains(entry) implies all_entries(
        second,
        second.len() as int,
    ).contains(entry) by {
        all_entries_hold(first, first.len() as int, entry);
        all_entries_hold(second, second.len() as int, entry);
        let i = choose|i: int|
            0 <= i < first.len() && entries_in(#[trigger] first[i])->Ok_0.contains(entry);
        let j = choose|j: int|
            0 <= j < second.len() && entries_in(#[trigger] second[j]) == entries_in(first[i]);
        assert(entries_in(second[j])->Ok_0.contains(entry));
    }
}

/// Two loadings came to the same: the same dictionary, files without entries, entries with a
/// fault, or a file that cannot be read.
pub open spec fn loaded_the_same(
    first: Result<Dictionary, LoadError>,
    second: Result<Dictionary, LoadError>,
) -> bool {
    match first {
        Ok(left) => second is Ok && left@ == second->Ok_0@,
        Err(LoadError::Files { error: left, .. }) => match second {
            Err(LoadError::Files { error: right, .. }) => left is NoEntries <==> right is NoEntries,
            _ => false,
        },
        Err(_) => second is Err && !(second->Err_0 is Files),
    }
}

/// What comes of loading files does not depend on the order in which they are given, nor on how
/// often each is given. Where several are faulty, which one is found may.
pub proof fn loading_is_deterministic(
    first: Result<Dictionary, LoadError>,
    first_files: Seq<DictionaryFile>,
    second: Result<Dictionary, LoadError>,
    second_files: Seq<DictionaryFile>,
)
    requires
        is_loaded(first, first_files),
        is_loaded(second, second_files),
        forall|file: (NamedView, Seq<char>)| #[trigger]
            file_views(first_files).contains(file) <==> file_views(second_files).contains(file),
    ensures
        loaded_the_same(first, second),
{
    assert forall|file: (NamedView, Seq<char>)| #[trigger]
        file_views(second_files).contains(file) implies file_views(first_files).contains(file) by {}
    among_other_files(first_files, second_files);
    among_other_files(second_files, first_files);
    let left = all_entries(first_files, first_files.len() as int);
    let right = all_entries(second_files, second_files.len() as int);
    let left_made = made_of(first);
    let right_made = made_of(second);
    if left_made is Some && right_made is Some {
        making_is_deterministic(left_made->Some_0, left, right_made->Some_0, right);
    } else {
        if left_made is None {
            let i = choose|i: int| #[trigger]
                is_first_unread(first_files, i) && is_file_error(first->Err_0, first_files[i]);
            assert(entries_in(first_files[i]) is Err);
        }
        if right_made is None {
            let i = choose|i: int| #[trigger]
                is_first_unread(second_files, i) && is_file_error(second->Err_0, second_files[i]);
            assert(entries_in(second_files[i]) is Err);
        }
    }
}

/// What came of making the dictionary of the entries of files, where all files could be read.
spec fn made_of(result: Result<Dictionary, LoadError>) -> Option<
    Result<Dictionary, DictionaryError>,
> {
    match result {
        Ok(dictionary) => Some(Ok(dictionary)),
        Err(LoadError::Files { error, .. }) => Some(Err(error)),
        Err(_) => None,
    }
}

} // verus!
