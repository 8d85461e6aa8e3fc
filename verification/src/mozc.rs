//! Rows of Mozc's system dictionary source, and the shards that they are written to.

use crate::conversion::dictionary::{entry_fault, EntryView};
use crate::conversion::loading::{context_id, file_entries, line_entry, LineFaultView};
use crate::text::{
    decimal, decimal_of, digits_value, has_control, is_control, is_digit, lines_of, padded_decimal,
    signed_decimal, signed_decimal_of, signed_value, split_on, without_return, zero_padded,
};
use crate::views::views;
use vstd::prelude::*;

verus! {

/// A row: reading, left and right context ID, cost and surface.
#[derive(Clone, Debug, PartialEq, Eq)]
pub struct MozcRow {
    pub reading: String,
    pub left_id: u16,
    pub right_id: u16,
    pub cost: i32,
    pub surface: String,
}

#[verifier::ext_equal]
pub struct RowView {
    pub reading: Seq<char>,
    pub left_id: u16,
    pub right_id: u16,
    pub cost: int,
    pub surface: Seq<char>,
}

impl View for MozcRow {
    type V = RowView;

    open spec fn view(&self) -> RowView {
        RowView {
            reading: self.reading@,
            left_id: self.left_id,
            right_id: self.right_id,
            cost: self.cost as int,
            surface: self.surface@,
        }
    }
}

/// The five columns of a row, with tabs between them.
pub open spec fn row_line(row: RowView) -> Seq<char> {
    row.reading.push('\t') + decimal_of(row.left_id as nat).push('\t') + decimal_of(
        row.right_id as nat,
    ).push('\t') + signed_decimal_of(row.cost).push('\t') + row.surface
}

/// The rows, each on a line.
pub open spec fn rows_text(rows: Seq<RowView>) -> Seq<char>
    decreases rows.len(),
{
    if rows.len() == 0 {
        Seq::empty()
    } else {
        rows_text(rows.drop_last()) + row_line(rows.last()).push('\n')
    }
}

/// Writes a row at the end of the text.
pub fn write_row(text: &mut String, row: &MozcRow)
    ensures
        final(text)@ == old(text)@ + row_line(row@).push('\n'),
{
    text.append(row.reading.as_str());
    text.push('\t');
    text.append(decimal(row.left_id as u128).as_str());
    text.push('\t');
    text.append(decimal(row.right_id as u128).as_str());
    text.push('\t');
    text.append(signed_decimal(row.cost).as_str());
    text.push('\t');
    text.append(row.surface.as_str());
    text.push('\n');
    assert(text@ =~= old(text)@ + row_line(row@).push('\n'));
}

/// A part of a dictionary: the name of its file, its text and the number of its rows.
#[derive(Clone, Debug, PartialEq, Eq)]
pub struct Shard {
    pub name: String,
    pub text: String,
    pub entries: u64,
}

/// The name of the file of a part.
pub open spec fn shard_name(prefix: Seq<char>, part: nat) -> Seq<char> {
    prefix + "-"@ + zero_padded(decimal_of(part), 5) + ".txt.zst"@
}

/// The rows of a part: `size` of them from where the parts before end, or those that are left.
pub open spec fn shard_rows<A>(rows: Seq<A>, size: nat, part: nat) -> Seq<A> {
    let start = part * size;
    if start + size <= rows.len() {
        rows.subrange(start as int, (start + size) as int)
    } else if start <= rows.len() {
        rows.subrange(start as int, rows.len() as int)
    } else {
        Seq::empty()
    }
}

/// The part of this number, nothing where the rows end before it.
pub fn shard_at(prefix: &str, rows: &[MozcRow], size: usize, part: usize) -> (shard: Option<Shard>)
    requires
        size > 0,
    ensures
        match shard {
            Some(shard) => {
                &&& part * size < rows@.len()
                &&& shard.name@ == shard_name(prefix@, part as nat)
                &&& shard.text@ == rows_text(shard_rows(views(rows@), size as nat, part as nat))
                &&& shard.entries == shard_rows(views(rows@), size as nat, part as nat).len()
            },
            None => part * size >= rows@.len(),
        },
{
    let length = rows.len();
    let start = match part.checked_mul(size) {
        Some(start) => start,
        None => {
            return None;
        },
    };
    if start >= length {
        return None;
    }
    let end = if size <= length - start {
        start + size
    } else {
        length
    };
    let ghost part_rows = shard_rows(views(rows@), size as nat, part as nat);
    assert(part_rows =~= views(rows@).subrange(start as int, end as int));
    let mut text = String::new();
    let mut i: usize = start;
    assert(part_rows.take(0) =~= Seq::empty());
    while i < end
        invariant
            start <= i <= end <= rows@.len(),
            part_rows == views(rows@).subrange(start as int, end as int),
            text@ == rows_text(part_rows.take(i - start)),
        decreases end - i,
    {
        proof {
            let next = part_rows.take(i - start + 1);
            assert(next.drop_last() =~= part_rows.take(i - start));
            assert(next.last() == rows@[i as int]@);
        }
        write_row(&mut text, &rows[i]);
        i += 1;
    }
    assert(part_rows.take(i - start) =~= part_rows);
    let mut name = prefix.to_owned();
    name.append("-");
    name.append(padded_decimal(part as u64, 5).as_str());
    name.append(".txt.zst");
    Some(Shard { name, text, entries: (end - start) as u64 })
}

/// All rows before the end of a part, from its shards.
pub open spec fn rows_up_to<A>(rows: Seq<A>, size: nat, parts: nat) -> Seq<A>
    decreases parts,
{
    if parts == 0 {
        Seq::empty()
    } else {
        rows_up_to(rows, size, (parts - 1) as nat) + shard_rows(rows, size, (parts - 1) as nat)
    }
}

/// The shards hold the rows in order: the first ones hold the first rows, and no row is lost or
/// stands twice.
pub proof fn shards_hold_rows<A>(rows: Seq<A>, size: nat, parts: nat)
    requires
        size > 0,
    ensures
        rows_up_to(rows, size, parts) == if parts * size <= rows.len() {
            rows.take((parts * size) as int)
        } else {
            rows
        },
    decreases parts,
{
    if parts == 0 {
        assert(rows_up_to(rows, size, parts) =~= rows.take(0));
    } else {
        let before = (parts - 1) as nat;
        shards_hold_rows(rows, size, before);
        assert(parts * size == before * size + size) by (nonlinear_arith)
            requires
                parts == before + 1,
        ;
        let start = before * size;
        if start + size <= rows.len() {
            assert(rows.take(start as int) + rows.subrange(start as int, (start + size) as int)
                =~= rows.take((start + size) as int));
        } else if start <= rows.len() {
            assert(rows.take(start as int) + rows.subrange(start as int, rows.len() as int)
                =~= rows);
        } else {
            assert(rows + Seq::empty() =~= rows);
        }
    }
}

/// Decimal notation starts with a digit and denotes its number.
pub proof fn decimal_reads_back(number: nat)
    ensures
        decimal_of(number).len() > 0,
        is_digit(decimal_of(number)[0]),
        digits_value(decimal_of(number)) == Some(number),
        forall|i: int| 0 <= i < decimal_of(number).len() ==> is_digit(#[trigger] decimal_of(number)[i]),
    decreases number,
{
    let digits = decimal_of(number);
    if number >= 10 {
        decimal_reads_back(number / 10);
        assert(digits.drop_last() =~= decimal_of(number / 10));
        assert(digits[0] == decimal_of(number / 10)[0]);
        assert forall|i: int| 0 <= i < digits.len() implies is_digit(#[trigger] digits[i]) by {
            if i < digits.len() - 1 {
                assert(digits[i] == decimal_of(number / 10)[i]);
            }
        }
    }
}

/// Splitting gives back a part that was put behind a separator.
pub(crate) proof fn split_behind(text: Seq<char>, part: Seq<char>, separator: char)
    requires
        !part.contains(separator),
    ensures
        split_on(text.push(separator) + part, separator) == split_on(text, separator).push(part),
    decreases part.len(),
{
    let whole = text.push(separator) + part;
    if part.len() == 0 {
        assert(whole =~= text.push(separator));
        assert(whole.drop_last() =~= text);
        assert(part =~= Seq::empty());
    } else {
        let shorter = part.drop_last();
        assert forall|i: int| 0 <= i < shorter.len() implies shorter[i] != separator by {
            assert(part.contains(part[i]));
        }
        split_behind(text, shorter, separator);
        assert(whole.drop_last() =~= text.push(separator) + shorter);
        assert(part.contains(part.last()));
        assert(whole.last() == part.last());
        let before = split_on(text, separator).push(shorter);
        assert(before.drop_last() =~= split_on(text, separator));
        assert(shorter.push(part.last()) =~= part);
    }
}

/// A text without the separator is one part.
pub(crate) proof fn split_single(part: Seq<char>, separator: char)
    requires
        !part.contains(separator),
    ensures
        split_on(part, separator) == seq![part],
    decreases part.len(),
{
    if part.len() > 0 {
        let shorter = part.drop_last();
        assert forall|i: int| 0 <= i < shorter.len() implies shorter[i] != separator by {
            assert(part.contains(part[i]));
        }
        split_single(shorter, separator);
        assert(part.contains(part.last()));
        assert(seq![shorter].drop_last() =~= Seq::empty());
        assert(shorter.push(part.last()) =~= part);
        assert(split_on(part, separator) =~= seq![part]);
    }
}

/// A row that the converter can load: it is not taken for a comment, and its entry has no fault.
pub open spec fn is_loadable(row: RowView, order: u8) -> bool {
    &&& row.reading.len() > 0 && row.reading[0] != '#'
    &&& i32::MIN <= row.cost <= i32::MAX
    &&& entry_fault(row_entry(row, order)) is None
}

/// The entry that a row stands for.
pub open spec fn row_entry(row: RowView, order: u8) -> EntryView {
    EntryView {
        reading: row.reading,
        surface: row.surface,
        left_id: row.left_id,
        right_id: row.right_id,
        cost: row.cost as i32,
        order,
    }
}

proof fn no_control_inside(text: Seq<char>, c: char)
    requires
        !has_control(text),
        is_control(c),
    ensures
        !text.contains(c),
{
    assert forall|i: int| 0 <= i < text.len() implies text[i] != c by {}
}

/// The converter reads back what was written of a row.
pub proof fn row_reads_back(row: RowView, order: u8)
    requires
        is_loadable(row, order),
    ensures
        line_entry(row_line(row), order) == Ok::<_, LineFaultView>(Some(row_entry(row, order))),
{
    let left = decimal_of(row.left_id as nat);
    let right = decimal_of(row.right_id as nat);
    let cost = signed_decimal_of(row.cost);
    decimal_reads_back(row.left_id as nat);
    decimal_reads_back(row.right_id as nat);
    decimal_reads_back(row.cost as nat);
    no_control_inside(row.reading, '\t');
    no_control_inside(row.surface, '\t');
    let first = row.reading;
    let second = first.push('\t') + left;
    let third = second.push('\t') + right;
    let fourth = third.push('\t') + cost;
    let line = fourth.push('\t') + row.surface;
    assert(row_line(row) =~= line);
    split_single(first, '\t');
    split_behind(first, left, '\t');
    split_behind(second, right, '\t');
    split_behind(third, cost, '\t');
    split_behind(fourth, row.surface, '\t');
    assert(split_on(line, '\t') =~= seq![first, left, right, cost, row.surface]);
    assert(line[0] == row.reading[0]);
    assert(context_id(left) == Some(row.left_id));
    assert(context_id(right) == Some(row.right_id));
    assert(signed_value(cost) == Some(row.cost));
}

/// The lines of rows are their lines.
proof fn rows_have_lines(rows: Seq<RowView>, order: u8)
    requires
        forall|i: int| 0 <= i < rows.len() ==> is_loadable(#[trigger] rows[i], order),
    ensures
        split_on(rows_text(rows), '\n') == Seq::new(
            rows.len(),
            |i: int| row_line(rows[i]),
        ).push(Seq::empty()),
    decreases rows.len(),
{
    let lines = Seq::new(rows.len(), |i: int| row_line(rows[i]));
    if rows.len() == 0 {
        assert(split_on(rows_text(rows), '\n') =~= lines.push(Seq::empty()));
    } else {
        let shorter = rows.drop_last();
        assert forall|i: int| 0 <= i < shorter.len() implies is_loadable(
            #[trigger] shorter[i],
            order,
        ) by {
            assert(shorter[i] == rows[i]);
        }
        rows_have_lines(shorter, order);
        let before = rows_text(shorter);
        let line = row_line(rows.last());
        assert(rows[rows.len() - 1] == rows.last());
        line_has_no_break(rows.last(), order);
        let whole = rows_text(rows);
        assert(whole.drop_last() =~= before + line);
        split_further(before, line, '\n');
        let shorter_lines = Seq::new(shorter.len(), |i: int| row_line(shorter[i]));
        let parts = split_on(before, '\n');
        assert(parts.last() + line =~= line);
        assert(parts.drop_last() =~= shorter_lines);
        assert(split_on(whole, '\n') =~= lines.push(Seq::empty()));
    }
}

/// A text without the separator, put behind another text, lengthens its last part.
pub proof fn split_further(text: Seq<char>, part: Seq<char>, separator: char)
    requires
        !part.contains(separator),
    ensures
        split_on(text + part, separator) == split_on(text, separator).drop_last().push(
            split_on(text, separator).last() + part,
        ),
    decreases part.len(),
{
    crate::text::split_on_not_empty(text, separator);
    let parts = split_on(text, separator);
    if part.len() == 0 {
        assert(text + part =~= text);
        assert(parts.last() + part =~= parts.last());
        assert(parts =~= parts.drop_last().push(parts.last() + part));
    } else {
        let shorter = part.drop_last();
        assert forall|i: int| 0 <= i < shorter.len() implies shorter[i] != separator by {
            assert(part.contains(part[i]));
        }
        split_further(text, shorter, separator);
        let whole = text + part;
        assert(whole.drop_last() =~= text + shorter);
        assert(part.contains(part.last()));
        let before = parts.drop_last().push(parts.last() + shorter);
        assert(before.drop_last() =~= parts.drop_last());
        assert((parts.last() + shorter).push(part.last()) =~= parts.last() + part);
    }
}

/// The line of a row that can be loaded holds no line break and ends in no carriage return.
proof fn line_has_no_break(row: RowView, order: u8)
    requires
        is_loadable(row, order),
    ensures
        !row_line(row).contains('\n'),
        row_line(row).len() > 0,
        row_line(row).last() != '\r',
{
    let line = row_line(row);
    decimal_reads_back(row.left_id as nat);
    decimal_reads_back(row.right_id as nat);
    decimal_reads_back(row.cost as nat);
    no_control_inside(row.reading, '\n');
    no_control_inside(row.surface, '\n');
    no_control_inside(row.surface, '\r');
    let left = decimal_of(row.left_id as nat);
    let right = decimal_of(row.right_id as nat);
    let cost = signed_decimal_of(row.cost);
    assert forall|i: int| 0 <= i < line.len() implies line[i] != '\n' by {
        let a = row.reading.len() as int + 1;
        let b = a + left.len() + 1;
        let c = b + right.len() + 1;
        let d = c + cost.len() + 1;
        if i < a - 1 {
            assert(line[i] == row.reading[i]);
            assert(row.reading.contains(row.reading[i]));
        } else if i == a - 1 {
        } else if i < b - 1 {
            assert(line[i] == left[i - a]);
        } else if i == b - 1 {
        } else if i < c - 1 {
            assert(line[i] == right[i - b]);
        } else if i == c - 1 {
        } else if i < d - 1 {
            assert(line[i] == cost[i - c]);
        } else if i == d - 1 {
        } else {
            assert(line[i] == row.surface[i - d]);
            assert(row.surface.contains(row.surface[i - d]));
        }
    }
    assert(line.last() == row.surface.last());
    assert(row.surface.contains(row.surface.last()));
}

/// The entries of rows.
pub open spec fn row_entries(rows: Seq<RowView>, order: u8) -> Seq<EntryView> {
    Seq::new(rows.len(), |i: int| row_entry(rows[i], order))
}

proof fn lines_read_back(rows: Seq<RowView>, order: u8)
    requires
        forall|i: int| 0 <= i < rows.len() ==> is_loadable(#[trigger] rows[i], order),
    ensures
        file_entries(Seq::new(rows.len(), |i: int| row_line(rows[i])), order) == Ok::<
            _,
            (nat, LineFaultView),
        >(row_entries(rows, order)),
    decreases rows.len(),
{
    let lines = Seq::new(rows.len(), |i: int| row_line(rows[i]));
    if rows.len() > 0 {
        let shorter = rows.drop_last();
        assert forall|i: int| 0 <= i < shorter.len() implies is_loadable(
            #[trigger] shorter[i],
            order,
        ) by {
            assert(shorter[i] == rows[i]);
        }
        lines_read_back(shorter, order);
        assert(lines.drop_last() =~= Seq::new(shorter.len(), |i: int| row_line(shorter[i])));
        assert(rows[rows.len() - 1] == rows.last());
        row_reads_back(rows.last(), order);
        assert(row_entries(rows, order) =~= row_entries(shorter, order).push(
            row_entry(rows.last(), order),
        ));
    } else {
        assert(row_entries(rows, order) =~= Seq::empty());
    }
}

/// The converter loads from the text of rows the entries that they stand for, in order.
pub proof fn rows_read_back(rows: Seq<RowView>, order: u8)
    requires
        forall|i: int| 0 <= i < rows.len() ==> is_loadable(#[trigger] rows[i], order),
    ensures
        file_entries(lines_of(rows_text(rows)), order) == Ok::<_, (nat, LineFaultView)>(
            row_entries(rows, order),
        ),
{
    let lines = Seq::new(rows.len(), |i: int| row_line(rows[i]));
    rows_have_lines(rows, order);
    let parts = split_on(rows_text(rows), '\n');
    assert forall|i: int| 0 <= i < lines.len() implies #[trigger] without_return(lines[i])
        == lines[i] by {
        assert(is_loadable(rows[i], order));
        line_has_no_break(rows[i], order);
    }
    assert(lines_of(rows_text(rows)) =~= lines);
    lines_read_back(rows, order);
}

} // verus!
