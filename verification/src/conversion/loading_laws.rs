//! What dictionary files say, of their names and their lines.

use crate::conversion::dictionary::{entry_fault, EntryView};
use crate::conversion::loading::{
    file_entries, line_entry, named_order, names_dictionary, LineFaultView,
};
use crate::mozc::{decimal_reads_back, row_line, row_reads_back, rows_text, shard_name, RowView};
use crate::ngram::pipeline::token_file_name;
use crate::ngram::release::order_text;
use crate::text::{
    begins_with, decimal_of, finishes_with, occurs_at, occurs_in, split_on, zero_padded,
};
use vstd::prelude::*;

verus! {

proof fn occurring_is_literal(text: Seq<char>, part: Seq<char>)
    ensures
        occurs_in(text, part) <==> exists|before: Seq<char>, behind: Seq<char>|
            #![trigger before + part + behind]
            text == before + part + behind,
        begins_with(text, part) <==> exists|behind: Seq<char>|
            #![trigger part + behind]
            text == part + behind,
        finishes_with(text, part) <==> exists|before: Seq<char>|
            #![trigger before + part]
            text == before + part,
{
    if occurs_in(text, part) {
        let start = choose|start: int| occurs_at(text, part, start);
        let before = text.take(start);
        let behind = text.skip(start + part.len());
        assert(text =~= before + part + behind);
    }
    if exists|before: Seq<char>, behind: Seq<char>|
        #![trigger before + part + behind]
        text == before + part + behind {
        let (before, behind) = choose|before: Seq<char>, behind: Seq<char>|
            #![trigger before + part + behind]
            text == before + part + behind;
        assert(text.subrange(before.len() as int, before.len() as int + part.len()) =~= part);
        assert(occurs_at(text, part, before.len() as int));
    }
    if begins_with(text, part) {
        assert(text =~= part + text.skip(part.len() as int));
    }
    if exists|behind: Seq<char>|
        #![trigger part + behind]
        text == part + behind {
        let behind = choose|behind: Seq<char>|
            #![trigger part + behind]
            text == part + behind;
        assert(text.subrange(0, part.len() as int) =~= part);
    }
    if finishes_with(text, part) {
        assert(text =~= text.take(text.len() - part.len()) + part);
    }
    if exists|before: Seq<char>|
        #![trigger before + part]
        text == before + part {
        let before = choose|before: Seq<char>|
            #![trigger before + part]
            text == before + part;
        assert(text.subrange(before.len() as int, text.len() as int) =~= part);
    }
}

/// The part stands somewhere in the text.
pub open spec fn holds(text: Seq<char>, part: Seq<char>) -> bool {
    exists|before: Seq<char>, behind: Seq<char>|
        #![trigger before + part + behind]
        text == before + part + behind
}

/// A file belongs to a dictionary where its name begins with `mozc-`, holds `-unigram-`,
/// `-bigram-` or `-trigram-`, and ends with `.txt` or `.txt.zst`.
pub proof fn names_tell_dictionaries(name: Seq<char>)
    ensures
        names_dictionary(name) <==> {
            &&& exists|rest: Seq<char>|
                #![trigger "mozc-"@ + rest]
                name == "mozc-"@ + rest
            &&& holds(name, "-unigram-"@) || holds(name, "-bigram-"@) || holds(name, "-trigram-"@)
            &&& (exists|stem: Seq<char>|
                #![trigger stem + ".txt"@]
                name == stem + ".txt"@) || (exists|stem: Seq<char>|
                #![trigger stem + ".txt.zst"@]
                name == stem + ".txt.zst"@)
        },
{
    occurring_is_literal(name, "mozc-"@);
    occurring_is_literal(name, "-unigram-"@);
    occurring_is_literal(name, "-bigram-"@);
    occurring_is_literal(name, "-trigram-"@);
    occurring_is_literal(name, ".txt"@);
    occurring_is_literal(name, ".txt.zst"@);
}

/// The order is one where the name holds `unigram`, or else two where it holds `bigram`, or else
/// three where it holds `trigram`, and is not told otherwise.
pub proof fn names_tell_orders(name: Seq<char>)
    ensures
        named_order(name) == if holds(name, "unigram"@) {
            Some(1u8)
        } else if holds(name, "bigram"@) {
            Some(2u8)
        } else if holds(name, "trigram"@) {
            Some(3u8)
        } else {
            None
        },
{
    occurring_is_literal(name, "unigram"@);
    occurring_is_literal(name, "bigram"@);
    occurring_is_literal(name, "trigram"@);
}

/// A line of five columns with tabs between them is an entry: the reading, the left and the right
/// context, the cost and the surface, in this order. The order of the entry is that of its file.
pub proof fn columns_are_read(
    reading: Seq<char>,
    left_id: u16,
    right_id: u16,
    cost: i32,
    surface: Seq<char>,
    order: u8,
)
    requires
        reading.len() > 0,
        reading[0] != '#',
        surface.len() > 0,
        cost >= 0,
        1 <= order <= 3,
        forall|i: int|
            0 <= i < reading.len() ==> !((#[trigger] reading[i]) <= '\u{1F}' || '\u{7F}'
                <= reading[i] <= '\u{9F}'),
        forall|i: int|
            0 <= i < surface.len() ==> !((#[trigger] surface[i]) <= '\u{1F}' || '\u{7F}'
                <= surface[i] <= '\u{9F}'),
    ensures
        line_entry(
            reading + "\t"@ + decimal_of(left_id as nat) + "\t"@ + decimal_of(right_id as nat)
                + "\t"@ + decimal_of(cost as nat) + "\t"@ + surface,
            order,
        ) == Ok::<Option<EntryView>, LineFaultView>(
            Some(EntryView { reading, surface, left_id, right_id, cost, order }),
        ),
{
    let row = RowView { reading, left_id, right_id, cost: cost as int, surface };
    let entry = EntryView { reading, surface, left_id, right_id, cost, order };
    crate::ngram::laws::controls_are_literal(reading);
    crate::ngram::laws::controls_are_literal(surface);
    assert(entry_fault(entry) is None);
    row_reads_back(row, order);
    rows_have_columns(row);
}

/// The columns of a row are the reading, the left and the right context, the cost and the surface,
/// with tabs between them.
pub proof fn rows_have_columns(row: RowView)
    requires
        row.cost >= 0,
    ensures
        row_line(row) == row.reading + "\t"@ + decimal_of(row.left_id as nat) + "\t"@ + decimal_of(
            row.right_id as nat,
        ) + "\t"@ + decimal_of(row.cost as nat) + "\t"@ + row.surface,
{
    reveal_strlit("\t");
    assert("\t"@ =~= seq!['\t']);
    assert(row_line(row) =~= row.reading + "\t"@ + decimal_of(row.left_id as nat) + "\t"@
        + decimal_of(row.right_id as nat) + "\t"@ + decimal_of(row.cost as nat) + "\t"@
        + row.surface);
}

/// An empty line, and one that begins with `#`, says nothing. Any other has five columns or a
/// fault.
pub proof fn lines_have_five_columns(line: Seq<char>, order: u8)
    ensures
        line.len() == 0 || line[0] == '#' ==> line_entry(line, order) == Ok::<
            Option<EntryView>,
            LineFaultView,
        >(None),
        line.len() > 0 && line[0] != '#' && split_on(line, '\t').len() != 5 ==> line_entry(
            line,
            order,
        ) is Err,
        line.len() > 0 && line[0] != '#' ==> line_entry(line, order) != Ok::<
            Option<EntryView>,
            LineFaultView,
        >(None),
{
}

/// The entries of a file are those of its lines. The first line with a fault is the one that is
/// named.
pub proof fn files_hold_their_lines(lines: Seq<Seq<char>>, order: u8, entry: EntryView)
    ensures
        file_entries(lines, order) matches Ok(entries) ==> {
            &&& forall|i: int| 0 <= i < lines.len() ==> line_entry(#[trigger] lines[i], order) is Ok
            &&& entries.contains(entry) <==> exists|i: int|
                0 <= i < lines.len() && line_entry(#[trigger] lines[i], order) == Ok::<
                    Option<EntryView>,
                    LineFaultView,
                >(Some(entry))
        },
        file_entries(lines, order) matches Err((number, fault)) ==> {
            &&& 1 <= number <= lines.len()
            &&& line_entry(lines[number - 1], order) == Err::<Option<EntryView>, LineFaultView>(
                fault,
            )
            &&& forall|i: int|
                0 <= i < number - 1 ==> line_entry(#[trigger] lines[i], order) is Ok
        },
    decreases lines.len(),
{
    if lines.len() > 0 {
        let shorter = lines.drop_last();
        let last = lines.last();
        files_hold_their_lines(shorter, order, entry);
        assert(forall|i: int| 0 <= i < shorter.len() ==> shorter[i] == lines[i]);
        assert(lines[lines.len() - 1] == last);
        match file_entries(shorter, order) {
            Ok(before) => {
                if exists|i: int|
                    0 <= i < shorter.len() && line_entry(#[trigger] shorter[i], order) == Ok::<
                        Option<EntryView>,
                        LineFaultView,
                    >(Some(entry)) {
                    let i = choose|i: int|
                        0 <= i < shorter.len() && line_entry(#[trigger] shorter[i], order) == Ok::<
                            Option<EntryView>,
                            LineFaultView,
                        >(Some(entry));
                    assert(line_entry(lines[i], order) == Ok::<Option<EntryView>, LineFaultView>(
                        Some(entry),
                    ));
                }
                match line_entry(last, order) {
                    Ok(Some(added)) => {
                        let all = before.push(added);
                        assert(all[before.len() as int] == added);
                        if before.contains(entry) {
                            assert(all[before.index_of(entry)] == entry);
                        }
                        if all.contains(entry) && entry != added {
                            assert(before[all.index_of(entry)] == entry);
                        }
                    },
                    _ => {},
                }
            },
            Err(_) => {},
        }
    }
}

proof fn char_of_part(text: Seq<char>, part: Seq<char>, c: char)
    requires
        holds(text, part),
        part.len() > 0,
        part[0] == c,
    ensures
        text.contains(c),
{
    let (before, behind) = choose|before: Seq<char>, behind: Seq<char>|
        #![trigger before + part + behind]
        text == before + part + behind;
    assert(text[before.len() as int] == c);
}

proof fn parts_without(first: Seq<char>, second: Seq<char>, c: char)
    requires
        !first.contains(c),
        !second.contains(c),
    ensures
        !(first + second).contains(c),
{
    let all = first + second;
    assert forall|i: int| 0 <= i < all.len() implies all[i] != c by {
        if i < first.len() {
            assert(first.contains(first[i]));
        } else {
            assert(second.contains(second[i - first.len()]));
        }
    }
}

proof fn shard_name_without(middle: Seq<char>, part: nat, c: char)
    requires
        c == 'u' || c == 'b',
        !middle.contains(c),
    ensures
        !shard_name("mozc-"@ + middle, part).contains(c),
{
    let digits = zero_padded(decimal_of(part), 5);
    reveal_strlit("mozc-");
    reveal_strlit("-");
    reveal_strlit(".txt.zst");
    digits_are_digits(part);
    assert(!digits.contains(c)) by {
        assert forall|i: int| 0 <= i < digits.len() implies digits[i] != c by {}
    }
    assert(!"mozc-"@.contains(c)) by {
        assert forall|i: int| 0 <= i < "mozc-"@.len() implies "mozc-"@[i] != c by {}
    }
    assert(!"-"@.contains(c)) by {
        assert forall|i: int| 0 <= i < "-"@.len() implies "-"@[i] != c by {}
    }
    assert(!".txt.zst"@.contains(c)) by {
        assert forall|i: int| 0 <= i < ".txt.zst"@.len() implies ".txt.zst"@[i] != c by {}
    }
    parts_without("mozc-"@, middle, c);
    parts_without("mozc-"@ + middle, "-"@, c);
    parts_without("mozc-"@ + middle + "-"@, digits, c);
    parts_without("mozc-"@ + middle + "-"@ + digits, ".txt.zst"@, c);
}

proof fn shard_name_holds(middle: Seq<char>, part: nat)
    ensures
        holds(shard_name("mozc-"@ + middle, part), middle),
        holds(shard_name("mozc-"@ + middle, part), "-"@ + middle + "-"@),
        exists|rest: Seq<char>|
            #![trigger "mozc-"@ + rest]
            shard_name("mozc-"@ + middle, part) == "mozc-"@ + rest,
        exists|stem: Seq<char>|
            #![trigger stem + ".txt.zst"@]
            shard_name("mozc-"@ + middle, part) == stem + ".txt.zst"@,
{
    let name = shard_name("mozc-"@ + middle, part);
    let digits = zero_padded(decimal_of(part), 5);
    let rest = digits + ".txt.zst"@;
    reveal_strlit("mozc-");
    reveal_strlit("-");
    assert(name =~= "mozc-"@ + (middle + "-"@ + rest));
    assert(name =~= ("mozc-"@ + middle + "-"@ + digits) + ".txt.zst"@);
    assert(name =~= "mozc-"@.take(4) + ("-"@ + middle + "-"@) + rest);
    assert(name =~= "mozc-"@ + middle + ("-"@ + rest));
}

/// The converter takes the shards of a release for dictionary files, each of its own order.
pub proof fn shards_are_loaded_by_order(order: u8, part: nat)
    requires
        1 <= order <= 3,
    ensures
        names_dictionary(shard_name("mozc-"@ + order_text(order), part)),
        named_order(shard_name("mozc-"@ + order_text(order), part)) == Some(order),
{
    let middle = order_text(order);
    let name = shard_name("mozc-"@ + middle, part);
    shard_name_holds(middle, part);
    names_tell_dictionaries(name);
    names_tell_orders(name);
    order_names(order);
    if order != 1 {
        shard_name_without(middle, part, 'u');
        if holds(name, "unigram"@) {
            char_of_part(name, "unigram"@, 'u');
        }
    }
    if order == 3 {
        shard_name_without(middle, part, 'b');
        if holds(name, "bigram"@) {
            char_of_part(name, "bigram"@, 'b');
        }
    }
}

proof fn order_names(order: u8)
    requires
        1 <= order <= 3,
    ensures
        order == 1 ==> order_text(order) == "unigram"@,
        order == 2 ==> order_text(order) == "bigram"@,
        order == 3 ==> order_text(order) == "trigram"@,
        order != 1 ==> !order_text(order).contains('u'),
        order == 3 ==> !order_text(order).contains('b'),
        "unigram"@.len() > 0 && "unigram"@[0] == 'u',
        "bigram"@.len() > 0 && "bigram"@[0] == 'b',
        "-unigram-"@ == "-"@ + "unigram"@ + "-"@,
        "-bigram-"@ == "-"@ + "bigram"@ + "-"@,
        "-trigram-"@ == "-"@ + "trigram"@ + "-"@,
{
    reveal_strlit("-");
    reveal_strlit("unigram");
    reveal_strlit("bigram");
    reveal_strlit("trigram");
    reveal_strlit("-unigram-");
    reveal_strlit("-bigram-");
    reveal_strlit("-trigram-");
    assert("-unigram-"@ =~= "-"@ + "unigram"@ + "-"@);
    assert("-bigram-"@ =~= "-"@ + "bigram"@ + "-"@);
    assert("-trigram-"@ =~= "-"@ + "trigram"@ + "-"@);
    let text = order_text(order);
    assert forall|i: int| 0 <= i < text.len() implies (order != 1 ==> text[i] != 'u') && (order
        == 3 ==> text[i] != 'b') by {}
}

proof fn digits_are_digits(part: nat)
    ensures
        forall|i: int|
            0 <= i < zero_padded(decimal_of(part), 5).len() ==> '0' <= #[trigger] zero_padded(
                decimal_of(part),
                5,
            )[i] <= '9',
{
    decimal_reads_back(part);
    let digits = decimal_of(part);
    let padded = zero_padded(digits, 5);
    assert forall|i: int| 0 <= i < padded.len() implies '0' <= #[trigger] padded[i] <= '9' by {
        if digits.len() < 5 && i >= 5 - digits.len() {
            assert(padded[i] == digits[i - (5 - digits.len())]);
            assert(crate::text::is_digit(digits[i - (5 - digits.len())]));
        } else if digits.len() >= 5 {
            assert(crate::text::is_digit(digits[i]));
        }
    }
}

/// Each row stands on a line of its own, which ends with a line feed.
pub proof fn rows_stand_on_lines(rows: Seq<RowView>, row: RowView)
    ensures
        rows_text(rows.push(row)) == rows_text(rows) + row_line(row) + "\n"@,
        rows_text(Seq::<RowView>::empty()).len() == 0,
{
    reveal_strlit("\n");
    assert(rows.push(row).drop_last() =~= rows);
    assert(rows_text(rows.push(row)) =~= rows_text(rows) + row_line(row) + "\n"@);
}

/// The lines of an input are kept in a file with its number in five digits at least.
pub proof fn token_files_are_named(index: nat)
    ensures
        token_file_name(index) == "tokens-"@ + zero_padded(decimal_of(index), 5) + ".txt.zst"@,
{
}

} // verus!
