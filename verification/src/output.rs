//! The files of a release, with what is recorded of each.

use crate::checksum::{
    asset_for_file, checksum_lines, checksums, hex_of, sha256_of, Asset, AssetView, ByName,
};
use crate::compression::{compress, zstd_contents, zstd_frame};
use crate::conversion::dictionary::EntryView;
use crate::conversion::loading::{file_entries, LineFaultView};
use crate::mozc::{
    is_loadable, row_entries, rows_read_back, rows_text, shard_at, shard_name, shard_rows, MozcRow,
    RowView, Shard,
};
use crate::order::{sort_by, sorted_by};
use crate::text::lines_of;
use crate::views::views;
use vstd::prelude::*;

verus! {

/// A file of a release: what is recorded of it, and its contents.
pub struct OutputFile {
    pub asset: Asset,
    pub contents: Vec<u8>,
}

/// The level at which the dictionaries are compressed.
pub const SHARD_LEVEL: i32 = 10;

/// What is recorded of a file with these contents.
pub open spec fn recorded(
    name: Seq<char>,
    kind: Seq<char>,
    order: Option<u8>,
    entries: Option<u64>,
    contents: Seq<u8>,
) -> AssetView {
    AssetView {
        name,
        kind,
        order,
        entries,
        bytes: contents.len() as u64,
        sha256: hex_of(sha256_of(contents)),
    }
}

/// A file that holds these contents and is recorded under this name.
pub open spec fn is_file(
    file: OutputFile,
    name: Seq<char>,
    kind: Seq<char>,
    contents: Seq<u8>,
) -> bool {
    file.contents@ == contents && file.asset@ == recorded(name, kind, None, None, contents)
}

/// A file of a release that is not a shard.
pub fn output_file(name: &str, kind: &str, contents: Vec<u8>) -> (file: OutputFile)
    ensures
        is_file(file, name@, kind@, contents@),
{
    let asset = asset_for_file(name, kind, None, None, &contents);
    OutputFile { asset, contents }
}

/// The text of the rows of a part, in bytes.
pub open spec fn shard_bytes(rows: Seq<RowView>, size: nat, part: nat) -> Seq<u8> {
    vstd::utf8::encode_utf8(rows_text(shard_rows(rows, size, part)))
}

/// The file of a part of a dictionary: its text, compressed.
pub open spec fn is_shard_file(
    file: OutputFile,
    prefix: Seq<char>,
    kind: Seq<char>,
    order: Option<u8>,
    rows: Seq<RowView>,
    size: nat,
    part: nat,
) -> bool {
    let text = shard_bytes(rows, size, part);
    &&& zstd_frame(text, SHARD_LEVEL as int) == Some(file.contents@)
    &&& zstd_contents(file.contents@) == Some(text)
    &&& file.asset@ == recorded(
        shard_name(prefix, part),
        kind,
        order,
        Some(shard_rows(rows, size, part).len() as u64),
        file.contents@,
    )
}

/// The number of parts of a dictionary.
pub open spec fn shard_count(length: nat, size: nat) -> nat {
    if size == 0 {
        0
    } else {
        ((length + size - 1) / size as int) as nat
    }
}

/// The compressor makes a frame of every part of a dictionary.
pub open spec fn can_be_packed(rows: Seq<RowView>, size: nat) -> bool {
    forall|part: nat|
        part < shard_count(rows.len(), size) ==> zstd_frame(
            #[trigger] shard_bytes(rows, size, part),
            SHARD_LEVEL as int,
        ) is Some
}

/// A part that starts before the last row is one of those that there should be.
proof fn part_is_counted(length: nat, size: nat, part: nat)
    requires
        size > 0,
        part * size < length,
    ensures
        part < shard_count(length, size),
{
    let sum = (length + size - 1) as int;
    let count = sum / size as int;
    vstd::arithmetic::div_mod::lemma_fundamental_div_mod(sum, size as int);
    vstd::arithmetic::div_mod::lemma_mod_bound(sum, size as int);
    vstd::arithmetic::div_mod::lemma_div_pos_is_pos(sum, size as int);
    assert(part < count) by (nonlinear_arith)
        requires
            part * size < length,
            sum == length + size - 1,
            sum == size * count + sum % size as int,
            0 <= sum % (size as int) < size,
    ;
}

/// Parts that hold all rows, but would not with one part less, are as many as there should be.
proof fn parts_are_counted(length: nat, size: nat, parts: nat)
    requires
        size > 0,
        parts * size >= length,
        parts > 0 ==> (parts - 1) * size < length,
    ensures
        parts == shard_count(length, size),
{
    let sum = (length + size - 1) as int;
    if parts == 0 {
        assert(length == 0) by (nonlinear_arith)
            requires
                parts == 0,
                parts * size >= length,
                length >= 0,
        ;
        vstd::arithmetic::div_mod::lemma_basic_div(sum, size as int);
    } else {
        let rest = sum - parts * size;
        assert(0 <= rest < size) by (nonlinear_arith)
            requires
                rest == length + size - 1 - parts * size,
                (parts - 1) * size < length,
                parts * size >= length,
                size > 0,
        ;
        vstd::arithmetic::div_mod::lemma_fundamental_div_mod_converse(
            sum,
            size as int,
            parts as int,
            rest,
        );
    }
}

/// Makes the file of a part from what the compressor made of its text. Nothing where it made
/// nothing.
pub fn shard_file(kind: &str, order: Option<u8>, shard: &Shard, frame: Option<Vec<u8>>) -> (file:
    Option<OutputFile>)
    ensures
        match frame {
            Some(frame) => {
                &&& file is Some
                &&& file->Some_0.contents@ == frame@
                &&& file->Some_0.asset@ == recorded(
                    shard.name@,
                    kind@,
                    order,
                    Some(shard.entries),
                    frame@,
                )
            },
            None => file is None,
        },
{
    match frame {
        Some(contents) => {
            let asset = asset_for_file(
                shard.name.as_str(),
                kind,
                order,
                Some(shard.entries),
                &contents,
            );
            Some(OutputFile { asset, contents })
        },
        None => None,
    }
}

/// Makes the files of a dictionary of `size` rows each. Nothing exactly where the compressor makes
/// no frame of a part. Without rows it is not called.
pub fn shard_files(
    prefix: &str,
    kind: &str,
    order: Option<u8>,
    rows: &[MozcRow],
    size: usize,
) -> (result: Option<Vec<OutputFile>>)
    requires
        size > 0,
    ensures
        result is Some <==> can_be_packed(views(rows@), size as nat),
        rows@.len() == 0 ==> result is Some,
        result matches Some(files) ==> files@.len() == shard_count(rows@.len(), size as nat),
        result matches Some(files) ==> forall|part: int|
            0 <= part < files@.len() ==> is_shard_file(
                #[trigger] files@[part],
                prefix@,
                kind@,
                order,
                views(rows@),
                size as nat,
                part as nat,
            ),
{
    let mut files: Vec<OutputFile> = Vec::new();
    let mut part: usize = 0;
    let length = rows.len();
    loop
        invariant
            size > 0,
            length == rows@.len(),
            part <= length,
            files@.len() == part,
            part > 0 ==> (part - 1) * size < length,
            forall|p: int|
                0 <= p < part ==> is_shard_file(
                    #[trigger] files@[p],
                    prefix@,
                    kind@,
                    order,
                    views(rows@),
                    size as nat,
                    p as nat,
                ),
        ensures
            part * size >= length,
        decreases length - part,
    {
        let shard = match shard_at(prefix, rows, size, part) {
            Some(shard) => shard,
            None => {
                break;
            },
        };
        assert(part < length) by (nonlinear_arith)
            requires
                part * size < length,
                size > 0,
                part >= 0,
        ;
        proof {
            part_is_counted(length as nat, size as nat, part as nat);
        }
        let frame = compress(shard.text.as_str().as_bytes(), SHARD_LEVEL);
        match shard_file(kind, order, &shard, frame) {
            Some(file) => files.push(file),
            None => {
                assert(zstd_frame(
                    shard_bytes(views(rows@), size as nat, part as nat),
                    SHARD_LEVEL as int,
                ) is None);
                return None;
            },
        }
        part += 1;
    }
    proof {
        parts_are_counted(length as nat, size as nat, part as nat);
        assert forall|p: nat| p < shard_count(rows@.len(), size as nat) implies zstd_frame(
            #[trigger] shard_bytes(views(rows@), size as nat, p),
            SHARD_LEVEL as int,
        ) is Some by {
            assert(is_shard_file(
                files@[p as int],
                prefix@,
                kind@,
                order,
                views(rows@),
                size as nat,
                p,
            ));
        }
    }
    Some(files)
}

/// A file that holds these contents, compressed, and is recorded with the number of its records.
pub open spec fn is_packed_file(
    file: OutputFile,
    name: Seq<char>,
    entries: u64,
    contents: Seq<u8>,
    level: int,
) -> bool {
    &&& zstd_frame(contents, level) == Some(file.contents@)
    &&& zstd_contents(file.contents@) == Some(contents)
    &&& file.asset@ == recorded(name, ""@, None, Some(entries), file.contents@)
}

/// Makes a file from what the compressor made of its contents. Nothing where it made nothing.
pub fn framed_file(name: &str, entries: u64, frame: Option<Vec<u8>>) -> (file: Option<OutputFile>)
    ensures
        match frame {
            Some(frame) => {
                &&& file is Some
                &&& file->Some_0.contents@ == frame@
                &&& file->Some_0.asset@ == recorded(name@, ""@, None, Some(entries), frame@)
            },
            None => file is None,
        },
{
    match frame {
        Some(contents) => {
            let asset = asset_for_file(name, "", None, Some(entries), &contents);
            Some(OutputFile { asset, contents })
        },
        None => None,
    }
}

/// Compresses the contents of a file. Nothing exactly where the compressor makes no frame of them.
pub fn packed_file(name: &str, entries: u64, contents: &[u8], level: i32) -> (result: Option<
    OutputFile,
>)
    requires
        1 <= level <= 19,
    ensures
        match result {
            Some(file) => is_packed_file(file, name@, entries, contents@, level as int),
            None => zstd_frame(contents@, level as int) is None,
        },
{
    framed_file(name, entries, compress(contents, level))
}

/// What the files of a release are recorded as.
pub fn assets_of(files: &[OutputFile]) -> (assets: Vec<Asset>)
    ensures
        assets@.len() == files@.len(),
        forall|i: int| 0 <= i < files@.len() ==> (#[trigger] assets@[i])@ == files@[i].asset@,
{
    let mut assets: Vec<Asset> = Vec::new();
    let mut i: usize = 0;
    while i < files.len()
        invariant
            i <= files@.len(),
            assets@.len() == i,
            forall|j: int| 0 <= j < i ==> (#[trigger] assets@[j])@ == files@[j].asset@,
        decreases files@.len() - i,
    {
        let asset = &files[i].asset;
        assets.push(
            Asset {
                name: asset.name.clone(),
                kind: asset.kind.clone(),
                order: asset.order,
                entries: asset.entries,
                bytes: asset.bytes,
                sha256: asset.sha256.clone(),
            },
        );
        i += 1;
    }
    assets
}

/// The converter reads back from the file of a part the entries of its rows: decompressed, the
/// file is a text with these entries on its lines.
pub proof fn shards_read_back(
    file: OutputFile,
    prefix: Seq<char>,
    kind: Seq<char>,
    order: Option<u8>,
    rows: Seq<RowView>,
    size: nat,
    part: nat,
    row_order: u8,
)
    requires
        size > 0,
        is_shard_file(file, prefix, kind, order, rows, size, part),
        forall|i: int| 0 <= i < rows.len() ==> is_loadable(#[trigger] rows[i], row_order),
    ensures
        zstd_contents(file.contents@) == Some(
            vstd::utf8::encode_utf8(rows_text(shard_rows(rows, size, part))),
        ),
        file_entries(lines_of(rows_text(shard_rows(rows, size, part))), row_order) == Ok::<
            Seq<EntryView>,
            (nat, LineFaultView),
        >(row_entries(shard_rows(rows, size, part), row_order)),
{
    let part_rows = shard_rows(rows, size, part);
    assert forall|i: int| 0 <= i < part_rows.len() implies is_loadable(
        #[trigger] part_rows[i],
        row_order,
    ) by {
        let start = part * size;
        assert(start >= 0) by (nonlinear_arith)
            requires
                start == part * size,
                part >= 0,
                size >= 0,
        ;
        assert(part_rows[i] == rows[start + i]);
    }
    rows_read_back(part_rows, row_order);
}

/// The name of a JSON file.
pub open spec fn json_file(stem: Seq<char>) -> Seq<char> {
    stem + ".json"@
}

/// The name of a JSON file.
pub fn json_name(stem: &str) -> (name: String)
    ensures
        name@ == json_file(stem@),
{
    let mut name = stem.to_owned();
    name.append(".json");
    name
}

/// Sorts what is recorded of files by their names.
pub fn sort_assets(assets: Vec<Asset>) -> (sorted: Vec<Asset>)
    ensures
        sorted_by::<Asset, ByName>(sorted@),
        sorted@.to_multiset() == assets@.to_multiset(),
{
    sort_by::<Asset, ByName>(assets)
}

/// The list of digests of a release, its manifest included, by name.
pub fn checksum_file(assets: Vec<Asset>, manifest: Asset) -> (result: (Vec<Asset>, String))
    ensures
        sorted_by::<Asset, ByName>(result.0@),
        result.0@.to_multiset() == assets@.push(manifest).to_multiset(),
        result.1@ == checksum_lines(views(result.0@)),
{
    let mut all = assets;
    all.push(manifest);
    let sorted = sort_assets(all);
    let text = checksums(&sorted);
    (sorted, text)
}

} // verus!
