//! SHA-256 digests of the files of a release, and the list of them.

use crate::order::{compare_text, text_laws, text_rank, text_rank_flip, Rank, Ranking};
use crate::views::views;
use sha2::Digest;
use vstd::prelude::*;

verus! {

/// The SHA-256 digest of the bytes.
pub uninterp spec fn sha256_of(bytes: Seq<u8>) -> Seq<u8>;

/// `sha2::Sha256::digest`: the digest is a function of the bytes alone, and has 32 bytes.
#[verifier::external_body]
fn sha256(bytes: &[u8]) -> (digest: Vec<u8>)
    ensures
        digest@ == sha256_of(bytes@),
        digest@.len() == 32,
{
    sha2::Sha256::digest(bytes).to_vec()
}

/// A hexadecimal digit, in lower case.
pub open spec fn hex_digit(value: int) -> char {
    if value < 10 {
        (48 + value) as char
    } else {
        (87 + value) as char
    }
}

/// The bytes in hexadecimal notation, two digits each.
pub open spec fn hex_of(bytes: Seq<u8>) -> Seq<char>
    decreases bytes.len(),
{
    if bytes.len() == 0 {
        Seq::empty()
    } else {
        hex_of(bytes.drop_last()).push(hex_digit(bytes.last() as int / 16)).push(
            hex_digit(bytes.last() as int % 16),
        )
    }
}

/// Two digits for each byte.
pub proof fn hex_length(bytes: Seq<u8>)
    ensures
        hex_of(bytes).len() == 2 * bytes.len(),
    decreases bytes.len(),
{
    if bytes.len() > 0 {
        hex_length(bytes.drop_last());
    }
}

fn digit(value: u8) -> (digit: char)
    requires
        value < 16,
    ensures
        digit == hex_digit(value as int),
{
    if value < 10 {
        (48 + value) as char
    } else {
        (87 + value) as char
    }
}

/// Writes the bytes in hexadecimal notation.
pub fn hex(bytes: &[u8]) -> (text: String)
    ensures
        text@ == hex_of(bytes@),
{
    let mut text = String::new();
    let mut i: usize = 0;
    assert(bytes@.take(0) =~= Seq::empty());
    while i < bytes.len()
        invariant
            i <= bytes@.len(),
            text@ == hex_of(bytes@.take(i as int)),
        decreases bytes@.len() - i,
    {
        assert(bytes@.take(i + 1).drop_last() =~= bytes@.take(i as int));
        let byte = bytes[i];
        text.push(digit(byte / 16));
        text.push(digit(byte % 16));
        i += 1;
    }
    assert(bytes@.take(i as int) =~= bytes@);
    text
}

/// The SHA-256 digest of the bytes, in hexadecimal notation.
pub fn sha256_hex(bytes: &[u8]) -> (text: String)
    ensures
        text@ == hex_of(sha256_of(bytes@)),
        text@.len() == 64,
{
    let digest = sha256(bytes);
    proof {
        hex_length(digest@);
    }
    hex(&digest)
}

/// A file of a release: its name, what it is, and its size and digest.
#[derive(Clone, Debug, PartialEq, Eq)]
pub struct Asset {
    pub name: String,
    pub kind: String,
    pub order: Option<u8>,
    pub entries: Option<u64>,
    pub bytes: u64,
    pub sha256: String,
}

#[verifier::ext_equal]
pub struct AssetView {
    pub name: Seq<char>,
    pub kind: Seq<char>,
    pub order: Option<u8>,
    pub entries: Option<u64>,
    pub bytes: u64,
    pub sha256: Seq<char>,
}

impl View for Asset {
    type V = AssetView;

    open spec fn view(&self) -> AssetView {
        AssetView {
            name: self.name@,
            kind: self.kind@,
            order: self.order,
            entries: self.entries,
            bytes: self.bytes,
            sha256: self.sha256@,
        }
    }
}

/// Describes a file by its contents.
pub fn asset_for_file(
    name: &str,
    kind: &str,
    order: Option<u8>,
    entries: Option<u64>,
    contents: &[u8],
) -> (asset: Asset)
    ensures
        asset@ == (AssetView {
            name: name@,
            kind: kind@,
            order,
            entries,
            bytes: contents@.len() as u64,
            sha256: hex_of(sha256_of(contents@)),
        }),
{
    Asset {
        name: name.to_owned(),
        kind: kind.to_owned(),
        order,
        entries,
        bytes: contents.len() as u64,
        sha256: sha256_hex(contents),
    }
}

/// The order of files by name.
pub struct ByName;

impl Ranking<Asset> for ByName {
    open spec fn rank(left: Asset, right: Asset) -> Rank {
        text_rank(left.name@, right.name@)
    }

    proof fn rank_flip(left: Asset, right: Asset) {
        text_rank_flip(left.name@, right.name@);
    }

    proof fn rank_transitive(first: Asset, second: Asset, third: Asset) {
        text_laws(first.name@, second.name@, third.name@);
    }

    fn compare(left: &Asset, right: &Asset) -> (rank: Rank) {
        compare_text(left.name.as_str(), right.name.as_str())
    }
}

/// The list of digests: a line for each file, with its digest, two spaces and its name.
pub open spec fn checksum_lines(assets: Seq<AssetView>) -> Seq<char>
    decreases assets.len(),
{
    if assets.len() == 0 {
        Seq::empty()
    } else {
        let last = assets.last();
        checksum_lines(assets.drop_last()) + last.sha256 + "  "@ + last.name + "\n"@
    }
}

/// Writes the list of digests.
pub fn checksums(assets: &[Asset]) -> (text: String)
    ensures
        text@ == checksum_lines(views(assets@)),
{
    let ghost all = views(assets@);
    let mut text = String::new();
    let mut i: usize = 0;
    assert(all.take(0) =~= Seq::empty());
    while i < assets.len()
        invariant
            all == views(assets@),
            i <= assets@.len(),
            text@ == checksum_lines(all.take(i as int)),
        decreases assets@.len() - i,
    {
        proof {
            assert(all.take(i + 1).drop_last() =~= all.take(i as int));
            assert(all.take(i + 1).last() == assets@[i as int]@);
        }
        text.append(assets[i].sha256.as_str());
        text.append("  ");
        text.append(assets[i].name.as_str());
        text.append("\n");
        i += 1;
    }
    assert(all.take(i as int) =~= all);
    text
}

} // verus!
