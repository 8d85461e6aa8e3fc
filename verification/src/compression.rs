//! Compressed files.

use std::io::Read;
use vstd::prelude::*;

verus! {

/// The Zstandard frame of bytes, at a level of compression. Nothing where the compressor makes
/// none.
pub uninterp spec fn zstd_frame(bytes: Seq<u8>, level: int) -> Option<Seq<u8>>;

/// What Zstandard frames hold, nothing for bytes that are none.
pub uninterp spec fn zstd_contents(frames: Seq<u8>) -> Option<Seq<u8>>;

/// What the first member of a gzip file holds, nothing for bytes that are none.
pub uninterp spec fn gzip_contents(file: Seq<u8>) -> Option<Seq<u8>>;

/// `zstd::stream::encode_all`: one frame, made on one thread, which `zstd::stream::decode_all`
/// turns back into the bytes. The frame, or that the compressor reports an error, is a function of
/// the bytes and the level; that memory can run out is left aside.
#[verifier::external_body]
pub(crate) fn compress(bytes: &[u8], level: i32) -> (frame: Option<Vec<u8>>)
    requires
        1 <= level <= 19,
    ensures
        match frame {
            Some(frame) => zstd_frame(bytes@, level as int) == Some(frame@) && zstd_contents(
                frame@,
            ) == Some(bytes@),
            None => zstd_frame(bytes@, level as int) is None,
        },
{
    zstd::stream::encode_all(bytes, level).ok()
}

/// `zstd::stream::decode_all`: what the frames hold, or that they are none, is a function of their
/// bytes; that memory can run out is left aside.
#[verifier::external_body]
fn decompress(frames: &[u8]) -> (contents: Option<Vec<u8>>)
    ensures
        match contents {
            Some(contents) => zstd_contents(frames@) == Some(contents@),
            None => zstd_contents(frames@) is None,
        },
{
    zstd::stream::decode_all(frames).ok()
}

/// `flate2::read::GzDecoder`, read to its end: what the first member of the file holds, or that
/// there is none, is a function of the bytes; that memory can run out is left aside.
#[verifier::external_body]
fn gunzip(file: &[u8]) -> (contents: Option<Vec<u8>>)
    ensures
        match contents {
            Some(contents) => gzip_contents(file@) == Some(contents@),
            None => gzip_contents(file@) is None,
        },
{
    let mut contents = Vec::new();
    match flate2::read::GzDecoder::new(file).read_to_end(&mut contents) {
        Ok(_) => Some(contents),
        Err(_) => None,
    }
}

/// How a file is compressed.
#[derive(Clone, Copy, Debug, PartialEq, Eq, Structural)]
pub enum Compression {
    Plain,
    Zstd,
    Gzip,
}

/// What a file holds when it is not compressed, nothing where it cannot be decompressed.
pub open spec fn contents_of(file: Seq<u8>, compression: Compression) -> Option<Seq<u8>> {
    match compression {
        Compression::Plain => Some(file),
        Compression::Zstd => zstd_contents(file),
        Compression::Gzip => gzip_contents(file),
    }
}

/// Reads a file that may be compressed.
pub fn read_contents(file: Vec<u8>, compression: Compression) -> (contents: Option<Vec<u8>>)
    ensures
        match contents {
            Some(contents) => contents_of(file@, compression) == Some(contents@),
            None => contents_of(file@, compression) is None,
        },
{
    match compression {
        Compression::Plain => Some(file),
        Compression::Zstd => decompress(&file),
        Compression::Gzip => gunzip(&file),
    }
}

} // verus!
