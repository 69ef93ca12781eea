//! Compression of snapshots with zstd, and the text in bytes.

use crate::text::copied;
use vstd::prelude::*;
use vstd::utf8::{decode_utf8, encode_utf8, encode_utf8_decode_utf8, encode_utf8_valid_utf8, valid_utf8};

verus! {

/// The level at which snapshots are compressed, if the library has it.
pub const SHOT_ZSTD_COMPRESSION_LEVEL: i32 = 9;

/// What is said of bytes that are not UTF-8.
pub const NOT_UTF8: &'static str = "stream did not contain valid UTF-8";

/// What `zstd::stream::decode_all` makes of some bytes: the content of the zstd frames, or
/// the message of the error.
pub uninterp spec fn zstd_decoded(bytes: Seq<u8>) -> Result<Seq<u8>, Seq<char>>;

/// What `zstd::stream::encode_all` makes of some bytes at a level: a zstd frame, or the
/// message of the error.
pub uninterp spec fn zstd_encoded(bytes: Seq<u8>, level: i32) -> Result<Seq<u8>, Seq<char>>;

/// `zstd::stream::decode_all` decompresses a slice of bytes. It fails on bytes that
/// are not zstd frames. What it gives, and the message of its error, depend on the bytes
/// alone.
#[verifier::external_body]
fn decode_all(bytes: &[u8]) -> (r: Result<Vec<u8>, String>)
    ensures
        match r {
            Ok(content) => zstd_decoded(bytes@) == Ok::<Seq<u8>, Seq<char>>(content@),
            Err(message) => zstd_decoded(bytes@) == Err::<Seq<u8>, Seq<char>>(message@),
        },
{
    match zstd::stream::decode_all(bytes) {
        Ok(content) => Ok(content),
        Err(error) => Err(error.to_string()),
    }
}

/// `zstd::stream::encode_all` compresses a slice of bytes into a zstd frame at a
/// level of the accepted range. What it gives, and the message of its error, depend on the
/// bytes and the level alone, and decompressing the frame gives the bytes back.
#[verifier::external_body]
fn encode_all(bytes: &[u8], level: i32) -> (r: Result<Vec<u8>, String>)
    requires
        -131072 <= level <= 22,
    ensures
        match r {
            Ok(frame) => zstd_encoded(bytes@, level) == Ok::<Seq<u8>, Seq<char>>(frame@)
                && zstd_decoded(frame@) == Ok::<Seq<u8>, Seq<char>>(bytes@),
            Err(message) => zstd_encoded(bytes@, level) == Err::<Seq<u8>, Seq<char>>(message@),
        },
{
    match zstd::stream::encode_all(bytes, level) {
        Ok(frame) => Ok(frame),
        Err(error) => Err(error.to_string()),
    }
}

/// `zstd::compression_level_range` is the range of levels that the library accepts,
/// from the least (the negative of the greatest block size) to the greatest.
#[verifier::external_body]
fn level_range() -> (r: (i32, i32))
    ensures
        r == (-131072i32, 22i32),
{
    let range = zstd::compression_level_range();
    (*range.start(), *range.end())
}

/// `String::from_utf8` of the standard library reads bytes as UTF-8. It succeeds on
/// the bytes that are valid UTF-8.
#[verifier::external_body]
fn string_from_utf8(bytes: Vec<u8>) -> (r: Option<String>)
    ensures
        match r {
            Some(text) => valid_utf8(bytes@) && text@ == decode_utf8(bytes@),
            None => !valid_utf8(bytes@),
        },
{
    String::from_utf8(bytes).ok()
}

/// A level brought into a range.
pub open spec fn clamped_level(level: i32, least: i32, greatest: i32) -> i32 {
    if level < least {
        least
    } else if level > greatest {
        greatest
    } else {
        level
    }
}

/// A level brought into a range.
pub fn clamp_level(level: i32, least: i32, greatest: i32) -> (r: i32)
    requires
        least <= greatest,
    ensures
        r == clamped_level(level, least, greatest),
        least <= r <= greatest,
{
    if level < least {
        least
    } else if level > greatest {
        greatest
    } else {
        level
    }
}

/// The level at which snapshots are compressed.
pub fn snapshot_compression_level() -> (r: i32)
    ensures
        r == SHOT_ZSTD_COMPRESSION_LEVEL,
{
    let (least, greatest) = level_range();
    clamp_level(SHOT_ZSTD_COMPRESSION_LEVEL, least, greatest)
}

/// The text in some bytes, or what is said of bytes that are not UTF-8.
pub open spec fn text_of_bytes(bytes: Seq<u8>) -> Result<Seq<char>, Seq<char>> {
    if valid_utf8(bytes) {
        Ok(decode_utf8(bytes))
    } else {
        Err(NOT_UTF8@)
    }
}

/// The text in the bytes of a snapshot file, or why there is none.
pub open spec fn text_in(bytes: Seq<u8>, compressed: bool) -> Result<Seq<char>, Seq<char>> {
    if compressed {
        match zstd_decoded(bytes) {
            Ok(content) => text_of_bytes(content),
            Err(message) => Err(message),
        }
    } else {
        text_of_bytes(bytes)
    }
}

/// The text in some bytes.
fn read_utf8(bytes: Vec<u8>) -> (r: Result<String, String>)
    ensures
        match r {
            Ok(text) => text_of_bytes(bytes@) == Ok::<Seq<char>, Seq<char>>(text@),
            Err(message) => text_of_bytes(bytes@) == Err::<Seq<char>, Seq<char>>(message@),
        },
{
    match string_from_utf8(bytes) {
        Some(text) => Ok(text),
        None => Err(copied(NOT_UTF8)),
    }
}

/// The text in the bytes of a snapshot file, or why there is none.
pub fn read_text(bytes: Vec<u8>, compressed: bool) -> (r: Result<String, String>)
    ensures
        match r {
            Ok(text) => text_in(bytes@, compressed) == Ok::<Seq<char>, Seq<char>>(text@),
            Err(message) => text_in(bytes@, compressed) == Err::<Seq<char>, Seq<char>>(message@),
        },
{
    if compressed {
        match decode_all(bytes.as_slice()) {
            Ok(content) => read_utf8(content),
            Err(message) => Err(message),
        }
    } else {
        read_utf8(bytes)
    }
}

/// The bytes of an export, compressed for keeping, or why they could not be.
pub fn compress_snapshot(bytes: &[u8]) -> (r: Result<Vec<u8>, String>)
    ensures
        match r {
            Ok(frame) => zstd_encoded(bytes@, SHOT_ZSTD_COMPRESSION_LEVEL) == Ok::<
                Seq<u8>,
                Seq<char>,
            >(frame@) && zstd_decoded(frame@) == Ok::<Seq<u8>, Seq<char>>(bytes@),
            Err(message) => zstd_encoded(bytes@, SHOT_ZSTD_COMPRESSION_LEVEL) == Err::<
                Seq<u8>,
                Seq<char>,
            >(message@),
        },
        // A compressed snapshot reads as the export that was compressed.
        r matches Ok(frame) ==> text_in(frame@, true) == text_in(bytes@, false),
{
    encode_all(bytes, snapshot_compression_level())
}

/// A level in the range stays as it is, and any other becomes the end of the range that is
/// nearest to it.
pub proof fn law_levels_are_brought_into_range(level: i32, least: i32, greatest: i32, other: i32)
    requires
        least <= greatest,
        least <= other <= greatest,
    ensures
        ({
            let r = clamped_level(level, least, greatest);
            let near = if level < r { r - level } else { level - r };
            let far = if level < other { other - level } else { level - other };
            least <= r <= greatest && near <= far
        }),
{
}

/// The bytes of a text are read as that text.
pub proof fn law_texts_are_read_back(text: Seq<char>)
    ensures
        text_in(encode_utf8(text), false) == Ok::<Seq<char>, Seq<char>>(text),
{
    encode_utf8_valid_utf8(text);
    encode_utf8_decode_utf8(text);
}

} // verus!
