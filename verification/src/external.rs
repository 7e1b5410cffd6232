//! The calls into other crates that the logic makes, and what the proofs take for granted of
//! them. Nothing in this file is proved.

use std::io::Read;
use std::io::Write;

use vstd::prelude::*;

use crate::layout;

verus! {

/// `std::io::Error`, carried through unread.
#[verifier::external_type_specification]
#[verifier::external_body]
pub struct ExIoError(std::io::Error);

/// The compact JSON text that `serde_json` writes for an object of string members with these
/// names and values.
pub uninterp spec fn json_object_text(members: Seq<(Seq<char>, Seq<char>)>) -> Seq<char>;

/// The names and values of string members, as character sequences.
pub open spec fn member_views(members: Seq<(String, String)>) -> Seq<(Seq<char>, Seq<char>)> {
    members.map_values(|m: (String, String)| (m.0@, m.1@))
}

/// Whether no two members have the same name.
pub open spec fn distinct_names(members: Seq<(Seq<char>, Seq<char>)>) -> bool {
    forall|i: int, j: int|
        0 <= i < j < members.len() ==> (#[trigger] members[i]).0 != (#[trigger] members[j]).0
}

/// Whether two lists of members have the same names, in the same order.
pub open spec fn same_names(
    a: Seq<(Seq<char>, Seq<char>)>,
    b: Seq<(Seq<char>, Seq<char>)>,
) -> bool {
    a.len() == b.len() && forall|i: int| 0 <= i < a.len() ==> (#[trigger] a[i]).0 == b[i].0
}

/// `to_string` of a `serde_json::Value::Object` whose members are all strings. The text depends
/// on the names and values alone. It keeps all of the values: with the same names, each of which
/// occurs once, other values give another text.
#[verifier::external_body]
pub(crate) fn json_object(members: Vec<(String, String)>) -> (r: String)
    ensures
        r@ == json_object_text(member_views(members@)),
        distinct_names(member_views(members@)) ==> forall|other: Seq<(Seq<char>, Seq<char>)>|
            same_names(other, member_views(members@)) && #[trigger] json_object_text(other) == r@
                ==> other == member_views(members@),
{
    let object: serde_json::Map<String, serde_json::Value> = members
        .into_iter()
        .map(|(name, value)| (name, serde_json::Value::String(value)))
        .collect();
    serde_json::Value::Object(object).to_string()
}

/// The text that `brotli2::read::BrotliDecoder` reads out of the compressed stream that some bytes
/// begin with: `None` where the stream is corrupt or truncated, or its content is not UTF-8.
pub uninterp spec fn brotli_text(bytes: Seq<u8>) -> Option<Seq<char>>;

/// `read_to_string` on a `brotli2::read::BrotliDecoder` over `bytes`. It succeeds exactly where
/// the bytes begin with a whole stream of UTF-8 text, and then gives that text.
#[verifier::external_body]
pub(crate) fn brotli_decompress(bytes: &Vec<u8>) -> (r: Result<String, std::io::Error>)
    ensures
        match r {
            Ok(text) => brotli_text(bytes@) == Some(text@),
            Err(_) => brotli_text(bytes@) is None,
        },
{
    let mut text = String::new();
    brotli2::read::BrotliDecoder::new(bytes.as_slice()).read_to_string(&mut text)?;
    Ok(text)
}

/// Everything of `text` written to a `brotli2::write::BrotliEncoder` of the given quality, which
/// completes the stream when it is dropped. Compression is lossless: decoding the stream gives
/// the text back. A stream is never empty. Which of the many streams for a text comes out is left
/// open: it depends on the machine, since the encoder hashes words in the machine's byte order,
/// and weighs costs by the logarithm of the C library.
#[verifier::external_body]
pub(crate) fn brotli_compress(text: &str, quality: u32) -> (r: Vec<u8>)
    requires
        quality == 8,
    ensures
        brotli_text(r@) == Some(text@),
        r@.len() > 0,
{
    let mut bytes = Vec::new();
    {
        let mut encoder = brotli2::write::BrotliEncoder::new(&mut bytes, quality);
        encoder.write_all(text.as_bytes()).unwrap();
    }
    bytes
}

/// What `chrono::DateTime::parse_from_rfc3339` makes of a text: seconds since the Unix epoch,
/// nanoseconds within the second, and the offset from UTC in seconds.
pub uninterp spec fn rfc3339_parts(text: Seq<char>) -> Option<(i64, u32, i32)>;

/// `chrono::DateTime::parse_from_rfc3339`, with the result taken apart. It depends on the text
/// alone.
#[verifier::external_body]
pub(crate) fn parse_rfc3339(text: &str) -> (r: Option<(i64, u32, i32)>)
    ensures
        r == rfc3339_parts(text@),
{
    match chrono::DateTime::parse_from_rfc3339(text) {
        Ok(t) => Some((t.timestamp(), t.timestamp_subsec_nanos(), t.offset().local_minus_utc())),
        Err(_) => None,
    }
}

/// The part of a text that the first match of a regular expression covers, in `regex` syntax.
pub uninterp spec fn regex_first_match(pattern: Seq<char>, text: Seq<char>) -> Option<Seq<char>>;

/// `regex::Regex::captures`, and of the captures group 0, which is the whole match. The result
/// depends on the pattern and the text alone. A path of the form that the pattern describes is
/// found where it stands, whatever is behind it, if the pattern's literal beginning does not
/// occur in front of it.
#[verifier::external_body]
pub(crate) fn first_match(pattern: &str, text: &str) -> (r: Option<String>)
    requires
        pattern@ == layout::TEMPORARY_PATH_PATTERN@,
    ensures
        match r {
            Some(found) => regex_first_match(pattern@, text@) == Some(found@),
            None => regex_first_match(pattern@, text@) is None,
        },
        forall|before: Seq<char>, path: Seq<char>, after: Seq<char>| #[trigger]
            layout::is_first_in(text@, before, path, after) ==> r is Some && r->0@ == path,
{
    let expression = regex::Regex::new(pattern).unwrap();
    match expression.captures(text) {
        Some(captures) => Some(captures.get(0).unwrap().as_str().to_string()),
        None => None,
    }
}

/// Whether a regular expression matches anywhere in a text, in `regex` syntax.
pub uninterp spec fn regex_is_match(pattern: Seq<char>, text: Seq<char>) -> bool;

/// `regex::Regex::is_match`. The result depends on the pattern and the text alone. A text in which
/// a name of the form that the pattern describes stands anywhere matches, and one without the
/// pattern's literal beginning does not.
#[verifier::external_body]
pub(crate) fn is_match(pattern: &str, text: &str) -> (r: bool)
    requires
        pattern@ == layout::PIPE_NAME_PATTERN@,
    ensures
        r == regex_is_match(pattern@, text@),
        forall|before: Seq<char>, name: Seq<char>, after: Seq<char>| #[trigger]
            layout::is_pipe_name_in(text@, before, name, after) ==> r,
        r ==> layout::contains_text(text@, "revisions-"@),
{
    regex::Regex::new(pattern).unwrap().is_match(text)
}

/// `num_cpus::get`. What it counts depends on the machine; it is never less than one.
#[verifier::external_body]
pub(crate) fn cpu_count() -> (r: usize)
    ensures
        r >= 1,
{
    num_cpus::get()
}

} // verus!
