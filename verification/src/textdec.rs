//! Turning raw bytes into text, and a structured body into its rendered
//! form, through the std lossy UTF-8 decoder and `serde_json`.

use vstd::prelude::*;

verus! {

/// The text that lossy UTF-8 decoding yields for a byte sequence: a function
/// of the bytes alone (valid sequences decode to their own characters,
/// invalid ones to replacement characters).
pub uninterp spec fn lossy_of(s: Seq<u8>) -> Seq<char>;

/// Relies on `String::from_utf8_lossy` (and `Cow::to_string`, which keeps
/// the characters): the returned text is the lossy decoding of the bytes.
#[verifier::external_body]
pub fn lossy_utf8(src: &Vec<u8>) -> (r: String)
    ensures
        r@ == lossy_of(src@),
{
    String::from_utf8_lossy(src).to_string()
}

#[verifier::external_type_specification]
#[verifier::external_body]
pub struct ExSerdeJsonError(serde_json::Error);

/// Whether a text parses as a JSON object whose values are all strings:
/// a function of the text alone.
pub uninterp spec fn json_string_object_ok(s: Seq<char>) -> bool;

/// Relies on `serde_json::from_str::<HashMap<String, String>>`: it succeeds
/// exactly on a JSON object of string values, and the success depends on the
/// text alone. The returned rendering is the std `Debug` output of the
/// resulting map, whose field order is unspecified, so nothing is claimed
/// about the text handed back.
#[verifier::external_body]
pub fn render_json_object(text: &String) -> (r: Result<String, serde_json::Error>)
    ensures
        (r is Ok) == json_string_object_ok(text@),
{
    match serde_json::from_str::<std::collections::HashMap<String, String>>(text.as_str()) {
        Ok(map) => Ok(format!("{:?}", map)),
        Err(e) => Err(e),
    }
}

} // verus!
