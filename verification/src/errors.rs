use vstd::prelude::*;

verus! {

/// A decode attempt that cannot proceed reports one of these conditions.
///
/// Running out of buffered bytes is not an error: the decoder then returns
/// no message at all and waits for more input. Every variant here is fatal
/// for the frame at the front of the buffer and is handed to the caller as a
/// value rather than by aborting the process.
#[derive(Debug, Clone, Copy, PartialEq, Eq, Structural)]
pub enum DecodeError {
    /// A header line without a colon-separated key and value.
    MalformedHeader,
    /// A body-bearing content type whose declared length is absent or not a
    /// readable number.
    MissingLengthField,
    /// A declared-length body that does not hold the expected structured
    /// text: a JSON object whose values are all strings.
    InvalidStructuredBody,
    /// A content-type value outside the recognized set, or a header block
    /// with no content-type field at all.
    UnrecognizedContentType,
}

} // verus!
