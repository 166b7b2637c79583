//! The frame codec: the boundary scanner, the two body extraction rules and
//! the dispatcher that turns the front of the accumulated buffer into at
//! most one typed message per attempt.
//!
//! Two asymmetries are kept on purpose, for compatibility with the peer's
//! framing as deployed, and the contracts state them exactly: the plain body
//! rule skips two bytes after the boundary and takes one byte fewer than the
//! declared length, while the structured rule skips one byte and takes the
//! full length; and an authentication or event frame drains the whole
//! buffer, trailing bytes included, while an API response consumes exactly
//! its own frame.

use vstd::prelude::*;

use crate::bytebuf::{buf_advance, buf_extend, buf_to_vec, bytes_view};
use crate::errors::DecodeError;
use crate::headers::{header_map_of, parse_header};
use crate::scan::{
    bytes_eq, lemma_parse_usize_spec_bounds, parse_usize_bytes, parse_usize_spec, subvec, NL,
};
use crate::textdec::{json_string_object_ok, lossy_of, lossy_utf8, render_json_object};

verus! {

/// The codec itself. It keeps no state of its own: every decode attempt is
/// a function of the buffer it is handed.
#[derive(Debug, Clone)]
pub struct EslCodec {}

/// One fully decoded inbound frame.
#[derive(Debug, Clone, PartialEq, Eq, PartialOrd, Ord)]
pub enum InboundResponse {
    /// An authentication-request frame; it carries no payload.
    Auth,
    /// A command reply, carrying the literal text of its header block.
    Reply(String),
    /// An API response, carrying its extracted body text.
    ApiResponse(String),
    /// An event frame, carrying the rendering of the JSON mapping its body
    /// holds.
    EventJson(String),
}

/// The header field that selects the frame kind.
pub open spec fn content_type_key() -> Seq<u8> {
    seq![67u8, 111u8, 110u8, 116u8, 101u8, 110u8, 116u8, 45u8, 84u8, 121u8, 112u8, 101u8]
}

/// The header field that declares a body's length.
pub open spec fn content_length_key() -> Seq<u8> {
    seq![67u8, 111u8, 110u8, 116u8, 101u8, 110u8, 116u8, 45u8, 76u8, 101u8, 110u8, 103u8, 116u8, 104u8]
}

/// The content-type value of an authentication-request frame.
pub open spec fn auth_request_value() -> Seq<u8> {
    seq![97u8, 117u8, 116u8, 104u8, 47u8, 114u8, 101u8, 113u8, 117u8, 101u8, 115u8, 116u8]
}

/// The content-type value of an API response frame.
pub open spec fn api_response_value() -> Seq<u8> {
    seq![97u8, 112u8, 105u8, 47u8, 114u8, 101u8, 115u8, 112u8, 111u8, 110u8, 115u8, 101u8]
}

/// The content-type value of a command reply frame.
pub open spec fn command_reply_value() -> Seq<u8> {
    seq![99u8, 111u8, 109u8, 109u8, 97u8, 110u8, 100u8, 47u8, 114u8, 101u8, 112u8, 108u8, 121u8]
}

/// The content-type value of an event frame with a JSON body.
pub open spec fn event_json_value() -> Seq<u8> {
    seq![116u8, 101u8, 120u8, 116u8, 47u8, 101u8, 118u8, 101u8, 110u8, 116u8, 45u8, 106u8, 115u8, 111u8, 110u8]
}

fn content_type_bytes() -> (r: Vec<u8>)
    ensures
        r@ == content_type_key(),
{
    let mut v: Vec<u8> = Vec::new();
    v.push(67u8);
    v.push(111u8);
    v.push(110u8);
    v.push(116u8);
    v.push(101u8);
    v.push(110u8);
    v.push(116u8);
    v.push(45u8);
    v.push(84u8);
    v.push(121u8);
    v.push(112u8);
    v.push(101u8);
    proof {
        assert(v@ =~= content_type_key());
    }
    v
}

fn content_length_bytes() -> (r: Vec<u8>)
    ensures
        r@ == content_length_key(),
{
    let mut v: Vec<u8> = Vec::new();
    v.push(67u8);
    v.push(111u8);
    v.push(110u8);
    v.push(116u8);
    v.push(101u8);
    v.push(110u8);
    v.push(116u8);
    v.push(45u8);
    v.push(76u8);
    v.push(101u8);
    v.push(110u8);
    v.push(103u8);
    v.push(116u8);
    v.push(104u8);
    proof {
        assert(v@ =~= content_length_key());
    }
    v
}

fn auth_request_bytes() -> (r: Vec<u8>)
    ensures
        r@ == auth_request_value(),
{
    let mut v: Vec<u8> = Vec::new();
    v.push(97u8);
    v.push(117u8);
    v.push(116u8);
    v.push(104u8);
    v.push(47u8);
    v.push(114u8);
    v.push(101u8);
    v.push(113u8);
    v.push(117u8);
    v.push(101u8);
    v.push(115u8);
    v.push(116u8);
    proof {
        assert(v@ =~= auth_request_value());
    }
    v
}

fn api_response_bytes() -> (r: Vec<u8>)
    ensures
        r@ == api_response_value(),
{
    let mut v: Vec<u8> = Vec::new();
    v.push(97u8);
    v.push(112u8);
    v.push(105u8);
    v.push(47u8);
    v.push(114u8);
    v.push(101u8);
    v.push(115u8);
    v.push(112u8);
    v.push(111u8);
    v.push(110u8);
    v.push(115u8);
    v.push(101u8);
    proof {
        assert(v@ =~= api_response_value());
    }
    v
}

fn command_reply_bytes() -> (r: Vec<u8>)
    ensures
        r@ == command_reply_value(),
{
    let mut v: Vec<u8> = Vec::new();
    v.push(99u8);
    v.push(111u8);
    v.push(109u8);
    v.push(109u8);
    v.push(97u8);
    v.push(110u8);
    v.push(100u8);
    v.push(47u8);
    v.push(114u8);
    v.push(101u8);
    v.push(112u8);
    v.push(108u8);
    v.push(121u8);
    proof {
        assert(v@ =~= command_reply_value());
    }
    v
}

fn event_json_bytes() -> (r: Vec<u8>)
    ensures
        r@ == event_json_value(),
{
    let mut v: Vec<u8> = Vec::new();
    v.push(116u8);
    v.push(101u8);
    v.push(120u8);
    v.push(116u8);
    v.push(47u8);
    v.push(101u8);
    v.push(118u8);
    v.push(101u8);
    v.push(110u8);
    v.push(116u8);
    v.push(45u8);
    v.push(106u8);
    v.push(115u8);
    v.push(111u8);
    v.push(110u8);
    proof {
        assert(v@ =~= event_json_value());
    }
    v
}

/// Index of the second of the first two consecutive line feed bytes at or
/// after `start`, if the buffer holds such a pair.
pub open spec fn boundary_from(s: Seq<u8>, start: int) -> Option<int>
    decreases s.len() - start when 0 <= start <= s.len()
{
    if start + 1 >= s.len() {
        None
    } else if s[start] == NL && s[start + 1] == NL {
        Some(start + 1)
    } else {
        boundary_from(s, start + 1)
    }
}

/// Index of the second newline of the first blank line of the buffer: the
/// end of the header block.
pub open spec fn find_boundary(s: Seq<u8>) -> Option<int> {
    boundary_from(s, 0)
}

/// What `boundary_from` returns: the second byte of the first newline pair
/// in range, or a guarantee that no pair stands in range.
pub proof fn lemma_boundary_from(s: Seq<u8>, start: int)
    requires
        0 <= start <= s.len(),
    ensures
        match boundary_from(s, start) {
            Some(j) => start < j < s.len() && s[j - 1] == NL && s[j] == NL && (forall|m: int|
                start <= m < j - 1 ==> !((#[trigger] s[m]) == NL && s[m + 1] == NL)),
            None => forall|m: int|
                start <= m < s.len() - 1 ==> !((#[trigger] s[m]) == NL && s[m + 1] == NL),
        },
    decreases s.len() - start,
{
    if start + 1 < s.len() && !(s[start] == NL && s[start + 1] == NL) {
        lemma_boundary_from(s, start + 1);
    }
}

/// The converse: a newline pair with no earlier pair is what
/// `boundary_from` returns.
pub proof fn lemma_boundary_from_found(s: Seq<u8>, start: int, j: int)
    requires
        0 <= start < j < s.len(),
        s[j - 1] == NL,
        s[j] == NL,
        forall|m: int| start <= m < j - 1 ==> !((#[trigger] s[m]) == NL && s[m + 1] == NL),
    ensures
        boundary_from(s, start) == Some(j),
    decreases j - start,
{
    if start < j - 1 {
        lemma_boundary_from_found(s, start + 1, j);
    }
}

/// Scan the buffer for the first blank line, byte by byte, and return the
/// index of its second newline; nothing means the header block is not yet
/// complete.
pub fn get_header_end(src: &Vec<u8>) -> (r: Option<usize>)
    ensures
        match r {
            Some(j) => find_boundary(src@) == Some(j as int),
            None => find_boundary(src@) is None,
        },
{
    let n = src.len();
    if n < 2 {
        return None;
    }
    let mut i: usize = 0;
    while i + 1 < n
        invariant
            n == src@.len(),
            i + 1 <= n,
            boundary_from(src@, 0) == boundary_from(src@, i as int),
        decreases n - i,
    {
        if src[i] == NL && src[i + 1] == NL {
            return Some(i + 1);
        }
        i += 1;
    }
    None
}

/// The body that the declared length carves out of the buffer under the
/// plain rule: the slice from the boundary on, its first two bytes skipped,
/// then one byte fewer than the declared length (an empty body when the
/// declared length is zero).
pub open spec fn api_body_bytes(s: Seq<u8>, j: int, len: int) -> Seq<u8> {
    if len == 0 {
        Seq::empty()
    } else {
        s.subrange(j + 2, j + 1 + len)
    }
}

/// The body that the declared length carves out of the buffer under the
/// structured rule: the slice from the boundary on, its first byte skipped,
/// then exactly the declared length.
pub open spec fn event_body_bytes(s: Seq<u8>, j: int, len: int) -> Seq<u8> {
    s.subrange(j + 1, j + 1 + len)
}

/// What the length field of the mapping declares, if it is present and
/// reads as a number that fits.
pub open spec fn declared_length(m: Map<Seq<u8>, Seq<u8>>) -> Option<int> {
    if m.contains_key(content_length_key()) {
        parse_usize_spec(m[content_length_key()])
    } else {
        None
    }
}

/// What one decode attempt against a buffer amounts to. Apart from the
/// rendered text of an event body, the attempt is a function of the
/// buffered bytes alone.
pub enum DecodeOutcome {
    /// Not enough bytes yet: no header boundary, or a declared body still
    /// short. Nothing is consumed.
    Incomplete,
    /// A fatal condition for the frame at the front. Nothing is consumed.
    Failed(DecodeError),
    /// An authentication request; the whole buffer is drained.
    AuthFrame,
    /// A command reply carrying these header-block bytes; the block and its
    /// two newlines are consumed.
    ReplyFrame(Seq<u8>),
    /// An API response carrying this body, consuming this many bytes from
    /// the front.
    ApiFrame(Seq<u8>, int),
    /// An event frame whose JSON body parses; the whole buffer is drained.
    EventFrame(Seq<u8>),
}

/// The outcome a buffer decodes to.
pub open spec fn decode_outcome(s: Seq<u8>) -> DecodeOutcome {
    match find_boundary(s) {
        None => DecodeOutcome::Incomplete,
        Some(j) => {
            let block = s.subrange(0, j - 1);
            match header_map_of(block) {
                None => DecodeOutcome::Failed(DecodeError::MalformedHeader),
                Some(m) => {
                    if !m.contains_key(content_type_key()) {
                        DecodeOutcome::Failed(DecodeError::UnrecognizedContentType)
                    } else if m[content_type_key()] == auth_request_value() {
                        DecodeOutcome::AuthFrame
                    } else if m[content_type_key()] == api_response_value() {
                        match declared_length(m) {
                            None => DecodeOutcome::Failed(DecodeError::MissingLengthField),
                            Some(len) => {
                                if s.len() < j + 1 + len {
                                    DecodeOutcome::Incomplete
                                } else {
                                    DecodeOutcome::ApiFrame(api_body_bytes(s, j, len), j + 1 + len)
                                }
                            },
                        }
                    } else if m[content_type_key()] == command_reply_value() {
                        DecodeOutcome::ReplyFrame(block)
                    } else if m[content_type_key()] == event_json_value() {
                        match declared_length(m) {
                            None => DecodeOutcome::Failed(DecodeError::MissingLengthField),
                            Some(len) => {
                                if s.len() < j + 1 + len {
                                    DecodeOutcome::Incomplete
                                } else if json_string_object_ok(
                                    lossy_of(event_body_bytes(s, j, len)),
                                ) {
                                    DecodeOutcome::EventFrame(event_body_bytes(s, j, len))
                                } else {
                                    DecodeOutcome::Failed(DecodeError::InvalidStructuredBody)
                                }
                            },
                        }
                    } else {
                        DecodeOutcome::Failed(DecodeError::UnrecognizedContentType)
                    }
                },
            }
        },
    }
}

/// How many bytes one decode attempt consumes from the front of the buffer.
pub open spec fn decode_advance(s: Seq<u8>) -> int {
    match decode_outcome(s) {
        DecodeOutcome::Incomplete => 0,
        DecodeOutcome::Failed(_) => 0,
        DecodeOutcome::AuthFrame => s.len() as int,
        DecodeOutcome::ReplyFrame(block) => block.len() as int + 2,
        DecodeOutcome::ApiFrame(_, advance) => advance,
        DecodeOutcome::EventFrame(_) => s.len() as int,
    }
}

/// How the value a decode attempt returns reflects the buffer's outcome.
/// The text of an event frame is the one place left open: it renders a
/// mapping whose field order is unspecified.
pub open spec fn decode_result_matches(
    s: Seq<u8>,
    r: Result<Option<InboundResponse>, DecodeError>,
) -> bool {
    match decode_outcome(s) {
        DecodeOutcome::Incomplete => r == Ok::<Option<InboundResponse>, DecodeError>(None),
        DecodeOutcome::Failed(e) => r == Err::<Option<InboundResponse>, DecodeError>(e),
        DecodeOutcome::AuthFrame => r == Ok::<Option<InboundResponse>, DecodeError>(
            Some(InboundResponse::Auth),
        ),
        DecodeOutcome::ReplyFrame(block) => r matches Ok(Some(InboundResponse::Reply(t)))
            && t@ == lossy_of(block),
        DecodeOutcome::ApiFrame(body, _) => r matches Ok(Some(InboundResponse::ApiResponse(t)))
            && t@ == lossy_of(body),
        DecodeOutcome::EventFrame(_) => r matches Ok(Some(InboundResponse::EventJson(_))),
    }
}

/// Extract a plain body from the slice that starts at the header boundary:
/// skip the slice's first two bytes, then take one byte fewer than the
/// declared length, decoded as text.
pub fn parse_body(src: &Vec<u8>, length: usize) -> (r: String)
    requires
        1 <= length,
        length + 1 <= src@.len(),
    ensures
        r@ == lossy_of(src@.subrange(2, length + 1)),
{
    let n = src.len();
    proof {
        assert(length + 1 <= n);
    }
    let body = subvec(src, 2, length + 1);
    lossy_utf8(&body)
}

/// Extract a structured body from the slice that starts at the header
/// boundary: skip the slice's first byte, take the declared length, decode
/// as text and parse as a JSON object of strings, handing back its
/// rendering. A body that does not parse that way is an invalid structured
/// body.
pub fn parse_json_body(src: &Vec<u8>, body_length: usize) -> (r: Result<String, DecodeError>)
    requires
        body_length + 1 <= src@.len(),
    ensures
        (r is Ok) == json_string_object_ok(lossy_of(src@.subrange(1, body_length + 1))),
        r is Err ==> r == Err::<String, DecodeError>(DecodeError::InvalidStructuredBody),
{
    let n = src.len();
    proof {
        assert(body_length + 1 <= n);
    }
    let body = subvec(src, 1, body_length + 1);
    let text = lossy_utf8(&body);
    match render_json_object(&text) {
        Ok(rendered) => Ok(rendered),
        Err(_) => Err(DecodeError::InvalidStructuredBody),
    }
}

impl EslCodec {
    /// Append raw bytes to the outgoing buffer unchanged: the encoder does
    /// no framing and no transformation.
    pub fn encode(&mut self, item: &[u8], dst: &mut bytes::BytesMut)
        ensures
            bytes_view(*final(dst)) == bytes_view(*old(dst)) + item@,
    {
        buf_extend(dst, item);
    }

    /// One decode attempt. Scan for the end of the header block, parse the
    /// block into its mapping, and let its content-type field pick the frame
    /// kind; a body-bearing kind waits, consuming nothing, until the
    /// declared length is buffered. At most one message is produced, and
    /// bytes are consumed from the front exactly as the outcome dictates.
    pub fn decode(&mut self, src: &mut bytes::BytesMut) -> (r: Result<
        Option<InboundResponse>,
        DecodeError,
    >)
        ensures
            decode_result_matches(bytes_view(*old(src)), r),
            bytes_view(*final(src)) == bytes_view(*old(src)).skip(
                decode_advance(bytes_view(*old(src))),
            ),
    {
        let v = buf_to_vec(src);
        let ghost s = v@;
        let n = v.len();
        proof {
            assert(s.skip(0) =~= s);
        }
        let header_end = get_header_end(&v);
        if header_end.is_none() {
            return Ok(None);
        }
        let j = header_end.unwrap();
        proof {
            lemma_boundary_from(s, 0);
        }
        let block = subvec(&v, 0, j - 1);
        let hm = match parse_header(&block) {
            Err(_) => {
                return Err(DecodeError::MalformedHeader);
            },
            Ok(hm) => hm,
        };
        let ghost m = header_map_of(block@)->Some_0;
        let ct_key = content_type_bytes();
        let ctv = match hm.get(&ct_key) {
            None => {
                return Err(DecodeError::UnrecognizedContentType);
            },
            Some(ctv) => ctv,
        };
        if bytes_eq(ctv, &auth_request_bytes()) {
            buf_advance(src, n);
            return Ok(Some(InboundResponse::Auth));
        }
        if bytes_eq(ctv, &api_response_bytes()) {
            let cl_key = content_length_bytes();
            let clv = match hm.get(&cl_key) {
                None => {
                    return Err(DecodeError::MissingLengthField);
                },
                Some(clv) => clv,
            };
            let len = match parse_usize_bytes(clv) {
                None => {
                    return Err(DecodeError::MissingLengthField);
                },
                Some(len) => len,
            };
            if len > n - (j + 1) {
                return Ok(None);
            }
            if len == 0 {
                let empty: Vec<u8> = Vec::new();
                proof {
                    assert(empty@ =~= api_body_bytes(s, j as int, len as int));
                }
                let text = lossy_utf8(&empty);
                buf_advance(src, j + 1);
                return Ok(Some(InboundResponse::ApiResponse(text)));
            }
            let tail = subvec(&v, j, n);
            proof {
                assert(tail@.subrange(2, len + 1) =~= s.subrange(j + 2, j + 1 + len));
            }
            let text = parse_body(&tail, len);
            buf_advance(src, j + 1 + len);
            return Ok(Some(InboundResponse::ApiResponse(text)));
        }
        if bytes_eq(ctv, &command_reply_bytes()) {
            let text = lossy_utf8(&block);
            buf_advance(src, j + 1);
            return Ok(Some(InboundResponse::Reply(text)));
        }
        if bytes_eq(ctv, &event_json_bytes()) {
            let cl_key = content_length_bytes();
            let clv = match hm.get(&cl_key) {
                None => {
                    return Err(DecodeError::MissingLengthField);
                },
                Some(clv) => clv,
            };
            let len = match parse_usize_bytes(clv) {
                None => {
                    return Err(DecodeError::MissingLengthField);
                },
                Some(len) => len,
            };
            if len > n - (j + 1) {
                return Ok(None);
            }
            let tail = subvec(&v, j, n);
            proof {
                assert(tail@.subrange(1, len + 1) =~= s.subrange(j + 1, j + 1 + len));
            }
            match parse_json_body(&tail, len) {
                Ok(text) => {
                    buf_advance(src, n);
                    return Ok(Some(InboundResponse::EventJson(text)));
                },
                Err(e) => {
                    return Err(e);
                },
            }
        }
        Err(DecodeError::UnrecognizedContentType)
    }
}


/// Chunking invariance: a buffer whose front already decodes — to a message
/// or to a fatal condition — decodes to the very same outcome after any
/// number of further bytes arrive at the back. A frame delivered in
/// arbitrary chunks therefore yields the same message as the frame
/// delivered whole.
pub proof fn lemma_chunking_invariance(s: Seq<u8>, k: int)
    requires
        0 <= k <= s.len(),
        !(decode_outcome(s.take(k)) is Incomplete),
    ensures
        decode_outcome(s) == decode_outcome(s.take(k)),
{
    let p = s.take(k);
    lemma_boundary_from(p, 0);
    assert(find_boundary(p) is Some);
    let j = find_boundary(p)->Some_0;
    assert(0 < j < p.len());
    assert forall|m: int| 0 <= m < j - 1 implies !((#[trigger] s[m]) == NL && s[m + 1] == NL) by {
        assert(p[m] == s[m]);
        assert(p[m + 1] == s[m + 1]);
    };
    assert(p[j - 1] == s[j - 1] && p[j] == s[j]);
    lemma_boundary_from_found(s, 0, j);
    let block = p.subrange(0, j - 1);
    assert(s.subrange(0, j - 1) =~= block);
    match header_map_of(block) {
        None => {},
        Some(m) => {
            if m.contains_key(content_type_key()) {
                let ct = m[content_type_key()];
                if ct == api_response_value() {
                    match declared_length(m) {
                        None => {},
                        Some(len) => {
                            lemma_parse_usize_spec_bounds(m[content_length_key()]);
                            assert(!(p.len() < j + 1 + len));
                            if len != 0 {
                                assert(p.subrange(j + 2, j + 1 + len) =~= s.subrange(
                                    j + 2,
                                    j + 1 + len,
                                ));
                            }
                        },
                    }
                } else if ct == event_json_value() {
                    match declared_length(m) {
                        None => {},
                        Some(len) => {
                            lemma_parse_usize_spec_bounds(m[content_length_key()]);
                            assert(!(p.len() < j + 1 + len));
                            assert(p.subrange(j + 1, j + 1 + len) =~= s.subrange(
                                j + 1,
                                j + 1 + len,
                            ));
                        },
                    }
                }
            }
        },
    }
}

} // verus!
