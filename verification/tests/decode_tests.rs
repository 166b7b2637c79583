//! Decode attempts against whole and partially delivered buffers.

use bytes::BytesMut;
use esl_codec::{DecodeError, EslCodec, InboundResponse};

fn buf(bytes: &[u8]) -> BytesMut {
    BytesMut::from(bytes)
}

#[test]
fn incomplete_without_blank_line() {
    let mut codec = EslCodec {};
    let mut src = buf(b"Content-Type: auth/request\n");
    assert_eq!(codec.decode(&mut src), Ok(None));
    assert_eq!(&src[..], b"Content-Type: auth/request\n");
}

#[test]
fn auth_request_decodes() {
    let mut codec = EslCodec {};
    let mut src = buf(b"Content-Type: auth/request\n\n");
    assert_eq!(codec.decode(&mut src), Ok(Some(InboundResponse::Auth)));
    assert_eq!(src.len(), 0);
}

#[test]
fn auth_request_drains_trailing_bytes() {
    let mut codec = EslCodec {};
    let mut src = buf(b"Content-Type: auth/request\n\nContent-Type: command/reply\n\n");
    assert_eq!(codec.decode(&mut src), Ok(Some(InboundResponse::Auth)));
    assert_eq!(src.len(), 0);
    assert_eq!(codec.decode(&mut src), Ok(None));
}

#[test]
fn command_reply_carries_header_block_text() {
    let mut codec = EslCodec {};
    let mut src = buf(b"Content-Type: command/reply\n\n");
    let r = codec.decode(&mut src);
    assert_eq!(
        r,
        Ok(Some(InboundResponse::Reply(
            "Content-Type: command/reply".to_string()
        )))
    );
    assert_eq!(src.len(), 0);
}

#[test]
fn command_reply_advances_past_header_only() {
    let mut codec = EslCodec {};
    let mut src = buf(b"Content-Type: command/reply\n\nXYZ");
    let r = codec.decode(&mut src);
    assert_eq!(
        r,
        Ok(Some(InboundResponse::Reply(
            "Content-Type: command/reply".to_string()
        )))
    );
    // The header block is 27 bytes; the attempt consumes it and its two
    // newlines, leaving the trailing bytes in place.
    assert_eq!(&src[..], b"XYZ");
}

#[test]
fn api_response_waits_then_extracts_offset_body() {
    let mut codec = EslCodec {};
    let mut src = buf(b"Content-Type: api/response\nContent-Length: 5\n\nHELL");
    assert_eq!(codec.decode(&mut src), Ok(None));
    assert_eq!(
        &src[..],
        b"Content-Type: api/response\nContent-Length: 5\n\nHELL"
    );
    src.extend_from_slice(b"O");
    let r = codec.decode(&mut src);
    assert_eq!(
        r,
        Ok(Some(InboundResponse::ApiResponse("ELLO".to_string())))
    );
    assert_eq!(src.len(), 0);
}

#[test]
fn api_response_leaves_following_frame() {
    let mut codec = EslCodec {};
    let mut src = buf(b"Content-Type: api/response\nContent-Length: 5\n\nHELLOnext");
    let r = codec.decode(&mut src);
    assert_eq!(
        r,
        Ok(Some(InboundResponse::ApiResponse("ELLO".to_string())))
    );
    assert_eq!(&src[..], b"next");
}

#[test]
fn api_response_without_length_is_missing_length() {
    let mut codec = EslCodec {};
    let mut src = buf(b"Content-Type: api/response\n\nHELLO");
    assert_eq!(
        codec.decode(&mut src),
        Err(DecodeError::MissingLengthField)
    );
    assert_eq!(&src[..], b"Content-Type: api/response\n\nHELLO");
}

#[test]
fn api_response_with_unreadable_length_is_missing_length() {
    let mut codec = EslCodec {};
    let mut src = buf(b"Content-Type: api/response\nContent-Length: five\n\nHELLO");
    assert_eq!(
        codec.decode(&mut src),
        Err(DecodeError::MissingLengthField)
    );
}

#[test]
fn event_json_renders_single_field_object() {
    let mut codec = EslCodec {};
    let mut src = buf(b"Content-Type: text/event-json\nContent-Length: 9\n\n{\"a\":\"b\"}");
    let r = codec.decode(&mut src);
    assert_eq!(
        r,
        Ok(Some(InboundResponse::EventJson(
            "{\"a\": \"b\"}".to_string()
        )))
    );
    assert_eq!(src.len(), 0);
}

#[test]
fn event_json_waits_for_declared_length() {
    let mut codec = EslCodec {};
    let mut src = buf(b"Content-Type: text/event-json\nContent-Length: 9\n\n{\"a\":");
    assert_eq!(codec.decode(&mut src), Ok(None));
    src.extend_from_slice(b"\"b\"}");
    assert!(matches!(
        codec.decode(&mut src),
        Ok(Some(InboundResponse::EventJson(_)))
    ));
    assert_eq!(src.len(), 0);
}

#[test]
fn event_json_with_bad_body_is_invalid_structured_body() {
    let mut codec = EslCodec {};
    let mut src = buf(b"Content-Type: text/event-json\nContent-Length: 9\n\nxxxxxxxxx");
    assert_eq!(
        codec.decode(&mut src),
        Err(DecodeError::InvalidStructuredBody)
    );
    assert_eq!(
        &src[..],
        b"Content-Type: text/event-json\nContent-Length: 9\n\nxxxxxxxxx"
    );
}

#[test]
fn event_json_without_length_is_missing_length() {
    let mut codec = EslCodec {};
    let mut src = buf(b"Content-Type: text/event-json\n\n{\"a\":\"b\"}");
    assert_eq!(
        codec.decode(&mut src),
        Err(DecodeError::MissingLengthField)
    );
}

#[test]
fn unrecognized_content_type_is_an_error_not_a_crash() {
    let mut codec = EslCodec {};
    let mut src = buf(b"Content-Type: something/else\n\n");
    assert_eq!(
        codec.decode(&mut src),
        Err(DecodeError::UnrecognizedContentType)
    );
    assert_eq!(&src[..], b"Content-Type: something/else\n\n");
}

#[test]
fn absent_content_type_is_unrecognized() {
    let mut codec = EslCodec {};
    let mut src = buf(b"Some-Header: value\n\n");
    assert_eq!(
        codec.decode(&mut src),
        Err(DecodeError::UnrecognizedContentType)
    );
}

#[test]
fn header_line_without_colon_is_malformed() {
    let mut codec = EslCodec {};
    let mut src = buf(b"Content-Type api/response\n\n");
    assert_eq!(codec.decode(&mut src), Err(DecodeError::MalformedHeader));
    assert_eq!(&src[..], b"Content-Type api/response\n\n");
}

#[test]
fn duplicate_length_field_later_wins() {
    let mut codec = EslCodec {};
    // The earlier declaration reads 2; the later one, 5, governs: four body
    // bytes come back and five are consumed past the boundary newline.
    let mut src =
        buf(b"Content-Type: api/response\nContent-Length: 2\nContent-Length: 5\n\nHELLOrest");
    let r = codec.decode(&mut src);
    assert_eq!(
        r,
        Ok(Some(InboundResponse::ApiResponse("ELLO".to_string())))
    );
    assert_eq!(&src[..], b"rest");
}

#[test]
fn embedded_colon_truncates_content_type_value() {
    let mut codec = EslCodec {};
    // The value reads as `auth/request` only: what follows the second colon
    // is discarded.
    let mut src = buf(b"Content-Type: auth/request:ignored\n\n");
    assert_eq!(codec.decode(&mut src), Ok(Some(InboundResponse::Auth)));
}

#[test]
fn chunked_delivery_decodes_the_same_message() {
    let whole: &[u8] = b"Content-Type: api/response\nContent-Length: 5\n\nHELLO";

    let mut codec = EslCodec {};
    let mut one_shot = buf(whole);
    let expected = codec.decode(&mut one_shot).unwrap().unwrap();

    let mut chunked = BytesMut::new();
    let mut got = None;
    for b in whole {
        chunked.extend_from_slice(&[*b]);
        match codec.decode(&mut chunked).unwrap() {
            Some(msg) => {
                got = Some(msg);
                break;
            }
            None => continue,
        }
    }
    assert_eq!(got, Some(expected));
}

#[test]
fn encode_appends_bytes_verbatim() {
    let mut codec = EslCodec {};
    let mut dst = buf(b"already");
    codec.encode(b" queued", &mut dst);
    assert_eq!(&dst[..], b"already queued");
}

#[test]
fn zero_length_api_response_yields_empty_body() {
    let mut codec = EslCodec {};
    let mut src = buf(b"Content-Type: api/response\nContent-Length: 0\n\nrest");
    let r = codec.decode(&mut src);
    assert_eq!(r, Ok(Some(InboundResponse::ApiResponse(String::new()))));
    assert_eq!(&src[..], b"rest");
}
