//! Streaming codec for a text-oriented, header-plus-optional-body wire
//! protocol carried over a persistent byte stream.
//!
//! A frame is a block of `key: value` header lines terminated by a blank
//! line, optionally followed by a body whose length a header declares. The
//! decoder consumes an accumulated, partially delivered buffer and emits one
//! fully formed message per attempt once enough bytes have arrived, leaving
//! the remaining bytes buffered for the next attempt.

mod bytebuf;
mod codec;
mod errors;
mod headers;
mod scan;
mod textdec;

pub use bytebuf::{buf_advance, buf_extend, buf_to_vec, bytes_view};
pub use codec::{
    api_body_bytes, api_response_value, auth_request_value, boundary_from, command_reply_value,
    content_length_key, content_type_key, declared_length, decode_advance, decode_outcome,
    decode_result_matches, event_body_bytes, event_json_value, find_boundary, get_header_end,
    lemma_boundary_from, lemma_boundary_from_found, lemma_chunking_invariance, parse_body,
    parse_json_body, DecodeOutcome, EslCodec, InboundResponse,
};
pub use errors::DecodeError;
pub use headers::{
    fields_map, header_map_of, headers_from_lines, lemma_colon_truncation, lemma_later_field_wins,
    line_key_val, parse_header, split_lines_from, HeaderMap,
};
pub use scan::{
    all_digits, bytes_eq, digits_val, find_byte_from, find_from, is_digit, is_ws,
    lemma_find_from, lemma_find_from_found, lemma_parse_usize_spec_bounds, parse_usize_bytes,
    parse_usize_spec, subvec, trim, trim_back, trim_front, trim_spec, COLON, NL,
};
pub use textdec::{json_string_object_ok, lossy_of};
