use http1_client::parse::{parse_response_bytes, ResponseParser};
use http1_client::{ErrorKind, Response};

const MAX: usize = 8192;

fn parse_all(data: &[u8]) -> Result<(Response, Vec<u8>), http1_client::Error> {
    parse_response_bytes(data, MAX)
}

#[test]
fn single_chunk_response() {
    let (resp, leftover) =
        parse_all(b"HTTP/1.1 200 OK\r\nContent-Length: 5\r\n\r\nhello").unwrap();
    assert_eq!(resp.status_code, 200);
    assert_eq!(resp.reason_phrase, "OK");
    assert_eq!(resp.version, "HTTP/1.1");
    assert_eq!(resp.body, b"hello".to_vec());
    assert_eq!(resp.headers.len(), 1);
    assert_eq!(resp.headers[0].0, "Content-Length");
    assert_eq!(resp.headers[0].1, "5");
    assert!(leftover.is_empty());
}

#[test]
fn byte_by_byte_matches_single_chunk() {
    let wire = b"HTTP/1.1 200 OK\r\nContent-Length: 5\r\n\r\nhello";
    let (whole, _) = parse_all(wire).unwrap();

    let mut p = ResponseParser::new(MAX);
    for b in wire.iter() {
        p.push_chunk(&[*b]);
    }
    assert!(!p.needs_input());
    let (piecewise, leftover) = p.finish().unwrap();
    assert!(leftover.is_empty());
    assert_eq!(piecewise.status_code, whole.status_code);
    assert_eq!(piecewise.reason_phrase, whole.reason_phrase);
    assert_eq!(piecewise.version, whole.version);
    assert_eq!(piecewise.headers, whole.headers);
    assert_eq!(piecewise.body, whole.body);
}

#[test]
fn ragged_chunks_match_single_chunk() {
    let wire = b"HTTP/1.1 404 Not Found\r\nContent-Length: 9\r\nX-A: 1\r\n\r\nnot found";
    let (whole, _) = parse_all(wire).unwrap();

    let mut p = ResponseParser::new(MAX);
    let mut at = 0usize;
    for step in [3usize, 1, 7, 2, 11, 100] {
        let hi = (at + step).min(wire.len());
        p.push_chunk(&wire[at..hi]);
        at = hi;
    }
    assert!(!p.needs_input());
    let (piecewise, _) = p.finish().unwrap();
    assert_eq!(piecewise.status_code, whole.status_code);
    assert_eq!(piecewise.reason_phrase, whole.reason_phrase);
    assert_eq!(piecewise.body, whole.body);
    assert_eq!(piecewise.headers, whole.headers);
}

#[test]
fn zero_content_length_gives_empty_body() {
    let (resp, leftover) = parse_all(b"HTTP/1.1 204 No Content\r\nContent-Length: 0\r\n\r\n")
        .unwrap();
    assert_eq!(resp.status_code, 204);
    assert!(resp.body.is_empty());
    assert!(leftover.is_empty());
}

#[test]
fn oversized_header_block_fails_closed() {
    let mut p = ResponseParser::new(64);
    let mut fed = 0usize;
    // An endless header block: the parser must fail once the bound is
    // reached, never waiting for more input without limit.
    while p.needs_input() {
        p.push_chunk(b"X-Filler: aaaaaaaaaaaaaaaa\r\n");
        fed += 28;
        assert!(fed <= 64 + 28 * 2, "parser kept accumulating past its bound");
    }
    let err = p.finish().unwrap_err();
    assert_eq!(err.kind, ErrorKind::HeadersTooLarge);
}

#[test]
fn terminator_within_bound_is_accepted() {
    // Bound counts the terminator itself: this block ends exactly at it.
    let wire = b"HTTP/1.1 200 OK\r\n\r\n";
    let r = parse_response_bytes(wire, wire.len());
    assert!(r.is_ok());
}

#[test]
fn terminator_just_past_bound_is_too_large() {
    let wire = b"HTTP/1.1 200 OK\r\n\r\n";
    let err = parse_response_bytes(wire, wire.len() - 1).unwrap_err();
    assert_eq!(err.kind, ErrorKind::HeadersTooLarge);
}

#[test]
fn missing_status_code_is_malformed() {
    let err = parse_all(b"HTTP/1.1\r\n\r\n").unwrap_err();
    assert_eq!(err.kind, ErrorKind::MalformedStatusLine);
}

#[test]
fn two_part_status_line_is_malformed() {
    let err = parse_all(b"HTTP/1.1 200\r\n\r\n").unwrap_err();
    assert_eq!(err.kind, ErrorKind::MalformedStatusLine);
}

#[test]
fn non_numeric_status_code_is_malformed() {
    let err = parse_all(b"HTTP/1.1 2x0 OK\r\n\r\n").unwrap_err();
    assert_eq!(err.kind, ErrorKind::MalformedStatusLine);
}

#[test]
fn status_code_above_u16_is_malformed() {
    let err = parse_all(b"HTTP/1.1 70000 Huge\r\n\r\n").unwrap_err();
    assert_eq!(err.kind, ErrorKind::MalformedStatusLine);
}

#[test]
fn reason_phrase_keeps_spaces() {
    let (resp, _) = parse_all(b"HTTP/1.1 404 Not Found At All\r\n\r\n").unwrap();
    assert_eq!(resp.reason_phrase, "Not Found At All");
}

#[test]
fn header_line_without_separator_is_malformed() {
    let err = parse_all(b"HTTP/1.1 200 OK\r\nBadHeader\r\n\r\n").unwrap_err();
    assert_eq!(err.kind, ErrorKind::MalformedHeaderLine);
}

#[test]
fn non_numeric_content_length_is_malformed() {
    let err = parse_all(b"HTTP/1.1 200 OK\r\nContent-Length: abc\r\n\r\n").unwrap_err();
    assert_eq!(err.kind, ErrorKind::MalformedContentLength);
}

#[test]
fn huge_content_length_is_malformed() {
    let err = parse_all(
        b"HTTP/1.1 200 OK\r\nContent-Length: 99999999999999999999999999\r\n\r\n",
    )
    .unwrap_err();
    assert_eq!(err.kind, ErrorKind::MalformedContentLength);
}

#[test]
fn content_length_lookup_ignores_case() {
    let (resp, _) = parse_all(b"HTTP/1.1 200 OK\r\ncontent-LENGTH: 3\r\n\r\nabc").unwrap();
    assert_eq!(resp.body, b"abc".to_vec());
    // The wire spelling of the name is preserved verbatim.
    assert_eq!(resp.headers[0].0, "content-LENGTH");
}

#[test]
fn last_content_length_wins() {
    let (resp, leftover) =
        parse_all(b"HTTP/1.1 200 OK\r\nContent-Length: 2\r\nContent-Length: 4\r\n\r\nabcd")
            .unwrap();
    assert_eq!(resp.body, b"abcd".to_vec());
    assert!(leftover.is_empty());
    assert_eq!(resp.headers.len(), 2);
}

#[test]
fn truncated_body_fails_on_close() {
    let err = parse_all(b"HTTP/1.1 200 OK\r\nContent-Length: 10\r\n\r\nhe").unwrap_err();
    assert_eq!(err.kind, ErrorKind::TruncatedBody);
}

#[test]
fn closed_before_terminator_fails() {
    let err = parse_all(b"HTTP/1.1 200 OK\r\nContent-Len").unwrap_err();
    assert_eq!(err.kind, ErrorKind::TruncatedHeaders);
}

#[test]
fn excess_bytes_belong_to_the_next_message() {
    let (resp, leftover) =
        parse_all(b"HTTP/1.1 200 OK\r\nContent-Length: 2\r\n\r\nabHTTP/1.1 404").unwrap();
    assert_eq!(resp.body, b"ab".to_vec());
    assert_eq!(leftover, b"HTTP/1.1 404".to_vec());
}

#[test]
fn no_content_length_takes_buffered_bytes_as_body() {
    // Deliberate simplification: without Content-Length the body is what
    // arrived together with the header terminator; no further reads.
    let (resp, leftover) = parse_all(b"HTTP/1.1 200 OK\r\n\r\npartial").unwrap();
    assert_eq!(resp.body, b"partial".to_vec());
    assert!(leftover.is_empty());
}

#[test]
fn invalid_utf8_header_value_is_replaced_not_copied() {
    let mut wire = b"HTTP/1.1 200 OK\r\nX-Raw: ".to_vec();
    wire.push(0xFF);
    wire.extend_from_slice(b"\r\nContent-Length: 0\r\n\r\n");
    let (resp, _) = parse_response_bytes(&wire, MAX).unwrap();
    assert_eq!(resp.headers[0].0, "X-Raw");
    assert_eq!(resp.headers[0].1, "\u{FFFD}");
}

#[test]
fn error_messages_name_the_failure() {
    let err = parse_all(b"HTTP/1.1 200 OK\r\nContent-Length: abc\r\n\r\n").unwrap_err();
    assert_eq!(err.message(), "malformed content length");
}
