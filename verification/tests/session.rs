use http1_client::client::{port_for, send_request};
use http1_client::serialize::serialize_request;
use http1_client::{ErrorKind, Request, Session};

const MAX: usize = 8192;

fn get(target: &[u8]) -> Request {
    Request {
        method: b"GET".to_vec(),
        target: target.to_vec(),
        version: b"HTTP/1.1".to_vec(),
        headers: Vec::new(),
        body: Vec::new(),
    }
}

#[test]
fn one_cycle_round_trip() {
    let mut s = Session::new();
    s.deliver(b"HTTP/1.1 200 OK\r\nContent-Length: 5\r\n\r\nhello");
    let resp = send_request(&mut s, &get(b"/x"), b"h", MAX).unwrap();
    assert_eq!(resp.status_code, 200);
    assert_eq!(resp.body, b"hello".to_vec());
    assert_eq!(
        s.transcript(),
        &b"GET /x HTTP/1.1\r\nHost: h\r\n\r\n".to_vec()
    );
    assert!(!s.is_poisoned());
}

#[test]
fn sequential_cycles_never_interleave() {
    let mut s = Session::new();
    s.deliver(b"HTTP/1.1 200 OK\r\nContent-Length: 1\r\n\r\na");
    s.deliver(b"HTTP/1.1 201 Created\r\nContent-Length: 1\r\n\r\nb");

    let r1 = get(b"/one");
    let r2 = get(b"/two");
    let w1 = serialize_request(&r1, b"h").unwrap();
    let w2 = serialize_request(&r2, b"h").unwrap();

    let resp1 = send_request(&mut s, &r1, b"h", MAX).unwrap();
    let after_first = s.transcript().clone();
    let resp2 = send_request(&mut s, &r2, b"h", MAX).unwrap();
    let after_second = s.transcript().clone();

    assert_eq!(resp1.status_code, 200);
    assert_eq!(resp2.status_code, 201);
    // Cycle one's bytes form one contiguous block, fully written before
    // any byte of cycle two appears.
    assert_eq!(after_first, w1);
    assert_eq!(after_second[..w1.len()], w1[..]);
    assert_eq!(after_second[w1.len()..], w2[..]);
    assert_eq!(after_second.len(), w1.len() + w2.len());
}

#[test]
fn leftover_bytes_serve_the_next_cycle() {
    let mut s = Session::new();
    // Both responses arrive inside one delivery; the tail of the first
    // read belongs to the second message.
    s.deliver(b"HTTP/1.1 200 OK\r\nContent-Length: 1\r\n\r\naHTTP/1.1 202 Accepted\r\nContent-Length: 2\r\n\r\nbc");
    let resp1 = send_request(&mut s, &get(b"/1"), b"h", MAX).unwrap();
    assert_eq!(resp1.status_code, 200);
    assert_eq!(resp1.body, b"a".to_vec());
    let resp2 = send_request(&mut s, &get(b"/2"), b"h", MAX).unwrap();
    assert_eq!(resp2.status_code, 202);
    assert_eq!(resp2.body, b"bc".to_vec());
}

#[test]
fn protocol_failure_poisons_the_session() {
    let mut s = Session::new();
    s.deliver(b"HTTP/1.1 200 OK\r\nContent-Length: 9\r\n\r\nab");
    let err = send_request(&mut s, &get(b"/"), b"h", MAX).unwrap_err();
    assert_eq!(err.kind, ErrorKind::TruncatedBody);
    assert!(s.is_poisoned());
}

#[test]
fn poisoned_session_fails_fast() {
    let mut s = Session::new();
    s.poison();
    let before = s.transcript().clone();
    let err = send_request(&mut s, &get(b"/"), b"h", MAX).unwrap_err();
    assert_eq!(err.kind, ErrorKind::Io);
    assert_eq!(s.transcript(), &before);
}

#[test]
fn encoding_error_leaves_session_usable() {
    let mut s = Session::new();
    s.deliver(b"HTTP/1.1 200 OK\r\nContent-Length: 0\r\n\r\n");
    let mut bad = get(b"/");
    bad.headers.push((b"X".to_vec(), b"a\r\nb".to_vec()));
    let err = send_request(&mut s, &bad, b"h", MAX).unwrap_err();
    assert_eq!(err.kind, ErrorKind::Encoding);
    assert!(!s.is_poisoned());
    assert!(s.transcript().is_empty());
    // The same session still completes a clean cycle.
    let resp = send_request(&mut s, &get(b"/"), b"h", MAX).unwrap();
    assert_eq!(resp.status_code, 200);
}

#[test]
fn peer_close_before_headers_fails() {
    let mut s = Session::new();
    s.deliver(b"HTTP/1.1 200 OK\r\nContent-");
    let err = send_request(&mut s, &get(b"/"), b"h", MAX).unwrap_err();
    assert_eq!(err.kind, ErrorKind::TruncatedHeaders);
    assert!(s.is_poisoned());
}

#[test]
fn read_chunk_respects_max_and_signals_close() {
    let mut s = Session::new();
    s.deliver(b"abcdef");
    let c1 = s.read_chunk(4).unwrap();
    assert_eq!(c1, b"abcd".to_vec());
    let c2 = s.read_chunk(4).unwrap();
    assert_eq!(c2, b"ef".to_vec());
    let c3 = s.read_chunk(4).unwrap();
    assert!(c3.is_empty());
}

#[test]
fn unread_prepends_bytes() {
    let mut s = Session::new();
    s.deliver(b"cd");
    s.unread(b"ab");
    let c = s.read_chunk(10).unwrap();
    assert_eq!(c, b"abcd".to_vec());
}

#[test]
fn write_all_appends_to_transcript() {
    let mut s = Session::new();
    s.write_all(b"one").unwrap();
    s.write_all(b"two").unwrap();
    assert_eq!(s.transcript(), &b"onetwo".to_vec());
}

#[test]
fn port_follows_scheme_unless_explicit() {
    assert_eq!(port_for(None, true), 443);
    assert_eq!(port_for(None, false), 80);
    assert_eq!(port_for(Some(8443), true), 8443);
    assert_eq!(port_for(Some(8080), false), 8080);
}
