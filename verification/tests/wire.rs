use http1_client::serialize::serialize_request;
use http1_client::{ErrorKind, Request};

fn base_request(method: &[u8], target: &[u8], body: &[u8]) -> Request {
    Request {
        method: method.to_vec(),
        target: target.to_vec(),
        version: b"HTTP/1.1".to_vec(),
        headers: Vec::new(),
        body: body.to_vec(),
    }
}

fn contains(haystack: &[u8], needle: &[u8]) -> bool {
    haystack.windows(needle.len()).any(|w| w == needle)
}

#[test]
fn get_request_exact_bytes() {
    let req = base_request(b"GET", b"/path", b"");
    let bytes = serialize_request(&req, b"h").unwrap();
    assert_eq!(bytes, b"GET /path HTTP/1.1\r\nHost: h\r\n\r\n".to_vec());
}

#[test]
fn empty_body_has_no_content_length() {
    let mut req = base_request(b"GET", b"/", b"");
    req.headers.push((b"Accept".to_vec(), b"*/*".to_vec()));
    let bytes = serialize_request(&req, b"example.test").unwrap();
    assert!(!contains(&bytes, b"Content-Length"));
}

#[test]
fn post_body_carries_content_length_and_ends_with_body() {
    let req = base_request(b"POST", b"/submit", b"abc");
    let bytes = serialize_request(&req, b"h").unwrap();
    assert!(contains(&bytes, b"Content-Length: 3\r\n"));
    assert!(bytes.ends_with(b"abc"));
}

#[test]
fn headers_keep_order_and_duplicates() {
    let mut req = base_request(b"GET", b"/", b"");
    req.headers.push((b"X-One".to_vec(), b"a".to_vec()));
    req.headers.push((b"X-Two".to_vec(), b"b".to_vec()));
    req.headers.push((b"X-One".to_vec(), b"c".to_vec()));
    let bytes = serialize_request(&req, b"h").unwrap();
    let expected = b"GET / HTTP/1.1\r\nHost: h\r\nX-One: a\r\nX-Two: b\r\nX-One: c\r\n\r\n";
    assert_eq!(bytes, expected.to_vec());
}

#[test]
fn header_value_with_cr_is_rejected() {
    let mut req = base_request(b"GET", b"/", b"");
    req.headers.push((b"X-Evil".to_vec(), b"a\rb".to_vec()));
    let err = serialize_request(&req, b"h").unwrap_err();
    assert_eq!(err.kind, ErrorKind::Encoding);
}

#[test]
fn header_value_with_lf_is_rejected() {
    let mut req = base_request(b"GET", b"/", b"");
    req.headers.push((b"X-Evil".to_vec(), b"a\nInjected: yes".to_vec()));
    let err = serialize_request(&req, b"h").unwrap_err();
    assert_eq!(err.kind, ErrorKind::Encoding);
}

#[test]
fn large_body_length_is_decimal() {
    let req = base_request(b"POST", b"/", &vec![0u8; 1234]);
    let bytes = serialize_request(&req, b"h").unwrap();
    assert!(contains(&bytes, b"Content-Length: 1234\r\n"));
}

#[test]
fn default_request_is_bare_get() {
    let req = Request::default();
    assert_eq!(req.method, b"GET".to_vec());
    assert_eq!(req.target, b"/".to_vec());
    assert!(req.headers.is_empty());
    assert!(req.body.is_empty());
}
