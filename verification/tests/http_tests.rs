use site_server::request::Request;
use site_server::response::{status_to_message, Response, ResponseBody, SliceBody};

fn parse(data: &[u8]) -> Option<Request> {
    Request::parse(&data.to_vec())
}

#[test]
fn parse_simple_get() {
    let req = parse(b"GET / HTTP/1.1\r\nHost: example\r\n\r\n").unwrap();
    assert_eq!(req.method, b"GET".to_vec());
    assert_eq!(req.path, b"/".to_vec());
    assert_eq!(req.version_major, 1);
    assert_eq!(req.version_minor, 1);
    assert_eq!(req.headers.len(), 1);
    assert_eq!(req.headers[0], b"Host: example".to_vec());
    assert_eq!(req.body, b"".to_vec());
}

#[test]
fn parse_post_with_body() {
    let req = parse(b"POST /api/review_ratings HTTP/1.1\r\nContent-Length: 26\r\n\r\n{\"id\":5,\"positive\":true}").unwrap();
    assert_eq!(req.method, b"POST".to_vec());
    assert_eq!(req.path, b"/api/review_ratings".to_vec());
    assert_eq!(req.body, b"{\"id\":5,\"positive\":true}".to_vec());
}

#[test]
fn parse_no_headers() {
    let req = parse(b"GET /x HTTP/1.1\r\n\r\n").unwrap();
    assert_eq!(req.headers.len(), 0);
    assert_eq!(req.path, b"/x".to_vec());
}

#[test]
fn parse_rejects_incomplete_head() {
    assert!(parse(b"").is_none());
    assert!(parse(b"GET / HTTP/1.1").is_none());
    assert!(parse(b"GET / HTTP/1.1\r\n").is_none());
}

#[test]
fn parse_rejects_short_request_line() {
    assert!(parse(b"GET /\r\n\r\n").is_none());
    assert!(parse(b"GET\r\n\r\n").is_none());
}

#[test]
fn parse_rejects_non_text_head() {
    // An invalid UTF-8 byte anywhere in the head is a parse failure.
    assert!(parse(b"GET /\xFF HTTP/1.1\r\n\r\n").is_none());
    assert!(parse(b"GET / HTTP/1.1\r\nX: \xC3\x28\r\n\r\n").is_none());
    // A multi-byte UTF-8 sequence in the head is fine.
    let req = parse(b"GET /caf\xC3\xA9 HTTP/1.1\r\n\r\n").unwrap();
    assert_eq!(req.path, b"/caf\xC3\xA9".to_vec());
}

#[test]
fn parse_body_stays_raw_bytes() {
    // The body after the blank line is raw and may hold any bytes.
    let req = parse(b"POST /x HTTP/1.1\r\n\r\n\xFF\x00\xFE").unwrap();
    assert_eq!(req.body, b"\xFF\x00\xFE".to_vec());
}

#[test]
fn parse_rejects_bad_version() {
    assert!(parse(b"GET / HTTPX1.1\r\n\r\n").is_none());
    assert!(parse(b"GET / HTTP/one.two\r\n\r\n").is_none());
    assert!(parse(b"GET / HTTP/11\r\n\r\n").is_none());
    assert!(parse(b"GET / HTTP/999.1\r\n\r\n").is_none());
}

#[test]
fn parse_ignores_trailing_request_line_token() {
    let req = parse(b"GET / HTTP/1.1 junk\r\n\r\n").unwrap();
    assert_eq!(req.version_major, 1);
    assert_eq!(req.version_minor, 1);
}

#[test]
fn get_header_first_match_exact_name() {
    let req = parse(
        b"GET / HTTP/1.1\r\nAccept: a\r\nX-Accept: b\r\nAccept: c\r\n\r\n",
    )
    .unwrap();
    assert_eq!(req.get_header(&b"Accept".to_vec()), Some(b"a".to_vec()));
    assert_eq!(req.get_header(&b"X-Accept".to_vec()), Some(b"b".to_vec()));
    assert_eq!(req.get_header(&b"Missing".to_vec()), None);
}

#[test]
fn get_header_value_may_hold_separator() {
    let req = parse(b"GET / HTTP/1.1\r\nA: b: c\r\n\r\n").unwrap();
    assert_eq!(req.get_header(&b"A".to_vec()), Some(b"b: c".to_vec()));
}

#[test]
fn status_messages() {
    assert_eq!(status_to_message(200), "OK");
    assert_eq!(status_to_message(206), "Partial Content");
    assert_eq!(status_to_message(400), "Bad Request");
    assert_eq!(status_to_message(404), "Not Found");
    assert_eq!(status_to_message(500), "Internal Server Error");
    assert_eq!(status_to_message(503), "Service Unavailable");
    assert_eq!(status_to_message(999), "Internal Server Error");
}

#[test]
fn serialize_empty_response() {
    let r = Response::new();
    let bytes = r.serialize();
    assert_eq!(
        bytes,
        b"HTTP/1.1 200 OK\r\nServer: site-3ds\r\nContent-Type: text/plain\r\nContent-Length: 0\r\n\r\n".to_vec()
    );
}

#[test]
fn serialize_with_body_and_headers() {
    let mut r = Response::new();
    r.status = 404;
    r.content_type = b"text/html".to_vec();
    r.headers.push(b"Accept-Ranges: bytes".to_vec());
    r.body = ResponseBody::Owned(b"hello".to_vec());
    let bytes = r.serialize();
    assert_eq!(
        bytes,
        b"HTTP/1.1 404 Not Found\r\nServer: site-3ds\r\nContent-Type: text/html\r\nContent-Length: 5\r\nAccept-Ranges: bytes\r\n\r\nhello".to_vec()
    );
}

#[test]
fn serialize_honors_content_length_override() {
    let mut r = Response::new();
    r.content_length_override = Some(42);
    r.body = ResponseBody::Empty;
    let bytes = r.serialize();
    assert_eq!(
        bytes,
        b"HTTP/1.1 200 OK\r\nServer: site-3ds\r\nContent-Type: text/plain\r\nContent-Length: 42\r\n\r\n".to_vec()
    );
}

#[test]
fn body_len_over_variants() {
    assert_eq!(ResponseBody::Empty.len(), 0);
    assert_eq!(ResponseBody::Full(b"abcd".to_vec()).len(), 4);
    assert_eq!(ResponseBody::Owned(b"ab".to_vec()).len(), 2);
    let s = ResponseBody::Slice(SliceBody { data: b"abcdef".to_vec(), start: 2, end: 5 });
    assert_eq!(s.len(), 3);
    assert_eq!(s.to_vec(), b"cde".to_vec());
}

#[test]
fn body_chunks() {
    let b = ResponseBody::Full(b"abcdefg".to_vec());
    let chunks = b.chunks(3);
    assert_eq!(chunks.len(), 3);
    assert_eq!(chunks[0], b"abc".to_vec());
    assert_eq!(chunks[1], b"def".to_vec());
    assert_eq!(chunks[2], b"g".to_vec());
    let none = ResponseBody::Empty.chunks(3);
    assert_eq!(none.len(), 0);
}
