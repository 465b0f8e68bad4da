use site_server::assets::ServeRequest;
use site_server::request::Request;

fn asset_with(body: Vec<u8>, gzip: Option<Vec<u8>>) -> ServeRequest {
    ServeRequest {
        method: b"GET".to_vec(),
        path: b"/style.css".to_vec(),
        content_type: b"text/css".to_vec(),
        body,
        body_deflate: None,
        body_gzip: gzip,
        body_br: None,
        body_zstd: None,
    }
}

fn get_request(headers: &[&[u8]]) -> Request {
    Request {
        method: b"GET".to_vec(),
        path: b"/style.css".to_vec(),
        version_major: 1,
        version_minor: 1,
        headers: headers.iter().map(|h| h.to_vec()).collect(),
        body: Vec::new(),
    }
}

fn header_value(resp: &site_server::response::Response, name: &str) -> Option<Vec<u8>> {
    for h in &resp.headers {
        let prefix = format!("{}: ", name).into_bytes();
        if h.len() >= prefix.len() && h[..prefix.len()] == prefix[..] {
            return Some(h[prefix.len()..].to_vec());
        }
    }
    None
}

#[test]
fn raw_body_without_accept_encoding() {
    let asset = asset_with(b"raw-raw-raw-raw".to_vec(), Some(b"gz".to_vec()));
    let req = get_request(&[]);
    let resp = asset.create_response(&req);
    assert_eq!(resp.status, 200);
    assert_eq!(resp.body.to_vec(), b"raw-raw-raw-raw".to_vec());
    assert!(header_value(&resp, "Content-Encoding").is_none());
    assert_eq!(header_value(&resp, "Accept-Ranges"), Some(b"bytes".to_vec()));
}

#[test]
fn gzip_chosen_when_accepted_and_smaller() {
    let asset = asset_with(b"raw-raw-raw-raw".to_vec(), Some(b"gz".to_vec()));
    let req = get_request(&[b"Accept-Encoding: gzip, deflate"]);
    let resp = asset.create_response(&req);
    assert_eq!(resp.status, 200);
    assert_eq!(resp.body.to_vec(), b"gz".to_vec());
    assert_eq!(header_value(&resp, "Content-Encoding"), Some(b"gzip".to_vec()));
}

#[test]
fn larger_variant_is_not_chosen() {
    let asset = asset_with(b"ab".to_vec(), Some(b"bigger-than-raw".to_vec()));
    let req = get_request(&[b"Accept-Encoding: gzip"]);
    let resp = asset.create_response(&req);
    assert_eq!(resp.body.to_vec(), b"ab".to_vec());
    assert!(header_value(&resp, "Content-Encoding").is_none());
}

#[test]
fn smallest_accepted_variant_wins() {
    let asset = ServeRequest {
        method: b"GET".to_vec(),
        path: b"/a".to_vec(),
        content_type: b"text/plain".to_vec(),
        body: b"0123456789".to_vec(),
        body_deflate: Some(b"123".to_vec()),
        body_gzip: Some(b"12345".to_vec()),
        body_br: Some(b"1234".to_vec()),
        body_zstd: None,
    };
    let req = get_request(&[b"Accept-Encoding: gzip, deflate, br, zstd"]);
    let resp = asset.create_response(&req);
    assert_eq!(resp.body.to_vec(), b"123".to_vec());
    assert_eq!(header_value(&resp, "Content-Encoding"), Some(b"deflate".to_vec()));
}

#[test]
fn range_of_five_hundred_byte_asset() {
    let mut body = Vec::new();
    for i in 0..500u32 {
        body.push((i % 251) as u8);
    }
    let asset = asset_with(body.clone(), None);
    let req = get_request(&[b"Range: bytes=0-99"]);
    let resp = asset.create_response(&req);
    assert_eq!(resp.status, 206);
    assert_eq!(
        header_value(&resp, "Content-Range"),
        Some(b"bytes 0-99/500".to_vec())
    );
    let served = resp.body.to_vec();
    assert_eq!(served.len(), 100);
    assert_eq!(served[..], body[0..100]);
}

#[test]
fn open_ended_range_takes_the_tail() {
    let asset = asset_with(b"abcdefghij".to_vec(), None);
    let req = get_request(&[b"Range: bytes=6-"]);
    let resp = asset.create_response(&req);
    assert_eq!(resp.status, 206);
    assert_eq!(resp.body.to_vec(), b"ghij".to_vec());
    assert_eq!(
        header_value(&resp, "Content-Range"),
        Some(b"bytes 6-9/10".to_vec())
    );
}

#[test]
fn suffix_range_drops_the_tail() {
    let asset = asset_with(b"abcdefghij".to_vec(), None);
    let req = get_request(&[b"Range: bytes=-4"]);
    let resp = asset.create_response(&req);
    assert_eq!(resp.status, 206);
    assert_eq!(resp.body.to_vec(), b"abcdef".to_vec());
}

#[test]
fn out_of_range_values_fall_back() {
    let asset = asset_with(b"abcde".to_vec(), None);
    // An end past the body falls back to the body length.
    let req = get_request(&[b"Range: bytes=3-900"]);
    let resp = asset.create_response(&req);
    assert_eq!(resp.status, 206);
    assert_eq!(resp.body.to_vec(), b"de".to_vec());
    // A start past the body falls back to zero.
    let req = get_request(&[b"Range: bytes=900-4"]);
    let resp = asset.create_response(&req);
    assert_eq!(resp.body.to_vec(), b"abcde".to_vec());
    assert_eq!(header_value(&resp, "Content-Range"), Some(b"bytes 0-4/5".to_vec()));
    // An end before the start falls back to the body length.
    let req = get_request(&[b"Range: bytes=3-1"]);
    let resp = asset.create_response(&req);
    assert_eq!(resp.body.to_vec(), b"de".to_vec());
    assert_eq!(header_value(&resp, "Content-Range"), Some(b"bytes 3-4/5".to_vec()));
}

#[test]
fn empty_span_at_the_body_end() {
    let asset = asset_with(b"abcde".to_vec(), None);
    let req = get_request(&[b"Range: bytes=5-"]);
    let resp = asset.create_response(&req);
    assert_eq!(resp.status, 206);
    assert_eq!(resp.body.to_vec(), b"".to_vec());
    // The last byte shown is one before the span start.
    assert_eq!(header_value(&resp, "Content-Range"), Some(b"bytes 5-4/5".to_vec()));
}

#[test]
fn suffix_longer_than_the_body_empties_the_span() {
    let asset = asset_with(b"abcde".to_vec(), None);
    let req = get_request(&[b"Range: bytes=-600"]);
    let resp = asset.create_response(&req);
    assert_eq!(resp.status, 206);
    assert_eq!(resp.body.to_vec(), b"".to_vec());
    // The empty span at position zero shows the formula's minus-one literally.
    assert_eq!(header_value(&resp, "Content-Range"), Some(b"bytes 0--1/5".to_vec()));
}

#[test]
fn non_numeric_range_falls_back() {
    let asset = asset_with(b"abcde".to_vec(), None);
    let req = get_request(&[b"Range: bytes=x-y"]);
    let resp = asset.create_response(&req);
    assert_eq!(resp.status, 206);
    assert_eq!(resp.body.to_vec(), b"abcde".to_vec());
}

#[test]
fn head_resolution_announces_length_with_empty_body() {
    let asset = asset_with(b"abcdefghij".to_vec(), None);
    let req = get_request(&[]);
    let resp = asset.create_head_response(&req);
    assert_eq!(resp.status, 200);
    assert_eq!(resp.content_length_override, Some(10));
    assert_eq!(resp.body.to_vec(), b"".to_vec());
    let bytes = resp.serialize();
    let text = String::from_utf8(bytes).unwrap();
    assert!(text.contains("Content-Length: 10"));
    assert!(text.ends_with("\r\n\r\n"));
}
