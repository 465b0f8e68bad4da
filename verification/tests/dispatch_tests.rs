use site_server::assets::ServeRequest;
use site_server::api::route as api_route;
use site_server::ip::{parse_ipv4, parse_ipv6};
use site_server::dispatch::route;
use site_server::request::Request;
use site_server::store::{Database, StoredIp};

fn req(method: &[u8], path: &[u8], headers: &[&[u8]], body: &[u8]) -> Request {
    Request {
        method: method.to_vec(),
        path: path.to_vec(),
        version_major: 1,
        version_minor: 1,
        headers: headers.iter().map(|h| h.to_vec()).collect(),
        body: body.to_vec(),
    }
}

fn assets() -> Vec<ServeRequest> {
    vec![
        ServeRequest {
            method: b"GET".to_vec(),
            path: b"/index.html".to_vec(),
            content_type: b"text/html".to_vec(),
            body: b"<html>home</html>".to_vec(),
            body_deflate: None,
            body_gzip: None,
            body_br: None,
            body_zstd: None,
        },
        ServeRequest {
            method: b"GET".to_vec(),
            path: b"/style.css".to_vec(),
            content_type: b"text/css".to_vec(),
            body: b"body{}".to_vec(),
            body_deflate: None,
            body_gzip: None,
            body_br: None,
            body_zstd: None,
        },
    ]
}

const PEER: StoredIp = StoredIp::V4(7);

#[test]
fn root_serves_the_first_asset() {
    let mut db = Database::default();
    let r = route(&req(b"GET", b"/", &[], b""), &assets(), &mut db, PEER, 0);
    assert_eq!(r.status, 200);
    assert_eq!(r.body.to_vec(), b"<html>home</html>".to_vec());
    assert_eq!(r.content_type, b"text/html".to_vec());
}

#[test]
fn asset_scan_matches_path_and_method() {
    let mut db = Database::default();
    let r = route(&req(b"GET", b"/style.css", &[], b""), &assets(), &mut db, PEER, 0);
    assert_eq!(r.status, 200);
    assert_eq!(r.body.to_vec(), b"body{}".to_vec());
}

#[test]
fn head_falls_back_to_headers_only() {
    let mut db = Database::default();
    let r = route(&req(b"HEAD", b"/style.css", &[], b""), &assets(), &mut db, PEER, 0);
    assert_eq!(r.status, 200);
    assert_eq!(r.content_length_override, Some(6));
    assert_eq!(r.body.to_vec(), b"".to_vec());
}

#[test]
fn unknown_path_is_404_with_fixed_page() {
    let mut db = Database::default();
    let r = route(&req(b"GET", b"/missing", &[], b""), &assets(), &mut db, PEER, 0);
    assert_eq!(r.status, 404);
    assert_eq!(r.content_type, b"text/html".to_vec());
    assert_eq!(
        r.body.to_vec(),
        b"<html><body><h1>404 Not Found</h1></body></html>".to_vec()
    );
}

#[test]
fn method_mismatch_without_head_is_404() {
    let mut db = Database::default();
    let r = route(&req(b"POST", b"/style.css", &[], b""), &assets(), &mut db, PEER, 0);
    assert_eq!(r.status, 404);
}

#[test]
fn ratings_read_is_idempotent() {
    let mut db = Database::default();
    db.add_review_rating(5, 1, 0);
    db.add_review_rating(9, -1, 0);
    let q = req(b"GET", b"/api/review_ratings", &[], b"");
    let r1 = api_route(&q, &mut db, PEER, 1).unwrap();
    let r2 = api_route(&q, &mut db, PEER, 2).unwrap();
    assert_eq!(r1.status, 200);
    assert_eq!(r1.body.to_vec(), r2.body.to_vec());
    assert_eq!(
        r1.body.to_vec(),
        b"{\"data\":{\"review_ratings\":{\"5\":1,\"9\":-1}}}".to_vec()
    );
}

#[test]
fn post_then_read_moves_by_one() {
    let mut db = Database::default();
    db.add_review_rating(5, 41, 0);
    let post = req(
        b"POST",
        b"/api/review_ratings",
        &[],
        b"{\"id\":5,\"positive\":true}",
    );
    let r = api_route(&post, &mut db, PEER, 1).unwrap();
    assert_eq!(r.status, 200);
    assert_eq!(r.body.to_vec(), b"{\"data\":{\"id\":5,\"rating\":42}}".to_vec());
    assert_eq!(db.get_review_rating(5), 42);
    let post_neg = req(
        b"POST",
        b"/api/review_ratings",
        &[],
        b"{\"id\":5,\"positive\":false}",
    );
    let r = api_route(&post_neg, &mut db, PEER, 2).unwrap();
    assert_eq!(r.body.to_vec(), b"{\"data\":{\"id\":5,\"rating\":41}}".to_vec());
    assert_eq!(db.get_review_rating(5), 41);
}

#[test]
fn post_accepts_members_in_either_order_and_whitespace() {
    let mut db = Database::default();
    let post = req(
        b"POST",
        b"/api/review_ratings",
        &[],
        b" { \"positive\" : true , \"id\" : 3 } ",
    );
    let r = api_route(&post, &mut db, PEER, 1).unwrap();
    assert_eq!(r.status, 200);
    assert_eq!(db.get_review_rating(3), 1);
    // A zero id is a single digit, not a leading zero.
    let post = req(b"POST", b"/api/review_ratings", &[], b"{\"id\":0,\"positive\":true}");
    let r = api_route(&post, &mut db, PEER, 2).unwrap();
    assert_eq!(r.status, 200);
    assert_eq!(db.get_review_rating(0), 1);
}

#[test]
fn malformed_post_body_is_400() {
    let mut db = Database::default();
    db.add_review_rating(5, 3, 0);
    for bad in [
        b"".as_slice(),
        b"{}",
        b"{\"id\":5}",
        b"{\"id\":999,\"positive\":true}",
        b"{\"id\":5,\"positive\":maybe}",
        b"{\"id\":5,\"id\":6}",
        b"{\"id\":05,\"positive\":true}",
        b"{\"id\":5,\"positive\":true,\"extra\":1}",
        b"not json",
    ] {
        let post = req(b"POST", b"/api/review_ratings", &[], bad);
        let r = api_route(&post, &mut db, PEER, 1).unwrap();
        assert_eq!(r.status, 400);
        assert_eq!(
            r.body.to_vec(),
            b"{\"message\":\"Invalid request body\"}".to_vec()
        );
    }
    // Nothing was mutated by the rejected bodies.
    assert_eq!(db.get_review_rating(5), 3);
    assert_eq!(db.get_review_ratings().len(), 1);
}

#[test]
fn visits_endpoint_counts_and_reports() {
    let mut db = Database::default();
    let q = req(b"GET", b"/api/visits", &[], b"");
    let r = api_route(&q, &mut db, PEER, 1).unwrap();
    assert_eq!(r.body.to_vec(), b"{\"data\":{\"visits\":1}}".to_vec());
    // The same peer again: the counter holds.
    let r = api_route(&q, &mut db, PEER, 2).unwrap();
    assert_eq!(r.body.to_vec(), b"{\"data\":{\"visits\":1}}".to_vec());
    // A forwarded address counts as a distinct visitor.
    let q2 = req(b"GET", b"/api/visits", &[b"X-Forwarded-For: 10.0.0.1"], b"");
    let r = api_route(&q2, &mut db, PEER, 3).unwrap();
    assert_eq!(r.body.to_vec(), b"{\"data\":{\"visits\":2}}".to_vec());
    // A malformed forwarded address falls back to the peer.
    let q3 = req(b"GET", b"/api/visits", &[b"X-Forwarded-For: junk"], b"");
    let r = api_route(&q3, &mut db, PEER, 4).unwrap();
    assert_eq!(r.body.to_vec(), b"{\"data\":{\"visits\":2}}".to_vec());
}

#[test]
fn unknown_api_path_falls_through_to_404() {
    let mut db = Database::default();
    let r = route(&req(b"GET", b"/api/unknown", &[], b""), &assets(), &mut db, PEER, 0);
    assert_eq!(r.status, 404);
}

#[test]
fn parse_ipv4_values() {
    assert_eq!(parse_ipv4(&b"10.0.0.1".to_vec()), Some(10 * 16777216 + 1));
    assert_eq!(parse_ipv4(&b"255.255.255.255".to_vec()), Some(u32::MAX));
    assert_eq!(parse_ipv4(&b"0.0.0.0".to_vec()), Some(0));
    assert_eq!(parse_ipv4(&b"1.2.3".to_vec()), None);
    assert_eq!(parse_ipv4(&b"1.2.3.4.5".to_vec()), None);
    assert_eq!(parse_ipv4(&b"256.0.0.1".to_vec()), None);
    assert_eq!(parse_ipv4(&b"a.b.c.d".to_vec()), None);
    // Leading-zero octets are rejected, as std's parser rejects them.
    assert_eq!(parse_ipv4(&b"010.0.0.1".to_vec()), None);
    assert_eq!(parse_ipv4(&b"1.2.3.04".to_vec()), None);
}

#[test]
fn parse_ipv6_values() {
    assert_eq!(parse_ipv6(&b"::".to_vec()), Some(0));
    assert_eq!(parse_ipv6(&b"::1".to_vec()), Some(1));
    assert_eq!(
        parse_ipv6(&b"1:2:3:4:5:6:7:8".to_vec()),
        Some(0x0001_0002_0003_0004_0005_0006_0007_0008)
    );
    assert_eq!(
        parse_ipv6(&b"2001:db8::1".to_vec()),
        Some(0x2001_0db8_0000_0000_0000_0000_0000_0001)
    );
    assert_eq!(
        parse_ipv6(&b"1:2:3:4:5:6:7::".to_vec()),
        Some(0x0001_0002_0003_0004_0005_0006_0007_0000)
    );
    assert_eq!(
        parse_ipv6(&b"::ffff:192.168.0.1".to_vec()),
        Some(0xffff_c0a8_0001)
    );
    assert_eq!(
        parse_ipv6(&b"FE80::ABcd".to_vec()),
        Some(0xfe80_0000_0000_0000_0000_0000_0000_abcd)
    );
    assert_eq!(parse_ipv6(&b"".to_vec()), None);
    assert_eq!(parse_ipv6(&b"1:2:3".to_vec()), None);
    assert_eq!(parse_ipv6(&b"1::2::3".to_vec()), None);
    assert_eq!(parse_ipv6(&b":::".to_vec()), None);
    assert_eq!(parse_ipv6(&b"12345::".to_vec()), None);
    assert_eq!(parse_ipv6(&b"1:2:3:4:5:6:7:8:9".to_vec()), None);
    assert_eq!(parse_ipv6(&b"1:2:3:4:5:6:7:8::".to_vec()), None);
    assert_eq!(parse_ipv6(&b"g::1".to_vec()), None);
    assert_eq!(parse_ipv6(&b"1.2.3.4::".to_vec()), None);
    assert_eq!(parse_ipv6(&b"::1.2.3.999".to_vec()), None);
}

#[test]
fn forwarded_ipv6_counts_as_distinct_visitor() {
    let mut db = Database::default();
    let q = req(b"GET", b"/api/visits", &[b"X-Forwarded-For: ::1"], b"");
    let r = api_route(&q, &mut db, PEER, 1).unwrap();
    assert_eq!(r.body.to_vec(), b"{\"data\":{\"visits\":1}}".to_vec());
    assert!(db.visit_history.iter().any(|e| e.0 == StoredIp::V6(1)));
    // The peer itself is a further distinct visitor.
    let q2 = req(b"GET", b"/api/visits", &[], b"");
    let r = api_route(&q2, &mut db, PEER, 2).unwrap();
    assert_eq!(r.body.to_vec(), b"{\"data\":{\"visits\":2}}".to_vec());
}
