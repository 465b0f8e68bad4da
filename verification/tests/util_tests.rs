use site_server::dec::{format_i64, format_u64, format_usize, parse_u64, parse_usize};
use site_server::response::{internal_server_error, service_unavailable};

#[test]
fn format_decimal() {
    assert_eq!(format_u64(0), b"0".to_vec());
    assert_eq!(format_u64(7), b"7".to_vec());
    assert_eq!(format_u64(1024), b"1024".to_vec());
    assert_eq!(format_u64(u64::MAX), b"18446744073709551615".to_vec());
    assert_eq!(format_usize(500), b"500".to_vec());
    assert_eq!(format_i64(-42), b"-42".to_vec());
    assert_eq!(format_i64(0), b"0".to_vec());
    assert_eq!(format_i64(i64::MIN), b"-9223372036854775808".to_vec());
    assert_eq!(format_i64(i64::MAX), b"9223372036854775807".to_vec());
}

#[test]
fn parse_decimal() {
    assert_eq!(parse_u64(&b"0".to_vec()), Some(0));
    assert_eq!(parse_u64(&b"00099".to_vec()), Some(99));
    assert_eq!(parse_u64(&b"18446744073709551615".to_vec()), Some(u64::MAX));
    assert_eq!(parse_u64(&b"18446744073709551616".to_vec()), None);
    assert_eq!(parse_u64(&b"".to_vec()), None);
    assert_eq!(parse_u64(&b"12a".to_vec()), None);
    assert_eq!(parse_u64(&b"-1".to_vec()), None);
    assert_eq!(parse_usize(&b"500".to_vec()), Some(500));
}

#[test]
fn fixed_error_responses() {
    let r = internal_server_error();
    assert_eq!(r.status, 500);
    assert_eq!(
        r.body.to_vec(),
        b"<html><body><h1>500 Internal Server Error</h1></body></html>".to_vec()
    );
    let r = service_unavailable();
    assert_eq!(r.status, 503);
    assert_eq!(
        r.body.to_vec(),
        b"<html><body><h1>503 Service Unavailable</h1></body></html>".to_vec()
    );
    let bytes = r.serialize();
    let text = String::from_utf8(bytes).unwrap();
    assert!(text.starts_with("HTTP/1.1 503 Service Unavailable\r\n"));
    assert!(text.contains("Content-Length: 58\r\n"));
}
