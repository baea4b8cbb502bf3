use http_server::request::{
    header_end, parse_length, separate_body_from_request, HTTPError, HTTPVersion, Method, Request,
};

fn parse(bytes: &[u8]) -> Request {
    match Request::parse(bytes) {
        Ok(r) => r,
        Err(e) => panic!("parse failed: {:?}", e),
    }
}

#[test]
fn parses_request_line_headers_and_body() {
    let req = parse(b"GET /foo HTTP/1.1\r\nHost: x\r\nContent-Length: 5\r\n\r\nhello");
    assert_eq!(req.get_method(), Method::GET);
    assert_eq!(req.get_target(), "/foo");
    assert_eq!(req.target().as_slice(), b"/foo");
    assert_eq!(req.get_version(), HTTPVersion::HTTP1_1);
    assert_eq!(req.get_body().map(|b| b.as_slice()), Some(&b"hello"[..]));
    assert_eq!(req.get_headers().get(b"host").map(|v| v.as_slice()), Some(&b"x"[..]));
    assert_eq!(req.get_params().len(), 0);
}

#[test]
fn body_bytes_are_kept_raw() {
    let mut bytes = b"GET /up HTTP/1.1\r\nContent-Length: 4\r\n\r\n".to_vec();
    bytes.extend_from_slice(&[0xff, 0x00, 0x80, 0x0d]);
    let req = parse(&bytes);
    assert_eq!(req.get_body().map(|b| b.clone()), Some(vec![0xff, 0x00, 0x80, 0x0d]));
}

#[test]
fn missing_content_length_attaches_no_body() {
    let req = parse(b"GET /foo HTTP/1.1\r\nHost: x\r\n\r\ntrailing bytes");
    assert!(req.get_body().is_none());
    assert_eq!(req.announced_length(), 0);
}

#[test]
fn non_numeric_content_length_attaches_no_body() {
    let req = parse(b"GET / HTTP/1.1\r\nContent-Length: five\r\n\r\nhello");
    assert!(req.get_body().is_none());
}

#[test]
fn body_is_cut_at_announced_length() {
    let req = parse(b"GET / HTTP/1.1\r\nContent-Length: 3\r\n\r\nhello");
    assert_eq!(req.get_body().map(|b| b.as_slice()), Some(&b"hel"[..]));
    assert_eq!(req.announced_length(), 3);
}

#[test]
fn body_shorter_than_announced_keeps_what_is_there() {
    let req = parse(b"GET / HTTP/1.1\r\nContent-Length: 10\r\n\r\nhi");
    assert_eq!(req.get_body().map(|b| b.as_slice()), Some(&b"hi"[..]));
}

#[test]
fn missing_terminator_is_an_error() {
    assert_eq!(
        Request::parse(b"GET /foo HTTP/1.1\r\nHost: x\r\n").err(),
        Some(HTTPError::MissingHeaderTerminator)
    );
    assert_eq!(Request::parse(b"").err(), Some(HTTPError::MissingHeaderTerminator));
}

#[test]
fn short_request_line_is_an_error() {
    assert_eq!(
        Request::parse(b"GET /foo\r\n\r\n").err(),
        Some(HTTPError::MalformedRequestLine)
    );
    assert_eq!(Request::parse(b"\r\n\r\n").err(), Some(HTTPError::MalformedRequestLine));
}

#[test]
fn unknown_method_and_version_are_tagged() {
    let req = parse(b"POST / HTTP/2\r\n\r\n");
    assert_eq!(req.get_method(), Method::UNKNOWN);
    assert_eq!(req.get_version(), HTTPVersion::UNSUPPORTED);
}

#[test]
fn empty_target_becomes_root() {
    let req = parse(b"GET  HTTP/1.1\r\n\r\n");
    assert_eq!(req.get_target(), "/");
    assert_eq!(req.get_version(), HTTPVersion::HTTP1_1);
}

#[test]
fn header_keys_are_lowercased_and_trimmed() {
    let req = parse(b"GET / HTTP/1.1\r\n  X-Thing :   v a l  \r\n\r\n");
    assert_eq!(req.get_headers().get(b"x-thing").map(|v| v.as_slice()), Some(&b"v a l"[..]));
    assert!(req.get_headers().get(b"X-Thing").is_none());
}

#[test]
fn header_splits_at_first_colon() {
    let req = parse(b"GET / HTTP/1.1\r\nHost: localhost:4221\r\n\r\n");
    assert_eq!(
        req.get_headers().get(b"host").map(|v| v.as_slice()),
        Some(&b"localhost:4221"[..])
    );
}

#[test]
fn header_line_without_colon_is_skipped() {
    let req = parse(b"GET / HTTP/1.1\r\nnonsense\r\nA: 1\r\n\r\n");
    assert_eq!(req.get_headers().len(), 1);
    assert_eq!(req.get_headers().get(b"a").map(|v| v.as_slice()), Some(&b"1"[..]));
}

#[test]
fn later_duplicate_header_wins() {
    let req = parse(b"GET / HTTP/1.1\r\nA: 1\r\na: 2\r\n\r\n");
    assert_eq!(req.get_headers().len(), 1);
    assert_eq!(req.get_headers().get(b"a").map(|v| v.as_slice()), Some(&b"2"[..]));
}

#[test]
fn separates_header_block_from_rest() {
    let (head, rest) = separate_body_from_request(b"GET / HTTP/1.1\r\n\r\nabc");
    assert_eq!(head, b"GET / HTTP/1.1\r\n\r\n".to_vec());
    assert_eq!(rest, b"abc".to_vec());
    let (head, rest) = separate_body_from_request(b"GET / HTTP/1.1\r\n");
    assert_eq!(head, b"GET / HTTP/1.1\r\n".to_vec());
    assert!(rest.is_empty());
}

#[test]
fn finds_header_end() {
    assert_eq!(header_end(b"GET / HTTP/1.1\r\n\r\nabc"), Some(14));
    assert_eq!(header_end(b"\r\n\r"), None);
    assert_eq!(header_end(b"\r\n\r\n"), Some(0));
}

#[test]
fn parses_lengths() {
    assert_eq!(parse_length(b"12"), 12);
    assert_eq!(parse_length(b"+12"), 12);
    assert_eq!(parse_length(b"0"), 0);
    assert_eq!(parse_length(b""), 0);
    assert_eq!(parse_length(b"+"), 0);
    assert_eq!(parse_length(b"12a"), 0);
    assert_eq!(parse_length(b"-1"), 0);
    assert_eq!(parse_length(b"18446744073709551615"), usize::MAX);
    assert_eq!(parse_length(b"18446744073709551616"), 0);
}

#[test]
fn header_key_lowercases_unicode_capitals() {
    let req = parse("GET / HTTP/1.1\r\nX-\u{C4}b: 1\r\n\r\n".as_bytes());
    assert_eq!(
        req.get_headers().get("x-\u{E4}b".as_bytes()).map(|v| v.as_slice()),
        Some(&b"1"[..])
    );
}

#[test]
fn header_text_trims_unicode_whitespace() {
    let req = parse("GET / HTTP/1.1\r\n\u{A0}Key\u{2003}:\u{3000}v a\u{85}\u{A0}\r\n\r\n".as_bytes());
    assert_eq!(req.get_headers().get(b"key").map(|v| v.as_slice()), Some(&b"v a"[..]));
}

#[test]
fn non_utf8_header_key_lowercases_ascii() {
    let req = parse(b"GET / HTTP/1.1\r\nK\xff: 1\r\n\r\n");
    assert_eq!(req.get_headers().get(b"k\xff").map(|v| v.as_slice()), Some(&b"1"[..]));
}
