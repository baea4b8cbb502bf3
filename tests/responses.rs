use http_server::byte_map::ByteMap;
use http_server::connection::{finish_response, not_found, process_request, route_request};
use http_server::encoding::{Encoding, EncodingType};
use http_server::request::{HTTPVersion, Method, Request, RequestBody};
use http_server::response::{Response, StatusCode};
use http_server::router::Router;

type Handler = fn(&Request) -> Response;

fn echo(req: &Request) -> Response {
    let content = req.get_params().get(b"cont").cloned().unwrap_or_default();
    let mut headers = ByteMap::new();
    headers.insert(b"Content-Length".to_vec(), content.len().to_string().into_bytes());
    let mut res = Response::new(HTTPVersion::HTTP1_1, headers, StatusCode::OK);
    res.set_body(RequestBody::String(content));
    res
}

fn chosen(value: &[u8]) -> Option<EncodingType> {
    Encoding::get_endoing_scheme(value).map(|e| {
        assert_eq!(e.name(), b"gzip".to_vec());
        EncodingType::Gzip
    })
}

#[test]
fn serializes_status_headers_and_body() {
    let mut headers = ByteMap::new();
    headers.insert(b"Content-Length".to_vec(), b"3".to_vec());
    let mut res = Response::new(HTTPVersion::HTTP1_1, headers, StatusCode::OK);
    res.set_body(RequestBody::String(b"abc".to_vec()));
    assert_eq!(res.to_bytes(), b"HTTP/1.1 200 OK\r\nContent-Length: 3\r\n\r\nabc".to_vec());
}

#[test]
fn serializes_headers_in_insertion_order() {
    let mut headers = ByteMap::new();
    headers.insert(b"B".to_vec(), b"1".to_vec());
    headers.insert(b"A".to_vec(), b"2".to_vec());
    headers.insert(b"B".to_vec(), b"3".to_vec());
    let res = Response::new(HTTPVersion::HTTP1_1, headers, StatusCode::Created);
    assert_eq!(res.to_bytes(), b"HTTP/1.1 201 Created\r\nB: 3\r\nA: 2\r\n\r\n".to_vec());
}

#[test]
fn not_found_has_no_headers_or_body() {
    assert_eq!(not_found().to_bytes(), b"HTTP/1.1 404 Not Found\r\n\r\n".to_vec());
    let res = Response::new(HTTPVersion::UNSUPPORTED, ByteMap::new(), StatusCode::NotFound);
    assert_eq!(res.to_bytes(), b"UNSUPPORTED 404 Not Found\r\n\r\n".to_vec());
}

#[test]
fn negotiates_encodings() {
    assert_eq!(chosen(b"gzip"), Some(EncodingType::Gzip));
    assert_eq!(chosen(b"identity, gzip"), None);
    assert_eq!(chosen(b"gzip;q=0.1, br"), Some(EncodingType::Gzip));
    assert_eq!(chosen(b""), None);
    assert_eq!(chosen(b"  gzip  , br"), Some(EncodingType::Gzip));
    assert_eq!(chosen(b"br, gzip"), None);
    assert_eq!(chosen(b"gzip ;q=1"), None);
    assert_eq!(chosen("\u{A0}gzip".as_bytes()), Some(EncodingType::Gzip));
    assert_eq!(chosen("\u{3000}gzip\u{2009}, br".as_bytes()), Some(EncodingType::Gzip));
}

#[test]
fn finishing_sets_encoding_and_content_type() {
    let req = Request::parse(b"GET / HTTP/1.1\r\nAccept-Encoding: gzip\r\n\r\n").unwrap();
    let mut headers = ByteMap::new();
    headers.insert(b"Content-Type".to_vec(), b"application/json".to_vec());
    let mut res = Response::new(HTTPVersion::HTTP1_1, headers, StatusCode::OK);
    finish_response(&req, &mut res);
    assert_eq!(
        res.get_headers().get(b"Content-Encoding").map(|v| v.as_slice()),
        Some(&b"gzip"[..])
    );
    assert_eq!(
        res.get_headers().get(b"Content-Type").map(|v| v.as_slice()),
        Some(&b"text/plain"[..])
    );
    assert_eq!(res.get_headers().len(), 2);
}

#[test]
fn finishing_without_supported_encoding_sets_only_content_type() {
    let req = Request::parse(b"GET / HTTP/1.1\r\nAccept-Encoding: br\r\n\r\n").unwrap();
    let res = Response::new(HTTPVersion::HTTP1_1, ByteMap::new(), StatusCode::OK);
    let res = process_request(&req, Some(res));
    assert!(res.get_headers().get(b"Content-Encoding").is_none());
    assert_eq!(res.to_bytes(), b"HTTP/1.1 200 OK\r\nContent-Type: text/plain\r\n\r\n".to_vec());
}

#[test]
fn missing_handler_gives_not_found() {
    let req = Request::parse(b"GET /x HTTP/1.1\r\n\r\n").unwrap();
    let res = process_request(&req, None);
    assert_eq!(res.get_status(), StatusCode::NotFound);
    assert_eq!(res.to_bytes(), b"HTTP/1.1 404 Not Found\r\n\r\n".to_vec());
}

#[test]
fn echo_end_to_end() {
    let mut router: Router<Handler> = Router::new();
    router.add_route(Method::GET, b"/echo/{cont}", echo as Handler);
    let mut req = Request::parse(b"GET /echo/abc HTTP/1.1\r\nHost: x\r\n\r\n").unwrap();
    let handled = route_request(&router, &mut req).map(|h| h(&req));
    let res = process_request(&req, handled);
    let bytes = res.to_bytes();
    let split = bytes.windows(4).position(|w| w == b"\r\n\r\n").unwrap();
    assert_eq!(&bytes[split + 4..], b"abc");
    assert!(bytes.starts_with(b"HTTP/1.1 200 OK\r\n"));
}

#[test]
fn byte_map_inserts_and_overwrites() {
    let mut m = ByteMap::new();
    assert_eq!(m.len(), 0);
    assert!(m.get(b"k").is_none());
    m.insert(b"k".to_vec(), b"1".to_vec());
    m.insert(b"j".to_vec(), b"2".to_vec());
    m.insert(b"k".to_vec(), b"3".to_vec());
    assert_eq!(m.len(), 2);
    assert_eq!(m.get(b"k").map(|v| v.as_slice()), Some(&b"3"[..]));
    let (k, v) = m.entry_at(1);
    assert_eq!((k.as_slice(), v.as_slice()), (&b"j"[..], &b"2"[..]));
}
