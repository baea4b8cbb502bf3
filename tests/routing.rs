use http_server::byte_map::ByteMap;
use http_server::connection::route_request;
use http_server::request::{HTTPVersion, Method, Request};
use http_server::response::{Response, StatusCode};
use http_server::router::Router;

type Handler = fn(&Request) -> Response;

fn ok(_: &Request) -> Response {
    Response::new(HTTPVersion::HTTP1_1, ByteMap::new(), StatusCode::OK)
}

fn created(_: &Request) -> Response {
    Response::new(HTTPVersion::HTTP1_1, ByteMap::new(), StatusCode::Created)
}

fn status_of(router: &Router<Handler>, method: Method, path: &[u8]) -> Option<StatusCode> {
    let req = Request::parse(b"GET / HTTP/1.1\r\n\r\n").unwrap();
    router.get_handler_and_params(method, path).1.map(|h| h(&req).get_status())
}

#[test]
fn wildcard_captures_rest_of_path() {
    let mut router: Router<Handler> = Router::new();
    router.add_route(Method::GET, b"/echo/{cont}", ok as Handler);
    let (params, handler) = router.get_handler_and_params(Method::GET, b"/echo/hello/world");
    assert!(handler.is_some());
    assert_eq!(params.len(), 1);
    assert_eq!(params.get(b"cont").map(|v| v.as_slice()), Some(&b"hello/world"[..]));
}

#[test]
fn unregistered_path_has_no_handler() {
    let mut router: Router<Handler> = Router::new();
    router.add_route(Method::GET, b"/echo/{cont}", ok as Handler);
    let (params, handler) = router.get_handler_and_params(Method::GET, b"/missing");
    assert!(handler.is_none());
    assert_eq!(params.len(), 0);
    assert!(router.get_handler_and_params(Method::GET, b"/").1.is_none());
}

#[test]
fn last_registration_wins() {
    let mut router: Router<Handler> = Router::new();
    router.add_route(Method::GET, b"/a/b", ok as Handler);
    router.add_route(Method::GET, b"/a/b", created as Handler);
    assert_eq!(status_of(&router, Method::GET, b"/a/b"), Some(StatusCode::Created));
}

#[test]
fn literal_route_binds_no_parameter() {
    let mut router: Router<Handler> = Router::new();
    router.add_route(Method::GET, b"/user-agent", ok as Handler);
    let (params, handler) = router.get_handler_and_params(Method::GET, b"/user-agent");
    assert!(handler.is_some());
    assert_eq!(params.len(), 0);
}

#[test]
fn literal_child_is_preferred_over_wildcard() {
    let mut router: Router<Handler> = Router::new();
    router.add_route(Method::GET, b"/files/{name}", ok as Handler);
    router.add_route(Method::GET, b"/files/special", created as Handler);
    assert_eq!(status_of(&router, Method::GET, b"/files/special"), Some(StatusCode::Created));
    assert_eq!(status_of(&router, Method::GET, b"/files/other"), Some(StatusCode::OK));
}

#[test]
fn other_method_finds_no_handler() {
    let mut router: Router<Handler> = Router::new();
    router.add_route(Method::GET, b"/", ok as Handler);
    assert!(router.get_handler_and_params(Method::UNKNOWN, b"/").1.is_none());
    assert_eq!(status_of(&router, Method::GET, b"/"), Some(StatusCode::OK));
}

#[test]
fn resolution_stops_where_nothing_matches() {
    let mut router: Router<Handler> = Router::new();
    router.add_route(Method::GET, b"/", ok as Handler);
    assert_eq!(status_of(&router, Method::GET, b"/nothing/here"), Some(StatusCode::OK));
}

#[test]
fn empty_segments_are_skipped() {
    let mut router: Router<Handler> = Router::new();
    router.add_route(Method::GET, b"echo//x/", ok as Handler);
    assert!(router.get_handler_and_params(Method::GET, b"//echo///x").1.is_some());
}

#[test]
fn wildcard_name_follows_latest_pattern() {
    let mut router: Router<Handler> = Router::new();
    router.add_route(Method::GET, b"/f/{a}", ok as Handler);
    router.add_route(Method::GET, b"/f/{b}", created as Handler);
    let (params, _) = router.get_handler_and_params(Method::GET, b"/f/z");
    assert_eq!(params.get(b"b").map(|v| v.as_slice()), Some(&b"z"[..]));
    assert!(params.get(b"a").is_none());
}

#[test]
fn routing_attaches_parameters_to_request() {
    let mut router: Router<Handler> = Router::new();
    router.add_route(Method::GET, b"/files/{file_name}", ok as Handler);
    let mut req = Request::parse(b"GET /files/a/b.txt HTTP/1.1\r\n\r\n").unwrap();
    let handler = route_request(&router, &mut req);
    assert!(handler.is_some());
    assert_eq!(
        req.get_params().get(b"file_name").map(|v| v.as_slice()),
        Some(&b"a/b.txt"[..])
    );
}

#[test]
fn wildcard_in_middle_stops_descent() {
    let mut router: Router<Handler> = Router::new();
    router.add_route(Method::GET, b"/a/{x}/b", ok as Handler);
    let (params, handler) = router.get_handler_and_params(Method::GET, b"/a/1/b");
    assert!(handler.is_none());
    assert_eq!(params.get(b"x").map(|v| v.as_slice()), Some(&b"1/b"[..]));
}

#[test]
fn unmatched_first_segment_stops_at_root() {
    let mut router: Router<Handler> = Router::new();
    router.add_route(Method::GET, b"/bar", ok as Handler);
    let (params, handler) = router.get_handler_and_params(Method::GET, b"/foo/bar");
    assert!(handler.is_none());
    assert_eq!(params.len(), 0);
}

#[test]
fn shared_wildcard_keeps_earlier_route_and_latest_name() {
    let mut router: Router<Handler> = Router::new();
    router.add_route(Method::GET, b"/f/{a}", ok as Handler);
    router.add_route(Method::GET, b"/f/{b}/g", created as Handler);
    let (params, _) = router.get_handler_and_params(Method::GET, b"/f/x");
    assert_eq!(params.get(b"b").map(|v| v.as_slice()), Some(&b"x"[..]));
    assert_eq!(status_of(&router, Method::GET, b"/f/x"), Some(StatusCode::OK));
}

#[test]
fn other_routes_survive_a_registration() {
    let mut router: Router<Handler> = Router::new();
    router.add_route(Method::GET, b"/a", ok as Handler);
    router.add_route(Method::GET, b"/b", created as Handler);
    assert_eq!(status_of(&router, Method::GET, b"/a"), Some(StatusCode::OK));
    assert_eq!(status_of(&router, Method::GET, b"/b"), Some(StatusCode::Created));
}

#[test]
fn non_utf8_target_is_decoded_lossily() {
    let req = Request::parse(b"GET /a\xff HTTP/1.1\r\n\r\n").unwrap();
    assert_eq!(req.get_target(), "/a\u{FFFD}");
}
