use vstd::prelude::*;

use crate::byte_map::ByteMap;
use crate::encoding::{chosen_encoding, encoding_name, Encoding};
use crate::request::{HTTPVersion, Request};
use crate::response::{Response, StatusCode};
use crate::router::Router;

verus! {

/// `accept-encoding`
pub open spec fn accept_encoding_key() -> Seq<u8> {
    seq![97u8, 99, 99, 101, 112, 116, 45, 101, 110, 99, 111, 100, 105, 110, 103]
}

/// `Content-Encoding`
pub open spec fn content_encoding_key() -> Seq<u8> {
    seq![67u8, 111, 110, 116, 101, 110, 116, 45, 69, 110, 99, 111, 100, 105, 110, 103]
}

/// `Content-Type`
pub open spec fn content_type_key() -> Seq<u8> {
    seq![67u8, 111, 110, 116, 101, 110, 116, 45, 84, 121, 112, 101]
}

/// `text/plain`
pub open spec fn text_plain() -> Seq<u8> {
    seq![116u8, 101, 120, 116, 47, 112, 108, 97, 105, 110]
}

/// The headers of a handler's response once the connection has added its own:
/// `Content-Encoding` where the request's `Accept-Encoding` chooses an
/// encoding, and always `Content-Type: text/plain`, over whatever was there.
pub open spec fn finished_headers(req: Map<Seq<u8>, Seq<u8>>, res: Map<Seq<u8>, Seq<u8>>) -> Map<
    Seq<u8>,
    Seq<u8>,
> {
    let with_encoding = if req.contains_key(accept_encoding_key()) && chosen_encoding(
        req[accept_encoding_key()],
    ) is Some {
        res.insert(
            content_encoding_key(),
            encoding_name(chosen_encoding(req[accept_encoding_key()])->0),
        )
    } else {
        res
    };
    with_encoding.insert(content_type_key(), text_plain())
}

/// Resolves the request's method and target on `router`, attaches the bound
/// parameters to the request, and gives the handler found, if any.
pub fn route_request<'a, H>(router: &'a Router<H>, req: &mut Request) -> (r: Option<&'a H>)
    requires
        router.wf(),
        old(req).wf(),
    ensures
        final(req).wf(),
        final(req).spec_params() == router.resolve(
            old(req).spec_method(),
            old(req).spec_target(),
        ).0,
        match r {
            Some(h) => router.resolve(old(req).spec_method(), old(req).spec_target()).1 == Some(*h),
            None => router.resolve(old(req).spec_method(), old(req).spec_target()).1 is None,
        },
        final(req).spec_method() == old(req).spec_method(),
        final(req).spec_target() == old(req).spec_target(),
        final(req).spec_version() == old(req).spec_version(),
        final(req).spec_headers() == old(req).spec_headers(),
        final(req).spec_body() == old(req).spec_body(),
{
    let (params, handler) = router.get_handler_and_params(req.get_method(), req.target().as_slice());
    req.set_params(params);
    handler
}

/// Adds the connection's headers to a handler's response.
pub fn finish_response(req: &Request, res: &mut Response)
    requires
        req.wf(),
        old(res).spec_headers().wf(),
    ensures
        final(res).spec_headers().wf(),
        final(res).spec_headers()@ == finished_headers(req.spec_headers(), old(res).spec_headers()@),
        final(res).spec_version() == old(res).spec_version(),
        final(res).spec_status() == old(res).spec_status(),
        final(res).spec_body() == old(res).spec_body(),
{
    let accept: Vec<u8> = vec![97u8, 99, 99, 101, 112, 116, 45, 101, 110, 99, 111, 100, 105, 110, 103];
    assert(accept@ =~= accept_encoding_key());
    match req.get_headers().get(accept.as_slice()) {
        Some(v) => match Encoding::get_endoing_scheme(v.as_slice()) {
            Some(e) => {
                let key: Vec<u8> = vec![
                    67u8, 111, 110, 116, 101, 110, 116, 45, 69, 110, 99, 111, 100, 105, 110, 103,
                ];
                assert(key@ =~= content_encoding_key());
                res.insert_header(key, e.name());
            },
            None => {},
        },
        None => {},
    }
    let key: Vec<u8> = vec![67u8, 111, 110, 116, 101, 110, 116, 45, 84, 121, 112, 101];
    assert(key@ =~= content_type_key());
    let value: Vec<u8> = vec![116u8, 101, 120, 116, 47, 112, 108, 97, 105, 110];
    assert(value@ =~= text_plain());
    res.insert_header(key, value);
}

/// The response when no handler was found: 404, no header, no body.
pub fn not_found() -> (r: Response)
    ensures
        r.spec_version() == HTTPVersion::HTTP1_1,
        r.spec_status() == StatusCode::NotFound,
        r.spec_headers().wf(),
        r.spec_headers()@ == Map::<Seq<u8>, Seq<u8>>::empty(),
        r.spec_body() is None,
{
    Response::new(HTTPVersion::HTTP1_1, ByteMap::new(), StatusCode::NotFound)
}

/// The response to a request: the handler's, finished with the connection's
/// headers, where a handler ran; 404 where none was found.
pub fn process_request(req: &Request, handled: Option<Response>) -> (r: Response)
    requires
        req.wf(),
        handled matches Some(h) ==> h.spec_headers().wf(),
    ensures
        r.spec_headers().wf(),
        match handled {
            Some(h) => {
                &&& r.spec_headers()@ == finished_headers(req.spec_headers(), h.spec_headers()@)
                &&& r.spec_version() == h.spec_version()
                &&& r.spec_status() == h.spec_status()
                &&& r.spec_body() == h.spec_body()
            },
            None => {
                &&& r.spec_version() == HTTPVersion::HTTP1_1
                &&& r.spec_status() == StatusCode::NotFound
                &&& r.spec_headers()@ == Map::<Seq<u8>, Seq<u8>>::empty()
                &&& r.spec_body() is None
            },
        },
{
    match handled {
        Some(mut res) => {
            finish_response(req, &mut res);
            res
        },
        None => not_found(),
    }
}

} // verus!
