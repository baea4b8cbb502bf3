use vstd::prelude::*;

use crate::byte_map::ByteMap;
use crate::bytes::append_bytes;
use crate::request::{HTTPVersion, RequestBody};

verus! {

/// The status of a response.
#[derive(Copy, Clone, Debug, PartialEq, Eq, Structural)]
pub enum StatusCode {
    OK,
    Created,
    NotFound,
}

/// The text of a status in a status line.
pub open spec fn status_text(s: StatusCode) -> Seq<u8> {
    match s {
        // 200 OK
        StatusCode::OK => seq![50u8, 48, 48, 32, 79, 75],
        // 201 Created
        StatusCode::Created => seq![50u8, 48, 49, 32, 67, 114, 101, 97, 116, 101, 100],
        // 404 Not Found
        StatusCode::NotFound => seq![52u8, 48, 52, 32, 78, 111, 116, 32, 70, 111, 117, 110, 100],
    }
}

/// The text of a version in a status line.
pub open spec fn version_text(v: HTTPVersion) -> Seq<u8> {
    match v {
        // HTTP/1.1
        HTTPVersion::HTTP1_1 => seq![72u8, 84, 84, 80, 47, 49, 46, 49],
        // UNSUPPORTED
        HTTPVersion::UNSUPPORTED => seq![85u8, 78, 83, 85, 80, 80, 79, 82, 84, 69, 68],
    }
}

pub open spec fn crlf() -> Seq<u8> {
    seq![13u8, 10]
}

/// Header lines `key: value\r\n`, one for each pair, in order.
pub open spec fn header_lines(pairs: Seq<(Seq<u8>, Seq<u8>)>) -> Seq<u8>
    decreases pairs.len(),
{
    if pairs.len() == 0 {
        seq![]
    } else {
        header_lines(pairs.drop_last()) + pairs.last().0 + seq![58u8, 32] + pairs.last().1 + crlf()
    }
}

/// The wire form of a response: the status line, the header lines, a blank
/// line, then the body bytes as they are.
pub open spec fn wire(
    v: HTTPVersion,
    s: StatusCode,
    pairs: Seq<(Seq<u8>, Seq<u8>)>,
    body: Option<Seq<u8>>,
) -> Seq<u8> {
    version_text(v) + seq![32u8] + status_text(s) + crlf() + header_lines(pairs) + crlf() + match body {
        Some(b) => b,
        None => seq![],
    }
}

/// A response: version, status, headers and perhaps a body.
#[derive(Debug)]
pub struct Response {
    version: HTTPVersion,
    headers: ByteMap,
    status_code: StatusCode,
    body: Option<RequestBody>,
}

fn status_bytes(s: StatusCode) -> (r: Vec<u8>)
    ensures
        r@ == status_text(s),
{
    let r: Vec<u8> = match s {
        StatusCode::OK => vec![50u8, 48, 48, 32, 79, 75],
        StatusCode::Created => vec![50u8, 48, 49, 32, 67, 114, 101, 97, 116, 101, 100],
        StatusCode::NotFound => vec![52u8, 48, 52, 32, 78, 111, 116, 32, 70, 111, 117, 110, 100],
    };
    assert(r@ =~= status_text(s));
    r
}

fn version_bytes(v: HTTPVersion) -> (r: Vec<u8>)
    ensures
        r@ == version_text(v),
{
    let r: Vec<u8> = match v {
        HTTPVersion::HTTP1_1 => vec![72u8, 84, 84, 80, 47, 49, 46, 49],
        HTTPVersion::UNSUPPORTED => vec![85u8, 78, 83, 85, 80, 80, 79, 82, 84, 69, 68],
    };
    assert(r@ =~= version_text(v));
    r
}

impl Response {
    pub closed spec fn spec_version(&self) -> HTTPVersion {
        self.version
    }

    pub closed spec fn spec_status(&self) -> StatusCode {
        self.status_code
    }

    pub closed spec fn spec_headers(&self) -> ByteMap {
        self.headers
    }

    pub closed spec fn spec_body(&self) -> Option<Seq<u8>> {
        match &self.body {
            Some(RequestBody::String(b)) => Some(b@),
            None => None,
        }
    }

    /// A response without a body.
    pub fn new(version: HTTPVersion, headers: ByteMap, status_code: StatusCode) -> (r: Response)
        ensures
            r.spec_version() == version,
            r.spec_status() == status_code,
            r.spec_headers() == headers,
            r.spec_body() is None,
    {
        Response { version, headers, status_code, body: None }
    }

    pub fn set_body(&mut self, body: RequestBody)
        ensures
            final(self).spec_body() == Some(
                match body {
                    RequestBody::String(b) => b@,
                },
            ),
            final(self).spec_version() == old(self).spec_version(),
            final(self).spec_status() == old(self).spec_status(),
            final(self).spec_headers() == old(self).spec_headers(),
    {
        self.body = Some(body);
    }

    pub fn get_headers(&self) -> (r: &ByteMap)
        ensures
            *r == self.spec_headers(),
    {
        &self.headers
    }

    pub fn set_headers(&mut self, h: ByteMap)
        ensures
            final(self).spec_headers() == h,
            final(self).spec_version() == old(self).spec_version(),
            final(self).spec_status() == old(self).spec_status(),
            final(self).spec_body() == old(self).spec_body(),
    {
        self.headers = h;
    }

    /// Binds the header `key` to `value`, replacing what it was bound to.
    pub fn insert_header(&mut self, key: Vec<u8>, value: Vec<u8>)
        requires
            old(self).spec_headers().wf(),
        ensures
            final(self).spec_headers().wf(),
            final(self).spec_headers()@ == old(self).spec_headers()@.insert(key@, value@),
            final(self).spec_version() == old(self).spec_version(),
            final(self).spec_status() == old(self).spec_status(),
            final(self).spec_body() == old(self).spec_body(),
    {
        self.headers.insert(key, value);
    }

    pub fn get_status(&self) -> (r: StatusCode)
        ensures
            r == self.spec_status(),
    {
        self.status_code
    }

    /// The bytes that go on the wire for this response.
    pub fn to_bytes(&self) -> (r: Vec<u8>)
        ensures
            r@ == wire(
                self.spec_version(),
                self.spec_status(),
                self.spec_headers().pairs(),
                self.spec_body(),
            ),
    {
        let mut r = version_bytes(self.version);
        r.push(32);
        let st = status_bytes(self.status_code);
        append_bytes(&mut r, st.as_slice());
        r.push(13);
        r.push(10);
        let ghost head = r@;
        assert(head =~= version_text(self.version) + seq![32u8] + status_text(self.status_code)
            + crlf());
        let n = self.headers.len();
        let mut i: usize = 0;
        while i < n
            invariant
                0 <= i <= n,
                n == self.headers.pairs().len(),
                r@ == head + header_lines(self.headers.pairs().subrange(0, i as int)),
            decreases n - i,
        {
            let (k, v) = self.headers.entry_at(i);
            append_bytes(&mut r, k.as_slice());
            r.push(58);
            r.push(32);
            append_bytes(&mut r, v.as_slice());
            r.push(13);
            r.push(10);
            let ghost p = self.headers.pairs().subrange(0, i + 1);
            assert(p.drop_last() =~= self.headers.pairs().subrange(0, i as int));
            assert(r@ =~= head + header_lines(p));
            i = i + 1;
        }
        assert(self.headers.pairs().subrange(0, n as int) =~= self.headers.pairs());
        r.push(13);
        r.push(10);
        match &self.body {
            Some(RequestBody::String(b)) => {
                append_bytes(&mut r, b.as_slice());
            },
            None => {},
        }
        assert(r@ =~= wire(self.version, self.status_code, self.headers.pairs(), self.spec_body()));
        r
    }
}

} // verus!
