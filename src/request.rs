use vstd::prelude::*;
use vstd::utf8::{decode_utf8, encode_utf8, valid_utf8};

use crate::byte_map::ByteMap;
use crate::bytes::{
    copy_range, find_byte, find_byte_from, find_crlf, find_crlf_from, is_trimmed,
    lemma_find_byte_bounds, lemma_trim_trimmed,
    lowercase, split, split_bytes, split_from, to_lowercase, trim, trim_range, views,
};

verus! {

/// A request method; every method but `GET` is `UNKNOWN`.
#[derive(Copy, Clone, Debug, PartialEq, Eq, Hash, Structural)]
pub enum Method {
    GET,
    UNKNOWN,
}

/// The protocol version named in a request line.
#[derive(Copy, Clone, Debug, PartialEq, Eq, Structural)]
pub enum HTTPVersion {
    HTTP1_1,
    UNSUPPORTED,
}

/// The target of a request, in origin form: a path and perhaps a query.
#[derive(Debug)]
pub enum RequestTarget {
    OriginForm(Vec<u8>),
}

/// A message body: raw bytes, never read as text here.
#[derive(Debug)]
pub enum RequestBody {
    String(Vec<u8>),
}

/// Why a request could not be parsed.
#[derive(Copy, Clone, Debug, PartialEq, Eq, Structural)]
pub enum HTTPError {
    /// The request line holds fewer than three tokens.
    MalformedRequestLine,
    /// No blank line ends the header block.
    MissingHeaderTerminator,
}

/// A parsed request.
#[derive(Debug)]
pub struct Request {
    method: Method,
    target: RequestTarget,
    version: HTTPVersion,
    headers: ByteMap,
    body: Option<RequestBody>,
    params: ByteMap,
}

/// `GET`
pub open spec fn get_bytes() -> Seq<u8> {
    seq![71u8, 69u8, 84u8]
}

/// `HTTP/1.1`
pub open spec fn http11_bytes() -> Seq<u8> {
    seq![72u8, 84u8, 84u8, 80u8, 47u8, 49u8, 46u8, 49u8]
}

/// `content-length`
pub open spec fn content_length_key() -> Seq<u8> {
    seq![99u8, 111u8, 110u8, 116u8, 101u8, 110u8, 116u8, 45u8, 108u8, 101u8, 110u8, 103u8, 116u8, 104u8]
}

pub open spec fn method_of(tok: Seq<u8>) -> Method {
    if tok == get_bytes() {
        Method::GET
    } else {
        Method::UNKNOWN
    }
}

pub open spec fn version_of(tok: Seq<u8>) -> HTTPVersion {
    if tok == http11_bytes() {
        HTTPVersion::HTTP1_1
    } else {
        HTTPVersion::UNSUPPORTED
    }
}

/// The target that a request-line token names: `/` where the token is empty.
pub open spec fn target_of(tok: Seq<u8>) -> Seq<u8> {
    if tok.len() == 0 {
        seq![47u8]
    } else {
        tok
    }
}

pub open spec fn is_terminator_at(b: Seq<u8>, i: int) -> bool {
    0 <= i && i + 4 <= b.len() && b[i] == 13 && b[i + 1] == 10 && b[i + 2] == 13 && b[i + 3] == 10
}

/// The index of the first blank-line terminator `\r\n\r\n` at or after `from`,
/// or `b.len()`.
pub open spec fn find_terminator(b: Seq<u8>, from: int) -> int
    decreases b.len() - from,
{
    if from < 0 || from + 4 > b.len() {
        b.len() as int
    } else if is_terminator_at(b, from) {
        from
    } else {
        find_terminator(b, from + 1)
    }
}

pub open spec fn has_terminator(b: Seq<u8>) -> bool {
    find_terminator(b, 0) < b.len()
}

/// The request line: the bytes before the first line break.
pub open spec fn request_line(b: Seq<u8>) -> Seq<u8> {
    b.subrange(0, find_crlf(b, 0))
}

/// The text that `str::to_lowercase` makes of a text.
pub uninterp spec fn lower_of(s: Seq<char>) -> Seq<char>;

/// The key under which a raw header name is stored: trimmed, then lowercased
/// as `str::to_lowercase` does; a name that is not UTF-8 text has its ASCII
/// capitals made small.
pub open spec fn header_key(raw: Seq<u8>) -> Seq<u8> {
    let t = trim(raw);
    if valid_utf8(t) {
        encode_utf8(lower_of(decode_utf8(t)))
    } else {
        lowercase(t)
    }
}

/// The headers after adding the line `b[start..end]`: split at its first colon,
/// the key made a header key, the value trimmed; a line without a colon adds
/// nothing.
pub open spec fn add_header_line(acc: Map<Seq<u8>, Seq<u8>>, b: Seq<u8>, start: int, end: int) -> Map<
    Seq<u8>,
    Seq<u8>,
> {
    let c = find_byte(b, start, 58u8);
    if c >= end {
        acc
    } else {
        acc.insert(header_key(b.subrange(start, c)), trim(b.subrange(c + 1, end)))
    }
}

/// The headers after adding, in order, each line of `b[start..end]`; lines end
/// with `\r\n`.
pub open spec fn headers_from(b: Seq<u8>, start: int, end: int, acc: Map<Seq<u8>, Seq<u8>>) -> Map<
    Seq<u8>,
    Seq<u8>,
>
    decreases end + 2 - start,
{
    if start < 0 || start >= end {
        acc
    } else {
        let k = find_crlf(b, start);
        if k < start || k > end {
            acc
        } else {
            headers_from(b, k + 2, end, add_header_line(acc, b, start, k))
        }
    }
}

/// The headers of a request whose header block ends at the terminator: the
/// lines between the request line and the blank line.
pub open spec fn headers_of(b: Seq<u8>) -> Map<Seq<u8>, Seq<u8>> {
    headers_from(b, find_crlf(b, 0) + 2, find_terminator(b, 0), Map::empty())
}

pub open spec fn is_digit(c: u8) -> bool {
    48u8 <= c && c <= 57u8
}

/// The number that a text of decimal digits writes.
pub open spec fn decimal(d: Seq<u8>) -> int
    decreases d.len(),
{
    if d.len() == 0 {
        0
    } else {
        decimal(d.drop_last()) * 10 + (d.last() - 48u8)
    }
}

/// The digits of a length: the text without a leading `+`.
pub open spec fn length_digits(s: Seq<u8>) -> Seq<u8> {
    if s.len() > 0 && s[0] == 43u8 {
        s.drop_first()
    } else {
        s
    }
}

/// What a `Content-Length` value gives as a length: the number that it writes,
/// or 0 where it is no number that fits in `usize`.
pub open spec fn length_value(s: Seq<u8>) -> int {
    let d = length_digits(s);
    if d.len() > 0 && (forall|i: int| 0 <= i < d.len() ==> is_digit(d[i])) && decimal(d)
        <= usize::MAX {
        decimal(d)
    } else {
        0
    }
}

/// The body length that the headers announce.
pub open spec fn content_length(h: Map<Seq<u8>, Seq<u8>>) -> int {
    if h.contains_key(content_length_key()) {
        length_value(h[content_length_key()])
    } else {
        0
    }
}

/// The body of a request: the bytes after the terminator, as many as the
/// headers announce and are there; none where the announced length is 0.
pub open spec fn body_of(b: Seq<u8>) -> Option<Seq<u8>> {
    let n = content_length(headers_of(b));
    let start = find_terminator(b, 0) + 4;
    if n == 0 {
        None
    } else if start + n <= b.len() {
        Some(b.subrange(start, start + n))
    } else {
        Some(b.subrange(start, b.len() as int))
    }
}

/// The request line cannot be parsed: it has fewer than three tokens between
/// single spaces.
pub open spec fn malformed_request_line(b: Seq<u8>) -> bool {
    split(request_line(b), 32u8).len() < 3
}

/// A request without a `Content-Length` header gets no body, whatever bytes
/// follow its header block.
pub proof fn lemma_no_length_no_body(b: Seq<u8>)
    requires
        has_terminator(b),
        !headers_of(b).contains_key(content_length_key()),
    ensures
        body_of(b) is None,
{
}

/// `GET /foo HTTP/1.1`
pub open spec fn get_foo_line() -> Seq<u8> {
    seq![71u8, 69, 84, 32, 47, 102, 111, 111, 32, 72, 84, 84, 80, 47, 49, 46, 49]
}

/// `/foo`
pub open spec fn foo_bytes() -> Seq<u8> {
    seq![47u8, 102, 111, 111]
}

/// A request with the request line `GET /foo HTTP/1.1` whose `Content-Length`
/// counts exactly the bytes after its header block parses to method `GET`,
/// target `/foo`, and those bytes as its body (none where there are none).
pub proof fn lemma_request_round_trip(b: Seq<u8>)
    requires
        has_terminator(b),
        request_line(b) == get_foo_line(),
        content_length(headers_of(b)) == b.len() - (find_terminator(b, 0) + 4),
    ensures
        !malformed_request_line(b),
        method_of(split(request_line(b), 32u8)[0]) == Method::GET,
        target_of(split(request_line(b), 32u8)[1]) == foo_bytes(),
        version_of(split(request_line(b), 32u8)[2]) == HTTPVersion::HTTP1_1,
        body_of(b) == if b.len() > find_terminator(b, 0) + 4 {
            Some(b.subrange(find_terminator(b, 0) + 4, b.len() as int))
        } else {
            None
        },
{
    lemma_find_terminator(b, 0);
    let l = get_foo_line();
    reveal_with_fuel(find_byte, 20);
    assert(find_byte(l, 0, 32u8) == 3);
    assert(find_byte(l, 4, 32u8) == 8);
    assert(find_byte(l, 9, 32u8) == 17);
    let s = split(l, 32u8);
    let tail = split_from(l, 9, 32u8);
    assert(tail == seq![l.subrange(9, 17)]);
    let mid = split_from(l, 4, 32u8);
    assert(mid == seq![l.subrange(4, 8)] + tail);
    assert(s == seq![l.subrange(0, 3)] + mid);
    assert(s.len() == 3);
    assert(s[0] =~= get_bytes());
    assert(s[1] =~= foo_bytes());
    assert(s[2] =~= http11_bytes());
}

proof fn lemma_headers_trimmed(b: Seq<u8>, start: int, end: int, acc: Map<Seq<u8>, Seq<u8>>)
    requires
        forall|k: Seq<u8>| #[trigger] acc.contains_key(k) ==> is_trimmed(acc[k]),
    ensures
        forall|k: Seq<u8>| #[trigger]
            headers_from(b, start, end, acc).contains_key(k) ==> is_trimmed(
                headers_from(b, start, end, acc)[k],
            ),
    decreases end + 2 - start,
{
    if 0 <= start < end {
        let k = find_crlf(b, start);
        if start <= k <= end {
            let c = find_byte(b, start, 58u8);
            lemma_find_byte_bounds(b, start, 58u8);
            if c < k {
                lemma_trim_trimmed(b.subrange(c + 1, k));
            }
            let acc2 = add_header_line(acc, b, start, k);
            lemma_headers_trimmed(b, k + 2, end, acc2);
            assert(headers_from(b, start, end, acc) == headers_from(b, k + 2, end, acc2));
        }
    }
}

proof fn lemma_decimal_grows(d: Seq<u8>, i: int, j: int)
    requires
        0 <= i <= j <= d.len(),
        forall|k: int| 0 <= k < d.len() ==> is_digit(d[k]),
    ensures
        decimal(d.subrange(0, i)) <= decimal(d.subrange(0, j)),
    decreases j - i,
{
    if i < j {
        lemma_decimal_grows(d, i, j - 1);
        assert(d.subrange(0, j).drop_last() =~= d.subrange(0, j - 1));
        assert(decimal(d.subrange(0, j - 1)) >= 0) by {
            lemma_decimal_nonneg(d.subrange(0, j - 1));
        }
    }
}

proof fn lemma_decimal_nonneg(d: Seq<u8>)
    requires
        forall|k: int| 0 <= k < d.len() ==> is_digit(d[k]),
    ensures
        decimal(d) >= 0,
    decreases d.len(),
{
    if d.len() > 0 {
        lemma_decimal_nonneg(d.drop_last());
    }
}

/// The length that a `Content-Length` value gives.
pub fn parse_length(s: &[u8]) -> (r: usize)
    ensures
        r as int == length_value(s@),
{
    let start: usize = if s.len() > 0 && s[0] == 43u8 {
        1
    } else {
        0
    };
    let ghost d = length_digits(s@);
    assert(d =~= s@.subrange(start as int, s@.len() as int));
    if start >= s.len() {
        return 0;
    }
    let mut i: usize = start;
    while i < s.len()
        invariant
            start <= i <= s@.len(),
            d =~= s@.subrange(start as int, s@.len() as int),
            d == length_digits(s@),
            forall|k: int| 0 <= k < i - start ==> is_digit(d[k]),
        decreases s@.len() - i,
    {
        if !(48u8 <= s[i] && s[i] <= 57u8) {
            assert(!is_digit(d[i - start]));
            return 0;
        }
        i = i + 1;
    }
    let mut v: usize = 0;
    let mut i: usize = start;
    while i < s.len()
        invariant
            start <= i <= s@.len(),
            d =~= s@.subrange(start as int, s@.len() as int),
            d == length_digits(s@),
            forall|k: int| 0 <= k < d.len() ==> is_digit(d[k]),
            v as int == decimal(d.subrange(0, i - start)),
        decreases s@.len() - i,
    {
        let ghost p = d.subrange(0, i - start + 1);
        assert(p.drop_last() =~= d.subrange(0, i - start));
        assert(s@[i as int] == d[i - start]);
        let digit: usize = (s[i] - 48u8) as usize;
        assert(decimal(p) == v * 10 + digit);
        match v.checked_mul(10) {
            Some(t) => match t.checked_add(digit) {
                Some(u) => {
                    v = u;
                },
                None => {
                    proof {
                        lemma_decimal_grows(d, i - start + 1, d.len() as int);
                        assert(d.subrange(0, d.len() as int) =~= d);
                    }
                    return 0;
                },
            },
            None => {
                proof {
                    lemma_decimal_grows(d, i - start + 1, d.len() as int);
                    assert(d.subrange(0, d.len() as int) =~= d);
                    assert(decimal(p) >= v * 10);
                }
                return 0;
            },
        }
        i = i + 1;
    }
    assert(d.subrange(0, d.len() as int) =~= d);
    v
}

proof fn lemma_find_terminator(b: Seq<u8>, from: int)
    requires
        0 <= from,
    ensures
        find_terminator(b, from) == b.len() || (from <= find_terminator(b, from) && is_terminator_at(
            b,
            find_terminator(b, from),
        )),
    decreases b.len() - from,
{
    if from + 4 <= b.len() && !is_terminator_at(b, from) {
        lemma_find_terminator(b, from + 1);
    }
}

proof fn lemma_find_crlf_before(b: Seq<u8>, from: int, p: int)
    requires
        0 <= from <= p,
        p + 1 < b.len(),
        b[p] == 13 && b[p + 1] == 10,
    ensures
        from <= find_crlf(b, from) <= p,
    decreases p - from,
{
    if from < p && !(b[from] == 13 && b[from + 1] == 10) {
        lemma_find_crlf_before(b, from + 1, p);
    }
}

/// Where the header block ends: the index of the first `\r\n\r\n`, if any.
pub fn header_end(bytes: &[u8]) -> (r: Option<usize>)
    ensures
        match r {
            Some(i) => has_terminator(bytes@) && i == find_terminator(bytes@, 0),
            None => !has_terminator(bytes@),
        },
{
    let mut i: usize = 0;
    while i < bytes.len() && bytes.len() - i >= 4
        invariant
            0 <= i <= bytes@.len(),
            find_terminator(bytes@, 0) == find_terminator(bytes@, i as int),
        decreases bytes@.len() - i,
    {
        if bytes[i] == 13 && bytes[i + 1] == 10 && bytes[i + 2] == 13 && bytes[i + 3] == 10 {
            return Some(i);
        }
        i = i + 1;
    }
    None
}

/// Splits the bytes of a request after its first `\r\n\r\n`: the header block,
/// terminator included, and what follows. Without a terminator all is header
/// block and nothing follows.
pub fn separate_body_from_request(bytes: &[u8]) -> (r: (Vec<u8>, Vec<u8>))
    ensures
        has_terminator(bytes@) ==> r.0@ == bytes@.subrange(0, find_terminator(bytes@, 0) + 4)
            && r.1@ == bytes@.subrange(find_terminator(bytes@, 0) + 4, bytes@.len() as int),
        !has_terminator(bytes@) ==> r.0@ == bytes@ && r.1@.len() == 0,
{
    proof {
        lemma_find_terminator(bytes@, 0);
    }
    match header_end(bytes) {
        Some(i) => {
            assert(is_terminator_at(bytes@, i as int));
            assert(bytes@.len() == bytes.len());
            (copy_range(bytes, 0, i + 4), copy_range(bytes, i + 4, bytes.len()))
        },
        None => {
            let all = copy_range(bytes, 0, bytes.len());
            assert(all@ =~= bytes@);
            (all, Vec::new())
        },
    }
}

fn method_from(tok: &[u8]) -> (r: Method)
    ensures
        r == method_of(tok@),
{
    if tok.len() == 3 && tok[0] == 71 && tok[1] == 69 && tok[2] == 84 {
        assert(tok@ =~= get_bytes());
        Method::GET
    } else {
        Method::UNKNOWN
    }
}

fn version_from(tok: &[u8]) -> (r: HTTPVersion)
    ensures
        r == version_of(tok@),
{
    if tok.len() == 8 && tok[0] == 72 && tok[1] == 84 && tok[2] == 84 && tok[3] == 80 && tok[4]
        == 47 && tok[5] == 49 && tok[6] == 46 && tok[7] == 49 {
        assert(tok@ =~= http11_bytes());
        HTTPVersion::HTTP1_1
    } else {
        HTTPVersion::UNSUPPORTED
    }
}

fn target_from(tok: &[u8]) -> (r: Vec<u8>)
    ensures
        r@ == target_of(tok@),
{
    if tok.len() == 0 {
        let mut r: Vec<u8> = Vec::new();
        r.push(47);
        assert(r@ =~= seq![47u8]);
        r
    } else {
        copy_range(tok, 0, tok.len())
    }
}

/// `content-length`, the key of the body length among the headers.
fn content_length_name() -> (r: Vec<u8>)
    ensures
        r@ == content_length_key(),
{
    let r: Vec<u8> = vec![99u8, 111, 110, 116, 101, 110, 116, 45, 108, 101, 110, 103, 116, 104];
    assert(r@ =~= content_length_key());
    r
}

impl Request {
    pub closed spec fn spec_method(&self) -> Method {
        self.method
    }

    pub closed spec fn spec_version(&self) -> HTTPVersion {
        self.version
    }

    pub closed spec fn spec_target(&self) -> Seq<u8> {
        match &self.target {
            RequestTarget::OriginForm(s) => s@,
        }
    }

    pub closed spec fn spec_headers(&self) -> Map<Seq<u8>, Seq<u8>> {
        self.headers@
    }

    pub closed spec fn spec_params(&self) -> Map<Seq<u8>, Seq<u8>> {
        self.params@
    }

    pub closed spec fn spec_body(&self) -> Option<Seq<u8>> {
        match &self.body {
            Some(RequestBody::String(b)) => Some(b@),
            None => None,
        }
    }

    pub closed spec fn wf(&self) -> bool {
        self.headers.wf() && self.params.wf()
    }

    /// Parses the bytes of one request: the request line, the headers up to the
    /// blank line, and as many body bytes as `Content-Length` announces.
    pub fn parse(bytes: &[u8]) -> (r: Result<Request, HTTPError>)
        ensures
            !has_terminator(bytes@) <==> r == Err::<Request, HTTPError>(
                HTTPError::MissingHeaderTerminator,
            ),
            has_terminator(bytes@) && malformed_request_line(bytes@) <==> r == Err::<
                Request,
                HTTPError,
            >(HTTPError::MalformedRequestLine),
            r is Ok ==> {
                let q = r->Ok_0;
                let toks = split(request_line(bytes@), 32);
                &&& q.wf()
                &&& q.spec_method() == method_of(toks[0])
                &&& q.spec_target() == target_of(toks[1])
                &&& q.spec_version() == version_of(toks[2])
                &&& q.spec_headers() == headers_of(bytes@)
                &&& forall|k: Seq<u8>| #[trigger]
                    q.spec_headers().contains_key(k) ==> is_trimmed(q.spec_headers()[k])
                &&& q.spec_body() == body_of(bytes@)
                &&& q.spec_params() == Map::<Seq<u8>, Seq<u8>>::empty()
            },
    {
        let ghost b = bytes@;
        let len = bytes.len();
        let t = match header_end(bytes) {
            Some(t) => t,
            None => {
                return Err(HTTPError::MissingHeaderTerminator);
            },
        };
        proof {
            lemma_find_terminator(b, 0);
            assert(is_terminator_at(b, t as int));
            lemma_find_crlf_before(b, 0, t as int);
        }
        let j = find_crlf_from(bytes, 0);
        let line = copy_range(bytes, 0, j);
        let toks = split_bytes(line.as_slice(), 32);
        if toks.len() < 3 {
            return Err(HTTPError::MalformedRequestLine);
        }
        assert(views(toks@)[0] == toks@[0]@);
        let method = method_from(toks[0].as_slice());
        let target = target_from(toks[1].as_slice());
        let version = version_from(toks[2].as_slice());

        let mut headers = ByteMap::new();
        let mut start: usize = j + 2;
        while start < t
            invariant
                j + 2 <= start <= t + 2,
                t + 4 <= b.len(),
                b == bytes@,
                len == b.len(),
                headers.wf(),
                headers_of(b) == headers_from(b, start as int, t as int, headers@),
                find_terminator(b, 0) == t,
                is_terminator_at(b, t as int),
                find_crlf(b, 0) == j,
            decreases t + 2 - start,
        {
            let k = find_crlf_from(bytes, start);
            proof {
                lemma_find_crlf_before(b, start as int, t as int);
            }
            let c = find_byte_from(bytes, start, 58);
            proof {
                lemma_find_byte_bounds(b, start as int, 58);
            }
            if c < k {
                let raw_key = copy_range(bytes, start, c);
                let key = key_of(raw_key.as_slice());
                let value = trim_range(bytes, c + 1, k);
                headers.insert(key, value);
            }
            start = k + 2;
        }
        proof {
            lemma_headers_trimmed(b, find_crlf(b, 0) + 2, t as int, Map::empty());
        }
        let name = content_length_name();
        let n: usize = match headers.get(name.as_slice()) {
            Some(v) => parse_length(v.as_slice()),
            None => 0,
        };
        let body = if n == 0 {
            None
        } else {
            let end = if n <= bytes.len() - (t + 4) {
                t + 4 + n
            } else {
                bytes.len()
            };
            Some(RequestBody::String(copy_range(bytes, t + 4, end)))
        };
        let params = ByteMap::new();
        Ok(Request { method, target: RequestTarget::OriginForm(target), version, headers, body, params })
    }

    /// The body length that the headers announce: the `Content-Length` value
    /// as a number, or 0 where it is missing or no number.
    pub fn announced_length(&self) -> (r: usize)
        requires
            self.wf(),
        ensures
            r == content_length(self.spec_headers()),
    {
        let name = content_length_name();
        match self.headers.get(name.as_slice()) {
            Some(v) => parse_length(v.as_slice()),
            None => 0,
        }
    }

    /// The target as text.
    pub fn get_target(&self) -> (r: String)
        ensures
            r@ == lossy_text(self.spec_target()),
            valid_utf8(self.spec_target()) ==> r@ == decode_utf8(self.spec_target()),
    {
        match &self.target {
            RequestTarget::OriginForm(s) => text_of(s.as_slice()),
        }
    }

    /// The target as bytes.
    pub fn target(&self) -> (r: &Vec<u8>)
        ensures
            r@ == self.spec_target(),
    {
        match &self.target {
            RequestTarget::OriginForm(s) => s,
        }
    }

    pub fn get_method(&self) -> (r: Method)
        ensures
            r == self.spec_method(),
    {
        self.method
    }

    pub fn get_version(&self) -> (r: HTTPVersion)
        ensures
            r == self.spec_version(),
    {
        self.version
    }

    /// Attaches the path parameters that routing found.
    pub fn set_params(&mut self, params: ByteMap)
        requires
            old(self).wf(),
            params.wf(),
        ensures
            final(self).wf(),
            final(self).spec_params() == params@,
            final(self).spec_method() == old(self).spec_method(),
            final(self).spec_target() == old(self).spec_target(),
            final(self).spec_version() == old(self).spec_version(),
            final(self).spec_headers() == old(self).spec_headers(),
            final(self).spec_body() == old(self).spec_body(),
    {
        self.params = params;
    }

    pub fn get_params(&self) -> (r: &ByteMap)
        requires
            self.wf(),
        ensures
            r.wf(),
            r@ == self.spec_params(),
    {
        &self.params
    }

    pub fn get_headers(&self) -> (r: &ByteMap)
        requires
            self.wf(),
        ensures
            r.wf(),
            r@ == self.spec_headers(),
    {
        &self.headers
    }

    /// The body bytes, if a body is attached.
    pub fn get_body(&self) -> (r: Option<&Vec<u8>>)
        ensures
            match r {
                Some(v) => self.spec_body() == Some(v@),
                None => self.spec_body() is None,
            },
    {
        match &self.body {
            Some(RequestBody::String(b)) => Some(b),
            None => None,
        }
    }
}

/// The key under which the raw header name `raw` is stored.
pub fn key_of(raw: &[u8]) -> (r: Vec<u8>)
    ensures
        r@ == header_key(raw@),
{
    let t = trim_range(raw, 0, raw.len());
    assert(raw@.subrange(0, raw@.len() as int) =~= raw@);
    match utf8_text(t.as_slice()) {
        Some(text) => {
            let l = lowercase_text(text.as_str());
            let bs = l.as_str().as_bytes();
            let r = copy_range(bs, 0, bs.len());
            assert(r@ =~= bs@);
            r
        },
        None => to_lowercase(t.as_slice()),
    }
}

/// Relies on `std::str::from_utf8`: it accepts exactly the valid UTF-8, as the
/// text that the bytes encode.
#[verifier::external_body]
fn utf8_text(b: &[u8]) -> (r: Option<String>)
    ensures
        r is Some <==> valid_utf8(b@),
        r matches Some(s) ==> s@ == decode_utf8(b@),
{
    match std::str::from_utf8(b) {
        Ok(s) => Some(s.to_owned()),
        Err(_) => None,
    }
}

/// Relies on `str::to_lowercase`: the result depends on the text alone.
#[verifier::external_body]
fn lowercase_text(s: &str) -> (r: String)
    ensures
        r@ == lower_of(s@),
{
    s.to_lowercase()
}

/// The text that `String::from_utf8_lossy` makes of bytes: a function of the
/// bytes alone.
pub uninterp spec fn lossy_text(b: Seq<u8>) -> Seq<char>;

/// Relies on `String::from_utf8_lossy`: the result depends on the bytes alone,
/// and valid UTF-8 comes back as the text that it encodes.
#[verifier::external_body]
fn text_of(b: &[u8]) -> (r: String)
    ensures
        r@ == lossy_text(b@),
        valid_utf8(b@) ==> r@ == decode_utf8(b@),
{
    String::from_utf8_lossy(b).into_owned()
}

} // verus!
