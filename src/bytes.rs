use vstd::prelude::*;

verus! {

/// ASCII whitespace: tab, line feed, vertical tab, form feed, carriage return
/// and space.
pub open spec fn is_ws(c: u8) -> bool {
    (9 <= c && c <= 13) || c == 32
}

/// The UTF-8 encodings of three bytes of the Unicode whitespace characters
/// U+1680, U+2000 to U+200A, U+2028, U+2029, U+202F, U+205F and U+3000.
pub open spec fn is_ws3(a: u8, b: u8, c: u8) -> bool {
    ||| (a == 0xE1 && b == 0x9A && c == 0x80)
    ||| (a == 0xE2 && b == 0x80 && ((0x80 <= c && c <= 0x8A) || c == 0xA8 || c == 0xA9 || c
        == 0xAF))
    ||| (a == 0xE2 && b == 0x81 && c == 0x9F)
    ||| (a == 0xE3 && b == 0x80 && c == 0x80)
}

/// The UTF-8 encodings of two bytes of the Unicode whitespace characters U+0085
/// and U+00A0.
pub open spec fn is_ws2(a: u8, b: u8) -> bool {
    a == 0xC2 && (b == 0x85 || b == 0xA0)
}

/// The length of the whitespace character that `s` starts with, or 0.
/// Whitespace is Unicode's White_Space set, as `str::trim` takes it.
pub open spec fn ws_start(s: Seq<u8>) -> int {
    if s.len() >= 1 && is_ws(s[0]) {
        1
    } else if s.len() >= 2 && is_ws2(s[0], s[1]) {
        2
    } else if s.len() >= 3 && is_ws3(s[0], s[1], s[2]) {
        3
    } else {
        0
    }
}

/// The length of the whitespace character that `s` ends with, or 0.
pub open spec fn ws_end(s: Seq<u8>) -> int {
    let n = s.len() as int;
    if n >= 1 && is_ws(s[n - 1]) {
        1
    } else if n >= 2 && is_ws2(s[n - 2], s[n - 1]) {
        2
    } else if n >= 3 && is_ws3(s[n - 3], s[n - 2], s[n - 1]) {
        3
    } else {
        0
    }
}

/// `s` without its leading whitespace.
pub open spec fn trim_start(s: Seq<u8>) -> Seq<u8>
    decreases s.len(),
{
    if ws_start(s) > 0 {
        trim_start(s.subrange(ws_start(s), s.len() as int))
    } else {
        s
    }
}

/// `s` without its trailing whitespace.
pub open spec fn trim_end(s: Seq<u8>) -> Seq<u8>
    decreases s.len(),
{
    if ws_end(s) > 0 {
        trim_end(s.subrange(0, s.len() - ws_end(s)))
    } else {
        s
    }
}

/// `s` without whitespace at either end.
pub open spec fn trim(s: Seq<u8>) -> Seq<u8> {
    trim_end(trim_start(s))
}

/// A text with no whitespace at either end.
pub open spec fn is_trimmed(s: Seq<u8>) -> bool {
    ws_start(s) == 0 && ws_end(s) == 0
}

pub open spec fn lower_byte(c: u8) -> u8 {
    if 65 <= c && c <= 90 {
        (c + 32) as u8
    } else {
        c
    }
}

/// `s` with its ASCII capitals made small, and every other byte as it is: the
/// lowercasing left for bytes that are not UTF-8 text.
pub open spec fn lowercase(s: Seq<u8>) -> Seq<u8> {
    s.map_values(|c: u8| lower_byte(c))
}

proof fn lemma_trim_start_done(s: Seq<u8>)
    ensures
        ws_start(trim_start(s)) == 0,
    decreases s.len(),
{
    if ws_start(s) > 0 {
        lemma_trim_start_done(s.subrange(ws_start(s), s.len() as int));
    }
}

proof fn lemma_trim_end_prefix(s: Seq<u8>)
    requires
        ws_start(s) == 0,
    ensures
        ws_start(trim_end(s)) == 0,
        ws_end(trim_end(s)) == 0,
    decreases s.len(),
{
    if ws_end(s) > 0 {
        let p = s.subrange(0, s.len() - ws_end(s));
        assert(ws_start(p) == 0);
        lemma_trim_end_prefix(p);
    }
}

/// Trimming leaves no whitespace at either end.
pub proof fn lemma_trim_trimmed(s: Seq<u8>)
    ensures
        is_trimmed(trim(s)),
{
    lemma_trim_start_done(s);
    lemma_trim_end_prefix(trim_start(s));
}

/// The index of the first `sep` in `s` at or after `from`, or `s.len()`.
pub open spec fn find_byte(s: Seq<u8>, from: int, sep: u8) -> int
    decreases s.len() - from,
{
    if from < 0 || from >= s.len() {
        s.len() as int
    } else if s[from] == sep {
        from
    } else {
        find_byte(s, from + 1, sep)
    }
}

/// The index of the first carriage return and line feed pair in `s` at or after
/// `from`, or `s.len()`.
pub open spec fn find_crlf(s: Seq<u8>, from: int) -> int
    decreases s.len() - from,
{
    if from < 0 || from + 1 >= s.len() {
        s.len() as int
    } else if s[from] == 13 && s[from + 1] == 10 {
        from
    } else {
        find_crlf(s, from + 1)
    }
}

/// The pieces of `s[from..]` between the separators `sep`, empty ones included,
/// in order; a text without a separator is one piece.
pub open spec fn split_from(s: Seq<u8>, from: int, sep: u8) -> Seq<Seq<u8>>
    decreases s.len() - from,
{
    let k = find_byte(s, from, sep);
    if from < 0 || from > s.len() || k < from || k >= s.len() {
        seq![s.subrange(from, s.len() as int)]
    } else {
        seq![s.subrange(from, k)] + split_from(s, k + 1, sep)
    }
}

/// The pieces of `s` between the separators `sep`, empty ones included, in order.
pub open spec fn split(s: Seq<u8>, sep: u8) -> Seq<Seq<u8>> {
    split_from(s, 0, sep)
}

/// The non-empty pieces of `s[from..]` between the separators `sep`, in order.
pub open spec fn segments_from(s: Seq<u8>, from: int, sep: u8) -> Seq<Seq<u8>>
    decreases s.len() - from,
{
    let k = find_byte(s, from, sep);
    let first = if from < 0 || from > s.len() || k < from || k >= s.len() {
        s.subrange(from, s.len() as int)
    } else {
        s.subrange(from, k)
    };
    let head: Seq<Seq<u8>> = if first.len() > 0 { seq![first] } else { seq![] };
    if from < 0 || from > s.len() || k < from || k >= s.len() {
        head
    } else {
        head + segments_from(s, k + 1, sep)
    }
}

/// The non-empty pieces of `s` between the separators `sep`, in order.
pub open spec fn segments(s: Seq<u8>, sep: u8) -> Seq<Seq<u8>> {
    segments_from(s, 0, sep)
}

/// The pieces of `segs` joined with `sep` between them.
pub open spec fn join(segs: Seq<Seq<u8>>, sep: u8) -> Seq<u8>
    decreases segs.len(),
{
    if segs.len() == 0 {
        seq![]
    } else if segs.len() == 1 {
        segs[0]
    } else {
        join(segs.drop_last(), sep) + seq![sep] + segs.last()
    }
}

pub proof fn lemma_find_byte_bounds(s: Seq<u8>, from: int, sep: u8)
    requires
        0 <= from,
    ensures
        from <= find_byte(s, from, sep) <= s.len() || (from > s.len() && find_byte(s, from, sep)
            == s.len()),
        find_byte(s, from, sep) < s.len() ==> s[find_byte(s, from, sep)] == sep,
        forall|j: int| from <= j < find_byte(s, from, sep) ==> s[j] != sep,
    decreases s.len() - from,
{
    if from < s.len() && s[from] != sep {
        lemma_find_byte_bounds(s, from + 1, sep);
    }
}

/// Whether two byte texts are equal.
pub fn bytes_eq(a: &[u8], b: &[u8]) -> (r: bool)
    ensures
        r == (a@ == b@),
{
    if a.len() != b.len() {
        return false;
    }
    let mut i: usize = 0;
    while i < a.len()
        invariant
            a@.len() == b@.len(),
            0 <= i <= a@.len(),
            forall|j: int| 0 <= j < i ==> a@[j] == b@[j],
        decreases a@.len() - i,
    {
        if a[i] != b[i] {
            return false;
        }
        i = i + 1;
    }
    assert(a@ =~= b@);
    true
}

/// A copy of `s[lo..hi]`.
pub fn copy_range(s: &[u8], lo: usize, hi: usize) -> (r: Vec<u8>)
    requires
        lo <= hi <= s@.len(),
    ensures
        r@ == s@.subrange(lo as int, hi as int),
{
    let mut r: Vec<u8> = Vec::new();
    let mut i: usize = lo;
    while i < hi
        invariant
            lo <= i <= hi <= s@.len(),
            r@ == s@.subrange(lo as int, i as int),
        decreases hi - i,
    {
        r.push(s[i]);
        assert(r@ =~= s@.subrange(lo as int, i + 1));
        i = i + 1;
    }
    r
}

/// The first index at or after `from` that holds `sep`, or `s.len()`.
pub fn find_byte_from(s: &[u8], from: usize, sep: u8) -> (r: usize)
    requires
        from <= s@.len(),
    ensures
        r as int == find_byte(s@, from as int, sep),
{
    let mut i: usize = from;
    while i < s.len()
        invariant
            from <= i <= s@.len(),
            find_byte(s@, from as int, sep) == find_byte(s@, i as int, sep),
        decreases s@.len() - i,
    {
        if s[i] == sep {
            return i;
        }
        i = i + 1;
    }
    i
}

/// The first index at or after `from` where a carriage return and line feed
/// pair starts, or `s.len()`.
pub fn find_crlf_from(s: &[u8], from: usize) -> (r: usize)
    requires
        from <= s@.len(),
    ensures
        r as int == find_crlf(s@, from as int),
{
    let mut i: usize = from;
    while i < s.len() && s.len() - i > 1
        invariant
            from <= i <= s@.len(),
            find_crlf(s@, from as int) == find_crlf(s@, i as int),
        decreases s@.len() - i,
    {
        if s[i] == 13 && s[i + 1] == 10 {
            return i;
        }
        i = i + 1;
    }
    s.len()
}

fn ws_len_fwd(s: &[u8], a: usize, hi: usize) -> (r: usize)
    requires
        a <= hi <= s@.len(),
    ensures
        r as int == ws_start(s@.subrange(a as int, hi as int)),
{
    let n = hi - a;
    if n >= 1 && (9 <= s[a] && s[a] <= 13 || s[a] == 32) {
        1
    } else if n >= 2 && s[a] == 0xC2 && (s[a + 1] == 0x85 || s[a + 1] == 0xA0) {
        2
    } else if n >= 3 && (s[a] == 0xE1 && s[a + 1] == 0x9A && s[a + 2] == 0x80 || s[a] == 0xE2
        && s[a + 1] == 0x80 && (0x80 <= s[a + 2] && s[a + 2] <= 0x8A || s[a + 2] == 0xA8 || s[a
        + 2] == 0xA9 || s[a + 2] == 0xAF) || s[a] == 0xE2 && s[a + 1] == 0x81 && s[a + 2] == 0x9F
        || s[a] == 0xE3 && s[a + 1] == 0x80 && s[a + 2] == 0x80) {
        3
    } else {
        0
    }
}

fn ws_len_back(s: &[u8], a: usize, b: usize) -> (r: usize)
    requires
        a <= b <= s@.len(),
    ensures
        r as int == ws_end(s@.subrange(a as int, b as int)),
{
    let n = b - a;
    if n >= 1 && (9 <= s[b - 1] && s[b - 1] <= 13 || s[b - 1] == 32) {
        1
    } else if n >= 2 && s[b - 2] == 0xC2 && (s[b - 1] == 0x85 || s[b - 1] == 0xA0) {
        2
    } else if n >= 3 && (s[b - 3] == 0xE1 && s[b - 2] == 0x9A && s[b - 1] == 0x80 || s[b - 3]
        == 0xE2 && s[b - 2] == 0x80 && (0x80 <= s[b - 1] && s[b - 1] <= 0x8A || s[b - 1] == 0xA8
        || s[b - 1] == 0xA9 || s[b - 1] == 0xAF) || s[b - 3] == 0xE2 && s[b - 2] == 0x81 && s[b
        - 1] == 0x9F || s[b - 3] == 0xE3 && s[b - 2] == 0x80 && s[b - 1] == 0x80) {
        3
    } else {
        0
    }
}

/// A copy of `s[lo..hi]` without whitespace at either end.
pub fn trim_range(s: &[u8], lo: usize, hi: usize) -> (r: Vec<u8>)
    requires
        lo <= hi <= s@.len(),
    ensures
        r@ == trim(s@.subrange(lo as int, hi as int)),
{
    let ghost t = s@.subrange(lo as int, hi as int);
    let mut a: usize = lo;
    loop
        invariant
            lo <= a <= hi <= s@.len(),
            trim_start(t) == trim_start(s@.subrange(a as int, hi as int)),
        ensures
            lo <= a <= hi,
            trim_start(t) == trim_start(s@.subrange(a as int, hi as int)),
            ws_start(s@.subrange(a as int, hi as int)) == 0,
        decreases hi - a,
    {
        let w = ws_len_fwd(s, a, hi);
        if w == 0 {
            break;
        }
        assert(s@.subrange(a as int, hi as int).subrange(w as int, (hi - a) as int) =~= s@.subrange(
            a + w,
            hi as int,
        ));
        a = a + w;
    }
    assert(trim_start(s@.subrange(a as int, hi as int)) == s@.subrange(a as int, hi as int));
    let mut b: usize = hi;
    loop
        invariant
            lo <= a <= b <= hi <= s@.len(),
            trim(t) == trim_end(s@.subrange(a as int, b as int)),
        ensures
            lo <= a <= b <= hi,
            trim(t) == trim_end(s@.subrange(a as int, b as int)),
            ws_end(s@.subrange(a as int, b as int)) == 0,
        decreases b - a,
    {
        let w = ws_len_back(s, a, b);
        if w == 0 {
            break;
        }
        assert(s@.subrange(a as int, b as int).subrange(0, (b - a - w) as int) =~= s@.subrange(
            a as int,
            b - w,
        ));
        b = b - w;
    }
    copy_range(s, a, b)
}

/// A copy of `s` with its ASCII capitals made small.
pub fn to_lowercase(s: &[u8]) -> (r: Vec<u8>)
    ensures
        r@ == lowercase(s@),
{
    let mut r: Vec<u8> = Vec::new();
    let mut i: usize = 0;
    while i < s.len()
        invariant
            0 <= i <= s@.len(),
            r@ =~= lowercase(s@.subrange(0, i as int)),
        decreases s@.len() - i,
    {
        let c = s[i];
        let d: u8 = if 65 <= c && c <= 90 {
            c + 32
        } else {
            c
        };
        r.push(d);
        assert(lowercase(s@.subrange(0, i + 1)) =~= lowercase(s@.subrange(0, i as int)).push(d));
        i = i + 1;
    }
    assert(s@.subrange(0, s@.len() as int) =~= s@);
    r
}

/// The contents of each text in `v`.
pub open spec fn views(v: Seq<Vec<u8>>) -> Seq<Seq<u8>> {
    v.map_values(|x: Vec<u8>| x@)
}

/// The pieces of `s` between the separators `sep`, empty ones included.
pub fn split_bytes(s: &[u8], sep: u8) -> (r: Vec<Vec<u8>>)
    ensures
        views(r@) == split(s@, sep),
{
    let mut r: Vec<Vec<u8>> = Vec::new();
    let mut start: usize = 0;
    loop
        invariant
            0 <= start <= s@.len(),
            split(s@, sep) == views(r@) + split_from(s@, start as int, sep),
        decreases s@.len() - start,
    {
        let k = find_byte_from(s, start, sep);
        proof {
            lemma_find_byte_bounds(s@, start as int, sep);
        }
        let piece = copy_range(s, start, k);
        let ghost before = views(r@);
        r.push(piece);
        assert(views(r@) =~= before.push(piece@));
        if k >= s.len() {
            assert(split(s@, sep) =~= views(r@));
            return r;
        }
        assert(split(s@, sep) =~= views(r@) + split_from(s@, k + 1, sep));
        start = k + 1;
    }
}

/// The non-empty pieces of `s` between the separators `sep`.
pub fn segments_of(s: &[u8], sep: u8) -> (r: Vec<Vec<u8>>)
    ensures
        views(r@) == segments(s@, sep),
        forall|k: int| 0 <= k < r@.len() ==> (#[trigger] r@[k])@.len() > 0,
{
    let mut r: Vec<Vec<u8>> = Vec::new();
    let mut start: usize = 0;
    loop
        invariant
            0 <= start <= s@.len(),
            segments(s@, sep) == views(r@) + segments_from(s@, start as int, sep),
            forall|k: int| 0 <= k < r@.len() ==> (#[trigger] r@[k])@.len() > 0,
        decreases s@.len() - start,
    {
        let k = find_byte_from(s, start, sep);
        proof {
            lemma_find_byte_bounds(s@, start as int, sep);
        }
        let ghost before = views(r@);
        if k > start {
            let piece = copy_range(s, start, k);
            r.push(piece);
            assert(views(r@) =~= before.push(piece@));
        }
        if k >= s.len() {
            assert(segments(s@, sep) =~= views(r@));
            return r;
        }
        assert(segments(s@, sep) =~= views(r@) + segments_from(s@, k + 1, sep));
        start = k + 1;
    }
}

/// Appends the bytes of `s` to `r`.
pub fn append_bytes(r: &mut Vec<u8>, s: &[u8])
    ensures
        final(r)@ == old(r)@ + s@,
{
    let mut i: usize = 0;
    while i < s.len()
        invariant
            0 <= i <= s@.len(),
            r@ == old(r)@ + s@.subrange(0, i as int),
        decreases s@.len() - i,
    {
        r.push(s[i]);
        assert(old(r)@ + s@.subrange(0, i + 1) =~= old(r)@ + s@.subrange(0, i as int) + seq![
            s@[i as int],
        ]);
        i = i + 1;
    }
    assert(s@.subrange(0, s@.len() as int) =~= s@);
}

/// The texts `segs[from..]` joined with `sep` between them.
pub fn join_from(segs: &Vec<Vec<u8>>, from: usize, sep: u8) -> (r: Vec<u8>)
    requires
        from < segs@.len(),
    ensures
        r@ == join(views(segs@).subrange(from as int, segs@.len() as int), sep),
{
    let ghost v = views(segs@);
    let n = segs.len();
    let mut r = copy_range(segs[from].as_slice(), 0, segs[from].len());
    assert(v.subrange(from as int, from + 1).drop_last().len() == 0);
    let mut k: usize = from + 1;
    while k < segs.len()
        invariant
            from < k <= segs@.len(),
            v == views(segs@),
            r@ == join(v.subrange(from as int, k as int), sep),
        decreases segs@.len() - k,
    {
        r.push(sep);
        append_bytes(&mut r, segs[k].as_slice());
        assert(v.subrange(from as int, k + 1).drop_last() =~= v.subrange(from as int, k as int));
        k = k + 1;
    }
    r
}

} // verus!
