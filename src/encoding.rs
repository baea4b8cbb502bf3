use vstd::prelude::*;

use crate::bytes::{copy_range, find_byte, find_byte_from, lemma_find_byte_bounds, trim, trim_range};

verus! {

/// A content encoding that responses can be sent in.
#[derive(Copy, Clone, Debug, PartialEq, Eq, Structural)]
pub enum EncodingType {
    Gzip,
}

/// The encoding chosen for a response.
#[derive(Copy, Clone, Debug, PartialEq, Eq, Structural)]
pub struct Encoding {
    encoding_type: EncodingType,
}

/// `gzip`
pub open spec fn gzip_bytes() -> Seq<u8> {
    seq![103u8, 122, 105, 112]
}

/// The first token of an `Accept-Encoding` value: the bytes before the first
/// comma.
pub open spec fn first_token(s: Seq<u8>) -> Seq<u8> {
    s.subrange(0, find_byte(s, 0, 44u8))
}

/// The name of a token: the trimmed token up to its first `;`, where a
/// quality may follow.
pub open spec fn token_name(tok: Seq<u8>) -> Seq<u8> {
    let t = trim(tok);
    t.subrange(0, find_byte(t, 0, 59u8))
}

/// The encoding that a name denotes, if it is one that responses can use.
pub open spec fn encoding_named(name: Seq<u8>) -> Option<EncodingType> {
    if name == gzip_bytes() {
        Some(EncodingType::Gzip)
    } else {
        None
    }
}

/// The name of an encoding in headers.
pub open spec fn encoding_name(e: EncodingType) -> Seq<u8> {
    match e {
        EncodingType::Gzip => gzip_bytes(),
    }
}

/// The encoding that a token names, if it is one that responses can use.
pub open spec fn encoding_of(tok: Seq<u8>) -> Option<EncodingType> {
    encoding_named(token_name(tok))
}

impl EncodingType {
    /// The encoding that `name` denotes, if it is one that responses can use.
    pub fn from_string(name: &[u8]) -> (r: Option<EncodingType>)
        ensures
            r == encoding_named(name@),
    {
        if name.len() == 4 && name[0] == 103 && name[1] == 122 && name[2] == 105 && name[3] == 112 {
            assert(name@ =~= gzip_bytes());
            Some(EncodingType::Gzip)
        } else {
            None
        }
    }
}

/// The encoding chosen for an `Accept-Encoding` value. Tokens are scanned from
/// the left and the scan halts at the first one that names no supported
/// encoding; the first supported one before the halt is chosen, and qualities
/// play no part. So the first token alone decides.
pub open spec fn chosen_encoding(s: Seq<u8>) -> Option<EncodingType> {
    encoding_of(first_token(s))
}

impl Encoding {
    pub closed spec fn kind(&self) -> EncodingType {
        self.encoding_type
    }

    /// Negotiates the response encoding from an `Accept-Encoding` value.
    pub fn get_endoing_scheme(s: &[u8]) -> (r: Option<Encoding>)
        ensures
            match r {
                Some(e) => chosen_encoding(s@) == Some(e.kind()),
                None => chosen_encoding(s@) is None,
            },
    {
        let c = find_byte_from(s, 0, 44);
        proof {
            lemma_find_byte_bounds(s@, 0, 44);
        }
        let t = trim_range(s, 0, c);
        let sc = find_byte_from(t.as_slice(), 0, 59);
        proof {
            lemma_find_byte_bounds(t@, 0, 59);
        }
        let name = copy_range(t.as_slice(), 0, sc);
        match EncodingType::from_string(name.as_slice()) {
            Some(k) => Some(Encoding { encoding_type: k }),
            None => None,
        }
    }

    /// The token that names this encoding in a header.
    pub fn name(&self) -> (r: Vec<u8>)
        ensures
            r@ == encoding_name(self.kind()),
    {
        match self.encoding_type {
            EncodingType::Gzip => {
                let r: Vec<u8> = vec![103u8, 122, 105, 112];
                assert(r@ =~= gzip_bytes());
                r
            },
        }
    }
}

} // verus!
