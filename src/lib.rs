use vstd::prelude::*;

pub mod byte_map;
pub mod connection;
pub mod bytes;
pub mod encoding;
pub mod request;
pub mod response;
pub mod router;

verus! {

} // verus!
