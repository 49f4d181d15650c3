//! The conversion a caller's payload type offers to and from raw bytes.
use vstd::prelude::*;

verus! {

/// A value that can be turned into bytes and rebuilt from them.
pub trait ByteHandler: Sized {
    fn get_bytes(&self) -> Vec<u8>;

    fn from_bytes(a: Vec<u8>) -> Self;
}

} // verus!
