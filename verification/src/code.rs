//! How keys and values are turned into bytes and back.

use crate::endian::{get_u64, lemma_u64_be_roundtrip, put_u64, u64_be, u64_from_be};
use vstd::prelude::*;
use vstd::slice::slice_to_vec;

verus! {

/// What a lookup can fail with.
#[derive(Debug, Clone, Copy, PartialEq, Eq, Structural)]
pub enum Error {
    /// An entry was found, but its key or its value is not the encoding of
    /// a value of the type asked for.
    DecodeFailure,
}

/// A type whose values are stored as bytes.
pub trait Code: Sized {
    /// Whether `bytes` are the encoding of a value.
    spec fn decodable(bytes: Seq<u8>) -> bool;

    /// Whether `value` is what `bytes` encode.
    spec fn decodes_to(bytes: Seq<u8>, value: Self) -> bool;

    /// The encoding of the value.
    fn encode(&self) -> (bytes: Vec<u8>)
        ensures
            Self::decodable(bytes@),
            Self::decodes_to(bytes@, *self),
    ;

    /// The value that `bytes` encode, or `None` where they encode none.
    fn decode(bytes: &[u8]) -> (value: Option<Self>)
        ensures
            value is Some <==> Self::decodable(bytes@),
            value is Some ==> Self::decodes_to(bytes@, value.unwrap()),
    ;
}

/// A `u64` is stored as its eight big-endian bytes.
impl Code for u64 {
    open spec fn decodable(bytes: Seq<u8>) -> bool {
        bytes.len() == 8
    }

    open spec fn decodes_to(bytes: Seq<u8>, value: u64) -> bool {
        value == u64_from_be(bytes)
    }

    fn encode(&self) -> (bytes: Vec<u8>) {
        let mut bytes: Vec<u8> = vec![0u8; 8];
        put_u64(&mut bytes, 0, 8, *self);
        proof {
            lemma_u64_be_roundtrip(*self);
            assert(bytes@ =~= u64_be(*self));
        }
        bytes
    }

    fn decode(bytes: &[u8]) -> (value: Option<u64>) {
        if bytes.len() == 8 {
            Some(get_u64(bytes))
        } else {
            None
        }
    }
}

/// A byte string is stored as it is.
impl Code for Vec<u8> {
    open spec fn decodable(bytes: Seq<u8>) -> bool {
        true
    }

    open spec fn decodes_to(bytes: Seq<u8>, value: Vec<u8>) -> bool {
        value@ == bytes
    }

    fn encode(&self) -> (bytes: Vec<u8>) {
        slice_to_vec(self.as_slice())
    }

    fn decode(bytes: &[u8]) -> (value: Option<Vec<u8>>) {
        Some(slice_to_vec(bytes))
    }
}

} // verus!
