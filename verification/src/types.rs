//! Fixed-width integer wrapper types used as example keys and values: a
//! 64-bit unsigned integer that crosses the byte boundary little-endian or
//! big-endian.

use vstd::prelude::*;
use crate::codec::{push_u64_le, spec_u64_to_be_bytes};
use vstd::bytes::{
    lemma_auto_spec_u64_to_from_le_bytes, spec_u64_from_le_bytes, spec_u64_to_le_bytes,
    u64_from_le_bytes,
};

verus! {

/// Little-endian 64-bit unsigned integer.
#[derive(Clone, Copy, PartialEq, Eq, Structural, Hash, Debug)]
pub struct U64Le(pub u64);

impl U64Le {
    /// The eight bytes of the value, least significant first.
    pub fn to_bytes(&self) -> (r: Vec<u8>)
        ensures
            r@ == spec_u64_to_le_bytes(self.0),
            r@.len() == 8,
    {
        let mut out: Vec<u8> = Vec::new();
        push_u64_le(&mut out, self.0);
        proof {
            assert(out@ =~= spec_u64_to_le_bytes(self.0));
        }
        out
    }

    /// The value whose little-endian bytes are given.
    pub fn from_bytes(bytes: &Vec<u8>) -> (r: U64Le)
        requires
            bytes@.len() == 8,
        ensures
            r.0 == spec_u64_from_le_bytes(bytes@),
            spec_u64_to_le_bytes(r.0) == bytes@,
    {
        proof {
            lemma_auto_spec_u64_to_from_le_bytes();
        }
        U64Le(u64_from_le_bytes(bytes.as_slice()))
    }
}

/// Big-endian 64-bit unsigned integer.
#[derive(Clone, Copy, PartialEq, Eq, Structural, Hash, Debug)]
pub struct U64Be(pub u64);

impl U64Be {
    /// The eight bytes of the value, most significant first.
    pub fn to_bytes(&self) -> (r: Vec<u8>)
        ensures
            r@ == spec_u64_to_be_bytes(self.0),
            r@.len() == 8,
    {
        proof {
            lemma_auto_spec_u64_to_from_le_bytes();
        }
        let mut out: Vec<u8> = Vec::new();
        crate::codec::push_u64_be(&mut out, self.0);
        proof {
            assert(out@ =~= spec_u64_to_be_bytes(self.0));
        }
        out
    }

    /// The value whose big-endian bytes are given.
    pub fn from_bytes(bytes: &Vec<u8>) -> (r: U64Be)
        requires
            bytes@.len() == 8,
        ensures
            r.0 == spec_u64_from_le_bytes(bytes@.reverse()),
            spec_u64_to_be_bytes(r.0) == bytes@,
    {
        proof {
            lemma_auto_spec_u64_to_from_le_bytes();
        }
        let mut rev: Vec<u8> = Vec::new();
        let mut i: usize = 0;
        while i < 8
            invariant
                bytes@.len() == 8,
                i <= 8,
                rev@ == bytes@.reverse().take(i as int),
            decreases 8 - i,
        {
            rev.push(bytes[8 - 1 - i]);
            proof {
                assert(rev@ =~= bytes@.reverse().take(i + 1));
            }
            i += 1;
        }
        proof {
            assert(rev@ =~= bytes@.reverse());
        }
        let x = u64_from_le_bytes(rev.as_slice());
        proof {
            assert(spec_u64_to_le_bytes(x) == bytes@.reverse());
            assert(spec_u64_to_le_bytes(x).reverse() =~= bytes@);
        }
        U64Be(x)
    }
}

} // verus!
