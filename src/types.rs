//! Fixed-size column values.

use vstd::prelude::*;
use crate::codec::{le_bytes, lemma_pow256_values, u32_bytes};

verus! {

/// A column value of a fixed byte size.
pub trait Type: Sized {
    type CType;

    /// The byte size of a value.
    spec fn size_spec() -> nat;

    /// The value that exactly the bytes `b` hold, if any.
    spec fn decode(b: Seq<u8>) -> Option<Self>;

    /// The bytes of a value.
    spec fn encode(v: Self) -> Seq<u8>;

    /// The byte size of a value.
    fn get_size() -> (r: usize)
        ensures
            r == Self::size_spec(),
    ;

    /// A value read from exactly its bytes.
    fn from_bytes(bytes: &[u8]) -> (r: Option<Self>)
        ensures
            r == Self::decode(bytes@),
    ;

    /// The bytes of a value.
    fn to_bytes(&self) -> (r: Option<Vec<u8>>)
        ensures
            r.is_some() && r.unwrap()@ == Self::encode(*self),
    ;

    /// The plain value.
    fn get_value(&self) -> Self::CType;
}

/// A 32-bit signed integer column value.
#[derive(Copy, Clone, PartialEq, Eq, PartialOrd, Ord, Debug, Structural)]
pub struct Integer(pub i32);

/// A column value of one of the supported types.
#[derive(Copy, Clone)]
pub enum ColumnType {
    Int(Integer),
}

/// The 32-bit integer whose bytes are `b`, most significant first.
pub open spec fn be_i32(b: Seq<u8>) -> int {
    let u = b[0] * 0x100_0000 + b[1] * 0x1_0000 + b[2] * 0x100 + b[3];
    if u >= 0x8000_0000 {
        u - 0x1_0000_0000
    } else {
        u
    }
}

/// The bytes of `v` in two's complement, least significant first.
pub open spec fn le_i32(v: int) -> Seq<u8> {
    if v < 0 {
        le_bytes((v + 0x1_0000_0000) as nat, 4)
    } else {
        le_bytes(v as nat, 4)
    }
}

impl Integer {
    pub fn new(value: i32) -> (r: Integer)
        ensures
            r.0 == value,
    {
        Integer(value)
    }

    /// Reads four bytes, most significant first; nothing for any other length.
    pub fn read(bytes: &[u8]) -> (r: Option<Integer>)
        ensures
            r.is_some() == (bytes@.len() == 4),
            r.is_some() ==> r.unwrap().0 as int == be_i32(bytes@),
    {
        if bytes.len() != 4 {
            return None;
        }
        let u: u32 = (bytes[0] as u32) * 0x100_0000 + (bytes[1] as u32) * 0x1_0000 + (bytes[2] as u32)
            * 0x100 + (bytes[3] as u32);
        let v: i32 = if u >= 0x8000_0000 {
            (u as i64 - 0x1_0000_0000) as i32
        } else {
            u as i32
        };
        Some(Integer(v))
    }

    /// The four bytes of the value in two's complement, least significant
    /// first.
    pub fn bytes(&self) -> (r: Vec<u8>)
        ensures
            r@ == le_i32(self.0 as int),
    {
        proof {
            lemma_pow256_values();
        }
        let v = self.0;
        let u: u32 = if v < 0 {
            (v as i64 + 0x1_0000_0000) as u32
        } else {
            v as u32
        };
        u32_bytes(u)
    }
}

impl Type for Integer {
    type CType = i32;

    open spec fn size_spec() -> nat {
        4
    }

    open spec fn decode(b: Seq<u8>) -> Option<Integer> {
        if b.len() == 4 {
            Some(Integer(be_i32(b) as i32))
        } else {
            None
        }
    }

    open spec fn encode(v: Integer) -> Seq<u8> {
        le_i32(v.0 as int)
    }

    fn get_size() -> (r: usize) {
        4
    }

    /// Reads four bytes, most significant first; nothing for any other length.
    fn from_bytes(bytes: &[u8]) -> (r: Option<Integer>) {
        let r = Integer::read(bytes);
        proof {
            if bytes@.len() == 4 {
                let b = bytes@;
                assert(0 <= b[0] * 0x100_0000 + b[1] * 0x1_0000 + b[2] * 0x100 + b[3] < 0x1_0000_0000);
                assert(i32::MIN <= be_i32(b) <= i32::MAX);
                assert(r.unwrap().0 == be_i32(b) as i32);
            }
        }
        r
    }

    /// The four bytes of the value, least significant first.
    fn to_bytes(&self) -> (r: Option<Vec<u8>>) {
        Some(self.bytes())
    }

    fn get_value(&self) -> (r: i32) {
        self.0
    }
}

} // verus!
