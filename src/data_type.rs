//! Column kinds: how a literal or a text becomes bytes, and bytes become text.

use vstd::prelude::*;
use vstd::utf8::{decode_utf8, encode_utf8, valid_utf8};
use crate::codec::{le_bytes, le_val, pow256, lemma_le_round_trip, lemma_pow256_values, read_u16_at, read_u32_at, read_u64_at, u16_bytes, u32_bytes, u64_bytes};
use crate::error::ErrorKind;
use crate::text::{from_utf8, format_i64, format_u64, int_text, lemma_parse_signed_int_text, lemma_parse_unsigned_decimal, parse_i64, parse_signed, parse_u64, parse_unsigned};

verus! {

/// A column kind.
#[derive(Debug, Clone, Copy, PartialEq, Eq, Structural)]
pub enum DataType {
    Char,
    U32,
    I32,
    U64,
    I64,
    VarChar,
}

/// The SQL column kinds that a parsed statement names.
#[derive(Debug, Clone, Copy, PartialEq, Eq, Structural)]
pub enum SqlType {
    Char(u16),
    Varchar(u16),
    Int(u16),
    /// Any kind that the engine does not store.
    Other,
}

/// A literal value of a parsed statement.
#[derive(Debug, PartialEq, Eq)]
pub enum Literal {
    Null,
    Integer(i64),
    String(String),
    /// Any literal that no column kind takes.
    Other,
}

pub open spec fn fixed_size(t: DataType) -> Option<nat> {
    match t {
        DataType::Char => Some(1),
        DataType::U32 | DataType::I32 => Some(4),
        DataType::U64 | DataType::I64 => Some(8),
        DataType::VarChar => None,
    }
}

pub open spec fn is_int_kind(t: DataType) -> bool {
    !(t is Char) && !(t is VarChar)
}

pub open spec fn is_signed(t: DataType) -> bool {
    t is I32 || t is I64
}

/// Whether `v` is a value of the integer kind `t`.
pub open spec fn int_fits(t: DataType, v: int) -> bool {
    match t {
        DataType::U32 => 0 <= v <= u32::MAX,
        DataType::I32 => i32::MIN <= v <= i32::MAX,
        DataType::U64 => 0 <= v <= u64::MAX,
        DataType::I64 => i64::MIN <= v <= i64::MAX,
        _ => false,
    }
}

/// The bytes of the integer `v` in kind `t`: two's complement, least
/// significant byte first.
pub open spec fn int_data(t: DataType, v: int) -> Seq<u8> {
    let n = fixed_size(t).unwrap();
    if v < 0 {
        le_bytes((v + pow256(n)) as nat, n)
    } else {
        le_bytes(v as nat, n)
    }
}

/// The integer that the bytes `b` of kind `t` hold.
pub open spec fn int_of_data(t: DataType, b: Seq<u8>) -> int {
    let u = le_val(b) as int;
    let m = pow256(fixed_size(t).unwrap()) as int;
    if is_signed(t) && 2 * u >= m {
        u - m
    } else {
        u
    }
}

/// A variable-length text: its byte length in two bytes, then its bytes.
pub open spec fn varchar_data(b: Seq<u8>) -> Seq<u8> {
    le_bytes(b.len(), 2) + b
}

/// What `data_from_literal` makes of a literal.
pub open spec fn literal_data(t: DataType, lit: Literal) -> Option<Seq<u8>> {
    match (t, lit) {
        (DataType::Char, Literal::String(s)) => if encode_utf8(s@).len() == 1 {
            Some(encode_utf8(s@))
        } else {
            None
        },
        (DataType::VarChar, Literal::String(s)) => if encode_utf8(s@).len() <= u16::MAX {
            Some(varchar_data(encode_utf8(s@)))
        } else {
            None
        },
        (_, Literal::Integer(v)) => if is_int_kind(t) && int_fits(t, v as int) {
            Some(int_data(t, v as int))
        } else {
            None
        },
        _ => None,
    }
}

/// The integer that a text denotes in kind `t`, if any.
pub open spec fn parse_int(t: DataType, s: Seq<char>) -> Option<int> {
    let p = if is_signed(t) {
        parse_signed(s)
    } else {
        parse_unsigned(s)
    };
    if p.is_some() && int_fits(t, p.unwrap()) {
        p
    } else {
        None
    }
}

/// What `string_to_data` makes of a text.
pub open spec fn text_data(t: DataType, s: Seq<char>) -> Option<Seq<u8>> {
    match t {
        DataType::Char => if encode_utf8(s).len() == 1 {
            Some(encode_utf8(s))
        } else {
            None
        },
        DataType::VarChar => if encode_utf8(s).len() <= u16::MAX {
            Some(varchar_data(encode_utf8(s)))
        } else {
            None
        },
        _ => match parse_int(t, s) {
            Some(v) => Some(int_data(t, v)),
            None => None,
        },
    }
}

/// The byte size of a value of kind `t` that starts `b`.
pub open spec fn size_of_data(t: DataType, b: Option<Seq<u8>>) -> Option<nat> {
    match fixed_size(t) {
        Some(n) => Some(n),
        None => match b {
            Some(b) => if b.len() >= 2 {
                Some(le_val(b.take(2)) + 2)
            } else {
                None
            },
            None => None,
        },
    }
}

/// What `data_to_string` makes of bytes: the value's text when the bytes are
/// exactly one value of kind `t`.
pub open spec fn data_text(t: DataType, b: Seq<u8>) -> Option<Seq<char>> {
    if b.len() == 0 || size_of_data(t, Some(b)) != Some(b.len()) {
        None
    } else {
        match t {
            DataType::Char => if valid_utf8(b) {
                Some(decode_utf8(b))
            } else {
                None
            },
            DataType::VarChar => if valid_utf8(b.skip(2)) {
                Some(decode_utf8(b.skip(2)))
            } else {
                None
            },
            _ => Some(int_text(int_of_data(t, b))),
        }
    }
}

/// The text of a literal: a string as it is, an integer in decimal.
pub open spec fn literal_text(lit: Literal) -> Seq<char> {
    match lit {
        Literal::String(s) => s@,
        Literal::Integer(v) => int_text(v as int),
        _ => Seq::empty(),
    }
}

/// The two-byte tag of a kind.
pub open spec fn type_tag(t: DataType) -> nat {
    match t {
        DataType::Char => 0,
        DataType::U32 => 1,
        DataType::I32 => 2,
        DataType::U64 => 3,
        DataType::I64 => 4,
        DataType::VarChar => 5,
    }
}

/// The bytes of an integer of kind `t` read back as that integer.
pub proof fn lemma_int_data_round_trip(t: DataType, v: int)
    requires
        is_int_kind(t),
        int_fits(t, v),
    ensures
        int_data(t, v).len() == fixed_size(t).unwrap(),
        int_of_data(t, int_data(t, v)) == v,
{
    lemma_pow256_values();
    let n = fixed_size(t).unwrap();
    if v < 0 {
        lemma_le_round_trip((v + pow256(n)) as nat, n);
    } else {
        lemma_le_round_trip(v as nat, n);
    }
}

/// For every kind and every literal that the kind takes: the literal's text,
/// stored through `string_to_data` and read back through `data_to_string`, is
/// the literal's text again.
pub proof fn lemma_text_round_trip(t: DataType, lit: Literal)
    requires
        literal_data(t, lit).is_some(),
    ensures
        text_data(t, literal_text(lit)).is_some(),
        data_text(t, text_data(t, literal_text(lit)).unwrap()) == Some(literal_text(lit)),
{
    lemma_pow256_values();
    match lit {
        Literal::String(s) => {
            let e = encode_utf8(s@);
            vstd::utf8::encode_utf8_valid_utf8(s@);
            vstd::utf8::encode_utf8_decode_utf8(s@);
            if t is VarChar {
                let b = varchar_data(e);
                lemma_le_round_trip(e.len(), 2);
                assert(b.take(2) =~= le_bytes(e.len(), 2));
                assert(b.skip(2) =~= e);
            }
        },
        Literal::Integer(v) => {
            let v = v as int;
            if is_signed(t) {
                lemma_parse_signed_int_text(v);
            } else {
                lemma_parse_unsigned_decimal(v as nat);
            }
            assert(parse_int(t, int_text(v)) == Some(v));
            lemma_int_data_round_trip(t, v);
        },
        _ => {},
    }
}

impl DataType {
    /// The kind that stores a SQL column kind, if the engine stores it.
    pub fn from_nom_type(nom_type: SqlType) -> (r: Option<DataType>)
        ensures
            r == match nom_type {
                SqlType::Char(len) => if len == 1 {
                    Some(DataType::Char)
                } else {
                    Some(DataType::VarChar)
                },
                SqlType::Int(_) => Some(DataType::I32),
                SqlType::Varchar(_) => Some(DataType::VarChar),
                SqlType::Other => None::<DataType>,
            },
    {
        match nom_type {
            SqlType::Char(len) => {
                if len == 1 {
                    Some(DataType::Char)
                } else {
                    Some(DataType::VarChar)
                }
            },
            SqlType::Int(_) => Some(DataType::I32),
            SqlType::Varchar(_) => Some(DataType::VarChar),
            SqlType::Other => None,
        }
    }

    /// Whether a literal is of the right shape for this kind: a one-byte string
    /// for `Char`, an integer for the integer kinds, a string for `VarChar`.
    pub fn match_literal(&self, input: &Literal) -> (r: bool)
        ensures
            r == match (*self, *input) {
                (DataType::Char, Literal::String(s)) => encode_utf8(s@).len() == 1,
                (DataType::VarChar, Literal::String(_)) => true,
                (_, Literal::Integer(_)) => is_int_kind(*self),
                _ => false,
            },
    {
        match self {
            DataType::Char => match input {
                Literal::String(s) => s.as_str().as_bytes().len() == 1,
                _ => false,
            },
            DataType::VarChar => match input {
                Literal::String(_) => true,
                _ => false,
            },
            _ => match input {
                Literal::Integer(_) => true,
                _ => false,
            },
        }
    }
}


/// The kind that a two-byte tag names.
pub open spec fn type_of_tag(n: nat) -> Option<DataType> {
    if n == 0 {
        Some(DataType::Char)
    } else if n == 1 {
        Some(DataType::U32)
    } else if n == 2 {
        Some(DataType::I32)
    } else if n == 3 {
        Some(DataType::U64)
    } else if n == 4 {
        Some(DataType::I64)
    } else if n == 5 {
        Some(DataType::VarChar)
    } else {
        None
    }
}

pub open spec fn seq_of(b: Option<&[u8]>) -> Option<Seq<u8>> {
    match b {
        Some(b) => Some(b@),
        None => None,
    }
}

/// `r` holds exactly the bytes `b`, or nothing where `b` is nothing.
pub open spec fn bytes_are(r: Option<Vec<u8>>, b: Option<Seq<u8>>) -> bool {
    match r {
        Some(v) => b == Some(v@),
        None => b.is_none(),
    }
}

/// `r` holds exactly the text `t`, or nothing where `t` is nothing.
pub open spec fn text_is(r: Option<String>, t: Option<Seq<char>>) -> bool {
    match r {
        Some(v) => t == Some(v@),
        None => t.is_none(),
    }
}

/// The bytes of an unsigned integer of an unsigned kind.
fn unsigned_data(t: DataType, v: u64) -> (r: Vec<u8>)
    requires
        t is U32 || t is U64,
        int_fits(t, v as int),
    ensures
        r@ == int_data(t, v as int),
{
    match t {
        DataType::U32 => u32_bytes(v as u32),
        _ => u64_bytes(v),
    }
}

/// The bytes of a signed integer of a signed kind.
fn signed_data(t: DataType, v: i64) -> (r: Vec<u8>)
    requires
        is_signed(t),
        int_fits(t, v as int),
    ensures
        r@ == int_data(t, v as int),
{
    proof {
        lemma_pow256_values();
    }
    match t {
        DataType::I32 => {
            let u: u32 = if v < 0 {
                (v + 0x1_0000_0000) as u32
            } else {
                v as u32
            };
            u32_bytes(u)
        },
        _ => {
            let u: u64 = if v < 0 {
                u64::MAX - ((-(v + 1)) as u64)
            } else {
                v as u64
            };
            u64_bytes(u)
        },
    }
}

/// The decimal text of the integer that the bytes of an integer kind hold.
fn int_data_text(t: DataType, b: &[u8]) -> (r: String)
    requires
        is_int_kind(t),
        b@.len() == fixed_size(t).unwrap(),
    ensures
        r@ == int_text(int_of_data(t, b@)),
{
    proof {
        lemma_pow256_values();
    }
    match t {
        DataType::U32 => {
            let u = read_u32_at(b, 0);
            assert(b@.subrange(0, 4) =~= b@);
            format_u64(u as u64)
        },
        DataType::I32 => {
            let u = read_u32_at(b, 0);
            assert(b@.subrange(0, 4) =~= b@);
            let x: i64 = if u >= 0x8000_0000 {
                u as i64 - 0x1_0000_0000
            } else {
                u as i64
            };
            format_i64(x)
        },
        DataType::U64 => {
            let u = read_u64_at(b, 0);
            assert(b@.subrange(0, 8) =~= b@);
            format_u64(u)
        },
        _ => {
            let u = read_u64_at(b, 0);
            assert(b@.subrange(0, 8) =~= b@);
            let x: i64 = if u >= 0x8000_0000_0000_0000 {
                -((u64::MAX - u) as i64) - 1
            } else {
                u as i64
            };
            format_i64(x)
        },
    }
}

/// A variable-length text from its bytes.
fn varchar_bytes(b: &[u8]) -> (r: Option<Vec<u8>>)
    ensures
        bytes_are(r, if b@.len() <= u16::MAX {
            Some(varchar_data(b@))
        } else {
            None
        }),
{
    if b.len() > 0xffff {
        return None;
    }
    let n: u16 = b.len() as u16;
    assert(n as nat == b@.len());
    let mut r = u16_bytes(n);
    r.extend_from_slice(b);
    assert(r@ =~= varchar_data(b@));
    Some(r)
}

impl DataType {
    /// The bytes of a literal in this kind, or nothing when the literal is not
    /// of this kind or its value does not fit.
    pub fn data_from_literal(&self, input: &Literal) -> (r: Option<Vec<u8>>)
        ensures
            bytes_are(r, literal_data(*self, *input)),
    {
        if !self.match_literal(input) {
            return None;
        }
        match input {
            Literal::String(s) => {
                let b = s.as_str().as_bytes();
                match self {
                    DataType::Char => Some(vstd::slice::slice_to_vec(b)),
                    _ => varchar_bytes(b),
                }
            },
            Literal::Integer(v) => {
                let v = *v;
                if !self.fits_i64(v) {
                    return None;
                }
                if is_signed_kind(*self) {
                    Some(signed_data(*self, v))
                } else {
                    Some(unsigned_data(*self, v as u64))
                }
            },
            _ => None,
        }
    }

    /// Whether `v` is a value of this integer kind.
    fn fits_i64(&self, v: i64) -> (r: bool)
        requires
            is_int_kind(*self),
        ensures
            r == int_fits(*self, v as int),
    {
        match self {
            DataType::U32 => 0 <= v && v <= 0xffff_ffff,
            DataType::I32 => -0x8000_0000 <= v && v <= 0x7fff_ffff,
            DataType::U64 => 0 <= v,
            _ => true,
        }
    }

    /// The byte size of a value of this kind; for `VarChar`, read from the
    /// length prefix of `bytes`.
    pub fn data_size(&self, bytes: Option<&[u8]>) -> (r: Option<usize>)
        ensures
            r.is_some() == size_of_data(*self, seq_of(bytes)).is_some(),
            r.is_some() ==> r.unwrap() == size_of_data(*self, seq_of(bytes)).unwrap(),
    {
        match self {
            DataType::Char => Some(1),
            DataType::U32 | DataType::I32 => Some(4),
            DataType::U64 | DataType::I64 => Some(8),
            DataType::VarChar => match bytes {
                Some(b) => {
                    if b.len() >= 2 {
                        let n = read_u16_at(b, 0);
                        assert(b@.take(2) =~= b@.subrange(0, 2));
                        Some(n as usize + 2)
                    } else {
                        None
                    }
                },
                None => None,
            },
        }
    }

    /// The bytes of a text in this kind, or nothing when the text does not
    /// denote a value of it.
    pub fn string_to_data(&self, input: &str) -> (r: Option<Vec<u8>>)
        ensures
            bytes_are(r, text_data(*self, input@)),
    {
        match self {
            DataType::Char => {
                let b = input.as_bytes();
                if b.len() == 1 {
                    Some(vstd::slice::slice_to_vec(b))
                } else {
                    None
                }
            },
            DataType::VarChar => varchar_bytes(input.as_bytes()),
            DataType::U32 | DataType::U64 => match parse_u64(input) {
                Some(v) => {
                    if self.fits_i64_unsigned(v) {
                        Some(unsigned_data(*self, v))
                    } else {
                        None
                    }
                },
                None => None,
            },
            _ => match parse_i64(input) {
                Some(v) => {
                    if self.fits_i64(v) {
                        Some(signed_data(*self, v))
                    } else {
                        None
                    }
                },
                None => None,
            },
        }
    }

    /// Whether the unsigned `v` is a value of this unsigned kind.
    fn fits_i64_unsigned(&self, v: u64) -> (r: bool)
        requires
            *self is U32 || *self is U64,
        ensures
            r == int_fits(*self, v as int),
    {
        match self {
            DataType::U32 => v <= 0xffff_ffff,
            _ => true,
        }
    }

    /// The text of the value that `bytes` hold, when they are exactly one value
    /// of this kind.
    pub fn data_to_string(&self, bytes: &[u8]) -> (r: Option<String>)
        ensures
            text_is(r, data_text(*self, bytes@)),
    {
        if bytes.len() == 0 {
            return None;
        }
        match self.data_size(Some(bytes)) {
            Some(n) => {
                if n != bytes.len() {
                    return None;
                }
            },
            None => {
                return None;
            },
        }
        match self {
            DataType::Char => from_utf8(vstd::slice::slice_to_vec(bytes)),
            DataType::VarChar => {
                let rest = vstd::slice::slice_subrange(bytes, 2, bytes.len());
                assert(rest@ =~= bytes@.skip(2));
                from_utf8(vstd::slice::slice_to_vec(rest))
            },
            _ => Some(int_data_text(*self, bytes)),
        }
    }

    /// The two-byte tag of this kind.
    pub fn to_data(&self) -> (r: Vec<u8>)
        ensures
            r@ == le_bytes(type_tag(*self), 2),
    {
        let tag: u16 = match self {
            DataType::Char => 0,
            DataType::U32 => 1,
            DataType::I32 => 2,
            DataType::U64 => 3,
            DataType::I64 => 4,
            DataType::VarChar => 5,
        };
        u16_bytes(tag)
    }

    /// A kind read from its tag at the start of `bytes`, and the bytes after it.
    pub fn from_data(bytes: Vec<u8>) -> (r: Result<(DataType, Vec<u8>), ErrorKind>)
        ensures
            bytes@.len() < 2 ==> r == Err::<(DataType, Vec<u8>), ErrorKind>(ErrorKind::InvalidData),
            bytes@.len() >= 2 ==> match type_of_tag(le_val(bytes@.take(2))) {
                Some(t) => r.is_ok() && r.unwrap().0 == t && r.unwrap().1@ == bytes@.skip(2),
                None => r == Err::<(DataType, Vec<u8>), ErrorKind>(ErrorKind::InvalidData),
            },
    {
        if bytes.len() < 2 {
            return Err(ErrorKind::InvalidData);
        }
        let n = read_u16_at(bytes.as_slice(), 0);
        assert(bytes@.take(2) =~= bytes@.subrange(0, 2));
        let t = if n == 0 {
            DataType::Char
        } else if n == 1 {
            DataType::U32
        } else if n == 2 {
            DataType::I32
        } else if n == 3 {
            DataType::U64
        } else if n == 4 {
            DataType::I64
        } else if n == 5 {
            DataType::VarChar
        } else {
            return Err(ErrorKind::InvalidData);
        };
        let rest = vstd::slice::slice_subrange(bytes.as_slice(), 2, bytes.len());
        let rest = vstd::slice::slice_to_vec(rest);
        assert(rest@ =~= bytes@.skip(2));
        Ok((t, rest))
    }
}

/// Whether a kind is a signed integer kind.
fn is_signed_kind(t: DataType) -> (r: bool)
    ensures
        r == is_signed(t),
{
    match t {
        DataType::I32 | DataType::I64 => true,
        _ => false,
    }
}

} // verus!
