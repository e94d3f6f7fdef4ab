//! The address of a page: a file, a page index in it, and whether the file is
//! a temporary one.

use vstd::prelude::*;
use crate::codec::{le_bytes, le_val, lemma_le_round_trip, lemma_pow256_values, read_u32_at, read_u64_at, u32_bytes, u64_bytes};
use crate::error::ErrorKind;
use crate::text::{format_u64, int_text};

verus! {

/// The byte size of a page.
pub const PAGE_SIZE: usize = 4096;

/// The identifier of a relation's file.
pub type ID = u32;

/// Addresses one page.
#[derive(Debug, PartialEq, Eq, Hash, Clone, Copy, Structural)]
pub struct BufKey {
    pub file_id: ID,
    pub offset: u64,
    pub temp: bool,
}

/// The name of the file that holds the pages of `key`, under `dir`.
pub open spec fn file_name(key: BufKey, dir: Seq<char>) -> Seq<char> {
    if key.temp {
        dir + seq!['/', 't', 'e', 'm', 'p', '/'] + int_text(key.file_id as int) + seq![
            '.',
            'd',
            'a',
            't',
        ]
    } else {
        dir + seq!['/'] + int_text(key.file_id as int) + seq!['.', 'd', 'a', 't']
    }
}

/// The stored form of a key: its file identifier in four bytes and its page
/// index in eight, least significant first, then one byte for `temp`.
pub open spec fn key_data(key: BufKey) -> Seq<u8> {
    le_bytes(key.file_id as nat, 4) + le_bytes(key.offset as nat, 8) + seq![
        if key.temp {
            1u8
        } else {
            0u8
        },
    ]
}

/// Reading a key back from its stored form, followed by anything, gives the
/// key and what followed.
pub proof fn lemma_key_round_trip(k: BufKey, rest: Seq<u8>)
    ensures
        (key_data(k) + rest).len() >= 13,
        le_val((key_data(k) + rest).take(4)) == k.file_id,
        le_val((key_data(k) + rest).subrange(4, 12)) == k.offset,
        (key_data(k) + rest)[12] == (if k.temp {
            1u8
        } else {
            0u8
        }),
        (key_data(k) + rest).skip(13) == rest,
{
    lemma_pow256_values();
    lemma_le_round_trip(k.file_id as nat, 4);
    lemma_le_round_trip(k.offset as nat, 8);
    let b = key_data(k) + rest;
    assert(b.take(4) =~= le_bytes(k.file_id as nat, 4));
    assert(b.subrange(4, 12) =~= le_bytes(k.offset as nat, 8));
    assert(b.skip(13) =~= rest);
}

impl BufKey {
    pub fn new(file_id: ID, offset: u64, temp: bool) -> (r: BufKey)
        ensures
            r == (BufKey { file_id, offset, temp }),
    {
        BufKey { file_id, offset, temp }
    }

    /// The path of the file that holds this page: `<dir>/<id>.dat`, or
    /// `<dir>/temp/<id>.dat` for a temporary page.
    pub fn to_filename(&self, data_dir: String) -> (r: String)
        ensures
            r@ == file_name(*self, data_dir@),
    {
        let mut r = data_dir;
        if self.temp {
            r.append("/temp/");
        } else {
            r.append("/");
        }
        let id = format_u64(self.file_id as u64);
        r.append(id.as_str());
        r.append(".dat");
        proof {
            reveal_strlit("/temp/");
            reveal_strlit("/");
            reveal_strlit(".dat");
        }
        assert(r@ =~= file_name(*self, data_dir@));
        r
    }

    /// Where the page starts in its file.
    pub fn byte_offset(&self) -> (r: u64)
        requires
            self.offset * PAGE_SIZE <= u64::MAX,
        ensures
            r == self.offset * PAGE_SIZE,
    {
        self.offset * (PAGE_SIZE as u64)
    }

    /// The byte size of the stored form.
    pub fn size() -> (r: usize)
        ensures
            r == 13,
    {
        13
    }

    /// The stored form of this key.
    pub fn to_data(&self) -> (r: Vec<u8>)
        ensures
            r@ == key_data(*self),
    {
        let mut data = u32_bytes(self.file_id);
        let mut rest = u64_bytes(self.offset);
        data.append(&mut rest);
        data.push(if self.temp {
            1u8
        } else {
            0u8
        });
        assert(data@ =~= key_data(*self));
        data
    }

    /// A key read from the start of `bytes`, and the bytes after it:
    /// `InvalidData` when there are fewer than thirteen bytes or the flag byte
    /// is neither 0 nor 1.
    pub fn from_data(bytes: Vec<u8>) -> (r: Result<(BufKey, Vec<u8>), ErrorKind>)
        ensures
            r.is_ok() == (bytes@.len() >= 13 && bytes@[12] <= 1),
            r.is_err() ==> r == Err::<(BufKey, Vec<u8>), ErrorKind>(ErrorKind::InvalidData),
            r.is_ok() ==> r.unwrap().0 == (BufKey {
                file_id: le_val(bytes@.take(4)) as u32,
                offset: le_val(bytes@.subrange(4, 12)) as u64,
                temp: bytes@[12] == 1,
            }) && r.unwrap().1@ == bytes@.skip(13),
    {
        if bytes.len() < 13 || bytes[12] > 1 {
            return Err(ErrorKind::InvalidData);
        }
        let file_id = read_u32_at(bytes.as_slice(), 0);
        let offset = read_u64_at(bytes.as_slice(), 4);
        let temp = bytes[12] == 1;
        assert(bytes@.take(4) =~= bytes@.subrange(0, 4));
        let rest = vstd::slice::slice_subrange(bytes.as_slice(), 13, bytes.len());
        let rest = vstd::slice::slice_to_vec(rest);
        assert(rest@ =~= bytes@.skip(13));
        Ok((BufKey::new(file_id, offset, temp), rest))
    }
}

} // verus!
