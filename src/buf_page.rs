//! The in-memory image of one page, laid out as a slotted page.
//!
//! Bytes 0..4 hold `upper_ptr`, the start of the lowest stored tuple; bytes
//! 4..8 hold `lower_ptr`, the end of the slot array. Slot `i` sits at
//! `HEADER_SIZE + 4 * i` and holds where tuple `i` starts; tuple `i` ends where
//! tuple `i - 1` starts, and tuple 0 at the end of the page.

use vstd::prelude::*;
use crate::buf_key::{BufKey, PAGE_SIZE};
use crate::codec::{le_bytes, le_val, lemma_le_round_trip, lemma_pow256_values, read_u32_at, splice, write_u32_at, zeros};
use crate::error::ErrorKind;

verus! {

/// The byte size of the page header.
pub const HEADER_SIZE: usize = 8;

/// A byte position in a page.
pub type PagePtr = usize;

/// Names one tuple: its page and its slot.
#[derive(Debug, PartialEq, Eq, Clone, Copy, Structural)]
pub struct TuplePtr {
    pub buf_key: BufKey,
    pub buf_offset: usize,
}

impl TuplePtr {
    pub fn new(buf_key: BufKey, buf_offset: usize) -> (r: TuplePtr)
        ensures
            r == (TuplePtr { buf_key, buf_offset }),
    {
        TuplePtr { buf_key, buf_offset }
    }

    pub fn buf_key(&self) -> (r: BufKey)
        ensures
            r == self.buf_key,
    {
        self.buf_key
    }

    pub fn buf_offset(&self) -> (r: usize)
        ensures
            r == self.buf_offset,
    {
        self.buf_offset
    }
}

/// Where slot `i` points in the page bytes `b`.
pub open spec fn slot_at(b: Seq<u8>, i: int) -> int {
    le_val(b.subrange(HEADER_SIZE + 4 * i, HEADER_SIZE + 4 * i + 4)) as int
}

/// Where tuple `i` ends in the page bytes `b`.
pub open spec fn tuple_end(b: Seq<u8>, i: int) -> int {
    if i == 0 {
        PAGE_SIZE as int
    } else {
        slot_at(b, i - 1)
    }
}

/// Slot `i` points between `upper` and the end of tuple `i`.
pub open spec fn slot_ok(b: Seq<u8>, upper: int, i: int) -> bool {
    upper <= slot_at(b, i) <= tuple_end(b, i) <= PAGE_SIZE
}

/// The number of slots below `lower`.
pub open spec fn count_below(lower: int) -> int {
    (lower - HEADER_SIZE) / 4
}

/// The page bytes `b`, with pointers `upper` and `lower`, form a slotted page:
/// the pointers are ordered, the header holds them, and the tuples lie back to
/// back from the end of the page down to `upper`.
pub open spec fn layout_ok(b: Seq<u8>, upper: int, lower: int) -> bool {
    &&& b.len() == PAGE_SIZE
    &&& HEADER_SIZE <= lower <= upper <= PAGE_SIZE
    &&& (lower - HEADER_SIZE) % 4 == 0
    &&& le_val(b.subrange(0, 4)) == upper
    &&& le_val(b.subrange(4, 8)) == lower
    &&& forall|i: int| 0 <= i < count_below(lower) ==> #[trigger] slot_ok(b, upper, i)
    &&& forall|i: int, j: int|
        0 <= i < j < count_below(lower) ==> #[trigger] slot_at(b, j) <= #[trigger] slot_at(b, i)
    &&& if count_below(lower) == 0 {
        upper == PAGE_SIZE
    } else {
        slot_at(b, count_below(lower) - 1) == upper
    }
}

/// The tuples of the page bytes `b` with `count` slots, in slot order.
pub open spec fn tuples_of(b: Seq<u8>, count: int) -> Seq<Seq<u8>> {
    Seq::new(count as nat, |i: int| b.subrange(slot_at(b, i), tuple_end(b, i)))
}

/// What a page is: its bytes, its two pointers, its key, the LSN of the last
/// log entry that changed it, and whether it differs from its stored image.
pub struct PageView {
    pub bytes: Seq<u8>,
    pub upper: int,
    pub lower: int,
    pub key: BufKey,
    pub last_lsn: u64,
    pub dirty: bool,
}

impl PageView {
    pub open spec fn wf(self) -> bool {
        layout_ok(self.bytes, self.upper, self.lower)
    }

    pub open spec fn count(self) -> int {
        count_below(self.lower)
    }

    pub open spec fn tuples(self) -> Seq<Seq<u8>> {
        tuples_of(self.bytes, self.count())
    }

    /// Free bytes between the slot array and the tuples.
    pub open spec fn free(self) -> int {
        self.upper - self.lower
    }
}

/// The in-memory image of one page.
pub struct BufPage {
    buf: Vec<u8>,
    upper_ptr: PagePtr,
    lower_ptr: PagePtr,
    buf_key: BufKey,
    last_lsn: u64,
    dirty: bool,
}

impl View for BufPage {
    type V = PageView;

    closed spec fn view(&self) -> PageView {
        PageView {
            bytes: self.buf@,
            upper: self.upper_ptr as int,
            lower: self.lower_ptr as int,
            key: self.buf_key,
            last_lsn: self.last_lsn,
            dirty: self.dirty,
        }
    }
}

/// Whether a stored page image is a slotted page; an all-zero header stands
/// for an empty page.
pub open spec fn image_ok(b: Seq<u8>) -> bool {
    b.len() == PAGE_SIZE && (zero_header(b) || layout_ok(
        b,
        le_val(b.subrange(0, 4)) as int,
        le_val(b.subrange(4, 8)) as int,
    ))
}

pub open spec fn zero_header(b: Seq<u8>) -> bool {
    le_val(b.subrange(0, 4)) == 0 && le_val(b.subrange(4, 8)) == 0
}

/// The tuples of a stored page image.
pub open spec fn image_tuples(b: Seq<u8>) -> Seq<Seq<u8>> {
    if zero_header(b) {
        Seq::empty()
    } else {
        tuples_of(b, count_below(le_val(b.subrange(4, 8)) as int))
    }
}

/// The LSN of a page after a write stamped with `lsn`.
pub open spec fn lsn_after(last: u64, lsn: Option<u64>) -> u64 {
    match lsn {
        Some(l) => if l > last {
            l
        } else {
            last
        },
        None => last,
    }
}

pub open spec fn upper_le_slot(p: PageView, i: int) -> bool {
    slot_ok(p.bytes, p.upper, i)
}

proof fn lemma_splice_index(b: Seq<u8>, pos: int, part: Seq<u8>)
    requires
        0 <= pos,
        pos + part.len() <= b.len(),
    ensures
        splice(b, pos, part).len() == b.len(),
        forall|k: int|
            0 <= k < b.len() ==> #[trigger] splice(b, pos, part)[k] == if pos <= k < pos
                + part.len() {
                part[k - pos]
            } else {
                b[k]
            },
{
}

/// Appending a tuple below `upper`, and its slot at `lower`, keeps a slotted
/// page and adds the tuple last.
proof fn lemma_append_layout(ob: Seq<u8>, upper: int, lower: int, data: Seq<u8>, nb: Seq<u8>)
    requires
        layout_ok(ob, upper, lower),
        data.len() + 4 <= upper - lower,
        nb.len() == ob.len(),
        forall|k: int| HEADER_SIZE <= k < lower ==> nb[k] == ob[k],
        forall|k: int| upper <= k < ob.len() ==> nb[k] == ob[k],
        le_val(nb.subrange(0, 4)) == upper - data.len(),
        le_val(nb.subrange(4, 8)) == lower + 4,
        le_val(nb.subrange(lower, lower + 4)) == upper - data.len(),
        nb.subrange(upper - data.len(), upper) == data,
    ensures
        layout_ok(nb, upper - data.len(), lower + 4),
        tuples_of(nb, count_below(lower + 4)) == tuples_of(ob, count_below(lower)).push(data),
{
    let c = count_below(lower);
    let nu = upper - data.len();
    assert(count_below(lower + 4) == c + 1);
    assert forall|j: int| 0 <= j < c implies slot_at(nb, j) == slot_at(ob, j) by {
        assert(nb.subrange(HEADER_SIZE + 4 * j, HEADER_SIZE + 4 * j + 4) =~= ob.subrange(
            HEADER_SIZE + 4 * j,
            HEADER_SIZE + 4 * j + 4,
        ));
    }
    assert(lower == HEADER_SIZE + 4 * c);
    assert(slot_at(nb, c) == nu);
    assert forall|j: int| 0 <= j < c implies #[trigger] nb.subrange(
        slot_at(ob, j),
        tuple_end(ob, j),
    ) == ob.subrange(slot_at(ob, j), tuple_end(ob, j)) by {
        assert(slot_ok(ob, upper, j));
        assert(nb.subrange(slot_at(ob, j), tuple_end(ob, j)) =~= ob.subrange(
            slot_at(ob, j),
            tuple_end(ob, j),
        ));
    }
    assert(tuple_end(nb, c) == upper);
    assert forall|i: int| 0 <= i < c + 1 implies #[trigger] slot_ok(nb, nu, i) by {
        if i < c {
            assert(slot_ok(ob, upper, i));
        }
    }
    assert forall|i: int, j: int| 0 <= i < j < c + 1 implies #[trigger] slot_at(nb, j)
        <= #[trigger] slot_at(nb, i) by {
        assert(slot_ok(ob, upper, i));
        if j < c {
            assert(slot_at(ob, j) <= slot_at(ob, i));
        }
    }
    assert(tuples_of(nb, c + 1) =~= tuples_of(ob, c).push(data));
}

proof fn lemma_splice_outside(b: Seq<u8>, pos: int, part: Seq<u8>, lo: int, hi: int)
    requires
        0 <= pos,
        pos + part.len() <= b.len(),
        0 <= lo <= hi <= b.len(),
        hi <= pos || pos + part.len() <= lo,
    ensures
        splice(b, pos, part).len() == b.len(),
        splice(b, pos, part).subrange(lo, hi) == b.subrange(lo, hi),
{
    assert(splice(b, pos, part).subrange(lo, hi) =~= b.subrange(lo, hi));
}

proof fn lemma_splice_inside(b: Seq<u8>, pos: int, part: Seq<u8>)
    requires
        0 <= pos,
        pos + part.len() <= b.len(),
    ensures
        splice(b, pos, part).len() == b.len(),
        splice(b, pos, part).subrange(pos, pos + part.len()) == part,
{
    assert(splice(b, pos, part).subrange(pos, pos + part.len()) =~= part);
}

/// Copies `data` into `buf` from `pos` on.
fn copy_into(buf: &mut Vec<u8>, pos: usize, data: &[u8])
    requires
        pos + data@.len() <= old(buf)@.len(),
    ensures
        final(buf)@ == splice(old(buf)@, pos as int, data@),
{
    let ghost start = buf@;
    let n = buf.len();
    let mut k: usize = 0;
    while k < data.len()
        invariant
            k <= data@.len(),
            pos + data@.len() <= start.len(),
            start.len() == n,
            buf@.len() == start.len(),
            forall|j: int| 0 <= j < pos ==> buf@[j] == start[j],
            forall|j: int| pos + data@.len() <= j < start.len() ==> buf@[j] == start[j],
            forall|j: int| 0 <= j < k ==> buf@[pos + j] == data@[j],
            forall|j: int| pos + k <= j < pos + data@.len() ==> buf@[j] == start[j],
        decreases data@.len() - k,
    {
        buf.set(pos + k, data[k]);
        k += 1;
    }
    assert(buf@ =~= splice(start, pos as int, data@));
}

impl BufPage {
    /// A page read from its stored image: `InvalidData` when the image is not a
    /// slotted page. An all-zero header gives an empty page.
    pub fn load_from(buffer: &[u8], buf_key: &BufKey) -> (r: Result<BufPage, ErrorKind>)
        requires
            buffer@.len() == PAGE_SIZE,
        ensures
            r.is_ok() == image_ok(buffer@),
            r.is_ok() ==> {
                let p = r.unwrap()@;
                &&& p.wf()
                &&& p.tuples() == image_tuples(buffer@)
                &&& p.key == *buf_key
                &&& p.last_lsn == 0
                &&& !p.dirty
                &&& !zero_header(buffer@) ==> p.bytes == buffer@
            },
    {
        let upper = read_u32_at(buffer, 0) as usize;
        let lower = read_u32_at(buffer, 4) as usize;
        if upper == 0 && lower == 0 {
            let p = BufPage::new_empty(buf_key);
            assert(p@.tuples() =~= image_tuples(buffer@));
            return Ok(p);
        }
        if !(HEADER_SIZE <= lower && lower <= upper && upper <= PAGE_SIZE && (lower - HEADER_SIZE)
            % 4 == 0) {
            return Err(ErrorKind::InvalidData);
        }
        let count = (lower - HEADER_SIZE) / 4;
        let ghost b = buffer@;
        let mut i: usize = 0;
        let mut end: usize = PAGE_SIZE;
        while i < count
            invariant
                b == buffer@,
                b.len() == PAGE_SIZE,
                HEADER_SIZE <= lower <= upper <= PAGE_SIZE,
                (lower - HEADER_SIZE) % 4 == 0,
                upper == le_val(b.subrange(0, 4)),
                lower == le_val(b.subrange(4, 8)),
                !zero_header(b),
                count == count_below(lower as int),
                i <= count,
                upper <= end <= PAGE_SIZE,
                end == tuple_end(b, i as int),
                forall|j: int| 0 <= j < i ==> #[trigger] slot_ok(b, upper as int, j),
                forall|j: int| 0 <= j < i ==> end <= #[trigger] slot_at(b, j),
                forall|j: int, k: int|
                    0 <= j < k < i ==> #[trigger] slot_at(b, k) <= #[trigger] slot_at(b, j),
            decreases count - i,
        {
            let s = read_u32_at(buffer, HEADER_SIZE + 4 * i) as usize;
            if !(upper <= s && s <= end) {
                assert(!slot_ok(b, upper as int, i as int));
                return Err(ErrorKind::InvalidData);
            }
            end = s;
            i += 1;
        }
        if end != upper {
            return Err(ErrorKind::InvalidData);
        }
        let buf = vstd::slice::slice_to_vec(buffer);
        let p = BufPage {
            buf,
            upper_ptr: upper,
            lower_ptr: lower,
            buf_key: *buf_key,
            last_lsn: 0,
            dirty: false,
        };
        assert(p@.tuples() =~= image_tuples(buffer@));
        Ok(p)
    }

    /// An empty page: a zero image with its header written.
    pub fn new_empty(buf_key: &BufKey) -> (r: BufPage)
        ensures
            r@.wf(),
            r@.tuples() == Seq::<Seq<u8>>::empty(),
            r@.upper == PAGE_SIZE,
            r@.lower == HEADER_SIZE,
            r@.key == *buf_key,
            r@.last_lsn == 0,
            !r@.dirty,
    {
        let mut buf = zeros(PAGE_SIZE);
        write_u32_at(&mut buf, 0, PAGE_SIZE as u32);
        write_u32_at(&mut buf, 4, HEADER_SIZE as u32);
        proof {
            lemma_pow256_values();
            lemma_le_round_trip(PAGE_SIZE as nat, 4);
            lemma_le_round_trip(HEADER_SIZE as nat, 4);
            let b1 = splice(Seq::new(PAGE_SIZE as nat, |i: int| 0u8), 0, le_bytes(PAGE_SIZE as nat, 4));
            lemma_splice_inside(b1, 4, le_bytes(HEADER_SIZE as nat, 4));
            lemma_splice_outside(b1, 4, le_bytes(HEADER_SIZE as nat, 4), 0, 4);
            lemma_splice_inside(Seq::new(PAGE_SIZE as nat, |i: int| 0u8), 0, le_bytes(PAGE_SIZE as nat, 4));
        }
        let p = BufPage {
            buf,
            upper_ptr: PAGE_SIZE,
            lower_ptr: HEADER_SIZE,
            buf_key: *buf_key,
            last_lsn: 0,
            dirty: false,
        };
        assert(p@.tuples() =~= Seq::<Seq<u8>>::empty());
        p
    }

    pub fn upper_ptr(&self) -> (r: PagePtr)
        ensures
            r == self@.upper,
    {
        self.upper_ptr
    }

    pub fn lower_ptr(&self) -> (r: PagePtr)
        ensures
            r == self@.lower,
    {
        self.lower_ptr
    }

    /// The number of stored tuples.
    pub fn tuple_count(&self) -> (r: usize)
        requires
            self@.wf(),
        ensures
            r == self@.count(),
            r == self@.tuples().len(),
    {
        (self.lower_ptr - HEADER_SIZE) / 4
    }

    /// The page bytes, as they are stored.
    pub fn data(&self) -> (r: &Vec<u8>)
        ensures
            r@ == self@.bytes,
    {
        &self.buf
    }

    pub fn buf_key(&self) -> (r: BufKey)
        ensures
            r == self@.key,
    {
        self.buf_key
    }

    pub fn last_lsn(&self) -> (r: u64)
        ensures
            r == self@.last_lsn,
    {
        self.last_lsn
    }

    pub fn is_dirty(&self) -> (r: bool)
        ensures
            r == self@.dirty,
    {
        self.dirty
    }

    /// Records that the page now equals its stored image.
    pub fn mark_clean(&mut self)
        ensures
            final(self)@ == (PageView { dirty: false, ..old(self)@ }),
    {
        self.dirty = false;
    }

    /// Where slot `buf_offset` sits.
    fn offset_to_ptr(buf_offset: usize) -> (r: PagePtr)
        requires
            HEADER_SIZE + buf_offset * 4 <= usize::MAX,
        ensures
            r == HEADER_SIZE + buf_offset * 4,
    {
        HEADER_SIZE + buf_offset * 4
    }

    /// The slot that sits at `ptr`.
    fn ptr_to_offset(ptr: PagePtr) -> (r: usize)
        requires
            HEADER_SIZE <= ptr,
        ensures
            r == (ptr - HEADER_SIZE) / 4,
    {
        (ptr - HEADER_SIZE) / 4
    }

    /// The room left for one more tuple, after its slot; zero when not even a
    /// slot fits.
    pub fn available_data_space(&self) -> (r: usize)
        requires
            self@.wf(),
        ensures
            r == if self@.free() >= 4 {
                self@.free() - 4
            } else {
                0
            },
    {
        let free = self.upper_ptr - self.lower_ptr;
        if free >= 4 {
            free - 4
        } else {
            0
        }
    }

    /// Whether `tuple_ptr` names a tuple of this page: `InvalidArgument` for
    /// another page's key or a slot past the last tuple.
    fn is_valid_tuple_ptr(&self, tuple_ptr: &TuplePtr) -> (r: Result<(), ErrorKind>)
        requires
            self@.wf(),
        ensures
            r.is_ok() == (tuple_ptr.buf_key == self@.key && tuple_ptr.buf_offset < self@.count()),
            r.is_err() ==> r == Err::<(), ErrorKind>(ErrorKind::InvalidArgument),
    {
        if self.buf_key != tuple_ptr.buf_key() {
            Err(ErrorKind::InvalidArgument)
        } else if tuple_ptr.buf_offset() >= self.tuple_count() {
            Err(ErrorKind::InvalidArgument)
        } else {
            Ok(())
        }
    }

    /// Where tuple `slot` starts and ends.
    fn tuple_range(&self, slot: usize) -> (r: (usize, usize))
        requires
            self@.wf(),
            slot < self@.count(),
        ensures
            r.0 == slot_at(self@.bytes, slot as int),
            r.1 == tuple_end(self@.bytes, slot as int),
            self@.upper <= r.0 <= r.1 <= PAGE_SIZE,
    {
        let start = read_u32_at(self.buf.as_slice(), HEADER_SIZE + 4 * slot) as usize;
        let end = if slot > 0 {
            read_u32_at(self.buf.as_slice(), HEADER_SIZE + 4 * (slot - 1)) as usize
        } else {
            PAGE_SIZE
        };
        assert(upper_le_slot(self@, slot as int));
        if slot > 0 {
            assert(upper_le_slot(self@, slot - 1));
        }
        (start, end)
    }

    /// The bytes of the tuple that `tuple_ptr` names.
    pub fn get_tuple_data(&self, tuple_ptr: &TuplePtr) -> (r: Result<&[u8], ErrorKind>)
        requires
            self@.wf(),
        ensures
            r.is_ok() == (tuple_ptr.buf_key == self@.key && tuple_ptr.buf_offset < self@.count()),
            r.is_ok() ==> r.unwrap()@ == self@.tuples()[tuple_ptr.buf_offset as int],
            r.is_err() ==> r == Err::<&[u8], ErrorKind>(ErrorKind::InvalidArgument),
    {
        match self.is_valid_tuple_ptr(tuple_ptr) {
            Ok(()) => {},
            Err(e) => {
                return Err(e);
            },
        }
        let (start, end) = self.tuple_range(tuple_ptr.buf_offset());
        Ok(vstd::slice::slice_subrange(self.buf.as_slice(), start, end))
    }

    /// The byte length of the tuple that `tuple_ptr` names.
    fn tuple_data_len(&self, tuple_ptr: &TuplePtr) -> (r: Result<usize, ErrorKind>)
        requires
            self@.wf(),
        ensures
            r.is_ok() == (tuple_ptr.buf_key == self@.key && tuple_ptr.buf_offset < self@.count()),
            r.is_ok() ==> r.unwrap() == self@.tuples()[tuple_ptr.buf_offset as int].len(),
            r.is_err() ==> r == Err::<usize, ErrorKind>(ErrorKind::InvalidArgument),
    {
        match self.get_tuple_data(tuple_ptr) {
            Ok(data) => Ok(data.len()),
            Err(e) => Err(e),
        }
    }

    /// Stores a tuple. With no `tuple_ptr` it is appended in a new slot:
    /// `NoSpace` when the tuple and its slot do not fit in the free space. With
    /// one, the tuple there is overwritten: `InvalidArgument` when the pointer
    /// names no tuple of this page, `Unsupported` when the lengths differ. On
    /// success the page is dirty, its LSN is raised to `lsn`, and the slot is
    /// returned. On failure nothing changes.
    pub fn write_tuple_data(
        &mut self,
        tuple_data: &[u8],
        tuple_ptr: Option<&TuplePtr>,
        lsn: Option<u64>,
    ) -> (r: Result<usize, ErrorKind>)
        requires
            old(self)@.wf(),
        ensures
            final(self)@.wf(),
            final(self)@.key == old(self)@.key,
            r.is_err() ==> *final(self) == *old(self),
            r.is_ok() ==> final(self)@.dirty && final(self)@.last_lsn == lsn_after(
                old(self)@.last_lsn,
                lsn,
            ),
            match tuple_ptr {
                None => {
                    &&& r.is_ok() == (tuple_data@.len() + 4 <= old(self)@.free())
                    &&& r.is_err() ==> r == Err::<usize, ErrorKind>(ErrorKind::NoSpace)
                    &&& r.is_ok() ==> r.unwrap() == old(self)@.count() && final(self)@.tuples()
                        == old(self)@.tuples().push(tuple_data@)
                    &&& r.is_ok() ==> final(self)@.free() == old(self)@.free() - tuple_data@.len()
                        - 4
                },
                Some(p) => {
                    let valid = p.buf_key == old(self)@.key && p.buf_offset < old(self)@.count();
                    &&& !valid ==> r == Err::<usize, ErrorKind>(ErrorKind::InvalidArgument)
                    &&& valid && old(self)@.tuples()[p.buf_offset as int].len()
                        != tuple_data@.len() ==> r == Err::<usize, ErrorKind>(
                        ErrorKind::Unsupported,
                    )
                    &&& valid && old(self)@.tuples()[p.buf_offset as int].len()
                        == tuple_data@.len() ==> r == Ok::<usize, ErrorKind>(p.buf_offset)
                    &&& r.is_ok() ==> final(self)@.tuples() == old(self)@.tuples().update(
                        p.buf_offset as int,
                        tuple_data@,
                    )
                    &&& final(self)@.free() == old(self)@.free()
                },
            },
    {
        let slot = match tuple_ptr {
            Some(ptr) => {
                match self.tuple_data_len(ptr) {
                    Ok(len) => {
                        if len != tuple_data.len() {
                            return Err(ErrorKind::Unsupported);
                        }
                    },
                    Err(e) => {
                        return Err(e);
                    },
                }
                let slot = ptr.buf_offset();
                let (start, end) = self.tuple_range(slot);
                self.overwrite(slot, start, end, tuple_data);
                slot
            },
            None => {
                if tuple_data.len() > self.upper_ptr - self.lower_ptr || self.upper_ptr
                    - self.lower_ptr - tuple_data.len() < 4 {
                    return Err(ErrorKind::NoSpace);
                }
                self.append(tuple_data)
            },
        };
        match lsn {
            Some(l) => {
                if l > self.last_lsn {
                    self.last_lsn = l;
                }
            },
            None => {},
        }
        self.dirty = true;
        Ok(slot)
    }

    /// Appends a tuple that fits, with its slot.
    fn append(&mut self, data: &[u8]) -> (r: usize)
        requires
            old(self)@.wf(),
            data@.len() + 4 <= old(self)@.free(),
        ensures
            final(self)@.wf(),
            final(self)@ == (PageView {
                bytes: final(self)@.bytes,
                upper: final(self)@.upper,
                lower: final(self)@.lower,
                ..old(self)@
            }),
            r == old(self)@.count(),
            final(self)@.tuples() == old(self)@.tuples().push(data@),
            final(self)@.free() == old(self)@.free() - data@.len() - 4,
    {
        let ghost ob = self.buf@;
        let ghost c = self@.count();
        let upper = self.upper_ptr;
        let lower = self.lower_ptr;
        let new_upper = upper - data.len();
        let new_lower = lower + 4;
        let slot = (lower - HEADER_SIZE) / 4;
        write_u32_at(&mut self.buf, lower, new_upper as u32);
        let ghost b1 = self.buf@;
        write_u32_at(&mut self.buf, 4, new_lower as u32);
        let ghost b2 = self.buf@;
        write_u32_at(&mut self.buf, 0, new_upper as u32);
        let ghost b3 = self.buf@;
        copy_into(&mut self.buf, new_upper, data);
        self.upper_ptr = new_upper;
        self.lower_ptr = new_lower;
        proof {
            let nb = self.buf@;
            lemma_pow256_values();
            lemma_le_round_trip(new_upper as nat, 4);
            lemma_le_round_trip(new_lower as nat, 4);
            lemma_splice_index(ob, lower as int, le_bytes(new_upper as nat, 4));
            lemma_splice_index(b1, 4, le_bytes(new_lower as nat, 4));
            lemma_splice_index(b2, 0, le_bytes(new_upper as nat, 4));
            lemma_splice_index(b3, new_upper as int, data@);
            assert(nb.subrange(0, 4) =~= le_bytes(new_upper as nat, 4));
            assert(nb.subrange(4, 8) =~= le_bytes(new_lower as nat, 4));
            assert(nb.subrange(lower as int, lower + 4) =~= le_bytes(new_upper as nat, 4));
            assert(nb.subrange(new_upper as int, upper as int) =~= data@);
            lemma_append_layout(ob, upper as int, lower as int, data@, nb);
        }
        slot
    }

    /// Overwrites tuple `slot`, which spans `start..end`, with data of its length.
    fn overwrite(&mut self, slot: usize, start: usize, end: usize, data: &[u8])
        requires
            old(self)@.wf(),
            slot < old(self)@.count(),
            start == slot_at(old(self)@.bytes, slot as int),
            end == tuple_end(old(self)@.bytes, slot as int),
            data@.len() == end - start,
        ensures
            final(self)@.wf(),
            final(self)@ == (PageView { bytes: final(self)@.bytes, ..old(self)@ }),
            final(self)@.tuples() == old(self)@.tuples().update(slot as int, data@),
    {
        let ghost ob = self.buf@;
        let ghost c = self@.count();
        proof {
            assert(upper_le_slot(old(self)@, slot as int));
        }
        copy_into(&mut self.buf, start, data);
        proof {
            let nb = self.buf@;
            let s = slot as int;
            lemma_splice_index(ob, start as int, data@);
            assert(nb.subrange(0, 4) =~= ob.subrange(0, 4));
            assert(nb.subrange(4, 8) =~= ob.subrange(4, 8));
            assert forall|j: int| 0 <= j < c implies slot_at(nb, j) == slot_at(ob, j) by {
                assert(nb.subrange(HEADER_SIZE + 4 * j, HEADER_SIZE + 4 * j + 4) =~= ob.subrange(
                    HEADER_SIZE + 4 * j,
                    HEADER_SIZE + 4 * j + 4,
                ));
            }
            assert forall|j: int| 0 <= j < c implies #[trigger] slot_ok(nb, self@.upper, j) by {
                assert(slot_ok(ob, self@.upper, j));
                if j > 0 {
                    assert(slot_at(nb, j - 1) == slot_at(ob, j - 1));
                }
            }
            assert forall|i: int, j: int| 0 <= i < j < c implies #[trigger] slot_at(nb, j)
                <= #[trigger] slot_at(nb, i) by {
                assert(slot_at(ob, j) <= slot_at(ob, i));
            }
            if c > 0 {
                assert(slot_at(nb, c - 1) == slot_at(ob, c - 1));
            }
            assert forall|j: int| 0 <= j < c && j != s implies #[trigger] nb.subrange(
                slot_at(ob, j),
                tuple_end(ob, j),
            ) == ob.subrange(slot_at(ob, j), tuple_end(ob, j)) by {
                assert(upper_le_slot(old(self)@, j));
                if j < s {
                    if j < s - 1 {
                        assert(slot_at(ob, s - 1) <= slot_at(ob, j));
                    }
                } else {
                    if j - 1 > s {
                        assert(slot_at(ob, j - 1) <= slot_at(ob, s));
                    }
                }
                assert(nb.subrange(slot_at(ob, j), tuple_end(ob, j)) =~= ob.subrange(
                    slot_at(ob, j),
                    tuple_end(ob, j),
                ));
            }
            assert(nb.subrange(start as int, end as int) =~= data@);
            assert(self@.tuples() =~= old(self)@.tuples().update(s, data@));
        }
    }

    /// The tuples in slot order, one at a time.
    pub fn iter(&self) -> (r: Iter<'_>)
        requires
            self@.wf(),
        ensures
            r.page() == self,
            r.next_slot() == 0,
            r.key_ok(),
    {
        Iter { buf_page: self, tuple_ptr: TuplePtr::new(self.buf_key, 0) }
    }
}

} // verus!

verus! {

/// Walks the tuples of a page in slot order.
pub struct Iter<'a> {
    buf_page: &'a BufPage,
    tuple_ptr: TuplePtr,
}

impl<'a> Iter<'a> {
    pub closed spec fn page(&self) -> &'a BufPage {
        self.buf_page
    }

    pub closed spec fn next_slot(&self) -> int {
        self.tuple_ptr.buf_offset as int
    }

    pub closed spec fn key_ok(&self) -> bool {
        self.tuple_ptr.buf_key == self.buf_page@.key
    }

    /// The next tuple, or nothing after the last one.
    pub fn next(&mut self) -> (r: Option<&'a [u8]>)
        requires
            old(self).page()@.wf(),
            old(self).key_ok(),
        ensures
            final(self).page() == old(self).page(),
            final(self).key_ok(),
            old(self).next_slot() < old(self).page()@.count() ==> {
                &&& r.is_some()
                &&& r.unwrap()@ == old(self).page()@.tuples()[old(self).next_slot()]
                &&& final(self).next_slot() == old(self).next_slot() + 1
            },
            old(self).next_slot() >= old(self).page()@.count() ==> r.is_none()
                && final(self).next_slot() == old(self).next_slot(),
    {
        match self.buf_page.get_tuple_data(&self.tuple_ptr) {
            Ok(data) => {
                self.tuple_ptr = TuplePtr::new(self.tuple_ptr.buf_key, self.tuple_ptr.buf_offset + 1);
                Some(data)
            },
            Err(_) => None,
        }
    }

    /// The number of tuples still to come.
    pub fn count(self) -> (r: usize)
        requires
            self.page()@.wf(),
        ensures
            r == if self.next_slot() <= self.page()@.count() {
                self.page()@.count() - self.next_slot()
            } else {
                0
            },
    {
        let n = self.buf_page.tuple_count();
        if self.tuple_ptr.buf_offset <= n {
            n - self.tuple_ptr.buf_offset
        } else {
            0
        }
    }
}

} // verus!
