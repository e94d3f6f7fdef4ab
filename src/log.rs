//! The write-ahead log: LSN assignment, the in-memory tail, and the record
//! format `lsn:u64 | file_id:u32 | offset:u64 | temp:u8 | op:u8 | len:u32 |
//! payload`, all little-endian.

use vstd::prelude::*;
use crate::buf_key::BufKey;
use crate::buf_page::BufPage;
use crate::codec::{le_bytes, le_val, lemma_le_round_trip, lemma_pow256_values, pow256, read_u32_at, read_u64_at, u32_bytes, u64_bytes};
use crate::error::ErrorKind;

verus! {

/// What a log entry does to its page.
#[derive(Debug, Clone, Copy, PartialEq, Eq, Structural)]
pub enum OpType {
    InsertTuple,
    OverwriteTuple,
    NewPage,
}

pub open spec fn op_tag(op: OpType) -> nat {
    match op {
        OpType::InsertTuple => 0,
        OpType::OverwriteTuple => 1,
        OpType::NewPage => 2,
    }
}

/// One log entry.
pub struct LogEntry {
    pub lsn: u64,
    pub buf_key: BufKey,
    pub op: OpType,
    pub payload: Vec<u8>,
}

/// The byte size of a record header.
pub const LOG_HEADER_SIZE: usize = 26;

/// The stored form of an entry.
pub open spec fn entry_data(e: LogEntry) -> Seq<u8> {
    le_bytes(e.lsn as nat, 8) + le_bytes(e.buf_key.file_id as nat, 4) + le_bytes(
        e.buf_key.offset as nat,
        8,
    ) + seq![if e.buf_key.temp {
        1u8
    } else {
        0u8
    }] + seq![op_tag(e.op) as u8] + le_bytes(e.payload@.len(), 4) + e.payload@
}

/// The length of the record that starts `b`, when its header is whole, its
/// flag and operation are known, and its payload is there.
pub open spec fn record_len(b: Seq<u8>) -> Option<nat> {
    if b.len() >= LOG_HEADER_SIZE && b[20] <= 1 && b[21] <= 2 && LOG_HEADER_SIZE + le_val(
        b.subrange(22, 26),
    ) <= b.len() {
        Some((LOG_HEADER_SIZE + le_val(b.subrange(22, 26))) as nat)
    } else {
        None
    }
}

/// `b` is whole records, one after the other.
pub open spec fn records_ok(b: Seq<u8>) -> bool
    decreases b.len(),
{
    if b.len() == 0 {
        true
    } else {
        match record_len(b) {
            Some(n) => n > 0 && records_ok(b.skip(n as int)),
            None => false,
        }
    }
}

/// The stored form of a sequence of entries, one after the other.
pub open spec fn entries_data(es: Seq<LogEntry>) -> Seq<u8>
    decreases es.len(),
{
    if es.len() == 0 {
        Seq::empty()
    } else {
        entries_data(es.drop_last()) + entry_data(es.last())
    }
}

impl LogEntry {
    /// The stored form of this entry; it needs a payload that a four-byte length
    /// can state.
    pub fn to_data(&self) -> (r: Vec<u8>)
        requires
            self.payload@.len() <= u32::MAX,
        ensures
            r@ == entry_data(*self),
    {
        let mut r = u64_bytes(self.lsn);
        let mut a = u32_bytes(self.buf_key.file_id);
        r.append(&mut a);
        let mut b = u64_bytes(self.buf_key.offset);
        r.append(&mut b);
        r.push(if self.buf_key.temp {
            1u8
        } else {
            0u8
        });
        let op: u8 = match self.op {
            OpType::InsertTuple => 0,
            OpType::OverwriteTuple => 1,
            OpType::NewPage => 2,
        };
        r.push(op);
        let mut c = u32_bytes(self.payload.len() as u32);
        r.append(&mut c);
        r.extend_from_slice(self.payload.as_slice());
        assert(r@ =~= entry_data(*self));
        r
    }

    /// An entry read from the start of `bytes`, and where it ends:
    /// `InvalidData` when the bytes are too short or hold an unknown flag or
    /// operation.
    pub fn from_data(bytes: &[u8]) -> (r: Result<(LogEntry, usize), ErrorKind>)
        ensures
            r.is_ok() == record_len(bytes@).is_some(),
            r.is_ok() ==> r.unwrap().1 == record_len(bytes@).unwrap(),
            r.is_ok() ==> {
                let (e, n) = r.unwrap();
                &&& n <= bytes@.len()
                &&& bytes@.take(n as int) == entry_data(e)
            },
            r.is_err() ==> r == Err::<(LogEntry, usize), ErrorKind>(ErrorKind::InvalidData),
    {
        if bytes.len() < LOG_HEADER_SIZE {
            return Err(ErrorKind::InvalidData);
        }
        let lsn = read_u64_at(bytes, 0);
        let file_id = read_u32_at(bytes, 8);
        let offset = read_u64_at(bytes, 12);
        let temp = if bytes[20] == 0 {
            false
        } else if bytes[20] == 1 {
            true
        } else {
            return Err(ErrorKind::InvalidData);
        };
        let op = if bytes[21] == 0 {
            OpType::InsertTuple
        } else if bytes[21] == 1 {
            OpType::OverwriteTuple
        } else if bytes[21] == 2 {
            OpType::NewPage
        } else {
            return Err(ErrorKind::InvalidData);
        };
        let len = read_u32_at(bytes, 22) as usize;
        if len > bytes.len() - LOG_HEADER_SIZE {
            return Err(ErrorKind::InvalidData);
        }
        let end = LOG_HEADER_SIZE + len;
        let payload = vstd::slice::slice_to_vec(
            vstd::slice::slice_subrange(bytes, LOG_HEADER_SIZE, end),
        );
        let e = LogEntry { lsn, buf_key: BufKey::new(file_id, offset, temp), op, payload };
        proof {
            lemma_pow256_values();
            lemma_le_round_trip(lsn as nat, 8);
            lemma_le_round_trip(file_id as nat, 4);
            lemma_le_round_trip(offset as nat, 8);
            lemma_le_round_trip(len as nat, 4);
            lemma_le_unique(bytes@.subrange(0, 8), le_bytes(lsn as nat, 8));
            lemma_le_unique(bytes@.subrange(8, 12), le_bytes(file_id as nat, 4));
            lemma_le_unique(bytes@.subrange(12, 20), le_bytes(offset as nat, 8));
            lemma_le_unique(bytes@.subrange(22, 26), le_bytes(len as nat, 4));
            assert(bytes@.take(end as int) =~= entry_data(e));
        }
        Ok((e, end))
    }
}

/// A stored entry, followed by anything, is found whole by `record_len`; and
/// an entry whose stored form is the same bytes is the same entry. So reading
/// back a written log gives the entries that were written.
pub proof fn lemma_entry_round_trip(e: LogEntry, rest: Seq<u8>, d: LogEntry)
    requires
        e.payload@.len() <= u32::MAX,
        entry_data(d) == entry_data(e),
    ensures
        record_len(entry_data(e) + rest) == Some(entry_data(e).len()),
        d.lsn == e.lsn,
        d.buf_key == e.buf_key,
        d.op == e.op,
        d.payload@ == e.payload@,
{
    lemma_pow256_values();
    lemma_le_round_trip(e.lsn as nat, 8);
    lemma_le_round_trip(e.buf_key.file_id as nat, 4);
    lemma_le_round_trip(e.buf_key.offset as nat, 8);
    lemma_le_round_trip(e.payload@.len(), 4);
    lemma_le_round_trip(d.lsn as nat, 8);
    lemma_le_round_trip(d.buf_key.file_id as nat, 4);
    lemma_le_round_trip(d.buf_key.offset as nat, 8);
    if d.payload@.len() < pow256(4) {
        lemma_le_round_trip(d.payload@.len(), 4);
    }
    crate::codec::lemma_le_bytes_len(d.payload@.len(), 4);
    let x = entry_data(e);
    let y = entry_data(d);
    let b = x + rest;
    assert(x.subrange(0, 8) =~= le_bytes(e.lsn as nat, 8));
    assert(y.subrange(0, 8) =~= le_bytes(d.lsn as nat, 8));
    assert(x.subrange(8, 12) =~= le_bytes(e.buf_key.file_id as nat, 4));
    assert(y.subrange(8, 12) =~= le_bytes(d.buf_key.file_id as nat, 4));
    assert(x.subrange(12, 20) =~= le_bytes(e.buf_key.offset as nat, 8));
    assert(y.subrange(12, 20) =~= le_bytes(d.buf_key.offset as nat, 8));
    assert(x.subrange(22, 26) =~= le_bytes(e.payload@.len(), 4));
    assert(b.subrange(22, 26) =~= x.subrange(22, 26));
    assert(x.skip(26) =~= e.payload@);
    assert(y.skip(26) =~= d.payload@);
    assert(x[20] == y[20]);
    assert(x[21] == y[21]);
    assert(b[20] == x[20] && b[21] == x[21]);
}

/// Two byte strings of one length that hold the same number are the same.
pub proof fn lemma_le_unique(a: Seq<u8>, b: Seq<u8>)
    requires
        a.len() == b.len(),
        le_val(a) == le_val(b),
    ensures
        a == b,
    decreases a.len(),
{
    if a.len() > 0 {
        lemma_le_unique(a.drop_first(), b.drop_first());
        assert(a =~= seq![a[0]] + a.drop_first());
        assert(b =~= seq![b[0]] + b.drop_first());
    } else {
        assert(a =~= b);
    }
}

/// The log manager's state: the next LSN to assign, the LSN through which the
/// log is durable, the entries written but not yet flushed, and every LSN
/// assigned so far.
pub struct LogMgr {
    next_lsn: u64,
    flushed_lsn: u64,
    tail: Vec<LogEntry>,
    assigned: Ghost<Seq<u64>>,
}

pub struct LogView {
    pub next_lsn: u64,
    pub flushed_lsn: u64,
    pub tail: Seq<LogEntry>,
    pub assigned: Seq<u64>,
}

impl View for LogMgr {
    type V = LogView;

    closed spec fn view(&self) -> LogView {
        LogView {
            next_lsn: self.next_lsn,
            flushed_lsn: self.flushed_lsn,
            tail: self.tail@,
            assigned: self.assigned@,
        }
    }
}

impl LogView {
    /// The assigned LSNs run one by one up to just below `next_lsn`, and the
    /// log is durable only through LSNs that were assigned.
    pub open spec fn wf(self) -> bool {
        &&& forall|i: int|
            0 <= i < self.assigned.len() ==> #[trigger] self.assigned[i] + self.assigned.len() - i
                == self.next_lsn
        &&& 1 <= self.next_lsn
        &&& self.flushed_lsn < self.next_lsn
        &&& forall|i: int| 0 <= i < self.tail.len() ==> #[trigger] self.tail[i].lsn < self.next_lsn
        &&& forall|i: int| 0 <= i < self.tail.len() ==> (#[trigger] self.tail[i]).payload@.len() <= u32::MAX
    }
}

/// LSNs are assigned one after the other: each is one more than the one before
/// it, so they rise strictly and leave no gap.
pub proof fn lemma_lsns_consecutive(m: LogView, i: int, j: int)
    requires
        m.wf(),
        0 <= i < j < m.assigned.len(),
    ensures
        m.assigned[i] < m.assigned[j],
        m.assigned[j] - m.assigned[i] == j - i,
{
    assert(m.assigned[i] + m.assigned.len() - i == m.next_lsn);
    assert(m.assigned[j] + m.assigned.len() - j == m.next_lsn);
}

impl LogMgr {
    /// A log that continues after `flushed_lsn`, all of it durable.
    pub fn new(flushed_lsn: u64) -> (r: LogMgr)
        requires
            flushed_lsn < u64::MAX,
        ensures
            r@.wf(),
            r@.next_lsn == flushed_lsn + 1,
            r@.flushed_lsn == flushed_lsn,
            r@.tail.len() == 0,
            r@.assigned.len() == 0,
    {
        LogMgr {
            next_lsn: flushed_lsn + 1,
            flushed_lsn,
            tail: Vec::new(),
            assigned: Ghost(Seq::empty()),
        }
    }

    pub fn next_lsn(&self) -> (r: u64)
        ensures
            r == self@.next_lsn,
    {
        self.next_lsn
    }

    pub fn flushed_lsn(&self) -> (r: u64)
        ensures
            r == self@.flushed_lsn,
    {
        self.flushed_lsn
    }

    /// A new entry with the next LSN; nothing is written.
    pub fn make_entry(&mut self, buf_key: BufKey, op: OpType, payload: Vec<u8>) -> (r: LogEntry)
        requires
            old(self)@.wf(),
            old(self)@.next_lsn < u64::MAX,
        ensures
            final(self)@.wf(),
            r.lsn == old(self)@.next_lsn,
            r.buf_key == buf_key && r.op == op && r.payload@ == payload@,
            final(self)@.next_lsn == old(self)@.next_lsn + 1,
            final(self)@.assigned == old(self)@.assigned.push(r.lsn),
            final(self)@.flushed_lsn == old(self)@.flushed_lsn,
            final(self)@.tail == old(self)@.tail,
    {
        let lsn = self.next_lsn;
        self.next_lsn = lsn + 1;
        self.assigned = Ghost(self.assigned@.push(lsn));
        proof {
            let a = self.assigned@;
            assert forall|i: int| 0 <= i < a.len() implies #[trigger] a[i] + a.len() - i
                == self.next_lsn by {
                if i < a.len() - 1 {
                    assert(old(self)@.assigned[i] + old(self)@.assigned.len() - i == lsn);
                }
            }
        }
        LogEntry { lsn, buf_key, op, payload }
    }

    /// Appends a batch of entries, in order, to the tail.
    pub fn write_entries(&mut self, entries: Vec<LogEntry>)
        requires
            old(self)@.wf(),
            forall|i: int| 0 <= i < entries@.len() ==> #[trigger] entries@[i].lsn < old(self)@.next_lsn,
            forall|i: int| 0 <= i < entries@.len() ==> (#[trigger] entries@[i]).payload@.len() <= u32::MAX,
        ensures
            final(self)@.wf(),
            final(self)@.tail == old(self)@.tail + entries@,
            final(self)@.next_lsn == old(self)@.next_lsn,
            final(self)@.flushed_lsn == old(self)@.flushed_lsn,
            final(self)@.assigned == old(self)@.assigned,
    {
        let ghost es = entries@;
        let mut entries = entries;
        self.tail.append(&mut entries);
        assert forall|i: int| 0 <= i < self@.tail.len() implies #[trigger] self@.tail[i].lsn
            < self@.next_lsn && self@.tail[i].payload@.len() <= u32::MAX by {
            if i >= old(self)@.tail.len() {
                assert(self@.tail[i] == es[i - old(self)@.tail.len()]);
            } else {
                assert(self@.tail[i] == old(self)@.tail[i]);
            }
        }
        assert(self@.assigned == old(self)@.assigned);
    }

    /// Makes the log durable through `lsn`: the stored form of the whole tail is
    /// returned, to be written and synced before anything that depends on it;
    /// the tail empties. When the log is already durable through `lsn` nothing
    /// is returned and nothing changes. An `lsn` that was never assigned is
    /// `InvalidArgument`.
    pub fn flush_through(&mut self, lsn: u64) -> (r: Result<Vec<u8>, ErrorKind>)
        requires
            old(self)@.wf(),
        ensures
            final(self)@.wf(),
            lsn >= old(self)@.next_lsn ==> r == Err::<Vec<u8>, ErrorKind>(ErrorKind::InvalidArgument)
                && final(self)@ == old(self)@,
            lsn < old(self)@.next_lsn ==> r.is_ok() && final(self)@.flushed_lsn >= lsn,
            final(self)@.flushed_lsn >= old(self)@.flushed_lsn,
            final(self)@.next_lsn == old(self)@.next_lsn,
            final(self)@.assigned == old(self)@.assigned,
            lsn <= old(self)@.flushed_lsn ==> r.is_ok() && r.unwrap()@.len() == 0 && final(self)@
                == old(self)@,
            old(self)@.flushed_lsn < lsn < old(self)@.next_lsn ==> r.is_ok() && r.unwrap()@
                == entries_data(old(self)@.tail) && final(self)@.tail.len() == 0
                && final(self)@.flushed_lsn == lsn,
    {
        if lsn >= self.next_lsn {
            return Err(ErrorKind::InvalidArgument);
        }
        if lsn <= self.flushed_lsn {
            return Ok(Vec::new());
        }
        let mut r: Vec<u8> = Vec::new();
        let mut i: usize = 0;
        while i < self.tail.len()
            invariant
                i <= self.tail@.len(),
                self@ == old(self)@,
                self@.wf(),
                r@ == entries_data(self.tail@.take(i as int)),
            decreases self.tail@.len() - i,
        {
            let mut d = self.tail[i].to_data();
            r.append(&mut d);
            proof {
                let t = self.tail@.take(i + 1);
                assert(t.drop_last() =~= self.tail@.take(i as int));
            }
            i += 1;
        }
        assert(self.tail@.take(i as int) =~= self.tail@);
        self.tail = Vec::new();
        self.flushed_lsn = lsn;
        assert(self@.assigned == old(self)@.assigned);
        assert(self@.next_lsn == old(self)@.next_lsn);
        Ok(r)
    }
}

impl LogEntry {
    /// Reapplies this entry to its page during recovery: an insert is appended
    /// again unless the page already carries this entry's LSN or a later one.
    /// `InvalidArgument` for another page's entry; `Unsupported` for an
    /// overwrite, whose record does not name its slot. Returns whether the page
    /// changed.
    pub fn replay_on(&self, page: &mut BufPage) -> (r: Result<bool, ErrorKind>)
        requires
            old(page)@.wf(),
        ensures
            final(page)@.wf(),
            final(page)@.key == old(page)@.key,
            r.is_err() || r == Ok::<bool, ErrorKind>(false) ==> *final(page) == *old(page),
            self.buf_key != old(page)@.key ==> r == Err::<bool, ErrorKind>(ErrorKind::InvalidArgument),
            self.buf_key == old(page)@.key && old(page)@.last_lsn >= self.lsn ==> r == Ok::<bool, ErrorKind>(false),
            self.buf_key == old(page)@.key && old(page)@.last_lsn < self.lsn ==> match self.op {
                OpType::InsertTuple => {
                    &&& r.is_ok() == (self.payload@.len() + 4 <= old(page)@.free())
                    &&& r.is_err() ==> r == Err::<bool, ErrorKind>(ErrorKind::NoSpace)
                    &&& r.is_ok() ==> r == Ok::<bool, ErrorKind>(true) && final(page)@.tuples()
                        == old(page)@.tuples().push(self.payload@) && final(page)@.last_lsn == self.lsn
                },
                OpType::OverwriteTuple => r == Err::<bool, ErrorKind>(ErrorKind::Unsupported),
                OpType::NewPage => r == Ok::<bool, ErrorKind>(false),
            },
    {
        if self.buf_key != page.buf_key() {
            return Err(ErrorKind::InvalidArgument);
        }
        if page.last_lsn() >= self.lsn {
            return Ok(false);
        }
        match self.op {
            OpType::InsertTuple => match page.write_tuple_data(self.payload.as_slice(), None, Some(self.lsn)) {
                Ok(_) => Ok(true),
                Err(e) => Err(e),
            },
            OpType::OverwriteTuple => Err(ErrorKind::Unsupported),
            OpType::NewPage => Ok(false),
        }
    }

    /// Every entry of a log file's bytes, in order: `InvalidData` when the
    /// bytes do not end on an entry.
    pub fn parse_all(bytes: &[u8]) -> (r: Result<Vec<LogEntry>, ErrorKind>)
        ensures
            r.is_ok() == records_ok(bytes@),
            r.is_ok() ==> entries_data(r.unwrap()@) == bytes@,
            r.is_err() ==> r == Err::<Vec<LogEntry>, ErrorKind>(ErrorKind::InvalidData),
    {
        let mut out: Vec<LogEntry> = Vec::new();
        let mut pos: usize = 0;
        assert(bytes@.skip(0) =~= bytes@);
        while pos < bytes.len()
            invariant
                pos <= bytes@.len(),
                entries_data(out@) == bytes@.take(pos as int),
                records_ok(bytes@) == records_ok(bytes@.skip(pos as int)),
            decreases bytes@.len() - pos,
        {
            let rest = vstd::slice::slice_subrange(bytes, pos, bytes.len());
            assert(rest@ =~= bytes@.skip(pos as int));
            match LogEntry::from_data(rest) {
                Ok((e, n)) => {
                    if n == 0 {
                        return Err(ErrorKind::InvalidData);
                    }
                    let ghost ev = e;
                    let ghost before = out@;
                    out.push(e);
                    proof {
                        assert(out@.drop_last() =~= before);
                        assert(out@.last() == ev);
                        assert(entries_data(out@) == entries_data(before) + entry_data(ev));
                        assert(rest@.take(n as int) =~= bytes@.subrange(pos as int, pos + n));
                        assert(bytes@.take(pos + n) =~= bytes@.take(pos as int) + bytes@.subrange(pos as int, pos + n));
                    }
                    proof {
                        assert(rest@.skip(n as int) =~= bytes@.skip(pos + n));
                    }
                    pos = pos + n;
                },
                Err(e) => {
                    return Err(e);
                },
            }
        }
        assert(bytes@.take(pos as int) =~= bytes@);
        assert(bytes@.skip(pos as int) =~= Seq::<u8>::empty());
        Ok(out)
    }
}

} // verus!
