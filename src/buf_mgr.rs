//! The buffer pool: pages keyed by `BufKey`, pinned while in use, evicted by a
//! clock sweep when the pool is full. Reading and writing files is left to the
//! caller: a page comes in as a `BufPage`, and an evicted or stored dirty page
//! goes out together with the log bytes that must be durable before it.

use vstd::prelude::*;
use vstd::pervasive::VecAdditionalExecFns;
use crate::buf_key::{file_name, BufKey, ID, PAGE_SIZE};
use crate::buf_page::HEADER_SIZE;
use crate::buf_page::{lsn_after, BufPage, PageView, TuplePtr};
use crate::error::ErrorKind;
use crate::log::{entries_data, LogEntry, LogMgr, LogView, OpType};

verus! {

/// One occupied slot of the pool.
pub struct Frame {
    key: BufKey,
    page: BufPage,
    pin_count: u32,
    ref_bit: bool,
}

pub struct FrameView {
    pub key: BufKey,
    pub page: PageView,
    pub pin_count: nat,
    pub ref_bit: bool,
}

impl View for Frame {
    type V = FrameView;

    closed spec fn view(&self) -> FrameView {
        FrameView {
            key: self.key,
            page: self.page@,
            pin_count: self.pin_count as nat,
            ref_bit: self.ref_bit,
        }
    }
}

pub open spec fn frames_view(v: Seq<Option<Frame>>) -> Seq<Option<FrameView>> {
    Seq::new(
        v.len(),
        |i: int|
            match v[i] {
                Some(f) => Some(f@),
                None => None,
            },
    )
}

/// A dirty page that left the pool or was stored: the log bytes to make
/// durable first, then the page to write at its key.
pub struct Writeback {
    pub key: BufKey,
    pub log_data: Vec<u8>,
    pub page_data: Vec<u8>,
}

/// The pool's state: its slots, the clock hand, and the bound on its size
/// (`None` for a pool that never evicts).
pub struct PoolView {
    pub frames: Seq<Option<FrameView>>,
    pub hand: int,
    pub capacity: Option<nat>,
}

/// The log bytes that making the log durable through `lsn` hands out: the
/// whole tail when the log was not yet durable through `lsn`, else nothing.
pub open spec fn flushed_bytes(log: LogView, lsn: u64) -> Seq<u8> {
    if lsn <= log.flushed_lsn {
        Seq::empty()
    } else {
        entries_data(log.tail)
    }
}

/// The slot after `i` in a ring of `n`.
pub open spec fn next_slot(i: int, n: int) -> int {
    if i + 1 >= n {
        0
    } else {
        i + 1
    }
}

/// The clock sweep from `hand`, for at most `fuel` steps: pinned pages are
/// passed over, referenced ones lose their reference and are passed over, and
/// the first free slot or unreferenced page is the victim. The result is the
/// slots with the references cleared on the way, and the victim's slot.
pub open spec fn sweep(fs: Seq<Option<FrameView>>, hand: int, fuel: nat) -> Option<
    (Seq<Option<FrameView>>, int),
>
    decreases fuel,
{
    if fuel == 0 || !(0 <= hand < fs.len()) {
        None
    } else {
        match fs[hand] {
            None => Some((fs, hand)),
            Some(f) => if f.pin_count > 0 {
                sweep(fs, next_slot(hand, fs.len() as int), (fuel - 1) as nat)
            } else if f.ref_bit {
                sweep(
                    fs.update(hand, Some(FrameView { ref_bit: false, ..f })),
                    next_slot(hand, fs.len() as int),
                    (fuel - 1) as nat,
                )
            } else {
                Some((fs, hand))
            },
        }
    }
}

impl PoolView {
    pub open spec fn wf(self) -> bool {
        &&& match self.capacity {
            Some(c) => 0 < c <= u32::MAX && self.frames.len() == c && 0 <= self.hand < c,
            None => self.hand == 0,
        }
        &&& forall|i: int| 0 <= i < self.frames.len() && (#[trigger] self.frames[i]).is_some() ==> {
            let f = self.frames[i].unwrap();
            f.page.wf() && f.page.key == f.key
        }
        &&& forall|i: int, j: int|
            0 <= i < self.frames.len() && 0 <= j < self.frames.len() && i != j
                && (#[trigger] self.frames[i]).is_some() && (#[trigger] self.frames[j]).is_some()
                ==> self.frames[i].unwrap().key != self.frames[j].unwrap().key
    }

    /// Whether the page of `key` is in the pool.
    pub open spec fn holds(self, key: BufKey) -> bool {
        exists|i: int| 0 <= i < self.frames.len() && #[trigger] self.slot_has(i, key)
    }

    pub open spec fn slot_has(self, i: int, key: BufKey) -> bool {
        self.frames[i].is_some() && self.frames[i].unwrap().key == key
    }

    /// Whether one of the first `n` slots holds `key`.
    pub open spec fn held_below(self, key: BufKey, n: int) -> bool {
        exists|j: int| 0 <= j < n && #[trigger] self.slot_has(j, key)
    }

    /// The slot that holds `key`, when one does.
    pub open spec fn slot_of(self, key: BufKey) -> int {
        choose|i: int| 0 <= i < self.frames.len() && #[trigger] self.slot_has(i, key)
    }

    /// The pin count of the page of `key`.
    pub open spec fn page_pins(self, key: BufKey) -> nat {
        self.frames[self.slot_of(key)].unwrap().pin_count
    }

    /// The page that the pool holds for `key`.
    pub open spec fn page_of(self, key: BufKey) -> PageView {
        self.frames[self.slot_of(key)].unwrap().page
    }
}

/// The pool of buffered pages.
pub struct BufMgr {
    frames: Vec<Option<Frame>>,
    hand: usize,
    capacity: Option<usize>,
    data_dir: String,
    next_temp_id: u32,
}

impl View for BufMgr {
    type V = PoolView;

    closed spec fn view(&self) -> PoolView {
        PoolView {
            frames: frames_view(self.frames@),
            hand: self.hand as int,
            capacity: match self.capacity {
                Some(c) => Some(c as nat),
                None => None,
            },
        }
    }
}

impl BufMgr {
    /// An empty pool of at most `capacity` pages (unbounded for `None`), over
    /// files in `data_dir`.
    pub fn new(capacity: Option<usize>, data_dir: String) -> (r: BufMgr)
        requires
            capacity.is_some() ==> 0 < capacity.unwrap() <= u32::MAX,
        ensures
            r@.wf(),
            r@.capacity == match capacity {
                Some(c) => Some(c as nat),
                None => None::<nat>,
            },
            forall|k: BufKey| !r@.holds(k),
            r@.hand == 0,
            r@.frames == Seq::new(r@.frames.len(), |i: int| None::<FrameView>),
    {
        let mut frames: Vec<Option<Frame>> = Vec::new();
        match capacity {
            Some(c) => {
                let mut i: usize = 0;
                while i < c
                    invariant
                        i <= c,
                        frames@.len() == i,
                        forall|j: int| 0 <= j < i ==> frames@[j].is_none(),
                    decreases c - i,
                {
                    frames.push(None);
                    i += 1;
                }
            },
            None => {},
        }
        let r = BufMgr { frames, hand: 0, capacity, data_dir, next_temp_id: 1 };
        assert(r@.frames =~= Seq::new(r@.frames.len(), |i: int| None::<FrameView>));
        r
    }

    /// Where the slot of `key` is, if the pool holds it.
    fn find(&self, key: &BufKey) -> (r: Option<usize>)
        requires
            self@.wf(),
        ensures
            r.is_some() == self@.holds(*key),
            r.is_some() ==> r.unwrap() == self@.slot_of(*key) && self@.slot_has(r.unwrap() as int, *key),
    {
        let mut i: usize = 0;
        while i < self.frames.len()
            invariant
                self@.wf(),
                i <= self.frames@.len(),
                forall|j: int| 0 <= j < i ==> !#[trigger] self@.slot_has(j, *key),
            decreases self.frames@.len() - i,
        {
            match &self.frames[i] {
                Some(f) => {
                    if f.key == *key {
                        assert(self@.slot_has(i as int, *key));
                        proof {
                            let k = self@.slot_of(*key);
                            assert(self@.slot_has(k, *key));
                        }
                        return Some(i);
                    }
                },
                None => {},
            }
            assert(!self@.slot_has(i as int, *key));
            i += 1;
        }
        None
    }

    /// Whether the pool holds the page of `key`.
    pub fn has_buf(&self, key: &BufKey) -> (r: bool)
        requires
            self@.wf(),
        ensures
            r == self@.holds(*key),
    {
        self.find(key).is_some()
    }

    /// Marks the page of `key` referenced, when the pool holds it.
    pub fn get_cached(&mut self, key: &BufKey) -> (r: bool)
        requires
            old(self)@.wf(),
        ensures
            final(self)@.wf(),
            r == old(self)@.holds(*key),
            final(self)@.hand == old(self)@.hand,
            final(self)@.capacity == old(self)@.capacity,
            !r ==> final(self)@ == old(self)@,
            r ==> {
                let i = old(self)@.slot_of(*key);
                let f = old(self)@.frames[i].unwrap();
                final(self)@.frames == old(self)@.frames.update(i, Some(FrameView { ref_bit: true, ..f }))
            },
    {
        match self.find(key) {
            Some(i) => {
                let mut tmp: Option<Frame> = None;
                self.frames.set_and_swap(i, &mut tmp);
                match tmp {
                    Some(mut f) => {
                        f.ref_bit = true;
                        self.frames.set(i, Some(f));
                    },
                    None => {},
                }
                proof {
                    let nv = frames_view(self.frames@);
                    let f = old(self)@.frames[i as int].unwrap();
                    assert(nv =~= old(self)@.frames.update(i as int, Some(FrameView { ref_bit: true, ..f })));
                    assert(self@.slot_has(i as int, *key));
                }
                true
            },
            None => {
                assert(frames_view(self.frames@) =~= old(self)@.frames);
                false
            },
        }
    }

    /// Adds one pin to the page of `key`: `NotFound` when the pool does not
    /// hold it, `OutOfBuffers` when its pin count is at its bound.
    pub fn pin(&mut self, key: &BufKey) -> (r: Result<(), ErrorKind>)
        requires
            old(self)@.wf(),
        ensures
            final(self)@.wf(),
            !old(self)@.holds(*key) ==> r == Err::<(), ErrorKind>(ErrorKind::NotFound),
            r.is_err() ==> final(self)@ == old(self)@,
            old(self)@.holds(*key) ==> r.is_ok() == (old(self)@.page_pins(*key) < u32::MAX),
            r.is_err() && old(self)@.holds(*key) ==> r == Err::<(), ErrorKind>(ErrorKind::OutOfBuffers),
            r.is_ok() ==> {
                let i = old(self)@.slot_of(*key);
                let f = old(self)@.frames[i].unwrap();
                final(self)@ == (PoolView {
                    frames: old(self)@.frames.update(i, Some(FrameView { pin_count: f.pin_count + 1, ..f })),
                    ..old(self)@
                })
            },
    {
        match self.find(key) {
            Some(i) => {
                let mut tmp: Option<Frame> = None;
                self.frames.set_and_swap(i, &mut tmp);
                let mut f = tmp.unwrap();
                if f.pin_count == u32::MAX {
                    self.frames.set(i, Some(f));
                    assert(frames_view(self.frames@) =~= old(self)@.frames);
                    return Err(ErrorKind::OutOfBuffers);
                }
                f.pin_count = f.pin_count + 1;
                self.frames.set(i, Some(f));
                proof {
                    let nv = frames_view(self.frames@);
                    let g = old(self)@.frames[i as int].unwrap();
                    assert(nv =~= old(self)@.frames.update(i as int, Some(FrameView { pin_count: g.pin_count + 1, ..g })));
                }
                Ok(())
            },
            None => {
                assert(frames_view(self.frames@) =~= old(self)@.frames);
                Err(ErrorKind::NotFound)
            },
        }
    }

    /// Takes one pin from the page of `key`: `NotFound` when the pool does not
    /// hold it, `InvalidArgument` when it is not pinned.
    pub fn unpin(&mut self, key: &BufKey) -> (r: Result<(), ErrorKind>)
        requires
            old(self)@.wf(),
        ensures
            final(self)@.wf(),
            !old(self)@.holds(*key) ==> r == Err::<(), ErrorKind>(ErrorKind::NotFound),
            r.is_err() ==> final(self)@ == old(self)@,
            old(self)@.holds(*key) ==> r.is_ok() == (old(self)@.page_pins(*key) > 0),
            r.is_err() && old(self)@.holds(*key) ==> r == Err::<(), ErrorKind>(ErrorKind::InvalidArgument),
            r.is_ok() ==> {
                let i = old(self)@.slot_of(*key);
                let f = old(self)@.frames[i].unwrap();
                &&& f.pin_count > 0
                &&& final(self)@ == (PoolView {
                    frames: old(self)@.frames.update(i, Some(FrameView { pin_count: (f.pin_count - 1) as nat, ..f })),
                    ..old(self)@
                })
            },
    {
        match self.find(key) {
            Some(i) => {
                let mut tmp: Option<Frame> = None;
                self.frames.set_and_swap(i, &mut tmp);
                let mut f = tmp.unwrap();
                if f.pin_count == 0 {
                    self.frames.set(i, Some(f));
                    assert(frames_view(self.frames@) =~= old(self)@.frames);
                    return Err(ErrorKind::InvalidArgument);
                }
                f.pin_count = f.pin_count - 1;
                self.frames.set(i, Some(f));
                proof {
                    let nv = frames_view(self.frames@);
                    let g = old(self)@.frames[i as int].unwrap();
                    assert(nv =~= old(self)@.frames.update(i as int, Some(FrameView { pin_count: (g.pin_count - 1) as nat, ..g })));
                }
                Ok(())
            },
            None => {
                assert(frames_view(self.frames@) =~= old(self)@.frames);
                Err(ErrorKind::NotFound)
            },
        }
    }

    /// The page of `key`, when the pool holds it.
    pub fn get_page(&self, key: &BufKey) -> (r: Option<&BufPage>)
        requires
            self@.wf(),
        ensures
            r.is_some() == self@.holds(*key),
            r.is_some() ==> r.unwrap()@ == self@.page_of(*key) && r.unwrap()@.wf()
                && r.unwrap()@.key == *key,
    {
        match self.find(key) {
            Some(i) => match &self.frames[i] {
                Some(f) => Some(&f.page),
                None => None,
            },
            None => None,
        }
    }

    /// Whether slot `i` is occupied, and its pin count and reference bit.
    fn frame_parts(&self, i: usize) -> (r: (bool, u32, bool))
        requires
            i < self.frames@.len(),
        ensures
            r.0 == self@.frames[i as int].is_some(),
            r.0 ==> r.1 as nat == self@.frames[i as int].unwrap().pin_count && r.2
                == self@.frames[i as int].unwrap().ref_bit,
    {
        match &self.frames[i] {
            Some(f) => (true, f.pin_count, f.ref_bit),
            None => (false, 0, false),
        }
    }

    /// Brings `page` into the pool, pinned once and referenced. A bounded pool
    /// that is full first picks a victim by the clock sweep (at most twice
    /// round the ring; `OutOfBuffers` when every page stays pinned). A dirty
    /// victim is handed back with the log bytes that make the log durable
    /// through the victim's LSN, which must be written before the page.
    pub fn fault_in(&mut self, page: BufPage, log: &mut LogMgr) -> (r: Result<
        Option<Writeback>,
        ErrorKind,
    >)
        requires
            old(self)@.wf(),
            page@.wf(),
            !old(self)@.holds(page@.key),
            old(log)@.wf(),
        ensures
            final(self)@.wf(),
            final(log)@.wf(),
            final(log)@.next_lsn == old(log)@.next_lsn,
            final(log)@.assigned == old(log)@.assigned,
            final(self)@.capacity == old(self)@.capacity,
            ({
                let nf = FrameView { key: page@.key, page: page@, pin_count: 1, ref_bit: true };
                match old(self)@.capacity {
                    None => r.is_ok() && r.unwrap().is_none() && final(self)@.frames == old(
                        self,
                    )@.frames.push(Some(nf)) && final(log)@ == old(log)@,
                    Some(c) => match sweep(old(self)@.frames, old(self)@.hand, 2 * c) {
                        None => r == Err::<Option<Writeback>, ErrorKind>(ErrorKind::OutOfBuffers)
                            && final(log)@ == old(log)@,
                        Some((fs, v)) => {
                            let victim = fs[v];
                            let dirty = victim.is_some() && victim.unwrap().page.dirty;
                            &&& dirty && victim.unwrap().page.last_lsn >= old(log)@.next_lsn ==> r
                                == Err::<Option<Writeback>, ErrorKind>(ErrorKind::InvalidArgument)
                                && final(log)@ == old(log)@
                            &&& !dirty ==> r.is_ok() && r.unwrap().is_none() && final(log)@ == old(
                                log,
                            )@
                            &&& r.is_ok() ==> final(self)@.frames == fs.update(v, Some(nf))
                                && final(self)@.hand == next_slot(v, c as int)
                            &&& dirty && victim.unwrap().page.last_lsn < old(log)@.next_lsn ==> {
                                &&& r.is_ok() && r.unwrap().is_some()
                                &&& r.unwrap().unwrap().key == victim.unwrap().key
                                &&& r.unwrap().unwrap().page_data@ == victim.unwrap().page.bytes
                                &&& final(log)@.flushed_lsn >= victim.unwrap().page.last_lsn
                                &&& r.unwrap().unwrap().log_data@ == flushed_bytes(
                                    old(log)@,
                                    victim.unwrap().page.last_lsn,
                                )
                            }
                        },
                    },
                }
            }),
    {
        let key = page.buf_key();
        let nf = Frame { key, page, pin_count: 1, ref_bit: true };
        let c = match self.capacity {
            None => {
                self.frames.push(Some(nf));
                proof {
                    let nv = frames_view(self.frames@);
                    assert(nv =~= old(self)@.frames.push(Some(nf@)));
                    assert forall|i: int| 0 <= i < old(self)@.frames.len() && (
                    #[trigger] nv[i]).is_some() implies nv[i].unwrap().key != key by {
                        assert(!old(self)@.slot_has(i, key));
                    }
                }
                return Ok(None);
            },
            Some(c) => c,
        };
        let ghost f0 = self@.frames;
        let ghost h0 = self@.hand;
        let mut fuel: u64 = 2 * (c as u64);
        let mut victim: Option<usize> = None;
        while fuel > 0 && victim.is_none()
            invariant
                self@.wf(),
                self.capacity == Some(c),
                self@.frames.len() == c,
                fuel <= 2 * c,
                victim.is_some() ==> victim.unwrap() < c,
                sweep(f0, h0, (2 * c) as nat) == if victim.is_some() {
                    Some((self@.frames, victim.unwrap() as int))
                } else {
                    sweep(self@.frames, self@.hand, fuel as nat)
                },
                forall|i: int|
                    0 <= i < c ==> (#[trigger] self@.frames[i]).is_some() == f0[i].is_some() && (
                    self@.frames[i].is_some() ==> self@.frames[i].unwrap().key == f0[i].unwrap().key
                        && self@.frames[i].unwrap().page == f0[i].unwrap().page),
                !old(self)@.holds(key),
                old(self)@.frames == f0,
                f0.len() == c,
            decreases fuel + (if victim.is_none() { 1int } else { 0int }),
        {
            let h = self.hand;
            let ghost before = self@.frames;
            let next = if h + 1 >= c {
                0
            } else {
                h + 1
            };
            assert(next == next_slot(h as int, before.len() as int));
            let (occupied, pins, referenced) = self.frame_parts(h);
            if !occupied {
                victim = Some(h);
            } else if pins > 0 {
                self.hand = next;
                fuel = fuel - 1;
            } else if referenced {
                let mut tmp: Option<Frame> = None;
                self.frames.set_and_swap(h, &mut tmp);
                let mut f = tmp.unwrap();
                f.ref_bit = false;
                self.frames.set(h, Some(f));
                self.hand = next;
                fuel = fuel - 1;
                proof {
                    let g = before[h as int].unwrap();
                    let after = before.update(h as int, Some(FrameView { ref_bit: false, ..g }));
                    assert(self@.frames =~= after);
                    assert forall|i: int| 0 <= i < self@.frames.len() && (
                    #[trigger] self@.frames[i]).is_some() implies self@.frames[i].unwrap().page.wf()
                        && self@.frames[i].unwrap().page.key == self@.frames[i].unwrap().key by {
                        assert(before[i].is_some());
                    }
                    assert forall|i: int, j: int|
                        0 <= i < self@.frames.len() && 0 <= j < self@.frames.len() && i != j && (
                        #[trigger] self@.frames[i]).is_some() && (
                        #[trigger] self@.frames[j]).is_some() implies self@.frames[i].unwrap().key
                        != self@.frames[j].unwrap().key by {
                        assert(before[i].is_some() && before[j].is_some());
                    }
                }
            } else {
                victim = Some(h);
            }
        }
        let ghost fs = self@.frames;
        let v = match victim {
            Some(v) => v,
            None => {
                return Err(ErrorKind::OutOfBuffers);
            },
        };
        let mut evicted: Option<Frame> = None;
        self.frames.set_and_swap(v, &mut evicted);
        let wb = match evicted {
            Some(old_frame) => {
                if old_frame.page.is_dirty() {
                    let lsn = old_frame.page.last_lsn();
                    match log.flush_through(lsn) {
                        Ok(log_data) => {
                            let page_data = vstd::slice::slice_to_vec(old_frame.page.data().as_slice());
                            Some(Writeback { key: old_frame.key, log_data, page_data })
                        },
                        Err(e) => {
                            self.frames.set(v, Some(old_frame));
                            assert(frames_view(self.frames@) =~= fs);
                            return Err(e);
                        },
                    }
                } else {
                    None
                }
            },
            None => None,
        };
        self.frames.set(v, Some(nf));
        self.hand = if v + 1 >= c {
            0
        } else {
            v + 1
        };
        proof {
            let nv = frames_view(self.frames@);
            assert(nv =~= fs.update(v as int, Some(nf@)));
            assert forall|i: int| 0 <= i < c && i != v && (#[trigger] nv[i]).is_some() implies nv[
                i
            ].unwrap().key != key by {
                assert(!old(self)@.slot_has(i, key));
            }
        }
        Ok(wb)
    }

    /// Writes back the page of `key` if it is dirty: the log is made durable
    /// through the page's LSN first, and the log bytes and page bytes are
    /// handed back, in the order they must reach disk; the page is then clean.
    /// `NotFound` when the pool does not hold the page; `InvalidArgument` when
    /// its LSN was never assigned.
    pub fn store_buf(&mut self, key: &BufKey, log: &mut LogMgr) -> (r: Result<
        Option<Writeback>,
        ErrorKind,
    >)
        requires
            old(self)@.wf(),
            old(log)@.wf(),
        ensures
            final(self)@.wf(),
            final(log)@.wf(),
            final(log)@.next_lsn == old(log)@.next_lsn,
            final(log)@.assigned == old(log)@.assigned,
            !old(self)@.holds(*key) ==> r == Err::<Option<Writeback>, ErrorKind>(ErrorKind::NotFound),
            r.is_err() || r.unwrap().is_none() ==> final(self)@ == old(self)@ && final(log)@ == old(log)@,
            old(self)@.holds(*key) ==> {
                let i = old(self)@.slot_of(*key);
                let f = old(self)@.frames[i].unwrap();
                &&& !f.page.dirty ==> r.is_ok() && r.unwrap().is_none()
                &&& f.page.dirty && f.page.last_lsn >= old(log)@.next_lsn ==> r == Err::<
                    Option<Writeback>,
                    ErrorKind,
                >(ErrorKind::InvalidArgument)
                &&& f.page.dirty && f.page.last_lsn < old(log)@.next_lsn ==> {
                    &&& r.is_ok() && r.unwrap().is_some()
                    &&& r.unwrap().unwrap().key == *key
                    &&& r.unwrap().unwrap().page_data@ == f.page.bytes
                    &&& final(log)@.flushed_lsn >= f.page.last_lsn
                    &&& r.unwrap().unwrap().log_data@ == flushed_bytes(old(log)@, f.page.last_lsn)
                    &&& final(self)@ == (PoolView {
                        frames: old(self)@.frames.update(
                            i,
                            Some(FrameView { page: PageView { dirty: false, ..f.page }, ..f }),
                        ),
                        ..old(self)@
                    })
                }
            },
    {
        let i = match self.find(key) {
            Some(i) => i,
            None => {
                return Err(ErrorKind::NotFound);
            },
        };
        let mut tmp: Option<Frame> = None;
        self.frames.set_and_swap(i, &mut tmp);
        let mut f = tmp.unwrap();
        if !f.page.is_dirty() {
            self.frames.set(i, Some(f));
            assert(frames_view(self.frames@) =~= old(self)@.frames);
            return Ok(None);
        }
        let log_data = match log.flush_through(f.page.last_lsn()) {
            Ok(d) => d,
            Err(e) => {
                self.frames.set(i, Some(f));
                assert(frames_view(self.frames@) =~= old(self)@.frames);
                return Err(e);
            },
        };
        let page_data = vstd::slice::slice_to_vec(f.page.data().as_slice());
        f.page.mark_clean();
        self.frames.set(i, Some(f));
        proof {
            let g = old(self)@.frames[i as int].unwrap();
            assert(frames_view(self.frames@) =~= old(self)@.frames.update(
                i as int,
                Some(FrameView { page: PageView { dirty: false, ..g.page }, ..g }),
            ));
        }
        Ok(Some(Writeback { key: *key, log_data, page_data }))
    }

    /// Appends a tuple to the page of `key`, stamped with `lsn`: `NotFound`
    /// when the pool does not hold the page, `NoSpace` when the tuple and its
    /// slot do not fit. Returns the new slot.
    pub fn write_new_tuple(&mut self, key: &BufKey, data: &[u8], lsn: u64) -> (r: Result<
        usize,
        ErrorKind,
    >)
        requires
            old(self)@.wf(),
        ensures
            final(self)@.wf(),
            final(self).next_temp() == old(self).next_temp(),
            !old(self)@.holds(*key) ==> r == Err::<usize, ErrorKind>(ErrorKind::NotFound),
            r.is_err() ==> final(self)@ == old(self)@,
            old(self)@.holds(*key) ==> {
                let i = old(self)@.slot_of(*key);
                let f = old(self)@.frames[i].unwrap();
                let p = f.page;
                &&& r.is_ok() == (data@.len() + 4 <= p.free())
                &&& r.is_err() ==> r == Err::<usize, ErrorKind>(ErrorKind::NoSpace)
                &&& r.is_ok() ==> {
                    let np = final(self)@.frames[i].unwrap().page;
                    &&& r.unwrap() == p.count()
                    &&& final(self)@.frames == old(self)@.frames.update(
                        i,
                        Some(FrameView { page: np, ..f }),
                    )
                    &&& final(self)@.hand == old(self)@.hand
                    &&& final(self)@.capacity == old(self)@.capacity
                    &&& np.tuples() == p.tuples().push(data@)
                    &&& np.free() == p.free() - data@.len() - 4
                    &&& np.last_lsn == lsn_after(p.last_lsn, Some(lsn))
                    &&& np.dirty
                    &&& np.key == p.key
                    &&& np.wf()
                }
            },
    {
        let i = match self.find(key) {
            Some(i) => i,
            None => {
                return Err(ErrorKind::NotFound);
            },
        };
        let mut tmp: Option<Frame> = None;
        self.frames.set_and_swap(i, &mut tmp);
        let mut f = tmp.unwrap();
        let r = f.page.write_tuple_data(data, None, Some(lsn));
        self.frames.set(i, Some(f));
        proof {
            if r.is_err() {
                assert(frames_view(self.frames@) =~= old(self)@.frames);
            } else {
                let g = old(self)@.frames[i as int].unwrap();
                assert(frames_view(self.frames@) =~= old(self)@.frames.update(
                    i as int,
                    Some(FrameView { page: f.page@, ..g }),
                ));
                assert(self@.frames[i as int].unwrap().page == f.page@);
            }
        }
        r
    }

    /// Overwrites tuple `slot` of the page of `key` with data of the same
    /// length, stamped with `lsn`: `NotFound` when the pool does not hold the
    /// page, `InvalidArgument` when the slot holds no tuple, `Unsupported`
    /// when the lengths differ.
    pub fn overwrite_tuple(&mut self, key: &BufKey, slot: usize, data: &[u8], lsn: u64) -> (r: Result<
        (),
        ErrorKind,
    >)
        requires
            old(self)@.wf(),
        ensures
            final(self)@.wf(),
            !old(self)@.holds(*key) ==> r == Err::<(), ErrorKind>(ErrorKind::NotFound),
            r.is_err() ==> final(self)@ == old(self)@,
            old(self)@.holds(*key) ==> {
                let i = old(self)@.slot_of(*key);
                let f = old(self)@.frames[i].unwrap();
                let p = f.page;
                &&& slot >= p.count() ==> r == Err::<(), ErrorKind>(ErrorKind::InvalidArgument)
                &&& slot < p.count() && p.tuples()[slot as int].len() != data@.len() ==> r == Err::<
                    (),
                    ErrorKind,
                >(ErrorKind::Unsupported)
                &&& slot < p.count() && p.tuples()[slot as int].len() == data@.len() ==> r.is_ok()
                &&& r.is_ok() ==> {
                    let np = final(self)@.frames[i].unwrap().page;
                    &&& final(self)@.frames == old(self)@.frames.update(
                        i,
                        Some(FrameView { page: np, ..f }),
                    )
                    &&& final(self)@.hand == old(self)@.hand
                    &&& final(self)@.capacity == old(self)@.capacity
                    &&& np.tuples() == p.tuples().update(slot as int, data@)
                    &&& np.last_lsn == lsn_after(p.last_lsn, Some(lsn))
                    &&& np.dirty
                    &&& np.key == p.key
                    &&& np.wf()
                }
            },
    {
        let i = match self.find(key) {
            Some(i) => i,
            None => {
                return Err(ErrorKind::NotFound);
            },
        };
        let mut tmp: Option<Frame> = None;
        self.frames.set_and_swap(i, &mut tmp);
        let mut f = tmp.unwrap();
        let ptr = TuplePtr::new(*key, slot);
        let r = f.page.write_tuple_data(data, Some(&ptr), Some(lsn));
        self.frames.set(i, Some(f));
        proof {
            if r.is_err() {
                assert(frames_view(self.frames@) =~= old(self)@.frames);
            } else {
                let g = old(self)@.frames[i as int].unwrap();
                assert(frames_view(self.frames@) =~= old(self)@.frames.update(
                    i as int,
                    Some(FrameView { page: f.page@, ..g }),
                ));
                assert(self@.frames[i as int].unwrap().page == f.page@);
            }
        }
        match r {
            Ok(_) => Ok(()),
            Err(e) => Err(e),
        }
    }

    /// Reapplies a log entry to its page, which the pool must hold
    /// (`NotFound` otherwise), as `LogEntry::replay_on` does. Returns whether
    /// the page changed.
    pub fn replay_entry(&mut self, entry: &LogEntry) -> (r: Result<bool, ErrorKind>)
        requires
            old(self)@.wf(),
        ensures
            final(self)@.wf(),
            !old(self)@.holds(entry.buf_key) ==> r == Err::<bool, ErrorKind>(ErrorKind::NotFound),
            r.is_err() || r == Ok::<bool, ErrorKind>(false) ==> final(self)@ == old(self)@,
            old(self)@.holds(entry.buf_key) ==> {
                let i = old(self)@.slot_of(entry.buf_key);
                let f = old(self)@.frames[i].unwrap();
                let p = f.page;
                &&& p.last_lsn >= entry.lsn ==> r == Ok::<bool, ErrorKind>(false)
                &&& p.last_lsn < entry.lsn ==> match entry.op {
                    OpType::InsertTuple => {
                        &&& r.is_ok() == (entry.payload@.len() + 4 <= p.free())
                        &&& r.is_err() ==> r == Err::<bool, ErrorKind>(ErrorKind::NoSpace)
                        &&& r.is_ok() ==> {
                            let np = final(self)@.frames[i].unwrap().page;
                            &&& r == Ok::<bool, ErrorKind>(true)
                            &&& final(self)@.frames == old(self)@.frames.update(
                                i,
                                Some(FrameView { page: np, ..f }),
                            )
                            &&& np.tuples() == p.tuples().push(entry.payload@)
                            &&& np.last_lsn == entry.lsn
                        }
                    },
                    OpType::OverwriteTuple => r == Err::<bool, ErrorKind>(ErrorKind::Unsupported),
                    OpType::NewPage => r == Ok::<bool, ErrorKind>(false),
                }
            },
    {
        let i = match self.find(&entry.buf_key) {
            Some(i) => i,
            None => {
                return Err(ErrorKind::NotFound);
            },
        };
        let mut tmp: Option<Frame> = None;
        self.frames.set_and_swap(i, &mut tmp);
        let mut f = tmp.unwrap();
        let r = entry.replay_on(&mut f.page);
        self.frames.set(i, Some(f));
        proof {
            if r.is_err() || r == Ok::<bool, ErrorKind>(false) {
                assert(frames_view(self.frames@) =~= old(self)@.frames);
            } else {
                let g = old(self)@.frames[i as int].unwrap();
                assert(frames_view(self.frames@) =~= old(self)@.frames.update(
                    i as int,
                    Some(FrameView { page: f.page@, ..g }),
                ));
                assert(self@.frames[i as int].unwrap().page == f.page@);
            }
        }
        r
    }

    /// The next temporary file identifier to hand out.
    pub closed spec fn next_temp(&self) -> nat {
        self.next_temp_id as nat
    }

    /// A fresh identifier for a temporary file: each call returns one more than
    /// the call before, up to the largest identifier.
    pub fn new_temp_id(&mut self) -> (r: ID)
        requires
            old(self)@.wf(),
        ensures
            final(self)@ == old(self)@,
            r == old(self).next_temp(),
            final(self).next_temp() == if old(self).next_temp() < u32::MAX {
                old(self).next_temp() + 1
            } else {
                old(self).next_temp()
            },
    {
        let id = self.next_temp_id;
        if self.next_temp_id < u32::MAX {
            self.next_temp_id = self.next_temp_id + 1;
        }
        id
    }

    /// The path of the file that holds the page of `key`.
    pub fn key_to_filename(&self, key: BufKey) -> (r: String)
        ensures
            r@ == file_name(key, self.data_dir_view()),
    {
        key.to_filename(self.data_dir.clone())
    }

    pub closed spec fn data_dir_view(&self) -> Seq<char> {
        self.data_dir@
    }

    /// Where the page of `key` starts in a file of `file_len` bytes, when the
    /// file holds the whole page: `NotFound` when it is shorter than
    /// `(offset + 1) * PAGE_SIZE`.
    pub fn page_start(key: &BufKey, file_len: u64) -> (r: Result<u64, ErrorKind>)
        ensures
            (key.offset + 1) * PAGE_SIZE <= file_len ==> r == Ok::<u64, ErrorKind>(
                (key.offset * PAGE_SIZE) as u64,
            ),
            (key.offset + 1) * PAGE_SIZE > file_len ==> r == Err::<u64, ErrorKind>(ErrorKind::NotFound),
    {
        let pages = file_len / (PAGE_SIZE as u64);
        if key.offset >= pages {
            proof {
                vstd::arithmetic::div_mod::lemma_fundamental_div_mod(file_len as int, PAGE_SIZE as int);
            }
            assert(file_len < (pages + 1) * PAGE_SIZE);
            assert((key.offset + 1) * PAGE_SIZE >= (pages + 1) * PAGE_SIZE) by (nonlinear_arith)
                requires
                    key.offset >= pages,
            ;
            return Err(ErrorKind::NotFound);
        }
        proof {
            vstd::arithmetic::div_mod::lemma_fundamental_div_mod(file_len as int, PAGE_SIZE as int);
        }
        assert(pages * PAGE_SIZE <= file_len);
        assert((key.offset + 1) * PAGE_SIZE <= pages * PAGE_SIZE) by (nonlinear_arith)
            requires
                key.offset < pages,
        ;
        Ok(key.byte_offset())
    }

    /// Whether a new page of `key` may be added to a file of `file_len` bytes:
    /// the file must be whole pages and the key must name the page just past
    /// its end, else `InvalidArgument`.
    pub fn check_new_page(key: &BufKey, file_len: u64) -> (r: Result<u64, ErrorKind>)
        ensures
            r.is_ok() == (file_len as int % PAGE_SIZE as int == 0 && key.offset == file_len as int / PAGE_SIZE as int),
            r.is_ok() ==> r.unwrap() == file_len,
            r.is_err() ==> r == Err::<u64, ErrorKind>(ErrorKind::InvalidArgument),
    {
        if file_len % (PAGE_SIZE as u64) != 0 || key.offset != file_len / (PAGE_SIZE as u64) {
            return Err(ErrorKind::InvalidArgument);
        }
        Ok(file_len)
    }

    /// The keys of every page in the pool.
    pub fn keys(&self) -> (r: Vec<BufKey>)
        requires
            self@.wf(),
        ensures
            forall|k: BufKey| self@.holds(k) <==> r@.contains(k),
    {
        let mut out: Vec<BufKey> = Vec::new();
        let mut i: usize = 0;
        while i < self.frames.len()
            invariant
                i <= self.frames@.len(),
                forall|j: int|
                    0 <= j < i && (#[trigger] self@.frames[j]).is_some() ==> out@.contains(
                        self@.frames[j].unwrap().key,
                    ),
                forall|m: int| 0 <= m < out@.len() ==> #[trigger] self@.held_below(out@[m], i as int),
            decreases self.frames@.len() - i,
        {
            let ghost before = out@;
            match &self.frames[i] {
                Some(f) => {
                    out.push(f.key);
                    proof {
                        assert(self@.slot_has(i as int, f.key));
                        assert forall|j: int|
                            0 <= j < i + 1 && (#[trigger] self@.frames[j]).is_some() implies out@.contains(
                                self@.frames[j].unwrap().key,
                            ) by {
                            if j < i {
                                let k = self@.frames[j].unwrap().key;
                                let m = choose|m: int| 0 <= m < before.len() && before[m] == k;
                                assert(out@[m] == k);
                            } else {
                                assert(out@[out@.len() - 1] == f.key);
                            }
                        }
                        assert forall|m: int| 0 <= m < out@.len() implies #[trigger] self@.held_below(
                            out@[m],
                            i + 1,
                        ) by {
                            if m < before.len() {
                                assert(out@[m] == before[m]);
                                assert(self@.held_below(before[m], i as int));
                                let j = choose|j: int| 0 <= j < i && #[trigger] self@.slot_has(j, before[m]);
                                assert(self@.slot_has(j, out@[m]));
                            } else {
                                assert(self@.slot_has(i as int, out@[m]));
                            }
                        }
                    }
                },
                None => {
                    proof {
                        assert forall|m: int| 0 <= m < out@.len() implies #[trigger] self@.held_below(
                            out@[m],
                            i + 1,
                        ) by {
                            assert(self@.held_below(out@[m], i as int));
                            let j = choose|j: int| 0 <= j < i && #[trigger] self@.slot_has(j, out@[m]);
                            assert(self@.slot_has(j, out@[m]));
                        }
                    }
                },
            }
            i += 1;
        }
        proof {
            assert forall|k: BufKey| self@.holds(k) <==> out@.contains(k) by {
                if self@.holds(k) {
                    let j = choose|j: int| 0 <= j < self@.frames.len() && #[trigger] self@.slot_has(j, k);
                    assert(self@.frames[j].is_some());
                }
                if out@.contains(k) {
                    let m = choose|m: int| 0 <= m < out@.len() && out@[m] == k;
                    assert(self@.held_below(out@[m], i as int));
                    let j = choose|j: int| 0 <= j < i && #[trigger] self@.slot_has(j, out@[m]);
                    assert(self@.slot_has(j, k));
                }
            }
        }
        out
    }
}

/// Every page in the pool is a well-formed slotted page: its header lies below
/// its slot array, the slot array below the free space, the free space below
/// the tuples, and its tuple count is the slot array's length in slots.
pub proof fn lemma_pool_pages_bounded(pool: PoolView, key: BufKey)
    requires
        pool.wf(),
        pool.holds(key),
    ensures
        HEADER_SIZE <= pool.page_of(key).lower <= pool.page_of(key).upper <= PAGE_SIZE,
        pool.page_of(key).count() == (pool.page_of(key).lower - HEADER_SIZE) / 4,
        pool.page_of(key).tuples().len() == pool.page_of(key).count(),
{
    let i = pool.slot_of(key);
    assert(pool.slot_has(i, key));
    assert(pool.frames[i].is_some());
}

} // verus!
