//! Relations: a file whose page 0 describes the tuples and whose pages
//! `1..=num_data_pages` hold them. Pages are reached through the buffer pool;
//! bringing a page into the pool is the caller's part.

use vstd::prelude::*;
use crate::buf_key::{BufKey, ID};
use crate::buf_mgr::{BufMgr, PoolView};
use crate::buf_page::TuplePtr;
use crate::error::ErrorKind;
use crate::log::{LogEntry, LogMgr, OpType};
use crate::data_type::Literal;
use crate::buf_key::PAGE_SIZE;
use crate::buf_mgr::FrameView;
use crate::codec::{le_bytes, le_val, read_u32_at, u32_bytes};
use crate::data_type::text_data;
use crate::text::int_text;
use crate::data_type::DataType;
use crate::tuple_desc::{field_ok, lemma_split_concat, lemma_text_field, Column, column_data, concat, parse_column, row_fields, row_ok, split_fields, views, TupleDesc};

verus! {

/// The key of data page `p` of relation `id`.
pub open spec fn data_key(id: ID, p: int) -> BufKey {
    BufKey { file_id: id, offset: p as u64, temp: false }
}

/// Whether the pool holds data pages `1..=n` of relation `id`.
pub open spec fn pages_held(pool: PoolView, id: ID, n: int) -> bool {
    forall|p: int| 1 <= p <= n ==> pool.holds(#[trigger] data_key(id, p))
}

/// The tuples of data pages `1..=n` of relation `id`, page after page, each
/// page's in slot order.
pub open spec fn rel_tuples(pool: PoolView, id: ID, n: int) -> Seq<Seq<u8>>
    decreases n,
{
    if n <= 0 {
        Seq::empty()
    } else {
        rel_tuples(pool, id, n - 1) + pool.page_of(data_key(id, n)).tuples()
    }
}

/// Pages other than `key` read the same in two pools.
pub open spec fn same_elsewhere(a: PoolView, b: PoolView, key: BufKey) -> bool {
    forall|k: BufKey|
        k != key ==> (#[trigger] a.holds(k) == b.holds(k)) && (a.holds(k) ==> a.page_of(k)
            == b.page_of(k))
}

proof fn lemma_rel_tuples_frame(a: PoolView, b: PoolView, id: ID, n: int, key: BufKey)
    requires
        same_elsewhere(a, b, key),
        pages_held(a, id, n),
        forall|p: int| 1 <= p <= n ==> data_key(id, p) != key,
    ensures
        rel_tuples(a, id, n) == rel_tuples(b, id, n),
    decreases n,
{
    if n > 0 {
        lemma_rel_tuples_frame(a, b, id, n - 1, key);
        assert(a.holds(data_key(id, n)));
    }
}

/// After a tuple `b` is appended to the last data page of a relation whose
/// pages are all in the pool, a scan yields what it yielded before, then `b`:
/// the new tuple comes out once more than it did, after all earlier ones.
pub proof fn lemma_insert_then_scan(
    before: PoolView,
    after: PoolView,
    id: ID,
    n: int,
    b: Seq<u8>,
)
    requires
        1 <= n <= u64::MAX,
        pages_held(before, id, n),
        same_elsewhere(before, after, data_key(id, n)),
        after.holds(data_key(id, n)),
        after.page_of(data_key(id, n)).tuples() == before.page_of(data_key(id, n)).tuples().push(b),
    ensures
        rel_tuples(after, id, n) == rel_tuples(before, id, n).push(b),
        pages_held(after, id, n),
        rel_tuples(after, id, n).to_multiset().count(b) == rel_tuples(before, id, n).to_multiset().count(b) + 1,
{
    assert(pages_held(before, id, n - 1));
    assert forall|p: int| 1 <= p <= n - 1 implies data_key(id, p) != data_key(id, n) by {
        assert(data_key(id, p).offset != data_key(id, n).offset);
    }
    lemma_rel_tuples_frame(before, after, id, n - 1, data_key(id, n));
    assert(rel_tuples(after, id, n) =~= rel_tuples(before, id, n).push(b));
    assert forall|p: int| 1 <= p <= n implies after.holds(#[trigger] data_key(id, p)) by {
        if p < n {
            assert(data_key(id, p).offset != data_key(id, n).offset);
            assert(before.holds(data_key(id, p)));
        }
    }
    rel_tuples(before, id, n).to_multiset_ensures();
    rel_tuples(after, id, n).to_multiset_ensures();
}

/// One insert of `x` into relation `id`, taking it from `m0` to `m1` data
/// pages: into the last page, or into a new, empty last page; only that page
/// changes, and it gains `x` last.
pub open spec fn insert_step(a: PoolView, b: PoolView, id: ID, m0: int, m1: int, x: Seq<u8>) -> bool {
    &&& 0 <= m0
    &&& 1 <= m1 <= u64::MAX
    &&& (m1 == m0 || m1 == m0 + 1)
    &&& pages_held(a, id, m1)
    &&& m1 == m0 + 1 ==> a.page_of(data_key(id, m1)).tuples().len() == 0
    &&& same_elsewhere(a, b, data_key(id, m1))
    &&& b.holds(data_key(id, m1))
    &&& b.page_of(data_key(id, m1)).tuples() == a.page_of(data_key(id, m1)).tuples().push(x)
}

proof fn lemma_insert_step(a: PoolView, b: PoolView, id: ID, m0: int, m1: int, x: Seq<u8>)
    requires
        insert_step(a, b, id, m0, m1, x),
    ensures
        rel_tuples(b, id, m1) == rel_tuples(a, id, m0).push(x),
        pages_held(b, id, m1),
{
    lemma_insert_then_scan(a, b, id, m1, x);
    if m1 == m0 + 1 {
        assert(rel_tuples(a, id, m1) =~= rel_tuples(a, id, m0));
    }
}

/// For inserts `xs` that each succeeded, one after another, the relation's
/// scan afterwards is its scan before, followed by `xs` in the order they were
/// inserted: each inserted tuple comes out once for each time it was inserted,
/// tuples of one page in slot order, pages in ascending order.
pub proof fn lemma_inserts_then_scan(
    states: Seq<PoolView>,
    pages: Seq<int>,
    id: ID,
    xs: Seq<Seq<u8>>,
)
    requires
        states.len() == xs.len() + 1,
        pages.len() == xs.len() + 1,
        forall|i: int|
            0 <= i < xs.len() ==> #[trigger] insert_step(
                states[i],
                states[i + 1],
                id,
                pages[i],
                pages[i + 1],
                xs[i],
            ),
    ensures
        rel_tuples(states.last(), id, pages.last()) == rel_tuples(states[0], id, pages[0]) + xs,
    decreases xs.len(),
{
    if xs.len() == 0 {
        assert(rel_tuples(states[0], id, pages[0]) + xs =~= rel_tuples(states[0], id, pages[0]));
    } else {
        let k = xs.len() - 1;
        assert forall|i: int| 0 <= i < xs.drop_last().len() implies #[trigger] insert_step(
            states.drop_last()[i],
            states.drop_last()[i + 1],
            id,
            pages.drop_last()[i],
            pages.drop_last()[i + 1],
            xs.drop_last()[i],
        ) by {
            assert(insert_step(states[i], states[i + 1], id, pages[i], pages[i + 1], xs[i]));
        }
        lemma_inserts_then_scan(states.drop_last(), pages.drop_last(), id, xs.drop_last());
        assert(insert_step(states[k], states[k + 1], id, pages[k], pages[k + 1], xs[k]));
        lemma_insert_step(states[k], states[k + 1], id, pages[k], pages[k + 1], xs[k]);
        assert(rel_tuples(states[0], id, pages[0]) + xs =~= (rel_tuples(states[0], id, pages[0])
            + xs.drop_last()).push(xs[k]));
    }
}

/// The descriptor page's tuples hold a column count `m` in four bytes, then
/// at least `m` more tuples, each a column's stored form.
pub open spec fn desc_page_ok(ts: Seq<Seq<u8>>) -> bool {
    &&& ts.len() >= 2
    &&& ts[0].len() == 4
    &&& le_val(ts[0]) + 1 <= ts.len()
    &&& forall|i: int| 1 <= i <= le_val(ts[0]) ==> (#[trigger] parse_column(ts[i])).is_some()
}

/// The tuples of the descriptor page of a descriptor with these columns.
pub open spec fn desc_page(cols: Seq<Seq<u8>>) -> Seq<Seq<u8>> {
    seq![le_bytes(cols.len(), 4)] + cols
}

/// The page space that tuples `ts` take, each with its slot.
pub open spec fn space_for(ts: Seq<Seq<u8>>) -> int
    decreases ts.len(),
{
    if ts.len() == 0 {
        0
    } else {
        space_for(ts.drop_last()) + ts.last().len() + 4
    }
}

proof fn lemma_space_prefix(ts: Seq<Seq<u8>>, k: int)
    requires
        0 <= k <= ts.len(),
    ensures
        space_for(ts.take(k)) <= space_for(ts),
        space_for(ts) >= 0,
    decreases ts.len(),
{
    if ts.len() > 0 {
        if k == ts.len() {
            assert(ts.take(k) =~= ts);
            lemma_space_prefix(ts.drop_last(), k - 1);
        } else {
            assert(ts.take(k) =~= ts.drop_last().take(k));
            lemma_space_prefix(ts.drop_last(), k);
        }
    }
}

/// Every column name fits its two-byte length.
pub open spec fn names_fit(cols: Seq<Column>) -> bool {
    forall|i: int| 0 <= i < cols.len() ==> vstd::utf8::encode_utf8((#[trigger] cols[i]).name@).len() <= u16::MAX
}

/// The descriptor page tuples of columns `cols`.
pub open spec fn desc_tuples(cols: Seq<Column>) -> Seq<Seq<u8>> {
    desc_page(Seq::new(cols.len(), |i: int| column_data(cols[i].name@, cols[i].kind)))
}

/// The descriptor page written for columns whose names fit is a descriptor
/// page, and reads back as those columns, in order.
pub proof fn lemma_desc_page_round_trip(cols: Seq<Column>)
    requires
        names_fit(cols),
        cols.len() <= u32::MAX,
    ensures
        desc_page_ok(desc_tuples(cols)) || cols.len() == 0,
        desc_tuples(cols)[0].len() == 4,
        le_val(desc_tuples(cols)[0]) == cols.len(),
        forall|i: int|
            0 <= i < cols.len() ==> parse_column(#[trigger] desc_tuples(cols)[i + 1]) == Some(
                (cols[i].name@, cols[i].kind),
            ),
{
    let ts = desc_tuples(cols);
    crate::codec::lemma_pow256_values();
    crate::codec::lemma_le_round_trip(cols.len(), 4);
    assert(ts[0] == le_bytes(cols.len(), 4));
    assert forall|i: int| 0 <= i < cols.len() implies parse_column(#[trigger] ts[i + 1]) == Some(
        (cols[i].name@, cols[i].kind),
    ) by {
        assert(vstd::utf8::encode_utf8(cols[i].name@).len() <= u16::MAX);
        crate::tuple_desc::lemma_column_round_trip(cols[i].name@, cols[i].kind);
        assert(ts[i + 1] == column_data(cols[i].name@, cols[i].kind));
    }
    assert forall|i: int| 1 <= i <= le_val(ts[0]) implies (#[trigger] parse_column(ts[i])).is_some() by {
        assert(parse_column(ts[(i - 1) + 1]) == Some((cols[i - 1].name@, cols[i - 1].kind)));
    }
}

/// The catalog row of a relation called `name` with identifier `id`, in a
/// catalog whose kinds are `kinds`: the name and the identifier's decimal
/// text, each stored in its column's kind.
pub open spec fn catalog_row(kinds: Seq<DataType>, name: Seq<char>, id: ID) -> Option<Seq<u8>> {
    let row = seq![name, int_text(id as int)];
    if kinds.len() == 2 && text_data(kinds[0], row[0]).is_some() && text_data(kinds[1], row[1]).is_some() {
        Some(concat(Seq::new(2, |i: int| text_data(kinds[i], row[i]).unwrap())))
    } else {
        None
    }
}

/// Pages other than `k1` and `k2` read the same in two pools.
pub open spec fn same_except2(a: PoolView, b: PoolView, k1: BufKey, k2: BufKey) -> bool {
    forall|k: BufKey|
        k != k1 && k != k2 ==> (#[trigger] a.holds(k) == b.holds(k)) && (a.holds(k) ==> a.page_of(k)
            == b.page_of(k))
}

/// After a write through the pool that changes only the page of `key`, other
/// pages read the same.
proof fn lemma_one_page_changed(a: PoolView, b: PoolView, key: BufKey, f: FrameView)
    requires
        a.wf(),
        a.holds(key),
        b.frames == a.frames.update(a.slot_of(key), Some(f)),
        f.key == key,
    ensures
        same_elsewhere(a, b, key),
        b.holds(key),
        b.slot_of(key) == a.slot_of(key),
        b.page_of(key) == f.page,
{
    let i = a.slot_of(key);
    assert(a.slot_has(i, key));
    assert(b.slot_has(i, key));
    assert forall|k: BufKey| k != key implies (#[trigger] a.holds(k) == b.holds(k)) && (a.holds(k)
        ==> a.page_of(k) == b.page_of(k)) by {
        if a.holds(k) {
            let j = a.slot_of(k);
            assert(a.slot_has(j, k));
            assert(b.slot_has(j, k));
        }
        if b.holds(k) {
            let j = b.slot_of(k);
            assert(b.slot_has(j, k));
            assert(a.slot_has(j, k));
        }
    }
    if b.slot_of(key) != i {
        let j = b.slot_of(key);
        assert(b.slot_has(j, key));
        assert(a.slot_has(j, key));
    }
}

/// A relation.
pub struct Rel {
    pub rel_id: ID,
    tuple_desc: TupleDesc,
    num_data_pages: usize,
}

impl Rel {
    pub closed spec fn id(&self) -> ID {
        self.rel_id
    }

    pub closed spec fn data_pages(&self) -> int {
        self.num_data_pages as int
    }

    pub closed spec fn desc(&self) -> TupleDesc {
        self.tuple_desc
    }

    /// A relation over an existing file.
    pub fn from_parts(rel_id: ID, tuple_desc: TupleDesc, num_data_pages: usize) -> (r: Rel)
        ensures
            r.id() == rel_id,
            r.data_pages() == num_data_pages,
            r.desc() == tuple_desc,
    {
        Rel { rel_id, tuple_desc, num_data_pages }
    }

    pub fn num_data_pages(&self) -> (r: usize)
        ensures
            r == self.data_pages(),
    {
        self.num_data_pages
    }

    /// The key of the descriptor page.
    fn meta_buf_key(&self) -> (r: BufKey)
        ensures
            r == data_key(self.id(), 0),
    {
        BufKey::new(self.rel_id, 0, false)
    }

    /// The key of the last data page, where inserts go.
    pub fn last_page_key(&self) -> (r: BufKey)
        ensures
            r == data_key(self.id(), self.data_pages() as int),
    {
        BufKey::new(self.rel_id, self.num_data_pages as u64, false)
    }

    /// Inserts a tuple into the last data page: the entry is logged first, and
    /// the page is stamped with its LSN. `InvalidData` when the bytes are not
    /// one tuple of the relation's descriptor; `NotFound` when the pool does
    /// not hold the last page; `NoSpace` when it is full, for the caller to add
    /// a page and insert again.
    pub fn write_new_tuple(&self, data: &[u8], buf_mgr: &mut BufMgr, log: &mut LogMgr) -> (r:
        Result<TuplePtr, ErrorKind>)
        requires
            old(buf_mgr)@.wf(),
            old(log)@.wf(),
            old(log)@.next_lsn < u64::MAX,
            data@.len() <= u32::MAX,
        ensures
            final(buf_mgr)@.wf(),
            final(log)@.wf(),
            split_fields(self.desc().kinds(), data@).is_none() ==> r == Err::<TuplePtr, ErrorKind>(
                ErrorKind::InvalidData,
            ),
            split_fields(self.desc().kinds(), data@).is_some() && (self.data_pages() == 0
                || !old(buf_mgr)@.holds(data_key(self.id(), self.data_pages() as int))) ==> r == Err::<
                TuplePtr,
                ErrorKind,
            >(ErrorKind::NotFound),
            split_fields(self.desc().kinds(), data@).is_some() && self.data_pages() >= 1 && old(
                buf_mgr,
            )@.holds(data_key(self.id(), self.data_pages() as int)) ==> {
                let p = old(buf_mgr)@.page_of(data_key(self.id(), self.data_pages() as int));
                &&& r.is_ok() == (data@.len() + 4 <= p.free())
                &&& r.is_err() ==> r == Err::<TuplePtr, ErrorKind>(ErrorKind::NoSpace)
            },
            r.is_err() ==> final(buf_mgr)@ == old(buf_mgr)@ && final(log)@ == old(log)@,
            r.is_ok() ==> {
                let key = data_key(self.id(), self.data_pages() as int);
                let lsn = old(log)@.next_lsn;
                &&& self.data_pages() >= 1
                &&& r.unwrap().buf_key == key
                &&& r.unwrap().buf_offset == old(buf_mgr)@.page_of(key).count()
                &&& old(buf_mgr)@.holds(key)
                &&& final(buf_mgr)@.holds(key)
                &&& same_elsewhere(old(buf_mgr)@, final(buf_mgr)@, key)
                &&& final(buf_mgr)@.page_of(key).tuples() == old(buf_mgr)@.page_of(key).tuples().push(data@)
                &&& final(buf_mgr)@.page_of(key).last_lsn >= lsn
                &&& final(log)@.next_lsn == lsn + 1
                &&& final(log)@.flushed_lsn == old(log)@.flushed_lsn
                &&& final(log)@.assigned == old(log)@.assigned.push(lsn)
                &&& final(log)@.tail.len() == old(log)@.tail.len() + 1
                &&& final(log)@.tail.take(old(log)@.tail.len() as int) == old(log)@.tail
                &&& final(log)@.tail.last().lsn == lsn
                &&& final(log)@.tail.last().buf_key == key
                &&& final(log)@.tail.last().op == OpType::InsertTuple
                &&& final(log)@.tail.last().payload@ == data@
            },
    {
        match self.tuple_desc.assert_data_len(data) {
            Ok(()) => {},
            Err(e) => {
                return Err(e);
            },
        }
        if self.num_data_pages == 0 {
            return Err(ErrorKind::NotFound);
        }
        let key = self.last_page_key();
        let free = match buf_mgr.get_page(&key) {
            Some(page) => page.upper_ptr() - page.lower_ptr(),
            None => {
                return Err(ErrorKind::NotFound);
            },
        };
        if data.len() > free || free - data.len() < 4 {
            return Err(ErrorKind::NoSpace);
        }
        let entry = log.make_entry(key, OpType::InsertTuple, vstd::slice::slice_to_vec(data));
        let lsn = entry.lsn;
        let mut batch: Vec<LogEntry> = Vec::new();
        batch.push(entry);
        log.write_entries(batch);
        assert(log@.tail.take(old(log)@.tail.len() as int) =~= old(log)@.tail);
        let slot = match buf_mgr.write_new_tuple(&key, data, lsn) {
            Ok(s) => s,
            Err(e) => {
                return Err(e);
            },
        };
        proof {
            let a = old(buf_mgr)@;
            let b = buf_mgr@;
            let i = a.slot_of(key);
            assert(a.slot_has(i, key));
            assert(b.slot_has(i, key));
            assert forall|k: BufKey| k != key implies (#[trigger] a.holds(k) == b.holds(k)) && (a.holds(k)
                ==> a.page_of(k) == b.page_of(k)) by {
                if a.holds(k) {
                    let j = a.slot_of(k);
                    assert(a.slot_has(j, k));
                    assert(j != i);
                    assert(b.slot_has(j, k));
                    assert(b.slot_of(k) == j);
                }
                if b.holds(k) {
                    let j = b.slot_of(k);
                    assert(b.slot_has(j, k));
                    assert(j != i);
                    assert(a.slot_has(j, k));
                }
            }
            assert(b.slot_of(key) == i);
        }
        Ok(TuplePtr::new(key, slot))
    }

    /// Every tuple of the relation, page after page and in slot order within a
    /// page. `NotFound` when the pool does not hold one of the data pages.
    pub fn scan(&self, buf_mgr: &BufMgr) -> (r: Result<Vec<Vec<u8>>, ErrorKind>)
        requires
            buf_mgr@.wf(),
            self.data_pages() <= u64::MAX,
        ensures
            r.is_ok() == pages_held(buf_mgr@, self.id(), self.data_pages()),
            r.is_ok() ==> views(r.unwrap()@) == rel_tuples(buf_mgr@, self.id(), self.data_pages()),
            r.is_err() ==> r == Err::<Vec<Vec<u8>>, ErrorKind>(ErrorKind::NotFound),
    {
        let ghost pool = buf_mgr@;
        let mut out: Vec<Vec<u8>> = Vec::new();
        let mut q: usize = 0;
        while q < self.num_data_pages
            invariant
                pool == buf_mgr@,
                pool.wf(),
                0 <= q <= self.data_pages(),
                self.data_pages() <= u64::MAX,
                pages_held(pool, self.id(), q as int),
                views(out@) == rel_tuples(pool, self.id(), q as int),
            decreases self.data_pages() - q,
        {
            let p = q + 1;
            let key = BufKey::new(self.rel_id, p as u64, false);
            assert(key == data_key(self.id(), p as int));
            let page = match buf_mgr.get_page(&key) {
                Some(page) => page,
                None => {
                    assert(!pages_held(pool, self.id(), self.data_pages()));
                    return Err(ErrorKind::NotFound);
                },
            };
            let ghost before = views(out@);
            let mut it = page.iter();
            let n = page.tuple_count();
            let mut k: usize = 0;
            while k < n
                invariant
                    page@.wf(),
                    it.page() == page,
                    it.key_ok(),
                    it.next_slot() == k,
                    n == page@.count(),
                    k <= n,
                    views(out@) == before + page@.tuples().take(k as int),
                decreases n - k,
            {
                let t = it.next().unwrap();
                let ghost prev = views(out@);
                out.push(vstd::slice::slice_to_vec(t));
                proof {
                    assert(views(out@) =~= prev.push(t@));
                    assert(page@.tuples().take(k + 1) =~= page@.tuples().take(k as int).push(t@));
                    assert(views(out@) =~= before + page@.tuples().take(k + 1));
                }
                k += 1;
            }
            proof {
                assert(page@.tuples().take(n as int) =~= page@.tuples());
                assert forall|q: int| 1 <= q <= p implies pool.holds(#[trigger] data_key(self.id(), q)) by {
                    if q == p {
                    }
                }
            }
            q += 1;
        }
        Ok(out)
    }

    /// The texts of the selected fields of one of this relation's tuples.
    pub fn data_to_strings(&self, data: &[u8], filter_indices: Option<Vec<usize>>) -> (r: Option<
        Vec<String>,
    >)
        ensures
            match r {
                Some(v) => crate::tuple_desc::tuple_texts(self.desc().kinds(), data@, crate::tuple_desc::indices_of(filter_indices))
                    == Some(Seq::new(v@.len(), |j: int| v@[j]@)),
                None => crate::tuple_desc::tuple_texts(self.desc().kinds(), data@, crate::tuple_desc::indices_of(filter_indices)).is_none(),
            },
    {
        self.tuple_desc.data_to_strings(data, filter_indices)
    }

    /// The tuple bytes of each row of literals, or nothing when a row does not
    /// match the descriptor.
    pub fn data_from_literal(&self, inputs: &Vec<Vec<Literal>>) -> (r: Option<Vec<Vec<u8>>>)
        ensures
            r.is_some() == forall|i: int| 0 <= i < inputs@.len() ==> #[trigger] row_ok(self.desc().kinds(), inputs@[i]@),
            r.is_some() ==> r.unwrap()@.len() == inputs@.len() && forall|i: int| 0 <= i < inputs@.len()
                ==> (#[trigger] r.unwrap()@[i])@ == concat(row_fields(self.desc().kinds(), inputs@[i]@)),
    {
        let mut out: Vec<Vec<u8>> = Vec::new();
        let mut i: usize = 0;
        while i < inputs.len()
            invariant
                i <= inputs@.len(),
                out@.len() == i,
                forall|j: int| 0 <= j < i ==> #[trigger] row_ok(self.desc().kinds(), inputs@[j]@),
                forall|j: int| 0 <= j < i ==> (#[trigger] out@[j])@ == concat(row_fields(self.desc().kinds(), inputs@[j]@)),
            decreases inputs@.len() - i,
        {
            match self.tuple_desc.encode(&inputs[i]) {
                Some(t) => {
                    out.push(t);
                },
                None => {
                    assert(!row_ok(self.desc().kinds(), inputs@[i as int]@));
                    return None;
                },
            }
            i += 1;
        }
        Some(out)
    }

    /// The relation's descriptor.
    pub fn tuple_desc(&self) -> (r: &TupleDesc)
        ensures
            *r == self.desc(),
    {
        &self.tuple_desc
    }

    /// A relation read from its descriptor page, which the pool must hold, and
    /// the length of its file: `NotFound` when the pool does not hold page 0;
    /// `InvalidData` when the page is not a descriptor page or the file is
    /// shorter than a page.
    pub fn load(rel_id: ID, buf_mgr: &BufMgr, file_len: u64) -> (r: Result<Rel, ErrorKind>)
        requires
            buf_mgr@.wf(),
        ensures
            !buf_mgr@.holds(data_key(rel_id, 0)) ==> r == Err::<Rel, ErrorKind>(ErrorKind::NotFound),
            buf_mgr@.holds(data_key(rel_id, 0)) ==> {
                let ts = buf_mgr@.page_of(data_key(rel_id, 0)).tuples();
                &&& r.is_ok() == (desc_page_ok(ts) && file_len as int >= PAGE_SIZE as int && file_len as int / PAGE_SIZE as int - 1 <= usize::MAX)
                &&& r.is_err() ==> r == Err::<Rel, ErrorKind>(ErrorKind::InvalidData)
                &&& r.is_ok() ==> {
                    let d = r.unwrap().desc();
                    &&& r.unwrap().id() == rel_id
                    &&& r.unwrap().data_pages() == file_len as int / PAGE_SIZE as int - 1
                    &&& d.kinds().len() == le_val(ts[0])
                    &&& forall|i: int| 0 <= i < d.kinds().len() ==> parse_column(#[trigger] ts[i + 1]) == Some(
                        (d.names()[i], d.kinds()[i]),
                    )
                }
            },
    {
        let key = BufKey::new(rel_id, 0, false);
        let page = match buf_mgr.get_page(&key) {
            Some(p) => p,
            None => {
                return Err(ErrorKind::NotFound);
            },
        };
        let ghost ts = page@.tuples();
        let count = page.tuple_count();
        if count < 2 {
            return Err(ErrorKind::InvalidData);
        }
        let mut it = page.iter();
        let first = it.next().unwrap();
        if first.len() != 4 {
            return Err(ErrorKind::InvalidData);
        }
        let num_attr = read_u32_at(first, 0) as usize;
        assert(first@.subrange(0, 4) =~= first@);
        if num_attr > count - 1 {
            return Err(ErrorKind::InvalidData);
        }
        let mut attr_data: Vec<Vec<u8>> = Vec::new();
        let mut i: usize = 0;
        while i < num_attr
            invariant
                page@.wf(),
                ts == page@.tuples(),
                it.page() == page,
                it.key_ok(),
                it.next_slot() == i + 1,
                num_attr + 1 <= ts.len(),
                i <= num_attr,
                attr_data@.len() == i,
                forall|j: int| 0 <= j < i ==> (#[trigger] attr_data@[j])@ == ts[j + 1],
            decreases num_attr - i,
        {
            let t = it.next().unwrap();
            attr_data.push(vstd::slice::slice_to_vec(t));
            i += 1;
        }
        let desc = match TupleDesc::from_data(&attr_data) {
            Ok(d) => d,
            Err(e) => {
                proof {
                    let j = choose|j: int| 0 <= j < attr_data@.len() && !#[trigger] parse_column(attr_data@[j]@).is_some();
                    assert(attr_data@[j]@ == ts[j + 1]);
                    assert(!parse_column(ts[j + 1]).is_some());
                }
                return Err(e);
            },
        };
        proof {
            assert forall|k: int| 1 <= k <= le_val(ts[0]) implies (#[trigger] parse_column(ts[k])).is_some() by {
                assert(attr_data@[k - 1]@ == ts[k]);
                assert(parse_column(attr_data@[k - 1]@).is_some());
            }
            assert forall|k: int| 0 <= k < desc.kinds().len() implies parse_column(#[trigger] ts[k + 1]) == Some(
                (desc.names()[k], desc.kinds()[k]),
            ) by {
                assert(attr_data@[k]@ == ts[k + 1]);
                assert(parse_column(attr_data@[k]@) == Some((desc.names()[k], desc.kinds()[k])));
            }
        }
        if file_len < PAGE_SIZE as u64 {
            return Err(ErrorKind::InvalidData);
        }
        let pages = file_len / (PAGE_SIZE as u64) - 1;
        if pages > usize::MAX as u64 {
            return Err(ErrorKind::InvalidData);
        }
        Ok(Rel { rel_id, tuple_desc: desc, num_data_pages: pages as usize })
    }

    /// Writes the descriptor page into page 0, which the pool must hold: the
    /// column count in four bytes, then each column's stored form. `NotFound`
    /// when the pool does not hold page 0; `InvalidData` when a column name is
    /// too long; `NoSpace` when the page is too small for the descriptor.
    pub fn write_new_rel(&self, buf_mgr: &mut BufMgr) -> (r: Result<(), ErrorKind>)
        requires
            old(buf_mgr)@.wf(),
        ensures
            final(buf_mgr)@.wf(),
            final(buf_mgr).next_temp() == old(buf_mgr).next_temp(),
            !old(buf_mgr)@.holds(data_key(self.id(), 0)) ==> r == Err::<(), ErrorKind>(ErrorKind::NotFound),
            old(buf_mgr)@.holds(data_key(self.id(), 0)) ==> {
                let cols = self.desc().columns@;
                &&& r.is_ok() == (names_fit(cols) && cols.len() <= u32::MAX && space_for(desc_tuples(cols))
                    <= old(buf_mgr)@.page_of(data_key(self.id(), 0)).free())
                &&& !names_fit(cols) ==> r == Err::<(), ErrorKind>(ErrorKind::InvalidData)
            },
            r.is_ok() ==> {
                let key = data_key(self.id(), 0);
                &&& old(buf_mgr)@.holds(key)
                &&& final(buf_mgr)@.holds(key)
                &&& same_elsewhere(old(buf_mgr)@, final(buf_mgr)@, key)
                &&& final(buf_mgr)@.page_of(key).tuples() == old(buf_mgr)@.page_of(key).tuples()
                    + desc_tuples(self.desc().columns@)
            },
    {
        let key = self.meta_buf_key();
        if !buf_mgr.has_buf(&key) {
            return Err(ErrorKind::NotFound);
        }
        let attrs = match self.tuple_desc.to_data() {
            Some(a) => a,
            None => {
                return Err(ErrorKind::InvalidData);
            },
        };
        let n = self.tuple_desc.num_attrs();
        if n > 0xffff_ffff {
            return Err(ErrorKind::InvalidData);
        }
        let ghost cols = self.desc().columns@;
        let ghost want = desc_tuples(cols);
        let ghost start = buf_mgr@;
        let ghost t0 = buf_mgr@.page_of(key).tuples();
        let ghost free0 = buf_mgr@.page_of(key).free();
        let head = u32_bytes(n as u32);
        let mut all: Vec<Vec<u8>> = Vec::new();
        all.push(head);
        let mut attrs = attrs;
        all.append(&mut attrs);
        proof {
            assert(views(all@) =~= want);
            assert(want.take(0) =~= Seq::<Seq<u8>>::empty());
            assert(t0 + want.take(0) =~= t0);
        }
        let mut i: usize = 0;
        while i < all.len()
            invariant
                buf_mgr@.wf(),
                buf_mgr.next_temp() == old(buf_mgr).next_temp(),
                start == old(buf_mgr)@,
                start.wf(),
                start.holds(key),
                buf_mgr@.holds(key),
                key == data_key(self.id(), 0),
                views(all@) == want,
                i <= all@.len(),
                same_elsewhere(start, buf_mgr@, key),
                buf_mgr@.page_of(key).tuples() == t0 + want.take(i as int),
                buf_mgr@.page_of(key).free() == free0 - space_for(want.take(i as int)),
                t0 == start.page_of(key).tuples(),
                free0 == start.page_of(key).free(),
                cols == self.desc().columns@,
                want == desc_tuples(cols),
                names_fit(cols),
                cols.len() <= u32::MAX,
            decreases all@.len() - i,
        {
            let ghost before = buf_mgr@;
            match buf_mgr.write_new_tuple(&key, all[i].as_slice(), 0) {
                Ok(_) => {},
                Err(e) => {
                    proof {
                        assert(all@[i as int]@ == want[i as int]);
                        assert(want.take(i + 1).drop_last() =~= want.take(i as int));
                        assert(want.take(i + 1).last() == want[i as int]);
                        assert(space_for(want.take(i + 1)) == space_for(want.take(i as int)) + want[i as int].len() + 4);
                        assert(want[i as int].len() + 4 > before.page_of(key).free());
                        lemma_space_prefix(want, i + 1);
                        assert(space_for(want) > free0);
                    }
                    return Err(e);
                },
            }
            proof {
                let j = before.slot_of(key);
                lemma_one_page_changed(before, buf_mgr@, key, buf_mgr@.frames[j].unwrap());
                assert(want.take(i + 1) =~= want.take(i as int).push(all@[i as int]@));
                assert(want.take(i + 1).drop_last() =~= want.take(i as int));
                assert(buf_mgr@.page_of(key).tuples() =~= t0 + want.take(i + 1));
                assert forall|k: BufKey| k != key implies (#[trigger] start.holds(k) == buf_mgr@.holds(k)) && (start.holds(k)
                    ==> start.page_of(k) == buf_mgr@.page_of(k)) by {
                    assert(start.holds(k) == before.holds(k));
                    assert(before.holds(k) == buf_mgr@.holds(k));
                }
            }
            i += 1;
        }
        assert(want.take(i as int) =~= want);
        proof {
            lemma_space_prefix(want, 0);
            assert(want.take(0) =~= Seq::<Seq<u8>>::empty());
        }
        Ok(())
    }

    /// The key of the data page that an insert adds when the last one is full.
    pub fn next_page_key(&self) -> (r: BufKey)
        requires
            self.data_pages() < u64::MAX,
        ensures
            r == data_key(self.id(), self.data_pages() + 1),
    {
        BufKey::new(self.rel_id, self.num_data_pages as u64 + 1, false)
    }

    /// The retry of an insert whose last page was full: the page at
    /// `next_page_key()`, which the caller has added to the file and the pool,
    /// becomes the last data page and takes the tuple. On any error nothing
    /// changes, the page count included.
    pub fn write_into_new_page(&mut self, data: &[u8], buf_mgr: &mut BufMgr, log: &mut LogMgr) -> (r:
        Result<TuplePtr, ErrorKind>)
        requires
            old(buf_mgr)@.wf(),
            old(log)@.wf(),
            old(log)@.next_lsn < u64::MAX,
            data@.len() <= u32::MAX,
            old(self).data_pages() < usize::MAX,
        ensures
            final(buf_mgr)@.wf(),
            final(log)@.wf(),
            final(self).id() == old(self).id(),
            final(self).desc() == old(self).desc(),
            ({
                let nk = data_key(old(self).id(), old(self).data_pages() + 1);
                let ok_data = split_fields(old(self).desc().kinds(), data@).is_some();
                &&& !ok_data ==> r == Err::<TuplePtr, ErrorKind>(ErrorKind::InvalidData)
                &&& ok_data && !old(buf_mgr)@.holds(nk) ==> r == Err::<TuplePtr, ErrorKind>(
                    ErrorKind::NotFound,
                )
                &&& ok_data && old(buf_mgr)@.holds(nk) ==> r.is_ok() == (data@.len() + 4 <= old(
                    buf_mgr,
                )@.page_of(nk).free())
                &&& r.is_err() ==> final(self).data_pages() == old(self).data_pages() && final(buf_mgr)@
                    == old(buf_mgr)@ && final(log)@ == old(log)@
                &&& r.is_ok() ==> {
                    &&& final(self).data_pages() == old(self).data_pages() + 1
                    &&& r.unwrap().buf_key == nk
                    &&& r.unwrap().buf_offset == old(buf_mgr)@.page_of(nk).count()
                    &&& final(buf_mgr)@.holds(nk)
                    &&& same_elsewhere(old(buf_mgr)@, final(buf_mgr)@, nk)
                    &&& final(buf_mgr)@.page_of(nk).tuples() == old(buf_mgr)@.page_of(nk).tuples().push(
                        data@,
                    )
                    &&& final(log)@.assigned == old(log)@.assigned.push(old(log)@.next_lsn)
                    &&& final(log)@.tail.take(old(log)@.tail.len() as int) == old(log)@.tail
                    &&& final(log)@.tail.len() == old(log)@.tail.len() + 1
                    &&& final(log)@.tail.last().buf_key == nk
                    &&& final(log)@.tail.last().payload@ == data@
                }
            }),
    {
        self.num_data_pages = self.num_data_pages + 1;
        let r = self.write_new_tuple(data, buf_mgr, log);
        if r.is_err() {
            self.num_data_pages = self.num_data_pages - 1;
        }
        r
    }

    /// Counts one more data page, after the caller appended it to the file.
    pub fn add_data_page(&mut self)
        requires
            old(self).data_pages() < usize::MAX,
        ensures
            final(self).data_pages() == old(self).data_pages() + 1,
            final(self).id() == old(self).id(),
            final(self).desc() == old(self).desc(),
    {
        self.num_data_pages = self.num_data_pages + 1;
    }

    /// A metadata relation with a reserved identifier: its descriptor page is
    /// written into page 0, which the pool must hold.
    pub fn new_meta_rel(rel_id: ID, tuple_desc: TupleDesc, buf_mgr: &mut BufMgr) -> (r: Result<Rel, ErrorKind>)
        requires
            old(buf_mgr)@.wf(),
        ensures
            final(buf_mgr)@.wf(),
            !old(buf_mgr)@.holds(data_key(rel_id, 0)) ==> r == Err::<Rel, ErrorKind>(ErrorKind::NotFound),
            old(buf_mgr)@.holds(data_key(rel_id, 0)) ==> r.is_ok() == (names_fit(tuple_desc.columns@)
                && tuple_desc.columns@.len() <= u32::MAX && space_for(desc_tuples(tuple_desc.columns@))
                <= old(buf_mgr)@.page_of(data_key(rel_id, 0)).free()),
            r.is_ok() ==> r.unwrap().id() == rel_id && r.unwrap().data_pages() == 1 && r.unwrap().desc()
                == tuple_desc && final(buf_mgr)@.holds(data_key(rel_id, 0)) && same_elsewhere(
                old(buf_mgr)@,
                final(buf_mgr)@,
                data_key(rel_id, 0),
            ) && final(buf_mgr)@.page_of(data_key(rel_id, 0)).tuples() == old(
                buf_mgr,
            )@.page_of(data_key(rel_id, 0)).tuples() + desc_tuples(tuple_desc.columns@),
    {
        let rel = Rel { rel_id, tuple_desc, num_data_pages: 1 };
        match rel.write_new_rel(buf_mgr) {
            Ok(()) => Ok(rel),
            Err(e) => Err(e),
        }
    }

    /// A temporary relation with a fresh identifier: its descriptor page is
    /// written into page 0 of that identifier, which the pool must hold.
    pub fn new_temp_rel(tuple_desc: TupleDesc, buf_mgr: &mut BufMgr) -> (r: Result<Rel, ErrorKind>)
        requires
            old(buf_mgr)@.wf(),
        ensures
            final(buf_mgr)@.wf(),
            ({
                let key = data_key(old(buf_mgr).next_temp() as u32, 0);
                &&& !old(buf_mgr)@.holds(key) ==> r == Err::<Rel, ErrorKind>(ErrorKind::NotFound)
                &&& old(buf_mgr)@.holds(key) ==> r.is_ok() == (names_fit(tuple_desc.columns@)
                    && tuple_desc.columns@.len() <= u32::MAX && space_for(desc_tuples(tuple_desc.columns@))
                    <= old(buf_mgr)@.page_of(key).free())
                &&& r.is_ok() ==> r.unwrap().id() == old(buf_mgr).next_temp() && r.unwrap().data_pages()
                    == 1 && r.unwrap().desc() == tuple_desc
                &&& r.is_ok() ==> final(buf_mgr)@.holds(key) && same_elsewhere(
                    old(buf_mgr)@,
                    final(buf_mgr)@,
                    key,
                ) && final(buf_mgr)@.page_of(key).tuples() == old(buf_mgr)@.page_of(key).tuples()
                    + desc_tuples(tuple_desc.columns@)
                &&& final(buf_mgr).next_temp() == if old(buf_mgr).next_temp() < u32::MAX {
                    old(buf_mgr).next_temp() + 1
                } else {
                    old(buf_mgr).next_temp()
                }
            }),
    {
        let rel_id = buf_mgr.new_temp_id();
        let rel = Rel { rel_id, tuple_desc, num_data_pages: 1 };
        match rel.write_new_rel(buf_mgr) {
            Ok(()) => Ok(rel),
            Err(e) => Err(e),
        }
    }

    /// A user relation: its descriptor page is written into page 0, and a row
    /// of its name and identifier (as text) is inserted into the last data
    /// page of the table catalog relation `table_rel`. Both pages must be in
    /// the pool. `InvalidArgument` when the catalog is the relation itself;
    /// otherwise the errors of `write_new_rel`, then of building the row
    /// (`InvalidData`), then of `write_new_tuple`.
    pub fn new(
        name: String,
        tuple_desc: TupleDesc,
        rel_id: ID,
        table_rel: &Rel,
        buf_mgr: &mut BufMgr,
        log: &mut LogMgr,
    ) -> (r: Result<Rel, ErrorKind>)
        requires
            old(buf_mgr)@.wf(),
            old(log)@.wf(),
            old(log)@.next_lsn < u64::MAX,
        ensures
            final(buf_mgr)@.wf(),
            final(log)@.wf(),
            ({
                let key0 = data_key(rel_id, 0);
                let cat = data_key(table_rel.id(), table_rel.data_pages() as int);
                let cols = tuple_desc.columns@;
                let row = catalog_row(table_rel.desc().kinds(), name@, rel_id);
                let a = old(buf_mgr)@;
                let ok = table_rel.id() != rel_id && a.holds(key0) && names_fit(cols) && cols.len()
                    <= u32::MAX && space_for(desc_tuples(cols)) <= a.page_of(key0).free() && row.is_some()
                    && row.unwrap().len() <= u32::MAX && table_rel.data_pages() >= 1 && a.holds(cat)
                    && row.unwrap().len() + 4 <= a.page_of(cat).free();
                &&& r.is_ok() == ok
                &&& table_rel.id() != rel_id && !a.holds(key0) ==> r == Err::<Rel, ErrorKind>(
                    ErrorKind::NotFound,
                )
                &&& r.is_err() ==> final(log)@ == old(log)@
                &&& r.is_ok() ==> {
                    let b = final(buf_mgr)@;
                    let lsn = old(log)@.next_lsn;
                    &&& r.unwrap().id() == rel_id
                    &&& r.unwrap().data_pages() == 1
                    &&& r.unwrap().desc() == tuple_desc
                    &&& b.holds(key0) && b.holds(cat)
                    &&& b.page_of(key0).tuples() == a.page_of(key0).tuples() + desc_tuples(cols)
                    &&& b.page_of(cat).tuples() == a.page_of(cat).tuples().push(row.unwrap())
                    &&& same_except2(a, b, key0, cat)
                    &&& final(log)@.next_lsn == lsn + 1
                    &&& final(log)@.assigned == old(log)@.assigned.push(lsn)
                    &&& final(log)@.tail.len() == old(log)@.tail.len() + 1
                    &&& final(log)@.tail.take(old(log)@.tail.len() as int) == old(log)@.tail
                    &&& final(log)@.tail.last().lsn == lsn
                    &&& final(log)@.tail.last().buf_key == cat
                    &&& final(log)@.tail.last().payload@ == row.unwrap()
                }
            }),
    {
        if table_rel.rel_id == rel_id {
            return Err(ErrorKind::InvalidArgument);
        }
        let ghost a = buf_mgr@;
        let ghost cat = data_key(table_rel.id(), table_rel.data_pages() as int);
        let ghost key0 = data_key(rel_id, 0);
        let rel = Rel { rel_id, tuple_desc, num_data_pages: 1 };
        match rel.write_new_rel(buf_mgr) {
            Ok(()) => {},
            Err(e) => {
                return Err(e);
            },
        }
        let ghost mid = buf_mgr@;
        assert(cat != key0);
        assert(mid.holds(cat) == a.holds(cat));
        assert(a.holds(cat) ==> mid.page_of(cat) == a.page_of(cat));
        let ghost name_v = name@;
        let mut row: Vec<String> = Vec::new();
        row.push(name);
        row.push(crate::text::format_u64(rel_id as u64));
        let ghost kinds = table_rel.desc().kinds();
        let ghost want = seq![name_v, int_text(rel_id as int)];
        proof {
            assert(row@[0]@ == want[0] && row@[1]@ == want[1]);
            assert(Seq::new(row@.len(), |i: int| text_data(kinds[i], row@[i]@).unwrap()) =~= Seq::new(
                2,
                |i: int| text_data(kinds[i], want[i]).unwrap(),
            ));
        }
        let entry = match table_rel.tuple_desc.create_tuple_data(&row) {
            Some(t) => t,
            None => {
                proof {
                    if kinds.len() == 2 && text_data(kinds[0], want[0]).is_some() && text_data(
                        kinds[1],
                        want[1],
                    ).is_some() {
                        assert(forall|i: int|
                            0 <= i < 2 ==> (#[trigger] text_data(kinds[i], row@[i]@)).is_some());
                    }
                }
                return Err(ErrorKind::InvalidData);
            },
        };
        proof {
            assert(text_data(kinds[0], row@[0]@).is_some());
            assert(text_data(kinds[1], row@[1]@).is_some());
            let fs = Seq::new(2, |i: int| text_data(kinds[i], want[i]).unwrap());
            assert forall|i: int| 0 <= i < kinds.len() implies field_ok(kinds[i], #[trigger] fs[i]) by {
                lemma_text_field(kinds[i], want[i]);
            }
            lemma_split_concat(kinds, fs);
            assert(entry@ == catalog_row(kinds, name_v, rel_id).unwrap());
        }
        if entry.len() > 0xffff_ffff {
            return Err(ErrorKind::InvalidData);
        }
        match table_rel.write_new_tuple(entry.as_slice(), buf_mgr, log) {
            Ok(_) => {},
            Err(e) => {
                return Err(e);
            },
        }
        proof {
            let b = buf_mgr@;
            assert forall|k: BufKey| k != key0 && k != cat implies (#[trigger] a.holds(k) == b.holds(k))
                && (a.holds(k) ==> a.page_of(k) == b.page_of(k)) by {
                assert(a.holds(k) == mid.holds(k));
                assert(mid.holds(k) == b.holds(k));
            }
            assert(b.holds(key0) == mid.holds(key0));
            assert(b.page_of(key0) == mid.page_of(key0));
        }
        Ok(rel)
    }

    /// Hands out the next free relation identifier, kept by this
    /// identifier-allocator relation as the first tuple of its first data
    /// page: the stored value is returned and replaced, under a log entry, by
    /// the one after it. `NotFound` when the pool does not hold that page;
    /// `InvalidData` when it holds no four-byte first tuple, or the
    /// identifiers are used up.
    pub fn get_new_id(&self, buf_mgr: &mut BufMgr, log: &mut LogMgr) -> (r: Result<ID, ErrorKind>)
        requires
            old(buf_mgr)@.wf(),
            old(log)@.wf(),
            old(log)@.next_lsn < u64::MAX,
        ensures
            final(buf_mgr)@.wf(),
            final(log)@.wf(),
            r.is_err() ==> final(buf_mgr)@ == old(buf_mgr)@ && final(log)@ == old(log)@,
            r.is_ok() ==> final(log)@.next_lsn == old(log)@.next_lsn + 1 && final(log)@.assigned == old(
                log,
            )@.assigned.push(old(log)@.next_lsn) && final(log)@.tail.len() == old(log)@.tail.len() + 1
                && final(log)@.tail.take(old(log)@.tail.len() as int) == old(log)@.tail
                && final(log)@.tail.last().lsn == old(log)@.next_lsn,
            ({
                let key = data_key(self.id(), 1);
                let p = old(buf_mgr)@.page_of(key);
                let ok = p.count() >= 1 && p.tuples()[0].len() == 4 && le_val(p.tuples()[0]) < u32::MAX;
                &&& !old(buf_mgr)@.holds(key) ==> r == Err::<ID, ErrorKind>(ErrorKind::NotFound)
                &&& old(buf_mgr)@.holds(key) && !ok ==> r == Err::<ID, ErrorKind>(ErrorKind::InvalidData)
                &&& old(buf_mgr)@.holds(key) && ok ==> {
                    &&& r == Ok::<ID, ErrorKind>(le_val(p.tuples()[0]) as ID)
                    &&& final(buf_mgr)@.holds(key)
                    &&& same_elsewhere(old(buf_mgr)@, final(buf_mgr)@, key)
                    &&& final(buf_mgr)@.page_of(key).tuples() == p.tuples().update(
                        0,
                        le_bytes(le_val(p.tuples()[0]) + 1, 4),
                    )
                    &&& final(log)@.tail.last().op == OpType::OverwriteTuple
                    &&& final(log)@.tail.last().buf_key == key
                    &&& final(log)@.tail.last().payload@ == le_bytes(le_val(p.tuples()[0]) + 1, 4)
                    &&& final(buf_mgr)@.page_of(key).last_lsn >= final(log)@.tail.last().lsn
                }
            }),
    {
        let key = BufKey::new(self.rel_id, 1, false);
        let current = match buf_mgr.get_page(&key) {
            Some(page) => {
                if page.tuple_count() < 1 {
                    return Err(ErrorKind::InvalidData);
                }
                let t = match page.get_tuple_data(&TuplePtr::new(key, 0)) {
                    Ok(t) => t,
                    Err(e) => {
                        return Err(e);
                    },
                };
                if t.len() != 4 {
                    return Err(ErrorKind::InvalidData);
                }
                let v = read_u32_at(t, 0);
                assert(t@.subrange(0, 4) =~= t@);
                v
            },
            None => {
                return Err(ErrorKind::NotFound);
            },
        };
        if current == u32::MAX {
            return Err(ErrorKind::InvalidData);
        }
        let next = u32_bytes(current + 1);
        let entry = log.make_entry(key, OpType::OverwriteTuple, vstd::slice::slice_to_vec(next.as_slice()));
        let lsn = entry.lsn;
        let mut batch: Vec<LogEntry> = Vec::new();
        batch.push(entry);
        proof {
            crate::codec::lemma_le_bytes_len((current + 1) as nat, 4);
        }
        log.write_entries(batch);
        assert(log@.tail.take(old(log)@.tail.len() as int) =~= old(log)@.tail);
        match buf_mgr.overwrite_tuple(&key, 0, next.as_slice(), lsn) {
            Ok(()) => {},
            Err(e) => {
                return Err(e);
            },
        }
        proof {
            let a = old(buf_mgr)@;
            let j = a.slot_of(key);
            lemma_one_page_changed(a, buf_mgr@, key, buf_mgr@.frames[j].unwrap());
        }
        Ok(current)
    }
}

} // verus!
