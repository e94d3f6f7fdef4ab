//! Tuple descriptors: the ordered columns of a relation, and how a row of
//! values becomes the bytes of a tuple and back.

use vstd::prelude::*;
use crate::codec::{le_val, lemma_le_round_trip, lemma_pow256_values};
use crate::codec::{le_bytes, read_u16_at};
use crate::data_type::{
    data_text, lemma_int_data_round_trip, literal_data, size_of_data, text_data, type_of_tag,
    type_tag, varchar_data, DataType, Literal,
};
use crate::error::ErrorKind;
use crate::text::from_utf8;

verus! {

/// The ordered columns of a relation.
pub struct TupleDesc {
    pub columns: Vec<Column>,
}

/// A named column of a given kind.
pub struct Column {
    pub name: String,
    pub kind: DataType,
}

/// The byte strings `fs`, one after the other.
pub open spec fn concat(fs: Seq<Seq<u8>>) -> Seq<u8>
    decreases fs.len(),
{
    if fs.len() == 0 {
        Seq::empty()
    } else {
        fs[0] + concat(fs.drop_first())
    }
}

/// The fields of a tuple of kinds `kinds`, when its bytes `b` are exactly one
/// value of each kind in order.
pub open spec fn split_fields(kinds: Seq<DataType>, b: Seq<u8>) -> Option<Seq<Seq<u8>>>
    decreases kinds.len(),
{
    if kinds.len() == 0 {
        if b.len() == 0 {
            Some(Seq::empty())
        } else {
            None
        }
    } else {
        match size_of_data(kinds[0], Some(b)) {
            Some(n) => if n <= b.len() {
                match split_fields(kinds.drop_first(), b.skip(n as int)) {
                    Some(rest) => Some(seq![b.take(n as int)] + rest),
                    None => None,
                }
            } else {
                None
            },
            None => None,
        }
    }
}

/// Whether every value of a row has bytes in the kind of its column.
pub open spec fn row_ok(kinds: Seq<DataType>, vals: Seq<Literal>) -> bool {
    kinds.len() == vals.len() && forall|i: int|
        0 <= i < kinds.len() ==> (#[trigger] literal_data(kinds[i], vals[i])).is_some()
}

/// The field bytes of a row of values.
pub open spec fn row_fields(kinds: Seq<DataType>, vals: Seq<Literal>) -> Seq<Seq<u8>> {
    Seq::new(kinds.len(), |i: int| literal_data(kinds[i], vals[i]).unwrap())
}

/// `b` is one value of kind `t`: its size, read from any bytes that start with
/// it, is its length.
pub open spec fn field_ok(t: DataType, b: Seq<u8>) -> bool {
    forall|rest: Seq<u8>| #[trigger] size_of_data(t, Some(b + rest)) == Some(b.len())
}

pub proof fn lemma_concat_push(fs: Seq<Seq<u8>>, x: Seq<u8>)
    ensures
        concat(fs.push(x)) == concat(fs) + x,
    decreases fs.len(),
{
    if fs.len() == 0 {
        assert(fs.push(x).drop_first() =~= Seq::<Seq<u8>>::empty());
        assert(concat(Seq::<Seq<u8>>::empty()) =~= Seq::<u8>::empty());
        assert(fs.push(x)[0] == x);
        assert(concat(fs.push(x)) =~= x);
    } else {
        assert(fs.push(x).drop_first() =~= fs.drop_first().push(x));
        lemma_concat_push(fs.drop_first(), x);
        assert(concat(fs.push(x)) =~= concat(fs) + x);
    }
}

/// The bytes of a literal in its kind are one value of that kind.
pub proof fn lemma_literal_field(t: DataType, lit: Literal)
    requires
        literal_data(t, lit).is_some(),
    ensures
        field_ok(t, literal_data(t, lit).unwrap()),
{
    let b = literal_data(t, lit).unwrap();
    lemma_pow256_values();
    assert forall|rest: Seq<u8>| #[trigger] size_of_data(t, Some(b + rest)) == Some(b.len()) by {
        match lit {
            Literal::Integer(v) => {
                lemma_int_data_round_trip(t, v as int);
            },
            Literal::String(s) => {
                if t is VarChar {
                    let e = vstd::utf8::encode_utf8(s@);
                    lemma_le_round_trip(e.len(), 2);
                    assert((b + rest).take(2) =~= b.take(2));
                    assert(b.take(2) =~= crate::codec::le_bytes(e.len(), 2));
                }
            },
            _ => {},
        }
    }
}

/// The bytes of a text in its kind are one value of that kind.
pub proof fn lemma_text_field(t: DataType, s: Seq<char>)
    requires
        text_data(t, s).is_some(),
    ensures
        field_ok(t, text_data(t, s).unwrap()),
{
    let b = text_data(t, s).unwrap();
    lemma_pow256_values();
    assert forall|rest: Seq<u8>| #[trigger] size_of_data(t, Some(b + rest)) == Some(b.len()) by {
        if t is VarChar {
            let e = vstd::utf8::encode_utf8(s);
            lemma_le_round_trip(e.len(), 2);
            assert((b + rest).take(2) =~= b.take(2));
            assert(b.take(2) =~= le_bytes(e.len(), 2));
        } else if !(t is Char) {
            let v = crate::data_type::parse_int(t, s).unwrap();
            lemma_int_data_round_trip(t, v);
        }
    }
}

/// Fields that are each one value of their column's kind split back out of
/// their concatenation.
pub proof fn lemma_split_concat(kinds: Seq<DataType>, fs: Seq<Seq<u8>>)
    requires
        kinds.len() == fs.len(),
        forall|i: int| 0 <= i < kinds.len() ==> field_ok(kinds[i], #[trigger] fs[i]),
    ensures
        split_fields(kinds, concat(fs)) == Some(fs),
    decreases kinds.len(),
{
    if kinds.len() == 0 {
        assert(fs =~= Seq::<Seq<u8>>::empty());
    } else {
        let b = concat(fs);
        let rest = concat(fs.drop_first());
        assert(field_ok(kinds[0], fs[0]));
        assert(size_of_data(kinds[0], Some(fs[0] + rest)) == Some(fs[0].len()));
        assert forall|i: int| 0 <= i < kinds.drop_first().len() implies field_ok(
            kinds.drop_first()[i],
            #[trigger] fs.drop_first()[i],
        ) by {
            assert(field_ok(kinds[i + 1], fs[i + 1]));
        }
        lemma_split_concat(kinds.drop_first(), fs.drop_first());
        assert(b.skip(fs[0].len() as int) =~= rest);
        assert(b.take(fs[0].len() as int) =~= fs[0]);
        assert(seq![fs[0]] + fs.drop_first() =~= fs);
    }
}

pub proof fn lemma_split_len(kinds: Seq<DataType>, b: Seq<u8>)
    ensures
        split_fields(kinds, b).is_some() ==> split_fields(kinds, b).unwrap().len() == kinds.len(),
    decreases kinds.len(),
{
    if kinds.len() > 0 {
        match size_of_data(kinds[0], Some(b)) {
            Some(n) => if n <= b.len() {
                lemma_split_len(kinds.drop_first(), b.skip(n as int));
            },
            None => {},
        }
    }
}

/// For every descriptor and every row of values that matches it: splitting the
/// encoded tuple gives back each value's bytes, byte for byte.
pub proof fn lemma_encode_decode(kinds: Seq<DataType>, vals: Seq<Literal>)
    requires
        row_ok(kinds, vals),
    ensures
        split_fields(kinds, concat(row_fields(kinds, vals))) == Some(row_fields(kinds, vals)),
{
    let fs = row_fields(kinds, vals);
    assert forall|i: int| 0 <= i < kinds.len() implies field_ok(kinds[i], #[trigger] fs[i]) by {
        assert(literal_data(kinds[i], vals[i]).is_some());
        lemma_literal_field(kinds[i], vals[i]);
    }
    lemma_split_concat(kinds, fs);
}

pub open spec fn indices_of(v: Option<Vec<usize>>) -> Option<Seq<int>> {
    match v {
        Some(v) => Some(Seq::new(v@.len(), |j: int| v@[j] as int)),
        None => None,
    }
}

pub open spec fn views(v: Seq<Vec<u8>>) -> Seq<Seq<u8>> {
    Seq::new(v.len(), |i: int| v[i]@)
}

pub open spec fn kinds_of(cols: Seq<Column>) -> Seq<DataType> {
    Seq::new(cols.len(), |i: int| cols[i].kind)
}

pub open spec fn prepend(pre: Seq<Seq<u8>>, o: Option<Seq<Seq<u8>>>) -> Option<Seq<Seq<u8>>> {
    match o {
        Some(r) => Some(pre + r),
        None => None,
    }
}

/// The texts of the fields at `idx`, when each index names a field and each of
/// those fields reads as text.
pub open spec fn field_texts(kinds: Seq<DataType>, fs: Seq<Seq<u8>>, idx: Seq<int>) -> Option<
    Seq<Seq<char>>,
> {
    if forall|j: int|
        0 <= j < idx.len() ==> 0 <= #[trigger] idx[j] < fs.len() && idx[j] < kinds.len()
            && data_text(kinds[idx[j]], fs[idx[j]]).is_some() {
        Some(Seq::new(idx.len(), |j: int| data_text(kinds[idx[j]], fs[idx[j]]).unwrap()))
    } else {
        None
    }
}

/// What `data_to_strings` gives: the texts of the selected fields (all of them
/// when no selection is given) of a tuple that splits into fields.
pub open spec fn tuple_texts(kinds: Seq<DataType>, b: Seq<u8>, idx: Option<Seq<int>>) -> Option<
    Seq<Seq<char>>,
> {
    match split_fields(kinds, b) {
        Some(fs) => field_texts(
            kinds,
            fs,
            match idx {
                Some(s) => s,
                None => Seq::new(kinds.len(), |j: int| j),
            },
        ),
        None => None,
    }
}

/// The stored form of a column on the descriptor page: its name with a
/// two-byte length, then the kind's tag.
pub open spec fn column_data(name: Seq<char>, kind: DataType) -> Seq<u8> {
    varchar_data(vstd::utf8::encode_utf8(name)) + le_bytes(type_tag(kind), 2)
}

/// The name and kind that a column's stored form holds.
pub open spec fn parse_column(b: Seq<u8>) -> Option<(Seq<char>, DataType)> {
    if b.len() < 2 {
        None
    } else {
        let n = le_val(b.take(2)) as int;
        if b.len() != n + 4 || !vstd::utf8::valid_utf8(b.subrange(2, 2 + n)) {
            None
        } else {
            match type_of_tag(le_val(b.subrange(2 + n, 4 + n))) {
                Some(k) => Some((vstd::utf8::decode_utf8(b.subrange(2, 2 + n)), k)),
                None => None,
            }
        }
    }
}

/// A column's stored form reads back as its name and kind, whenever the
/// name's bytes fit their two-byte length.
pub proof fn lemma_column_round_trip(name: Seq<char>, kind: DataType)
    requires
        vstd::utf8::encode_utf8(name).len() <= u16::MAX,
    ensures
        parse_column(column_data(name, kind)) == Some((name, kind)),
{
    let e = vstd::utf8::encode_utf8(name);
    let n = e.len() as int;
    let b = column_data(name, kind);
    lemma_pow256_values();
    lemma_le_round_trip(e.len(), 2);
    lemma_le_round_trip(type_tag(kind), 2);
    vstd::utf8::encode_utf8_valid_utf8(name);
    vstd::utf8::encode_utf8_decode_utf8(name);
    assert(b.take(2) =~= le_bytes(e.len(), 2));
    assert(b.subrange(2, 2 + n) =~= e);
    assert(b.subrange(2 + n, 4 + n) =~= le_bytes(type_tag(kind), 2));
}

impl TupleDesc {
    pub open spec fn kinds(&self) -> Seq<DataType> {
        kinds_of(self.columns@)
    }

    pub open spec fn names(&self) -> Seq<Seq<char>> {
        Seq::new(self.columns@.len(), |i: int| self.columns@[i].name@)
    }

    /// A descriptor of the given columns, in order.
    pub fn new(columns: &Vec<Column>) -> (r: TupleDesc)
        ensures
            r.kinds() == kinds_of(columns@),
            r.names() == Seq::new(columns@.len(), |i: int| columns@[i].name@),
    {
        let mut cols: Vec<Column> = Vec::new();
        let mut i: usize = 0;
        while i < columns.len()
            invariant
                i <= columns@.len(),
                cols@.len() == i,
                forall|j: int| 0 <= j < i ==> (#[trigger] cols@[j]).kind == columns@[j].kind
                    && cols@[j].name@ == columns@[j].name@,
            decreases columns@.len() - i,
        {
            let c = &columns[i];
            cols.push(Column { name: c.name.clone(), kind: c.kind });
            i += 1;
        }
        let r = TupleDesc { columns: cols };
        assert(r.kinds() =~= kinds_of(columns@));
        assert(r.names() =~= Seq::new(columns@.len(), |i: int| columns@[i].name@));
        r
    }

    /// The number of columns.
    pub fn num_attrs(&self) -> (r: usize)
        ensures
            r == self.kinds().len(),
            r == self.columns@.len(),
    {
        self.columns.len()
    }

    /// The tuple bytes of a row of literals: each value in its column's kind,
    /// one after the other; nothing when the row does not match.
    pub fn encode(&self, values: &Vec<Literal>) -> (r: Option<Vec<u8>>)
        ensures
            r.is_some() == row_ok(self.kinds(), values@),
            r.is_some() ==> r.unwrap()@ == concat(row_fields(self.kinds(), values@)),
    {
        let ghost kinds = self.kinds();
        if values.len() != self.columns.len() {
            return None;
        }
        let mut out: Vec<u8> = Vec::new();
        let mut i: usize = 0;
        while i < values.len()
            invariant
                kinds == self.kinds(),
                values@.len() == kinds.len(),
                i <= values@.len(),
                forall|j: int| 0 <= j < i ==> (#[trigger] literal_data(kinds[j], values@[j])).is_some(),
                out@ == concat(Seq::new(i as nat, |j: int| literal_data(kinds[j], values@[j]).unwrap())),
            decreases values@.len() - i,
        {
            assert(kinds[i as int] == self.columns@[i as int].kind);
            match self.columns[i].kind.data_from_literal(&values[i]) {
                Some(d) => {
                    let mut d = d;
                    let ghost dv = d@;
                    out.append(&mut d);
                    proof {
                        let f = |j: int| literal_data(kinds[j], values@[j]).unwrap();
                        lemma_concat_push(Seq::new(i as nat, f), dv);
                        assert(Seq::new(i as nat, f).push(dv) =~= Seq::new((i + 1) as nat, f));
                    }
                },
                None => {
                    assert(literal_data(kinds[i as int], values@[i as int]).is_none());
                    return None;
                },
            }
            i += 1;
        }
        proof {
            assert(Seq::new(i as nat, |j: int| literal_data(kinds[j], values@[j]).unwrap())
                =~= row_fields(kinds, values@));
        }
        Some(out)
    }

    /// The tuple bytes of a row given as texts; nothing when a text does not
    /// denote a value of its column's kind.
    pub fn create_tuple_data(&self, values: &Vec<String>) -> (r: Option<Vec<u8>>)
        ensures
            r.is_some() == (values@.len() == self.kinds().len() && forall|i: int|
                0 <= i < values@.len() ==> (#[trigger] text_data(self.kinds()[i], values@[i]@)).is_some()),
            r.is_some() ==> r.unwrap()@ == concat(
                Seq::new(values@.len(), |i: int| text_data(self.kinds()[i], values@[i]@).unwrap()),
            ),
    {
        let ghost kinds = self.kinds();
        if values.len() != self.columns.len() {
            return None;
        }
        let mut out: Vec<u8> = Vec::new();
        let mut i: usize = 0;
        while i < values.len()
            invariant
                kinds == self.kinds(),
                values@.len() == kinds.len(),
                i <= values@.len(),
                forall|j: int| 0 <= j < i ==> (#[trigger] text_data(kinds[j], values@[j]@)).is_some(),
                out@ == concat(Seq::new(i as nat, |j: int| text_data(kinds[j], values@[j]@).unwrap())),
            decreases values@.len() - i,
        {
            assert(kinds[i as int] == self.columns@[i as int].kind);
            match self.columns[i].kind.string_to_data(values[i].as_str()) {
                Some(d) => {
                    let mut d = d;
                    let ghost dv = d@;
                    out.append(&mut d);
                    proof {
                        let f = |j: int| text_data(kinds[j], values@[j]@).unwrap();
                        lemma_concat_push(Seq::new(i as nat, f), dv);
                        assert(Seq::new(i as nat, f).push(dv) =~= Seq::new((i + 1) as nat, f));
                    }
                },
                None => {
                    assert(text_data(kinds[i as int], values@[i as int]@).is_none());
                    return None;
                },
            }
            i += 1;
        }
        Some(out)
    }

    /// The fields of a tuple: for a fixed kind its size, for `VarChar` its
    /// length prefix and its bytes; nothing when the bytes run short or are
    /// left over.
    pub fn decode_fields(&self, bytes: &[u8]) -> (r: Option<Vec<Vec<u8>>>)
        ensures
            match r {
                Some(v) => split_fields(self.kinds(), bytes@) == Some(views(v@)),
                None => split_fields(self.kinds(), bytes@).is_none(),
            },
    {
        let ghost kinds = self.kinds();
        let ghost b = bytes@;
        let n = self.columns.len();
        let mut out: Vec<Vec<u8>> = Vec::new();
        let mut pos: usize = 0;
        let mut i: usize = 0;
        assert(kinds.skip(0) =~= kinds);
        assert(b.skip(0) =~= b);
        assert(views(out@) =~= Seq::<Seq<u8>>::empty());
        proof {
            match split_fields(kinds, b) {
                Some(r0) => {
                    assert(Seq::<Seq<u8>>::empty() + r0 =~= r0);
                },
                None => {},
            }
        }
        while i < n
            invariant
                kinds == self.kinds(),
                b == bytes@,
                n == kinds.len(),
                i <= n,
                pos <= b.len(),
                split_fields(kinds, b) == prepend(views(out@), split_fields(kinds.skip(i as int), b.skip(pos as int))),
            decreases n - i,
        {
            let rest = vstd::slice::slice_subrange(bytes, pos, bytes.len());
            assert(rest@ =~= b.skip(pos as int));
            let ghost ks = kinds.skip(i as int);
            assert(ks[0] == kinds[i as int]);
            assert(kinds[i as int] == self.columns@[i as int].kind);
            assert(ks.drop_first() =~= kinds.skip(i + 1));
            match self.columns[i].kind.data_size(Some(rest)) {
                Some(sz) => {
                    if sz > bytes.len() - pos {
                        return None;
                    }
                    let field = vstd::slice::slice_to_vec(vstd::slice::slice_subrange(bytes, pos, pos + sz));
                    let ghost before = out@;
                    out.push(field);
                    proof {
                        assert(b.skip(pos as int).skip(sz as int) =~= b.skip(pos + sz));
                        assert(b.skip(pos as int).take(sz as int) =~= field@);
                        assert(views(out@) =~= views(before) + seq![field@]);
                        match split_fields(kinds.skip(i + 1), b.skip(pos + sz)) {
                            Some(r2) => {
                                assert(views(before) + (seq![field@] + r2) =~= views(out@) + r2);
                            },
                            None => {},
                        }
                    }
                    pos = pos + sz;
                },
                None => {
                    return None;
                },
            }
            i += 1;
        }
        assert(kinds.skip(n as int) =~= Seq::<DataType>::empty());
        if pos != bytes.len() {
            return None;
        }
        assert(views(out@) + Seq::<Seq<u8>>::empty() =~= views(out@));
        Some(out)
    }

    /// Checks that `bytes` are exactly one tuple of this descriptor:
    /// `InvalidData` otherwise.
    pub fn assert_data_len(&self, bytes: &[u8]) -> (r: Result<(), ErrorKind>)
        ensures
            r.is_ok() == split_fields(self.kinds(), bytes@).is_some(),
            r.is_err() ==> r == Err::<(), ErrorKind>(ErrorKind::InvalidData),
    {
        match self.decode_fields(bytes) {
            Some(_) => Ok(()),
            None => Err(ErrorKind::InvalidData),
        }
    }

    /// The texts of the selected fields of a tuple (all of them when
    /// `filter_indices` is `None`); nothing when the tuple does not split into
    /// fields, an index names no field, or a field does not read as text.
    pub fn data_to_strings(&self, data: &[u8], filter_indices: Option<Vec<usize>>) -> (r: Option<
        Vec<String>,
    >)
        ensures
            ({
                let idx = indices_of(filter_indices);
                match r {
                    Some(v) => tuple_texts(self.kinds(), data@, idx) == Some(
                        Seq::new(v@.len(), |j: int| v@[j]@),
                    ),
                    None => tuple_texts(self.kinds(), data@, idx).is_none(),
                }
            }),
    {
        let ghost kinds = self.kinds();
        let fields = match self.decode_fields(data) {
            Some(f) => f,
            None => {
                return None;
            },
        };
        let ghost fs = views(fields@);
        proof {
            lemma_split_len(kinds, data@);
        }
        let n = self.columns.len();
        let ghost sel = match indices_of(filter_indices) {
            Some(s) => s,
            None => Seq::new(kinds.len(), |j: int| j),
        };
        let idx: Vec<usize> = match filter_indices {
            Some(v) => v,
            None => {
                let mut all: Vec<usize> = Vec::new();
                let mut k: usize = 0;
                while k < n
                    invariant
                        k <= n,
                        all@.len() == k,
                        forall|j: int| 0 <= j < k ==> all@[j] == j,
                    decreases n - k,
                {
                    all.push(k);
                    k += 1;
                }
                all
            },
        };
        let ghost want = Seq::new(idx@.len(), |j: int| idx@[j] as int);
        assert(want =~= sel);
        assert(tuple_texts(kinds, data@, indices_of(filter_indices)) == field_texts(kinds, fs, sel));
        let mut out: Vec<String> = Vec::new();
        let mut j: usize = 0;
        while j < idx.len()
            invariant
                kinds == self.kinds(),
                fs == views(fields@),
                fs.len() == kinds.len(),
                n == kinds.len(),
                want == Seq::new(idx@.len(), |j: int| idx@[j] as int),
                want == sel,
                split_fields(kinds, data@) == Some(fs),
                tuple_texts(kinds, data@, indices_of(filter_indices)) == field_texts(kinds, fs, sel),
                j <= idx@.len(),
                out@.len() == j,
                forall|k: int|
                    0 <= k < j ==> 0 <= #[trigger] want[k] < fs.len() && data_text(kinds[want[k]], fs[want[k]])
                        == Some(out@[k]@),
            decreases idx@.len() - j,
        {
            let k = idx[j];
            if k >= n {
                proof {
                    assert(!(0 <= want[j as int] < fs.len()));
                    assert(field_texts(kinds, fs, sel).is_none());
                    assert(tuple_texts(kinds, data@, indices_of(filter_indices)) == field_texts(kinds, fs, sel));
                }
                return None;
            }
            assert(kinds[k as int] == self.columns@[k as int].kind);
            assert(fs[k as int] == fields@[k as int]@);
            match self.columns[k].kind.data_to_string(fields[k].as_slice()) {
                Some(s) => {
                    out.push(s);
                },
                None => {
                    proof {
                        assert(data_text(kinds[want[j as int]], fs[want[j as int]]).is_none());
                        assert(field_texts(kinds, fs, sel).is_none());
                        assert(tuple_texts(kinds, data@, indices_of(filter_indices)) == field_texts(kinds, fs, sel));
                    }
                    return None;
                },
            }
            j += 1;
        }
        assert(Seq::new(out@.len(), |k: int| out@[k]@) =~= Seq::new(
            want.len(),
            |k: int| data_text(kinds[want[k]], fs[want[k]]).unwrap(),
        ));
        Some(out)
    }

    /// The stored form of each column, for the descriptor page; nothing when a
    /// name is too long for its two-byte length.
    pub fn to_data(&self) -> (r: Option<Vec<Vec<u8>>>)
        ensures
            r.is_some() == forall|i: int|
                0 <= i < self.columns@.len() ==> vstd::utf8::encode_utf8(
                    (#[trigger] self.columns@[i]).name@,
                ).len() <= u16::MAX,
            r.is_some() ==> views(r.unwrap()@) == Seq::new(
                self.columns@.len(),
                |i: int| column_data(self.columns@[i].name@, self.columns@[i].kind),
            ),
    {
        let mut out: Vec<Vec<u8>> = Vec::new();
        let mut i: usize = 0;
        while i < self.columns.len()
            invariant
                i <= self.columns@.len(),
                out@.len() == i,
                forall|j: int|
                    0 <= j < i ==> vstd::utf8::encode_utf8((#[trigger] self.columns@[j]).name@).len()
                        <= u16::MAX,
                forall|j: int|
                    0 <= j < i ==> (#[trigger] out@[j])@ == column_data(self.columns@[j].name@, self.columns@[j].kind),
            decreases self.columns@.len() - i,
        {
            let c = &self.columns[i];
            let mut d = match DataType::VarChar.string_to_data(c.name.as_str()) {
                Some(d) => d,
                None => {
                    return None;
                },
            };
            let mut tag = c.kind.to_data();
            d.append(&mut tag);
            out.push(d);
            i += 1;
        }
        proof {
            assert(views(out@) =~= Seq::new(
                self.columns@.len(),
                |i: int| column_data(self.columns@[i].name@, self.columns@[i].kind),
            ));
        }
        Some(out)
    }

    /// A descriptor read from the stored forms of its columns: `InvalidData`
    /// when one is not a length-prefixed UTF-8 name followed by a known tag.
    pub fn from_data(attr_data: &Vec<Vec<u8>>) -> (r: Result<TupleDesc, ErrorKind>)
        ensures
            r.is_ok() == forall|i: int| 0 <= i < attr_data@.len() ==> #[trigger] parse_column(attr_data@[i]@).is_some(),
            r.is_ok() ==> {
                let d = r.unwrap();
                &&& d.kinds().len() == attr_data@.len()
                &&& forall|i: int| 0 <= i < attr_data@.len() ==> parse_column(#[trigger] attr_data@[i]@) == Some(
                    (d.names()[i], d.kinds()[i]),
                )
            },
            r.is_err() ==> r == Err::<TupleDesc, ErrorKind>(ErrorKind::InvalidData),
    {
        let mut cols: Vec<Column> = Vec::new();
        let mut i: usize = 0;
        while i < attr_data.len()
            invariant
                i <= attr_data@.len(),
                cols@.len() == i,
                forall|j: int| 0 <= j < i ==> parse_column(#[trigger] attr_data@[j]@) == Some(
                    (cols@[j].name@, cols@[j].kind),
                ),
            decreases attr_data@.len() - i,
        {
            let b = attr_data[i].as_slice();
            if b.len() < 2 {
                return Err(ErrorKind::InvalidData);
            }
            let n = read_u16_at(b, 0) as usize;
            assert(b@.take(2) =~= b@.subrange(0, 2));
            if b.len() - 2 < n || b.len() - 2 - n != 2 {
                return Err(ErrorKind::InvalidData);
            }
            let name_bytes = vstd::slice::slice_to_vec(vstd::slice::slice_subrange(b, 2, 2 + n));
            let name = match from_utf8(name_bytes) {
                Some(s) => s,
                None => {
                    return Err(ErrorKind::InvalidData);
                },
            };
            proof {
                assert(b@.subrange(2 + n, 4 + n).take(2) =~= b@.subrange(2 + n, 4 + n));
            }
            let kind = match DataType::from_data(vstd::slice::slice_to_vec(vstd::slice::slice_subrange(b, 2 + n, 4 + n))) {
                Ok((k, _)) => k,
                Err(e) => {
                    return Err(e);
                },
            };
            proof {
                assert(b@.subrange(2 + n, 4 + n).take(2) =~= b@.subrange(2 + n, 4 + n));
            }
            cols.push(Column { name, kind });
            i += 1;
        }
        let d = TupleDesc { columns: cols };
        proof {
            assert forall|j: int| 0 <= j < attr_data@.len() implies parse_column(#[trigger] attr_data@[j]@) == Some(
                (d.names()[j], d.kinds()[j]),
            ) by {
                assert(parse_column(attr_data@[j]@) == Some((cols@[j].name@, cols@[j].kind)));
            }
        }
        Ok(d)
    }
}

} // verus!
