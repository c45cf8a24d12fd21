use vstd::prelude::*;

use crate::catalog::{column_types, ColumnType, Schema};
use crate::error::DbError;
use crate::value::{has_type, lemma_parsed_value_bytes, lemma_value_round_trip_in, parse_value_at, value_bytes, value_fits, Value, ValueView};

verus! {

/// One row: a sequence of values laid out in the order of a schema's columns.
#[derive(Debug, Clone, PartialEq, Eq)]
pub struct Tuple {
    pub values: Vec<Value>,
}

impl View for Tuple {
    type V = Seq<ValueView>;

    open spec fn view(&self) -> Seq<ValueView> {
        self.values@.map_values(|v: Value| v@)
    }
}

/// Whether every value of `vs` can be serialized.
pub open spec fn tuple_fits(vs: Seq<ValueView>) -> bool {
    forall|i: int| 0 <= i < vs.len() ==> value_fits(#[trigger] vs[i])
}

/// Whether `vs` has one value per column type of `tys`, each of that type.
pub open spec fn matches_types(vs: Seq<ValueView>, tys: Seq<ColumnType>) -> bool {
    &&& vs.len() == tys.len()
    &&& forall|i: int| 0 <= i < vs.len() ==> has_type(#[trigger] vs[i], tys[i])
}

/// The serialized form of a tuple: its values' bytes, concatenated without separators.
pub open spec fn tuple_bytes(vs: Seq<ValueView>) -> Seq<u8>
    decreases vs.len(),
{
    if vs.len() == 0 {
        Seq::empty()
    } else {
        tuple_bytes(vs.drop_last()) + value_bytes(vs.last())
    }
}

/// Reads the first `k` columns of `tys` from `b`, starting at `pos`: the values and the
/// position just after them.
pub open spec fn parse_values_at(b: Seq<u8>, pos: int, tys: Seq<ColumnType>, k: nat) -> Option<
    (Seq<ValueView>, int),
>
    decreases k,
{
    if k == 0 {
        Some((Seq::empty(), pos))
    } else {
        match parse_values_at(b, pos, tys, (k - 1) as nat) {
            None => None,
            Some((vs, p)) => match parse_value_at(b, p, tys[k - 1]) {
                None => None,
                Some((v, n)) => Some((vs.push(v), p + n)),
            },
        }
    }
}

/// Reads a tuple of column types `tys` from the start of `b`.
pub open spec fn parse_tuple(b: Seq<u8>, tys: Seq<ColumnType>) -> Option<Seq<ValueView>> {
    match parse_values_at(b, 0, tys, tys.len()) {
        Some((vs, _)) => Some(vs),
        None => None,
    }
}

/// Once reading fails, reading more columns fails too.
pub proof fn lemma_parse_values_none(b: Seq<u8>, pos: int, tys: Seq<ColumnType>, k: nat, k2: nat)
    requires
        k <= k2,
        parse_values_at(b, pos, tys, k) is None,
    ensures
        parse_values_at(b, pos, tys, k2) is None,
    decreases k2,
{
    if k < k2 {
        lemma_parse_values_none(b, pos, tys, k, (k2 - 1) as nat);
    }
}

/// The bytes of the first `k` values are a prefix of the bytes of the whole tuple.
pub proof fn lemma_tuple_bytes_prefix(vs: Seq<ValueView>, k: int)
    requires
        0 <= k <= vs.len(),
    ensures
        tuple_bytes(vs.take(k)).len() <= tuple_bytes(vs).len(),
        tuple_bytes(vs) =~= tuple_bytes(vs.take(k)) + tuple_bytes(vs).subrange(
            tuple_bytes(vs.take(k)).len() as int,
            tuple_bytes(vs).len() as int,
        ),
    decreases vs.len(),
{
    if k == vs.len() {
        assert(vs.take(k) =~= vs);
    } else {
        lemma_tuple_bytes_prefix(vs.drop_last(), k);
        assert(vs.drop_last().take(k) =~= vs.take(k));
    }
}

/// A tuple whose bytes stand in `b` at `pos` is read back from there, column by column.
pub proof fn lemma_values_round_trip_in(
    b: Seq<u8>,
    pos: int,
    vs: Seq<ValueView>,
    tys: Seq<ColumnType>,
    k: nat,
)
    requires
        matches_types(vs, tys),
        tuple_fits(vs),
        k <= vs.len(),
        0 <= pos,
        pos + tuple_bytes(vs).len() <= b.len(),
        b.subrange(pos, pos + tuple_bytes(vs).len()) == tuple_bytes(vs),
    ensures
        parse_values_at(b, pos, tys, k) == Some((vs.take(k as int), pos + tuple_bytes(vs.take(k as int)).len())),
    decreases k,
{
    if k == 0 {
        assert(vs.take(0) =~= Seq::<ValueView>::empty());
    } else {
        let k1 = (k - 1) as nat;
        lemma_values_round_trip_in(b, pos, vs, tys, k1);
        let pre = vs.take(k1 as int);
        let cur = vs.take(k as int);
        assert(cur.drop_last() =~= pre);
        let p = pos + tuple_bytes(pre).len();
        let v = vs[k - 1];
        let vb = value_bytes(v);
        assert(tuple_bytes(cur) == tuple_bytes(pre) + vb);
        lemma_tuple_bytes_prefix(vs, k as int);
        let whole = tuple_bytes(vs);
        assert forall|i: int| 0 <= i < vb.len() implies b[p + i] == vb[i] by {
            assert(b.subrange(pos, pos + whole.len())[tuple_bytes(pre).len() + i] == whole[
                tuple_bytes(pre).len() + i]);
            assert(whole[tuple_bytes(pre).len() + i] == tuple_bytes(cur)[tuple_bytes(pre).len()
                + i]);
        }
        assert(b.subrange(p, p + vb.len()) =~= vb);
        lemma_value_round_trip_in(b, p, v, tys[k - 1]);
        assert(pre.push(v) =~= cur);
    }
}

/// Serializing a tuple that matches a schema's column types and reading the bytes back
/// with those types gives the same tuple.
pub proof fn lemma_tuple_round_trip(vs: Seq<ValueView>, tys: Seq<ColumnType>)
    requires
        matches_types(vs, tys),
        tuple_fits(vs),
    ensures
        parse_tuple(tuple_bytes(vs), tys) == Some(vs),
{
    let b = tuple_bytes(vs);
    assert(b.subrange(0, b.len() as int) =~= b);
    lemma_values_round_trip_in(b, 0, vs, tys, tys.len());
    assert(vs.take(vs.len() as int) =~= vs);
}

/// Values read from `b` have the types asked for, can be serialized, and serialize to
/// exactly the bytes they were read from.
pub proof fn lemma_parsed_values_bytes(b: Seq<u8>, pos: int, tys: Seq<ColumnType>, k: nat)
    requires
        0 <= pos <= b.len(),
        k <= tys.len(),
        parse_values_at(b, pos, tys, k) is Some,
    ensures
        ({
            let (vs, end) = parse_values_at(b, pos, tys, k)->Some_0;
            &&& vs.len() == k
            &&& forall|i: int| 0 <= i < k ==> has_type(#[trigger] vs[i], tys[i])
            &&& tuple_fits(vs)
            &&& pos <= end <= b.len()
            &&& tuple_bytes(vs) == b.subrange(pos, end)
        }),
    decreases k,
{
    if k == 0 {
        assert(b.subrange(pos, pos) =~= Seq::<u8>::empty());
    } else {
        let k1 = (k - 1) as nat;
        lemma_parsed_values_bytes(b, pos, tys, k1);
        let (vs, p) = parse_values_at(b, pos, tys, k1)->Some_0;
        lemma_parsed_value_bytes(b, p, tys[k - 1]);
        let (v, n) = parse_value_at(b, p, tys[k - 1])->Some_0;
        let vs2 = vs.push(v);
        assert(vs2.drop_last() =~= vs);
        assert(tuple_bytes(vs2) =~= b.subrange(pos, p + n));
    }
}

impl Tuple {
    /// Whether the tuple has one value per column of `schema`, each of the column's type.
    pub fn matches(&self, schema: &Schema) -> (r: bool)
        ensures
            r == matches_types(self@, column_types(schema@)),
    {
        if self.values.len() != schema.columns.len() {
            return false;
        }
        let mut i: usize = 0;
        while i < self.values.len()
            invariant
                self.values@.len() == schema.columns@.len(),
                i <= self.values@.len(),
                forall|j: int| 0 <= j < i ==> has_type(#[trigger] self@[j], column_types(schema@)[j]),
            decreases self.values@.len() - i,
        {
            let ok = match (&self.values[i], &schema.columns[i].column_type) {
                (Value::Int(_), ColumnType::Int) => true,
                (Value::Varchar(_), ColumnType::Varchar) => true,
                _ => false,
            };
            assert(self@[i as int] == self.values@[i as int]@);
            assert(column_types(schema@)[i as int] == schema.columns@[i as int].column_type);
            if !ok {
                return false;
            }
            i = i + 1;
        }
        true
    }

    /// A copy of the tuple.
    pub fn duplicate(&self) -> (r: Tuple)
        ensures
            r@ == self@,
    {
        let mut values: Vec<Value> = Vec::new();
        let mut i: usize = 0;
        while i < self.values.len()
            invariant
                i <= self.values@.len(),
                values@.map_values(|v: Value| v@) == self@.take(i as int),
            decreases self.values@.len() - i,
        {
            let v = match &self.values[i] {
                Value::Int(x) => Value::Int(*x),
                Value::Varchar(s) => Value::Varchar(s.clone()),
            };
            assert(v@ == self@[i as int]);
            let ghost old_values = values@;
            values.push(v);
            assert(values@.map_values(|v: Value| v@) =~= old_values.map_values(|v: Value| v@).push(v@));
            assert(self@.take(i + 1) =~= self@.take(i as int).push(self@[i as int]));
            i = i + 1;
        }
        assert(self@.take(self@.len() as int) =~= self@);
        Tuple { values }
    }

    /// Serializes the tuple as `tuple_bytes` describes; fails with `TupleTooLarge` where a
    /// string is too long for its length prefix.
    pub fn serialize(&self) -> (r: Result<Vec<u8>, DbError>)
        ensures
            r is Ok <==> tuple_fits(self@),
            r matches Ok(b) ==> b@ == tuple_bytes(self@),
            r is Err ==> r == Err::<Vec<u8>, DbError>(DbError::TupleTooLarge),
    {
        let mut buf: Vec<u8> = Vec::new();
        let n = self.values.len();
        let mut i: usize = 0;
        while i < n
            invariant
                n == self.values@.len(),
                i <= n,
                tuple_fits(self@.take(i as int)),
                buf@ == tuple_bytes(self@.take(i as int)),
            decreases n - i,
        {
            let value = &self.values[i];
            assert(self@[i as int] == value@);
            if let Value::Varchar(s) = value {
                if s.as_str().as_bytes().len() > 0xffff_ffffusize {
                    assert(!value_fits(self@[i as int]));
                    return Err(DbError::TupleTooLarge);
                }
            }
            assert(value_fits(value@));
            assert(tuple_fits(self@.take(i + 1)));
            let bytes = value.serialize();
            buf.extend_from_slice(bytes.as_slice());
            assert(self@.take(i + 1).drop_last() =~= self@.take(i as int));
            assert(buf@ =~= tuple_bytes(self@.take(i + 1)));
            i = i + 1;
        }
        assert(self@.take(n as int) =~= self@);
        Ok(buf)
    }

    /// Reads a tuple of `schema` from the start of `data`.
    pub fn deserialize(data: &[u8], schema: &Schema) -> (r: Result<Tuple, DbError>)
        ensures
            match parse_tuple(data@, column_types(schema@)) {
                Some(vs) => r matches Ok(t) && t@ == vs,
                None => r == Err::<Tuple, DbError>(DbError::Corruption),
            },
    {
        match Self::deserialize_at(data, 0, schema) {
            Ok((t, _)) => Ok(t),
            Err(e) => Err(e),
        }
    }

    /// Reads a tuple of `schema` from `data` at `pos`: the tuple and the position just
    /// after it.
    pub(crate) fn deserialize_at(data: &[u8], pos: usize, schema: &Schema) -> (r: Result<
        (Tuple, usize),
        DbError,
    >)
        ensures
            match parse_values_at(
                data@,
                pos as int,
                column_types(schema@),
                schema@.len(),
            ) {
                Some((vs, end)) => r matches Ok((t, e)) && t@ == vs && e == end,
                None => r == Err::<(Tuple, usize), DbError>(DbError::Corruption),
            },
    {
        let ghost tys = column_types(schema@);
        let n = schema.columns.len();
        let mut values: Vec<Value> = Vec::new();
        let mut p: usize = pos;
        let mut i: usize = 0;
        let dlen = data.len();
        while i < n
            invariant
                n == schema.columns@.len(),
                dlen == data@.len(),
                tys == column_types(schema@),
                i <= n,
                parse_values_at(data@, pos as int, tys, i as nat) == Some(
                    (values@.map_values(|v: Value| v@), p as int),
                ),
            decreases n - i,
        {
            assert(tys[i as int] == schema.columns@[i as int].column_type);
            match Value::deserialize_at(data, p, &schema.columns[i].column_type) {
                Ok((v, size)) => {
                    assert(parse_value_at(data@, p as int, tys[i as int]) is Some);
                    assert(p + size <= data@.len());
                    let ghost old_values = values@;
                    values.push(v);
                    assert(values@.map_values(|v: Value| v@) =~= old_values.map_values(
                        |v: Value| v@,
                    ).push(v@));
                    p = p + size;
                },
                Err(e) => {
                    proof {
                        lemma_parse_values_none(data@, pos as int, tys, (i + 1) as nat, n as nat);
                    }
                    return Err(e);
                },
            }
            i = i + 1;
        }
        Ok((Tuple { values }, p))
    }
}

} // verus!
