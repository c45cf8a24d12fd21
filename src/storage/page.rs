use vstd::prelude::*;

use crate::catalog::{column_types, ColumnType, Schema};
use crate::disk::PAGE_SIZE;
use crate::error::DbError;
use crate::storage::tuple::{
    lemma_parse_values_none, lemma_parsed_values_bytes, lemma_values_round_trip_in, matches_types, parse_values_at,
    tuple_bytes, tuple_fits, Tuple,
};
use crate::value::{be_bytes, be_u32_at, lemma_be_round_trip, lemma_i32_u32_round_trip, push_be_u32, read_be_u32, ValueView};

verus! {

/// The size of a page header: the next block number and the tuple count.
pub const PAGE_HEADER_SIZE: usize = 8;

/// The header of a table page.
#[derive(Debug, Clone, Copy, PartialEq, Eq)]
pub struct TablePageHeader {
    /// The block of the next page of the table, or `-1` at the end of the chain.
    pub next_block_number: i32,
}

/// One block read as a page header followed by the tuples stored in it.
#[derive(Debug, Clone, PartialEq, Eq)]
pub struct TablePage {
    pub header: TablePageHeader,
    pub tuples: Vec<Tuple>,
}

/// What a page holds: the link to the next page and its tuples, in insertion order.
pub struct PageView {
    pub next: i32,
    pub tuples: Seq<Seq<ValueView>>,
}

impl View for TablePage {
    type V = PageView;

    open spec fn view(&self) -> PageView {
        PageView { next: self.header.next_block_number, tuples: self.tuples@.map_values(|t: Tuple| t@) }
    }
}

/// The tuples' bytes, concatenated without separators.
pub open spec fn tuples_bytes(ts: Seq<Seq<ValueView>>) -> Seq<u8>
    decreases ts.len(),
{
    if ts.len() == 0 {
        Seq::empty()
    } else {
        tuples_bytes(ts.drop_last()) + tuple_bytes(ts.last())
    }
}

/// Whether a page can hold the tuples `ts`: each can be serialized, they fit after the
/// header, and their count fits in the header.
pub open spec fn page_fits(ts: Seq<Seq<ValueView>>) -> bool {
    &&& forall|i: int| 0 <= i < ts.len() ==> tuple_fits(#[trigger] ts[i])
    &&& PAGE_HEADER_SIZE + tuples_bytes(ts).len() <= PAGE_SIZE
    &&& ts.len() <= u32::MAX
}

/// The bytes of a page: the next block number and the tuple count, both 4 bytes
/// big-endian, then the tuples, then zeros up to the size of a block.
pub open spec fn page_bytes(next: i32, ts: Seq<Seq<ValueView>>) -> Seq<u8> {
    let body = be_bytes(#[verifier::truncate] (next as u32)) + be_bytes(ts.len() as u32) + tuples_bytes(ts);
    body + Seq::new((PAGE_SIZE - body.len()) as nat, |i: int| 0u8)
}

/// Reads `k` tuples of column types `tys` from `b`, starting at `pos`: the tuples and the
/// position just after them.
pub open spec fn parse_tuples_at(b: Seq<u8>, pos: int, tys: Seq<ColumnType>, k: nat) -> Option<
    (Seq<Seq<ValueView>>, int),
>
    decreases k,
{
    if k == 0 {
        Some((Seq::empty(), pos))
    } else {
        match parse_tuples_at(b, pos, tys, (k - 1) as nat) {
            None => None,
            Some((ts, p)) => match parse_values_at(b, p, tys, tys.len()) {
                None => None,
                Some((t, q)) => Some((ts.push(t), q)),
            },
        }
    }
}

/// Reads a block as a page whose tuples have column types `tys`.
pub open spec fn parse_page(b: Seq<u8>, tys: Seq<ColumnType>) -> Option<PageView> {
    if b.len() != PAGE_SIZE {
        None
    } else {
        match parse_tuples_at(b, PAGE_HEADER_SIZE as int, tys, be_u32_at(b, 4) as nat) {
            Some((ts, _)) => Some(PageView { next: #[verifier::truncate] (be_u32_at(b, 0) as i32), tuples: ts }),
            None => None,
        }
    }
}

/// Whether every tuple of `ts` matches the column types `tys`.
pub open spec fn all_match(ts: Seq<Seq<ValueView>>, tys: Seq<ColumnType>) -> bool {
    forall|i: int| 0 <= i < ts.len() ==> matches_types(#[trigger] ts[i], tys)
}

/// Once reading tuples fails, reading more fails too.
pub proof fn lemma_parse_tuples_none(b: Seq<u8>, pos: int, tys: Seq<ColumnType>, k: nat, k2: nat)
    requires
        k <= k2,
        parse_tuples_at(b, pos, tys, k) is None,
    ensures
        parse_tuples_at(b, pos, tys, k2) is None,
    decreases k2,
{
    if k < k2 {
        lemma_parse_tuples_none(b, pos, tys, k, (k2 - 1) as nat);
    }
}

/// The bytes of the first `k` tuples are a prefix of the bytes of all of them.
pub proof fn lemma_tuples_bytes_prefix(ts: Seq<Seq<ValueView>>, k: int)
    requires
        0 <= k <= ts.len(),
    ensures
        tuples_bytes(ts.take(k)).len() <= tuples_bytes(ts).len(),
        tuples_bytes(ts) =~= tuples_bytes(ts.take(k)) + tuples_bytes(ts).subrange(
            tuples_bytes(ts.take(k)).len() as int,
            tuples_bytes(ts).len() as int,
        ),
    decreases ts.len(),
{
    if k == ts.len() {
        assert(ts.take(k) =~= ts);
    } else {
        lemma_tuples_bytes_prefix(ts.drop_last(), k);
        assert(ts.drop_last().take(k) =~= ts.take(k));
    }
}

/// Tuples whose bytes stand in `b` at `pos` are read back from there, one by one.
pub proof fn lemma_tuples_round_trip_in(
    b: Seq<u8>,
    pos: int,
    ts: Seq<Seq<ValueView>>,
    tys: Seq<ColumnType>,
    k: nat,
)
    requires
        all_match(ts, tys),
        forall|i: int| 0 <= i < ts.len() ==> tuple_fits(#[trigger] ts[i]),
        k <= ts.len(),
        0 <= pos,
        pos + tuples_bytes(ts).len() <= b.len(),
        b.subrange(pos, pos + tuples_bytes(ts).len()) == tuples_bytes(ts),
    ensures
        parse_tuples_at(b, pos, tys, k) == Some((ts.take(k as int), pos + tuples_bytes(ts.take(k as int)).len())),
    decreases k,
{
    if k == 0 {
        assert(ts.take(0) =~= Seq::<Seq<ValueView>>::empty());
    } else {
        let k1 = (k - 1) as nat;
        lemma_tuples_round_trip_in(b, pos, ts, tys, k1);
        let pre = ts.take(k1 as int);
        let cur = ts.take(k as int);
        assert(cur.drop_last() =~= pre);
        let p = pos + tuples_bytes(pre).len();
        let t = ts[k - 1];
        let tb = tuple_bytes(t);
        assert(tuples_bytes(cur) == tuples_bytes(pre) + tb);
        lemma_tuples_bytes_prefix(ts, k as int);
        let whole = tuples_bytes(ts);
        assert forall|i: int| 0 <= i < tb.len() implies b[p + i] == tb[i] by {
            assert(b.subrange(pos, pos + whole.len())[tuples_bytes(pre).len() + i] == whole[
                tuples_bytes(pre).len() + i]);
            assert(whole[tuples_bytes(pre).len() + i] == tuples_bytes(cur)[tuples_bytes(pre).len()
                + i]);
        }
        assert(b.subrange(p, p + tb.len()) =~= tb);
        assert(matches_types(t, tys));
        lemma_values_round_trip_in(b, p, t, tys, tys.len());
        assert(t.take(tys.len() as int) =~= t);
        assert(pre.push(t) =~= cur);
    }
}

/// Tuples read from `b` match the column types, can be serialized, and serialize to
/// exactly the bytes they were read from.
pub proof fn lemma_parsed_tuples_bytes(b: Seq<u8>, pos: int, tys: Seq<ColumnType>, k: nat)
    requires
        0 <= pos <= b.len(),
        parse_tuples_at(b, pos, tys, k) is Some,
    ensures
        ({
            let (ts, end) = parse_tuples_at(b, pos, tys, k)->Some_0;
            &&& ts.len() == k
            &&& all_match(ts, tys)
            &&& forall|i: int| 0 <= i < ts.len() ==> tuple_fits(#[trigger] ts[i])
            &&& pos <= end <= b.len()
            &&& tuples_bytes(ts) == b.subrange(pos, end)
        }),
    decreases k,
{
    if k == 0 {
        assert(b.subrange(pos, pos) =~= Seq::<u8>::empty());
    } else {
        let k1 = (k - 1) as nat;
        lemma_parsed_tuples_bytes(b, pos, tys, k1);
        let (ts, p) = parse_tuples_at(b, pos, tys, k1)->Some_0;
        lemma_parsed_values_bytes(b, p, tys, tys.len());
        let (t, q) = parse_values_at(b, p, tys, tys.len())->Some_0;
        let ts2 = ts.push(t);
        assert(ts2.drop_last() =~= ts);
        assert(tuples_bytes(ts2) =~= b.subrange(pos, q));
        assert(matches_types(t, tys));
    }
}

/// A page read from a block can be written back: its tuples match the column types and
/// fit in a page.
pub proof fn lemma_parsed_page_fits(b: Seq<u8>, tys: Seq<ColumnType>)
    requires
        parse_page(b, tys) is Some,
    ensures
        page_fits(parse_page(b, tys)->Some_0.tuples),
        all_match(parse_page(b, tys)->Some_0.tuples, tys),
{
    lemma_parsed_tuples_bytes(b, PAGE_HEADER_SIZE as int, tys, be_u32_at(b, 4) as nat);
}

/// Writing a page and reading it back with the same column types gives the same page.
pub proof fn lemma_page_round_trip(next: i32, ts: Seq<Seq<ValueView>>, tys: Seq<ColumnType>)
    requires
        page_fits(ts),
        all_match(ts, tys),
    ensures
        parse_page(page_bytes(next, ts), tys) == Some(PageView { next, tuples: ts }),
{
    let b = page_bytes(next, ts);
    let h0 = be_bytes(#[verifier::truncate] (next as u32));
    let h1 = be_bytes(ts.len() as u32);
    let tb = tuples_bytes(ts);
    lemma_be_round_trip(#[verifier::truncate] (next as u32));
    lemma_be_round_trip(ts.len() as u32);
    lemma_i32_u32_round_trip(next);
    assert(b[0] == h0[0] && b[1] == h0[1] && b[2] == h0[2] && b[3] == h0[3]);
    assert(b[4] == h1[0] && b[5] == h1[1] && b[6] == h1[2] && b[7] == h1[3]);
    assert(be_u32_at(b, 4) == be_u32_at(h1, 0));
    assert(be_u32_at(b, 0) == be_u32_at(h0, 0));
    assert(b.subrange(8, 8 + tb.len() as int) =~= tb);
    lemma_tuples_round_trip_in(b, 8, ts, tys, ts.len());
    assert(ts.take(ts.len() as int) =~= ts);
}

impl TablePage {
    /// An empty page at the end of its chain.
    pub fn new() -> (r: TablePage)
        ensures
            r@.next == -1,
            r@.tuples.len() == 0,
    {
        TablePage { header: TablePageHeader { next_block_number: -1 }, tuples: Vec::new() }
    }

    /// Appends `tuple` where the page can still hold it; returns whether it did.
    pub fn insert_tuple(&mut self, tuple: &Tuple) -> (r: bool)
        ensures
            r == page_fits(old(self)@.tuples.push(tuple@)),
            r ==> final(self)@ == (PageView { tuples: old(self)@.tuples.push(tuple@), ..old(self)@ }),
            !r ==> final(self)@ == old(self)@,
    {
        let ghost before = self@;
        self.tuples.push(tuple.duplicate());
        assert(self@.tuples =~= before.tuples.push(tuple@));
        match self.serialize() {
            Ok(_) => true,
            Err(_) => {
                self.tuples.pop();
                assert(self@.tuples =~= before.tuples);
                false
            },
        }
    }

    /// Serializes the page as `page_bytes` describes; fails with `TupleTooLarge` where its
    /// tuples do not fit in a block.
    pub fn serialize(&self) -> (r: Result<Vec<u8>, DbError>)
        ensures
            r is Ok <==> page_fits(self@.tuples),
            r matches Ok(b) ==> b@ == page_bytes(self@.next, self@.tuples),
            r is Err ==> r == Err::<Vec<u8>, DbError>(DbError::TupleTooLarge),
    {
        let ghost ts = self@.tuples;
        let n = self.tuples.len();
        if n > 0xffff_ffffusize {
            return Err(DbError::TupleTooLarge);
        }
        let mut buf: Vec<u8> = Vec::new();
        push_be_u32(&mut buf, self.header.next_block_number as u32);
        push_be_u32(&mut buf, n as u32);
        let ghost header = buf@;
        let mut i: usize = 0;
        while i < n
            invariant
                n == self.tuples@.len(),
                ts == self@.tuples,
                n <= u32::MAX,
                i <= n,
                header.len() == PAGE_HEADER_SIZE,
                buf@ == header + tuples_bytes(ts.take(i as int)),
                buf@.len() <= PAGE_SIZE,
                forall|j: int| 0 <= j < i ==> tuple_fits(#[trigger] ts[j]),
            decreases n - i,
        {
            assert(ts[i as int] == self.tuples@[i as int]@);
            let tb = match self.tuples[i].serialize() {
                Ok(tb) => tb,
                Err(e) => {
                    return Err(e);
                },
            };
            assert(ts.take(i + 1).drop_last() =~= ts.take(i as int));
            assert(ts.take(i + 1).last() == ts[i as int]);
            if tb.len() > PAGE_SIZE - buf.len() {
                proof {
                    lemma_tuples_bytes_prefix(ts, i + 1);
                }
                return Err(DbError::TupleTooLarge);
            }
            buf.extend_from_slice(tb.as_slice());
            assert(buf@ =~= header + tuples_bytes(ts.take(i + 1)));
            i = i + 1;
        }
        assert(ts.take(n as int) =~= ts);
        let ghost body = buf@;
        while buf.len() < PAGE_SIZE
            invariant
                body.len() <= PAGE_SIZE,
                buf@.len() <= PAGE_SIZE,
                buf@.len() >= body.len(),
                buf@ =~= body + Seq::new((buf@.len() - body.len()) as nat, |j: int| 0u8),
            decreases PAGE_SIZE - buf@.len(),
        {
            buf.push(0u8);
        }
        assert(buf@ =~= page_bytes(self@.next, ts));
        Ok(buf)
    }

    /// Reads a block as a page of tuples of `schema`.
    pub fn deserialize(data: &[u8], schema: &Schema) -> (r: Result<TablePage, DbError>)
        ensures
            match parse_page(data@, column_types(schema@)) {
                Some(pv) => r matches Ok(p) && p@ == pv,
                None => r == Err::<TablePage, DbError>(DbError::Corruption),
            },
    {
        let ghost tys = column_types(schema@);
        if data.len() != PAGE_SIZE {
            return Err(DbError::Corruption);
        }
        let next = read_be_u32(data, 0) as i32;
        let count = read_be_u32(data, 4);
        assert(schema@.len() == tys.len());
        let mut tuples: Vec<Tuple> = Vec::new();
        let mut p: usize = PAGE_HEADER_SIZE;
        let mut i: u32 = 0;
        while i < count
            invariant
                tys == column_types(schema@),
                schema@.len() == tys.len(),
                data@.len() == PAGE_SIZE,
                i <= count,
                count == be_u32_at(data@, 4),
                parse_tuples_at(data@, PAGE_HEADER_SIZE as int, tys, i as nat) == Some(
                    (tuples@.map_values(|t: Tuple| t@), p as int),
                ),
            decreases count - i,
        {
            match Tuple::deserialize_at(data, p, schema) {
                Ok((t, end)) => {
                    let ghost old_tuples = tuples@;
                    tuples.push(t);
                    assert(tuples@.map_values(|t: Tuple| t@) =~= old_tuples.map_values(
                        |t: Tuple| t@,
                    ).push(t@));
                    p = end;
                },
                Err(e) => {
                    proof {
                        lemma_parse_tuples_none(
                            data@,
                            PAGE_HEADER_SIZE as int,
                            tys,
                            (i + 1) as nat,
                            count as nat,
                        );
                    }
                    return Err(e);
                },
            }
            i = i + 1;
        }
        Ok(TablePage { header: TablePageHeader { next_block_number: next }, tuples })
    }
}

} // verus!
