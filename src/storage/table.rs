use vstd::prelude::*;

use crate::buffer::{all_unpinned, has_unpinned, pins_same, BufferPoolManager, FrameView, POOL_SIZE};
use crate::catalog::{column_types, ColumnType, Schema};
use crate::disk::PAGE_SIZE;
use crate::error::DbError;
use crate::storage::page::{
    all_match, lemma_page_round_trip, lemma_parsed_page_fits, page_bytes, page_fits, parse_page,
    PageView, TablePage,
};
use crate::storage::tuple::{matches_types, Tuple};

use crate::value::{has_type, Value, ValueView};

verus! {

/// The pages of the chain that starts at `block`, following the next links until `-1`,
/// each with its block number; `None` where a link leaves the data file, a block is not a
/// page of these column types, or more than `fuel` pages would be read.
pub open spec fn chain_from(c: Seq<Seq<u8>>, block: int, tys: Seq<ColumnType>, fuel: nat) -> Option<
    Seq<(int, PageView)>,
>
    decreases fuel,
{
    if block == -1 {
        Some(Seq::empty())
    } else if fuel == 0 || block < 0 || block >= c.len() {
        None
    } else {
        match parse_page(c[block], tys) {
            None => None,
            Some(p) => match chain_from(c, p.next as int, tys, (fuel - 1) as nat) {
                None => None,
                Some(rest) => Some(seq![(block, p)] + rest),
            },
        }
    }
}

/// The pages of the table whose first page is at block `first`, in chain order.
pub open spec fn table_pages(c: Seq<Seq<u8>>, first: int, tys: Seq<ColumnType>) -> Option<
    Seq<(int, PageView)>,
> {
    chain_from(c, first, tys, c.len())
}

/// The tuples of a chain of pages, page after page.
pub open spec fn pages_tuples(ps: Seq<(int, PageView)>) -> Seq<Seq<ValueView>>
    decreases ps.len(),
{
    if ps.len() == 0 {
        Seq::empty()
    } else {
        pages_tuples(ps.drop_last()) + ps.last().1.tuples
    }
}

/// Whether `ch` is a chain of pages from `block`: each entry is the page its block holds,
/// each links to the next entry, and the last one ends the chain.
pub open spec fn valid_chain(c: Seq<Seq<u8>>, block: int, tys: Seq<ColumnType>, ch: Seq<(int, PageView)>) -> bool {
    &&& (ch.len() == 0 <==> block == -1)
    &&& ch.len() > 0 ==> ch[0].0 == block && ch.last().1.next == -1
    &&& forall|i: int|
        0 <= i < ch.len() ==> 0 <= (#[trigger] ch[i]).0 < c.len() && parse_page(c[ch[i].0], tys)
            == Some(ch[i].1)
    &&& forall|i: int| 0 <= i < ch.len() - 1 ==> (#[trigger] ch[i]).1.next == ch[i + 1].0
}

/// The first page of `ch` that can still take `t`, or the length of `ch` where none can.
pub open spec fn first_fit(ch: Seq<(int, PageView)>, t: Seq<ValueView>, i: int) -> int
    decreases ch.len() - i,
{
    if i >= ch.len() || i < 0 {
        ch.len() as int
    } else if page_fits(ch[i].1.tuples.push(t)) {
        i
    } else {
        first_fit(ch, t, i + 1)
    }
}

/// The chain after inserting `t`: appended to the first page that can take it, or else
/// to a new page at block `nb` linked after the last page.
pub open spec fn chain_after_insert(ch: Seq<(int, PageView)>, t: Seq<ValueView>, nb: int) -> Seq<
    (int, PageView),
> {
    let k = first_fit(ch, t, 0);
    if k < ch.len() {
        ch.update(k, (ch[k].0, PageView { tuples: ch[k].1.tuples.push(t), ..ch[k].1 }))
    } else {
        ch.update(
            ch.len() - 1,
            (ch.last().0, PageView { next: nb as i32, ..ch.last().1 }),
        ).push((nb, PageView { next: -1i32, tuples: seq![t] }))
    }
}

/// Whether block `b` holds a page of the chain `ch`.
pub open spec fn in_chain(ch: Seq<(int, PageView)>, b: int) -> bool {
    exists|i: int| 0 <= i < ch.len() && (#[trigger] ch[i]).0 == b
}

/// Where `t` has no room in the pages before `k` and room in page `k`, page `k` is the
/// first that can take it.
pub proof fn lemma_first_fit(ch: Seq<(int, PageView)>, t: Seq<ValueView>, i: int, k: int)
    requires
        0 <= i <= k <= ch.len(),
        forall|j: int| i <= j < k ==> !page_fits((#[trigger] ch[j]).1.tuples.push(t)),
        k < ch.len() ==> page_fits(ch[k].1.tuples.push(t)),
    ensures
        first_fit(ch, t, i) == k,
    decreases k - i,
{
    if i < k {
        lemma_first_fit(ch, t, i + 1, k);
    }
}

/// Replacing the page of entry `k` with one that keeps its link keeps the chain valid.
pub proof fn lemma_chain_update_page(
    c: Seq<Seq<u8>>,
    first: int,
    tys: Seq<ColumnType>,
    ch: Seq<(int, PageView)>,
    k: int,
    bytes: Seq<u8>,
    np: PageView,
)
    requires
        valid_chain(c, first, tys, ch),
        0 <= k < ch.len(),
        parse_page(bytes, tys) == Some(np),
        np.next == ch[k].1.next,
    ensures
        valid_chain(c.update(ch[k].0, bytes), first, tys, ch.update(k, (ch[k].0, np))),
{
    lemma_chain_distinct(c, first, tys, ch);
    let c2 = c.update(ch[k].0, bytes);
    let ch2 = ch.update(k, (ch[k].0, np));
    assert forall|i: int|
        0 <= i < ch2.len() implies 0 <= (#[trigger] ch2[i]).0 < c2.len() && parse_page(c2[ch2[i].0], tys)
            == Some(ch2[i].1) by {
        if i != k {
            assert(ch[i].0 != ch[k].0);
        }
    }
    assert forall|i: int| 0 <= i < ch2.len() - 1 implies (#[trigger] ch2[i]).1.next == ch2[i + 1].0 by {
        assert(ch[i].1.next == ch[i + 1].0);
    }
    if ch.len() > 0 {
        assert(ch2.last() == ch2[ch2.len() - 1]);
    }
}

/// Appending a page at the end of the data file and linking the last page of the chain
/// to it gives a valid chain one page longer.
pub proof fn lemma_chain_append_page(
    c: Seq<Seq<u8>>,
    first: int,
    tys: Seq<ColumnType>,
    ch: Seq<(int, PageView)>,
    nbytes: Seq<u8>,
    newp: PageView,
    mbytes: Seq<u8>,
)
    requires
        valid_chain(c, first, tys, ch),
        ch.len() > 0,
        c.len() <= i32::MAX,
        parse_page(nbytes, tys) == Some(newp),
        newp.next == -1,
        parse_page(mbytes, tys) == Some(PageView { next: c.len() as i32, ..ch.last().1 }),
    ensures
        valid_chain(
            c.push(nbytes).update(ch.last().0, mbytes),
            first,
            tys,
            ch.update(ch.len() - 1, (ch.last().0, PageView { next: c.len() as i32, ..ch.last().1 })).push(
                (c.len() as int, newp),
            ),
        ),
{
    lemma_chain_distinct(c, first, tys, ch);
    let n = ch.len() - 1;
    let c2 = c.push(nbytes).update(ch.last().0, mbytes);
    let ch2 = ch.update(n, (ch.last().0, PageView { next: c.len() as i32, ..ch.last().1 })).push(
        (c.len() as int, newp),
    );
    assert forall|i: int|
        0 <= i < ch2.len() implies 0 <= (#[trigger] ch2[i]).0 < c2.len() && parse_page(c2[ch2[i].0], tys)
            == Some(ch2[i].1) by {
        if i < n {
            assert(ch[i].0 != ch[n].0);
        }
    }
    assert forall|i: int| 0 <= i < ch2.len() - 1 implies (#[trigger] ch2[i]).1.next == ch2[i + 1].0 by {
        if i < n {
            assert(ch[i].1.next == ch[i + 1].0);
        }
    }
}


/// Appending `t` in place to the page at `block`, the first page of the chain with room,
/// gives the chain that `chain_after_insert` describes and touches no other block.
proof fn lemma_insert_in_place(
    c: Seq<Seq<u8>>,
    first: int,
    tys: Seq<ColumnType>,
    prefix: Seq<(int, PageView)>,
    block: int,
    p: PageView,
    t: Seq<ValueView>,
    fuel: nat,
    bytes: Seq<u8>,
)
    requires
        0 <= block < c.len(),
        parse_page(c[block], tys) == Some(p),
        match chain_from(c, block, tys, fuel + 1) {
            Some(rest) => table_pages(c, first, tys) == Some(prefix + rest),
            None => table_pages(c, first, tys) is None,
        },
        forall|j: int| 0 <= j < prefix.len() ==> !page_fits((#[trigger] prefix[j]).1.tuples.push(t)),
        page_fits(p.tuples.push(t)),
        all_match(p.tuples, tys),
        matches_types(t, tys),
        bytes == page_bytes(p.next, p.tuples.push(t)),
    ensures
        table_pages(c, first, tys) matches Some(ch) ==> {
            &&& first_fit(ch, t, 0) < ch.len()
            &&& table_pages(c.update(block, bytes), first, tys) == Some(
                chain_after_insert(ch, t, c.len() as int),
            )
            &&& forall|x: int|
                0 <= x < c.len() && !in_chain(ch, x) ==> #[trigger] c.update(block, bytes)[x] == c[x]
        },
{
    let np = PageView { tuples: p.tuples.push(t), ..p };
    assert(all_match(np.tuples, tys)) by {
        assert forall|i: int| 0 <= i < np.tuples.len() implies matches_types(#[trigger] np.tuples[i], tys) by {
            if i < p.tuples.len() {
                assert(np.tuples[i] == p.tuples[i]);
            }
        }
    }
    lemma_page_round_trip(p.next, np.tuples, tys);
    if let Some(rest) = chain_from(c, p.next as int, tys, fuel) {
        let ch = prefix + (seq![(block, p)] + rest);
        let k = prefix.len() as int;
        lemma_chain_from_valid(c, first, tys, c.len());
        assert(ch[k] == (block, p));
        assert forall|j: int| 0 <= j < k implies !page_fits((#[trigger] ch[j]).1.tuples.push(t)) by {
            assert(ch[j] == prefix[j]);
        }
        lemma_first_fit(ch, t, 0, k);
        lemma_chain_update_page(c, first, tys, ch, k, bytes, np);
        let ch2 = ch.update(k, (block, np));
        lemma_valid_chain_from(c.update(block, bytes), first, tys, ch2, c.len());
        assert forall|x: int| 0 <= x < c.len() && !in_chain(ch, x) implies #[trigger] c.update(block, bytes)[x] == c[x] by {
            assert(ch[k].0 == block);
        }
    }
}

/// Where no page of the chain has room for `t` and `block` holds the last page, a new
/// page holding `t` at the end of the data file, linked from the last page, gives the
/// chain that `chain_after_insert` describes and touches no other block.
#[verifier::rlimit(100)]
#[verifier::spinoff_prover]
proof fn lemma_insert_append(
    c: Seq<Seq<u8>>,
    first: int,
    tys: Seq<ColumnType>,
    prefix: Seq<(int, PageView)>,
    block: int,
    p: PageView,
    t: Seq<ValueView>,
    fuel: nat,
    nbytes: Seq<u8>,
    mbytes: Seq<u8>,
)
    requires
        0 <= block < c.len(),
        c.len() < i32::MAX,
        parse_page(c[block], tys) == Some(p),
        p.next == -1,
        match chain_from(c, block, tys, fuel + 1) {
            Some(rest) => table_pages(c, first, tys) == Some(prefix + rest),
            None => table_pages(c, first, tys) is None,
        },
        forall|j: int| 0 <= j < prefix.len() ==> !page_fits((#[trigger] prefix[j]).1.tuples.push(t)),
        !page_fits(p.tuples.push(t)),
        page_fits(p.tuples),
        all_match(p.tuples, tys),
        page_fits(seq![t]),
        matches_types(t, tys),
        nbytes == page_bytes(-1i32, seq![t]),
        mbytes == page_bytes(c.len() as i32, p.tuples),
    ensures
        table_pages(c, first, tys) matches Some(ch) ==> {
            &&& first_fit(ch, t, 0) == ch.len()
            &&& table_pages(c.push(nbytes).update(block, mbytes), first, tys) == Some(
                chain_after_insert(ch, t, c.len() as int),
            )
            &&& forall|x: int|
                0 <= x < c.len() && !in_chain(ch, x) ==> #[trigger] c.push(nbytes).update(block, mbytes)[x]
                    == c[x]
        },
{
    assert(all_match(seq![t], tys));
    lemma_page_round_trip(-1i32, seq![t], tys);
    lemma_page_round_trip(c.len() as i32, p.tuples, tys);
    if let Some(rest) = chain_from(c, p.next as int, tys, fuel) {
        let ch = prefix + (seq![(block, p)] + rest);
        let k = prefix.len() as int;
        lemma_chain_from_valid(c, first, tys, c.len());
        assert(rest.len() == 0);
        assert(ch.len() == k + 1);
        assert(ch.last() == (block, p));
        assert forall|j: int| 0 <= j < ch.len() implies !page_fits((#[trigger] ch[j]).1.tuples.push(t)) by {
            if j < k {
                assert(ch[j] == prefix[j]);
            }
        }
        lemma_first_fit(ch, t, 0, ch.len() as int);
        let newp = PageView { next: -1i32, tuples: seq![t] };
        lemma_chain_append_page(c, first, tys, ch, nbytes, newp, mbytes);
        let c2 = c.push(nbytes).update(block, mbytes);
        let ch2 = ch.update(ch.len() - 1, (block, PageView { next: c.len() as i32, ..p })).push((c.len() as int, newp));
        lemma_valid_chain_from(c2, first, tys, ch2, c2.len());
        assert(chain_after_insert(ch, t, c.len() as int) == ch2) by {
            assert(first_fit(ch, t, 0) == ch.len());
            assert(ch.last().0 == block);
        }
        assert forall|x: int| 0 <= x < c.len() && !in_chain(ch, x) implies #[trigger] c2[x] == c[x] by {
            assert(ch[k].0 == block);
        }
    }
}

/// Where a tuple lands in the last page of a chain, or in a new page after it, the
/// chain's tuples are the old ones followed by the new tuple: insertion order is kept.
pub proof fn lemma_insert_keeps_order(ch: Seq<(int, PageView)>, t: Seq<ValueView>, nb: int)
    requires
        ch.len() > 0,
        first_fit(ch, t, 0) >= ch.len() - 1,
    ensures
        pages_tuples(chain_after_insert(ch, t, nb)) == pages_tuples(ch).push(t),
{
    let k = first_fit(ch, t, 0);
    let n = ch.len() - 1;
    let after = chain_after_insert(ch, t, nb);
    if k < ch.len() {
        assert(after.drop_last() =~= ch.drop_last());
        assert(after.last().1.tuples == ch.last().1.tuples.push(t));
        assert(pages_tuples(ch).push(t) =~= pages_tuples(ch.drop_last()) + ch.last().1.tuples.push(t));
    } else {
        let mid = ch.update(n, (ch.last().0, PageView { next: nb as i32, ..ch.last().1 }));
        assert(after.drop_last() =~= mid);
        assert(mid.drop_last() =~= ch.drop_last());
        assert(pages_tuples(mid) == pages_tuples(ch));
        assert(after.last().1.tuples =~= seq![t]);
        assert(pages_tuples(ch) + seq![t] =~= pages_tuples(ch).push(t));
    }
}

proof fn lemma_pages_tuples_match(c: Seq<Seq<u8>>, first: int, tys: Seq<ColumnType>, ch: Seq<(int, PageView)>, k: int)
    requires
        valid_chain(c, first, tys, ch),
        0 <= k <= ch.len(),
    ensures
        forall|i: int| 0 <= i < pages_tuples(ch.take(k)).len() ==> matches_types(#[trigger] pages_tuples(ch.take(k))[i], tys),
    decreases k,
{
    if k == 0 {
        assert(ch.take(0) =~= Seq::<(int, PageView)>::empty());
    } else {
        lemma_pages_tuples_match(c, first, tys, ch, k - 1);
        assert(ch.take(k).drop_last() =~= ch.take(k - 1));
        assert(ch.take(k).last() == ch[k - 1]);
        lemma_parsed_page_fits(c[ch[k - 1].0], tys);
        let a = pages_tuples(ch.take(k - 1));
        let b = ch[k - 1].1.tuples;
        assert forall|i: int| 0 <= i < (a + b).len() implies matches_types(#[trigger] (a + b)[i], tys) by {
            if i >= a.len() {
                assert((a + b)[i] == b[i - a.len()]);
            }
        }
    }
}

/// Every row of a sound table matches the table's column types.
pub proof fn lemma_table_rows_match(c: Seq<Seq<u8>>, first: int, tys: Seq<ColumnType>)
    ensures
        table_pages(c, first, tys) matches Some(ch) ==> forall|i: int|
            0 <= i < pages_tuples(ch).len() ==> matches_types(#[trigger] pages_tuples(ch)[i], tys),
{
    if let Some(ch) = table_pages(c, first, tys) {
        lemma_chain_from_valid(c, first, tys, c.len());
        lemma_pages_tuples_match(c, first, tys, ch, ch.len() as int);
        assert(ch.take(ch.len() as int) =~= ch);
    }
}

/// The tuples of two chains one after the other are those of the joined chain.
pub proof fn lemma_pages_tuples_concat(a: Seq<(int, PageView)>, b: Seq<(int, PageView)>)
    ensures
        pages_tuples(a + b) == pages_tuples(a) + pages_tuples(b),
    decreases b.len(),
{
    if b.len() == 0 {
        assert(a + b =~= a);
        assert(pages_tuples(a) + Seq::<Seq<ValueView>>::empty() =~= pages_tuples(a));
    } else {
        lemma_pages_tuples_concat(a, b.drop_last());
        assert((a + b).drop_last() =~= a + b.drop_last());
        assert((a + b).last() == b.last());
        assert(pages_tuples(a) + (pages_tuples(b.drop_last()) + b.last().1.tuples) =~= (pages_tuples(a)
            + pages_tuples(b.drop_last())) + b.last().1.tuples);
    }
}

/// Whether `new` is `old` with `t` inserted at one position.
pub open spec fn inserted(old: Seq<Seq<ValueView>>, new: Seq<Seq<ValueView>>, t: Seq<ValueView>) -> bool {
    exists|i: int| 0 <= i <= old.len() && new == old.insert(i, t)
}

/// Inserting into a chain inserts the tuple once among the chain's tuples.
pub proof fn lemma_insert_inserted(ch: Seq<(int, PageView)>, t: Seq<ValueView>, nb: int)
    requires
        ch.len() > 0,
    ensures
        inserted(pages_tuples(ch), pages_tuples(chain_after_insert(ch, t, nb)), t),
{
    let k = first_fit(ch, t, 0);
    lemma_first_fit_range(ch, t, 0);
    let after = chain_after_insert(ch, t, nb);
    let old_ts = pages_tuples(ch);
    if k < ch.len() {
        let pre = ch.take(k);
        let post = ch.skip(k + 1);
        let e = ch[k];
        let e2 = (e.0, PageView { tuples: e.1.tuples.push(t), ..e.1 });
        assert(ch =~= pre + (seq![e] + post));
        assert(after =~= pre + (seq![e2] + post));
        lemma_pages_tuples_concat(pre, seq![e] + post);
        lemma_pages_tuples_concat(seq![e], post);
        lemma_pages_tuples_concat(pre, seq![e2] + post);
        lemma_pages_tuples_concat(seq![e2], post);
        assert(seq![e].drop_last() =~= Seq::<(int, PageView)>::empty());
        assert(seq![e2].drop_last() =~= Seq::<(int, PageView)>::empty());
        assert(pages_tuples(seq![e].drop_last()) == Seq::<Seq<ValueView>>::empty());
        assert(pages_tuples(seq![e]) == pages_tuples(seq![e].drop_last()) + seq![e].last().1.tuples);
        assert(pages_tuples(seq![e]) =~= e.1.tuples);
        assert(pages_tuples(seq![e2].drop_last()) == Seq::<Seq<ValueView>>::empty());
        assert(pages_tuples(seq![e2]) == pages_tuples(seq![e2].drop_last()) + seq![e2].last().1.tuples);
        assert(pages_tuples(seq![e2]) =~= e.1.tuples.push(t));
        let i = (pages_tuples(pre).len() + e.1.tuples.len()) as int;
        assert(pages_tuples(after) =~= old_ts.insert(i, t));
    } else {
        let n = ch.len() - 1;
        let mid = ch.update(n, (ch.last().0, PageView { next: nb as i32, ..ch.last().1 }));
        assert(after.drop_last() =~= mid);
        assert(mid.drop_last() =~= ch.drop_last());
        assert(pages_tuples(mid) == old_ts);
        assert(after.last().1.tuples =~= seq![t]);
        assert(pages_tuples(after) =~= old_ts.insert(old_ts.len() as int, t));
    }
}

proof fn lemma_first_fit_range(ch: Seq<(int, PageView)>, t: Seq<ValueView>, i: int)
    requires
        0 <= i,
    ensures
        0 <= first_fit(ch, t, i) <= ch.len(),
        first_fit(ch, t, i) < ch.len() ==> page_fits(ch[first_fit(ch, t, i)].1.tuples.push(t)),
    decreases ch.len() - i,
{
    if i < ch.len() && !page_fits(ch[i].1.tuples.push(t)) {
        lemma_first_fit_range(ch, t, i + 1);
    }
}

/// The blocks of the chain after an insert are the old ones and, where a page was
/// added, the new block.
pub proof fn lemma_insert_blocks(ch: Seq<(int, PageView)>, t: Seq<ValueView>, nb: int, x: int)
    requires
        ch.len() > 0,
        in_chain(chain_after_insert(ch, t, nb), x),
    ensures
        in_chain(ch, x) || x == nb,
{
    let after = chain_after_insert(ch, t, nb);
    let i = choose|i: int| 0 <= i < after.len() && (#[trigger] after[i]).0 == x;
    lemma_first_fit_range(ch, t, 0);
    if i < ch.len() {
        assert(ch[i].0 == x);
    }
}

/// A chain whose blocks keep their bytes in a longer data file is still the table's
/// chain there.
pub proof fn lemma_chain_stable(
    c: Seq<Seq<u8>>,
    c2: Seq<Seq<u8>>,
    first: int,
    tys: Seq<ColumnType>,
)
    requires
        table_pages(c, first, tys) is Some,
        c.len() <= c2.len(),
        forall|x: int| 0 <= x < c.len() && in_chain(table_pages(c, first, tys)->Some_0, x) ==> #[trigger] c2[x] == c[x],
    ensures
        table_pages(c2, first, tys) == table_pages(c, first, tys),
{
    let ch = table_pages(c, first, tys)->Some_0;
    lemma_chain_from_valid(c, first, tys, c.len());
    assert forall|i: int|
        0 <= i < ch.len() implies 0 <= (#[trigger] ch[i]).0 < c2.len() && parse_page(c2[ch[i].0], tys)
            == Some(ch[i].1) by {
        assert(in_chain(ch, ch[i].0));
    }
    assert(valid_chain(c2, first, tys, ch));
    lemma_valid_chain_from(c2, first, tys, ch, c2.len());
}

/// Every block of a sound table lies in the data file.
pub proof fn lemma_chain_blocks_in_file(c: Seq<Seq<u8>>, first: int, tys: Seq<ColumnType>, x: int)
    requires
        table_pages(c, first, tys) matches Some(ch) && in_chain(ch, x),
    ensures
        0 <= x < c.len(),
{
    let ch = table_pages(c, first, tys)->Some_0;
    lemma_chain_from_valid(c, first, tys, c.len());
    let i = choose|i: int| 0 <= i < ch.len() && (#[trigger] ch[i]).0 == x;
}

/// The tuples of each page of a chain, page by page.
pub open spec fn page_lists(ch: Seq<(int, PageView)>) -> Seq<Seq<Seq<ValueView>>> {
    ch.map_values(|e: (int, PageView)| e.1.tuples)
}

/// The first page of `ps`, from `i` on, that can still take `t`, or the number of pages.
pub open spec fn fit_index(ps: Seq<Seq<Seq<ValueView>>>, t: Seq<ValueView>, i: int) -> int
    decreases ps.len() - i,
{
    if i >= ps.len() || i < 0 {
        ps.len() as int
    } else if page_fits(ps[i].push(t)) {
        i
    } else {
        fit_index(ps, t, i + 1)
    }
}

/// The page tuple lists after inserting `t` into the first page with room, or into a new
/// page after the last.
pub open spec fn fill(ps: Seq<Seq<Seq<ValueView>>>, t: Seq<ValueView>) -> Seq<Seq<Seq<ValueView>>> {
    let k = fit_index(ps, t, 0);
    if k < ps.len() {
        ps.update(k, ps[k].push(t))
    } else {
        ps.push(seq![t])
    }
}

/// The page tuple lists after inserting the tuples `rs` one after another.
pub open spec fn fill_all(ps: Seq<Seq<Seq<ValueView>>>, rs: Seq<Seq<ValueView>>) -> Seq<Seq<Seq<ValueView>>>
    decreases rs.len(),
{
    if rs.len() == 0 {
        ps
    } else {
        fill(fill_all(ps, rs.drop_last()), rs.last())
    }
}

/// The tuples of page tuple lists, page after page.
pub open spec fn flat(ps: Seq<Seq<Seq<ValueView>>>) -> Seq<Seq<ValueView>>
    decreases ps.len(),
{
    if ps.len() == 0 {
        Seq::empty()
    } else {
        flat(ps.drop_last()) + ps.last()
    }
}

/// Whether inserting `rs` one after another puts each in the last page or in a new page
/// after it, so that they follow the earlier tuples in order.
pub open spec fn appends_in_order(ps: Seq<Seq<Seq<ValueView>>>, rs: Seq<Seq<ValueView>>) -> bool
    decreases rs.len(),
{
    rs.len() == 0 || (appends_in_order(ps, rs.drop_last()) && fit_index(fill_all(ps, rs.drop_last()), rs.last(), 0)
        >= fill_all(ps, rs.drop_last()).len() - 1)
}

proof fn lemma_fit_index(ch: Seq<(int, PageView)>, t: Seq<ValueView>, i: int)
    requires
        0 <= i,
    ensures
        first_fit(ch, t, i) == fit_index(page_lists(ch), t, i),
    decreases ch.len() - i,
{
    if i < ch.len() {
        assert(page_lists(ch)[i] == ch[i].1.tuples);
        lemma_fit_index(ch, t, i + 1);
    }
}

/// Inserting into a chain changes its page tuple lists as `fill` does.
pub proof fn lemma_insert_fill(ch: Seq<(int, PageView)>, t: Seq<ValueView>, nb: int)
    requires
        ch.len() > 0,
    ensures
        page_lists(chain_after_insert(ch, t, nb)) == fill(page_lists(ch), t),
{
    lemma_fit_index(ch, t, 0);
    let k = first_fit(ch, t, 0);
    lemma_first_fit_range(ch, t, 0);
    if k < ch.len() {
        assert(page_lists(chain_after_insert(ch, t, nb)) =~= fill(page_lists(ch), t));
    } else {
        assert(page_lists(chain_after_insert(ch, t, nb)) =~= fill(page_lists(ch), t));
    }
}

/// The tuples of a chain are its page tuple lists flattened.
pub proof fn lemma_pages_tuples_flat(ch: Seq<(int, PageView)>)
    ensures
        pages_tuples(ch) == flat(page_lists(ch)),
    decreases ch.len(),
{
    if ch.len() > 0 {
        lemma_pages_tuples_flat(ch.drop_last());
        assert(page_lists(ch).drop_last() =~= page_lists(ch.drop_last()));
    }
}

proof fn lemma_fill_len(ps: Seq<Seq<Seq<ValueView>>>, rs: Seq<Seq<ValueView>>)
    ensures
        fill_all(ps, rs).len() >= ps.len(),
    decreases rs.len(),
{
    if rs.len() > 0 {
        lemma_fill_len(ps, rs.drop_last());
        lemma_fit_index_range(fill_all(ps, rs.drop_last()), rs.last(), 0);
    }
}

proof fn lemma_fit_index_range(ps: Seq<Seq<Seq<ValueView>>>, t: Seq<ValueView>, i: int)
    requires
        0 <= i,
    ensures
        0 <= fit_index(ps, t, i) <= ps.len(),
    decreases ps.len() - i,
{
    if i < ps.len() && !page_fits(ps[i].push(t)) {
        lemma_fit_index_range(ps, t, i + 1);
    }
}

/// Tuples that each land in the last page or in a new page after it follow the earlier
/// tuples in the order they were inserted.
pub proof fn lemma_fill_all_in_order(ps: Seq<Seq<Seq<ValueView>>>, rs: Seq<Seq<ValueView>>)
    requires
        ps.len() > 0,
        appends_in_order(ps, rs),
    ensures
        flat(fill_all(ps, rs)) == flat(ps) + rs,
    decreases rs.len(),
{
    if rs.len() == 0 {
        assert(flat(ps) + rs =~= flat(ps));
    } else {
        let d = rs.drop_last();
        lemma_fill_all_in_order(ps, d);
        let q = fill_all(ps, d);
        lemma_fill_len(ps, d);
        let t = rs.last();
        let k = fit_index(q, t, 0);
        lemma_fit_index_range(q, t, 0);
        let f = fill(q, t);
        if k < q.len() {
            assert(k == q.len() - 1);
            assert(f.drop_last() =~= q.drop_last());
            assert(f.last() == q.last().push(t));
            assert(flat(f) =~= flat(q).push(t));
        } else {
            assert(f.drop_last() =~= q);
            assert(flat(f) =~= flat(q) + seq![t]);
        }
        assert(flat(ps) + d.push(t) =~= (flat(ps) + d).push(t));
        assert(d.push(t) =~= rs);
    }
}

/// `chain_from` gives exactly the valid chains that fit in its fuel.
pub proof fn lemma_chain_from_valid(c: Seq<Seq<u8>>, block: int, tys: Seq<ColumnType>, fuel: nat)
    ensures
        chain_from(c, block, tys, fuel) matches Some(ch) ==> valid_chain(c, block, tys, ch) && ch.len()
            <= fuel,
    decreases fuel,
{
    if block != -1 && fuel > 0 && 0 <= block < c.len() {
        if let Some(p) = parse_page(c[block], tys) {
            lemma_chain_from_valid(c, p.next as int, tys, (fuel - 1) as nat);
            if let Some(rest) = chain_from(c, p.next as int, tys, (fuel - 1) as nat) {
                let ch = seq![(block, p)] + rest;
                assert forall|i: int| 0 <= i < ch.len() - 1 implies (#[trigger] ch[i]).1.next == ch[i + 1].0 by {
                    if i > 0 {
                        assert(rest[i - 1] == ch[i]);
                    }
                }
                assert forall|i: int|
                    0 <= i < ch.len() implies 0 <= (#[trigger] ch[i]).0 < c.len() && parse_page(c[ch[i].0], tys)
                        == Some(ch[i].1) by {
                    if i > 0 {
                        assert(rest[i - 1] == ch[i]);
                    }
                }
            }
        }
    }
}

/// A valid chain within the fuel is what `chain_from` gives.
pub proof fn lemma_valid_chain_from(c: Seq<Seq<u8>>, block: int, tys: Seq<ColumnType>, ch: Seq<(int, PageView)>, fuel: nat)
    requires
        valid_chain(c, block, tys, ch),
        ch.len() <= fuel,
    ensures
        chain_from(c, block, tys, fuel) == Some(ch),
    decreases fuel,
{
    if ch.len() == 0 {
        assert(ch =~= Seq::<(int, PageView)>::empty());
    } else {
        let rest = ch.drop_first();
        let p = ch[0].1;
        assert(ch[0].0 == block);
        assert forall|i: int| 0 <= i < rest.len() - 1 implies (#[trigger] rest[i]).1.next == rest[i + 1].0 by {
            assert(ch[i + 1] == rest[i]);
        }
        assert forall|i: int|
            0 <= i < rest.len() implies 0 <= (#[trigger] rest[i]).0 < c.len() && parse_page(c[rest[i].0], tys)
                == Some(rest[i].1) by {
            assert(ch[i + 1] == rest[i]);
        }
        if rest.len() > 0 {
            assert(ch[0].1.next == ch[1].0);
            assert(rest.last() == ch.last());
        }
        assert(ch[0].0 >= 0);
        lemma_valid_chain_from(c, p.next as int, tys, rest, (fuel - 1) as nat);
        assert(seq![(block, p)] + rest =~= ch);
    }
}

/// Two entries of a valid chain with the same block are followed by the same blocks.
proof fn lemma_chain_shift(c: Seq<Seq<u8>>, block: int, tys: Seq<ColumnType>, ch: Seq<(int, PageView)>, i: int, j: int, m: int)
    requires
        valid_chain(c, block, tys, ch),
        0 <= i < j,
        0 <= m,
        j + m < ch.len(),
        ch[i].0 == ch[j].0,
    ensures
        ch[i + m] == ch[j + m],
    decreases m,
{
    if m == 0 {
        assert(parse_page(c[ch[i].0], tys) == Some(ch[i].1));
        assert(parse_page(c[ch[j].0], tys) == Some(ch[j].1));
    } else {
        lemma_chain_shift(c, block, tys, ch, i, j, m - 1);
        assert(ch[i + m - 1].1.next == ch[i + m].0);
        assert(ch[j + m - 1].1.next == ch[j + m].0);
        assert(parse_page(c[ch[i + m].0], tys) == Some(ch[i + m].1));
        assert(parse_page(c[ch[j + m].0], tys) == Some(ch[j + m].1));
    }
}

/// The blocks of a valid chain are distinct.
pub proof fn lemma_chain_distinct(c: Seq<Seq<u8>>, block: int, tys: Seq<ColumnType>, ch: Seq<(int, PageView)>)
    requires
        valid_chain(c, block, tys, ch),
    ensures
        forall|i: int, j: int| 0 <= i < ch.len() && 0 <= j < ch.len() && i != j ==> (#[trigger] ch[i]).0 != (#[trigger] ch[j]).0,
{
    assert forall|i: int, j: int| 0 <= i < ch.len() && 0 <= j < ch.len() && i != j implies (#[trigger] ch[i]).0 != (#[trigger] ch[j]).0 by {
        if ch[i].0 == ch[j].0 {
            let (a, b) = if i < j { (i, j) } else { (j, i) };
            let m = ch.len() - 1 - b;
            lemma_chain_shift(c, block, tys, ch, a, b, m);
            assert(ch[a + m].1.next == ch[a + m + 1].0);
            assert(ch[a + m + 1].0 >= 0);
        }
    }
}

/// A heap table: an insert-only chain of pages of tuples of one schema, identified by the
/// block of its first page.
#[derive(Debug)]
pub struct Table {
    pub schema: Schema,
    pub first_block_number: usize,
}

impl Table {
    /// The column types of the table's schema.
    pub open spec fn tys(&self) -> Seq<ColumnType> {
        column_types(self.schema@)
    }

    /// The table whose first page is at `first_block_number`.
    pub fn new(schema: Schema, first_block_number: usize) -> (r: Table)
        ensures
            r.schema@ == schema@,
            r.first_block_number == first_block_number,
    {
        Table { schema, first_block_number }
    }

    /// The pages of the table, in chain order, each read through the pool and unpinned
    /// again. Fails with `Corruption` where the chain is not one of pages of the schema
    /// and with `PoolExhausted` where the pool cannot take a page.
    pub fn pages(&self, pool: &mut BufferPoolManager) -> (r: Result<Vec<TablePage>, DbError>)
        requires
            old(pool).wf(),
        ensures
            final(pool).wf(),
            final(pool).content() == old(pool).content(),
            pins_same(final(pool).frames(), old(pool).frames()),
            r matches Ok(ps) ==> table_pages(old(pool).content(), self.first_block_number as int, self.tys()) matches Some(ch)
                && ps@.len() == ch.len() && forall|i: int| 0 <= i < ch.len() ==> (#[trigger] ps@[i])@ == ch[i].1,
            all_unpinned(old(pool).frames()) && table_pages(old(pool).content(), self.first_block_number as int, self.tys()) is Some ==> r is Ok,
            table_pages(old(pool).content(), self.first_block_number as int, self.tys()) is None ==> r is Err,
            r matches Err(e) ==> e == DbError::Corruption || e == DbError::PoolExhausted,
    {
        let ghost c = pool.content();
        let ghost tys = self.tys();
        let ghost frames0 = pool.frames();
        let len = pool.block_count();
        let mut pages: Vec<TablePage> = Vec::new();
        let ghost mut prefix: Seq<(int, PageView)> = Seq::empty();
        let mut cur: Option<usize> = Some(self.first_block_number);
        let mut steps: usize = 0;
        while cur.is_some()
            invariant
                pool.wf(),
                pool.content() == c,
                c == old(pool).content(),
                frames0 == old(pool).frames(),
                len == c.len(),
                tys == self.tys(),
                pins_same(pool.frames(), frames0),
                steps == prefix.len(),
                steps <= len,
                pages@.len() == prefix.len(),
                forall|i: int| 0 <= i < prefix.len() ==> (#[trigger] pages@[i])@ == prefix[i].1,
                match chain_from(c, match cur { Some(b) => b as int, None => -1 }, tys, (len - steps) as nat) {
                    Some(rest) => table_pages(c, self.first_block_number as int, tys) == Some(prefix + rest),
                    None => table_pages(c, self.first_block_number as int, tys) is None,
                },
            decreases len - steps,
        {
            let b = match cur {
                Some(b) => b,
                None => {
                    assert(false);
                    0
                },
            };
            if steps >= len || b >= len {
                return Err(DbError::Corruption);
            }
            let ghost frames1 = pool.frames();
            let (f, data) = match pool.fetch_page(b) {
                Ok(x) => x,
                Err(e) => {
                    assert(!all_unpinned(frames0)) by {
                        if all_unpinned(frames0) {
                            assert(frames1[0].pin_count == 0);
                            if crate::buffer::resident(frames1, b as int) {
                                let h = crate::buffer::holder(frames1, b as int);
                                assert(frames1[h].pin_count == 0);
                            }
                        }
                    }
                    return Err(e);
                },
            };
            let res = TablePage::deserialize(data.as_slice(), &self.schema);
            pool.unpin_frame(f, false);
            assert(pins_same(pool.frames(), frames0)) by {
                assert forall|i: int| 0 <= i < pool.frames().len() implies (#[trigger] pool.frames()[i]).pin_count == frames0[i].pin_count by {
                    if i != f {
                        assert(pool.frames()[i] == frames1[i]);
                    }
                }
            }
            let page = match res {
                Ok(p) => p,
                Err(e) => {
                    return Err(e);
                },
            };
            let next = page.header.next_block_number;
            proof {
                prefix = prefix.push((b as int, page@));
            }
            pages.push(page);
            steps = steps + 1;
            assert(prefix.take(prefix.len() - 1) == prefix.drop_last());
            if next == -1 {
                cur = None;
            } else if next < 0 {
                return Err(DbError::Corruption);
            } else {
                cur = Some(next as usize);
            }
            proof {
                if let Some(rest) = chain_from(c, next as int, tys, (len - steps) as nat) {
                    assert(prefix.drop_last() + (seq![(b as int, page@)] + rest) =~= prefix + rest);
                }
            }
        }
        assert(prefix + Seq::<(int, PageView)>::empty() =~= prefix);
        Ok(pages)
    }

    /// Creates an empty table: appends one empty page through the pool and unpins it.
    /// Fails with `PoolExhausted` where every frame is pinned.
    pub fn create(pool: &mut BufferPoolManager, schema: Schema) -> (r: Result<Table, DbError>)
        requires
            old(pool).wf(),
        ensures
            final(pool).wf(),
            pins_same(final(pool).frames(), old(pool).frames()),
            r is Ok <==> has_unpinned(old(pool).frames()),
            r is Err ==> final(pool).content() == old(pool).content() && r == Err::<Table, DbError>(DbError::PoolExhausted),
            r matches Ok(t) ==> {
                &&& t.schema@ == schema@
                &&& t.first_block_number == old(pool).content().len()
                &&& final(pool).content() == old(pool).content().push(page_bytes(-1i32, Seq::empty()))
                &&& table_pages(final(pool).content(), t.first_block_number as int, t.tys()) == Some(
                    seq![(t.first_block_number as int, PageView { next: -1i32, tuples: Seq::empty() })],
                )
            },
    {
        let page = TablePage::new();
        assert(page@.tuples =~= Seq::<Seq<ValueView>>::empty());
        let bytes = match page.serialize() {
            Ok(b) => b,
            Err(e) => {
                assert(false);
                return Err(e);
            },
        };
        let ghost frames0 = pool.frames();
        let (b, f, _) = match pool.new_page(bytes.as_slice()) {
            Ok(x) => x,
            Err(e) => {
                return Err(e);
            },
        };
        pool.unpin_frame(f, true);
        assert(pins_same(pool.frames(), frames0)) by {
            assert forall|i: int| 0 <= i < pool.frames().len() implies (#[trigger] pool.frames()[i]).pin_count == frames0[i].pin_count by {
                if i != f {
                    assert(pool.frames()[i] == frames0[i]);
                }
            }
        }
        let ghost tys = column_types(schema@);
        let ghost ep = PageView { next: -1i32, tuples: Seq::empty() };
        proof {
            lemma_page_round_trip(-1i32, Seq::empty(), tys);
            let c = pool.content();
            let ch = seq![(b as int, ep)];
            assert(valid_chain(c, b as int, tys, ch));
            lemma_valid_chain_from(c, b as int, tys, ch, c.len());
        }
        Ok(Table { schema, first_block_number: b })
    }

    /// Inserts `tuple`. Walks the chain from the first page and appends the tuple to the
    /// first page with room; where no page has room, appends a new page holding it and
    /// links the last page to it. At most two pages are pinned at once, and every pin is
    /// released. Fails with `SchemaMismatch` where the tuple does not match the schema,
    /// with `TupleTooLarge` where it does not fit in an empty page, with `Corruption`
    /// where the chain is broken, with `PoolExhausted` where the pool cannot take the
    /// pages, and with `Overflow` where a new block number no longer fits in a page link.
    #[verifier::spinoff_prover]
    #[verifier::rlimit(80)]
    pub fn insert_tuple(&self, pool: &mut BufferPoolManager, tuple: Tuple) -> (r: Result<(), DbError>)
        requires
            old(pool).wf(),
        ensures
            final(pool).wf(),
            pins_same(final(pool).frames(), old(pool).frames()),
            !matches_types(tuple@, self.tys()) ==> r == Err::<(), DbError>(DbError::SchemaMismatch),
            matches_types(tuple@, self.tys()) && !page_fits(seq![tuple@]) ==> r == Err::<(), DbError>(
                DbError::TupleTooLarge,
            ),
            r is Err ==> final(pool).content() == old(pool).content(),
            r matches Err(e) ==> e != DbError::Duplicate,
            old(pool).content().len() <= final(pool).content().len() <= old(pool).content().len() + 1,
            r is Ok ==> matches_types(tuple@, self.tys()),
            r is Ok && table_pages(old(pool).content(), self.first_block_number as int, self.tys()) is Some ==> {
                let ch = table_pages(old(pool).content(), self.first_block_number as int, self.tys())->Some_0;
                &&& table_pages(final(pool).content(), self.first_block_number as int, self.tys()) == Some(
                    chain_after_insert(ch, tuple@, old(pool).content().len() as int),
                )
                &&& old(pool).content().len() <= final(pool).content().len()
                &&& first_fit(ch, tuple@, 0) < ch.len() ==> final(pool).content().len() == old(pool).content().len()
                &&& forall|x: int|
                    0 <= x < old(pool).content().len() && !in_chain(ch, x)
                        ==> #[trigger] final(pool).content()[x] == old(pool).content()[x]
            },
            matches_types(tuple@, self.tys()) && page_fits(seq![tuple@]) && table_pages(
                old(pool).content(),
                self.first_block_number as int,
                self.tys(),
            ) is Some && all_unpinned(old(pool).frames()) && old(pool).content().len() < i32::MAX
                ==> r is Ok,
    {
        let ghost tys = self.tys();
        let ghost t = tuple@;
        if !tuple.matches(&self.schema) {
            return Err(DbError::SchemaMismatch);
        }
        let mut fresh = TablePage::new();
        assert(fresh@.tuples =~= Seq::<Seq<ValueView>>::empty());
        if !fresh.insert_tuple(&tuple) {
            assert(Seq::<Seq<ValueView>>::empty().push(t) =~= seq![t]);
            return Err(DbError::TupleTooLarge);
        }
        assert(fresh@.tuples =~= seq![t]);
        let ghost c = pool.content();
        let ghost frames0 = pool.frames();
        let len = pool.block_count();
        let ghost mut prefix: Seq<(int, PageView)> = Seq::empty();
        let mut block: usize = self.first_block_number;
        let mut steps: usize = 0;
        loop
            invariant
                pool.wf(),
                pool.content() == c,
                c == old(pool).content(),
                frames0 == old(pool).frames(),
                len == c.len(),
                tys == self.tys(),
                t == tuple@,
                matches_types(t, tys),
                fresh@ == (PageView { next: -1i32, tuples: seq![t] }),
                page_fits(seq![t]),
                pins_same(pool.frames(), frames0),
                steps == prefix.len(),
                steps <= len,
                forall|j: int| 0 <= j < prefix.len() ==> !page_fits((#[trigger] prefix[j]).1.tuples.push(t)),
                match chain_from(c, block as int, tys, (len - steps) as nat) {
                    Some(rest) => table_pages(c, self.first_block_number as int, tys) == Some(prefix + rest),
                    None => table_pages(c, self.first_block_number as int, tys) is None,
                },
            decreases len - steps,
        {
            if steps >= len || block >= len {
                return Err(DbError::Corruption);
            }
            let ghost frames1 = pool.frames();
            let (f, data) = match pool.fetch_page(block) {
                Ok(x) => x,
                Err(e) => {
                    assert(!all_unpinned(frames0)) by {
                        if all_unpinned(frames0) {
                            assert(frames1[0].pin_count == 0);
                            if crate::buffer::resident(frames1, block as int) {
                                let h = crate::buffer::holder(frames1, block as int);
                                assert(frames1[h].pin_count == 0);
                            }
                        }
                    }
                    return Err(e);
                },
            };
            let ghost frames2 = pool.frames();
            let mut page = match TablePage::deserialize(data.as_slice(), &self.schema) {
                Ok(p) => p,
                Err(e) => {
                    pool.unpin_frame(f, false);
                    proof {
                        self.lemma_pins_back(frames1, frames2, pool.frames(), f as int, block as int);
                    }
                    return Err(e);
                },
            };
            let ghost p = page@;
            proof {
                lemma_parsed_page_fits(c[block as int], tys);
            }
            if page.insert_tuple(&tuple) {
                let bytes = match page.serialize() {
                    Ok(b) => b,
                    Err(e) => {
                        assert(false);
                        return Err(e);
                    },
                };
                pool.write_frame(f, bytes.as_slice());
                pool.unpin_frame(f, true);
                proof {
                    self.lemma_pins_back(frames1, frames2, pool.frames(), f as int, block as int);
                    lemma_insert_in_place(c, self.first_block_number as int, tys, prefix, block as int, p, t, (len - steps - 1) as nat, bytes@);
                }
                return Ok(());
            }
            if page.header.next_block_number == -1 {
                if len >= 0x7fff_ffffusize {
                    pool.unpin_frame(f, false);
                    proof {
                        self.lemma_pins_back(frames1, frames2, pool.frames(), f as int, block as int);
                    }
                    return Err(DbError::Overflow);
                }
                let nbytes = match fresh.serialize() {
                    Ok(b) => b,
                    Err(e) => {
                        assert(false);
                        return Err(e);
                    },
                };
                let (nb, f2, _) = match pool.new_page(nbytes.as_slice()) {
                    Ok(x) => x,
                    Err(e) => {
                        assert(!all_unpinned(frames0)) by {
                            if all_unpinned(frames0) {
                                let other = if f == 0 { 1int } else { 0int };
                                assert(frames2[other] == frames1[other]);
                                assert(frames2[other].pin_count == 0);
                            }
                        }
                        pool.unpin_frame(f, false);
                        proof {
                            self.lemma_pins_back(frames1, frames2, pool.frames(), f as int, block as int);
                        }
                        return Err(e);
                    },
                };
                let ghost frames3 = pool.frames();
                page.header.next_block_number = nb as i32;
                let mbytes = match page.serialize() {
                    Ok(b) => b,
                    Err(e) => {
                        assert(false);
                        return Err(e);
                    },
                };
                assert(frames3[f as int] == frames2[f as int]);
                pool.write_frame(f, mbytes.as_slice());
                pool.unpin_frame(f, true);
                pool.unpin_frame(f2, true);
                proof {
                    assert forall|i: int| 0 <= i < pool.frames().len() implies (#[trigger] pool.frames()[i]).pin_count == frames0[i].pin_count by {
                        if i != f && i != f2 {
                            assert(pool.frames()[i] == frames1[i]);
                        }
                    }
                    assert(pool.content() == c.push(nbytes@).update(block as int, mbytes@));
                    lemma_insert_append(c, self.first_block_number as int, tys, prefix, block as int, p, t, (len - steps - 1) as nat, nbytes@, mbytes@);
                }
                return Ok(());
            }
            let next = page.header.next_block_number;
            pool.unpin_frame(f, false);
            proof {
                self.lemma_pins_back(frames1, frames2, pool.frames(), f as int, block as int);
            }
            if next < 0 {
                return Err(DbError::Corruption);
            }
            proof {
                if let Some(rest) = chain_from(c, next as int, tys, (len - steps - 1) as nat) {
                    assert(prefix.push((block as int, p)) + rest =~= prefix + (seq![(block as int, p)] + rest));
                }
                prefix = prefix.push((block as int, p));
            }
            block = next as usize;
            steps = steps + 1;
        }
    }

    /// The tuples of the table, page after page, in the order each page holds them.
    /// Fails as `pages` does.
    pub fn tuples(&self, pool: &mut BufferPoolManager) -> (r: Result<Vec<Tuple>, DbError>)
        requires
            old(pool).wf(),
        ensures
            final(pool).wf(),
            final(pool).content() == old(pool).content(),
            pins_same(final(pool).frames(), old(pool).frames()),
            r matches Ok(ts) ==> table_pages(old(pool).content(), self.first_block_number as int, self.tys()) matches Some(ch)
                && ts@.map_values(|t: Tuple| t@) == pages_tuples(ch),
            all_unpinned(old(pool).frames()) && table_pages(old(pool).content(), self.first_block_number as int, self.tys()) is Some ==> r is Ok,
            table_pages(old(pool).content(), self.first_block_number as int, self.tys()) is None ==> r is Err,
            r matches Err(e) ==> e == DbError::Corruption || e == DbError::PoolExhausted,
    {
        let pages = match self.pages(pool) {
            Ok(ps) => ps,
            Err(e) => {
                return Err(e);
            },
        };
        let ghost ch = table_pages(old(pool).content(), self.first_block_number as int, self.tys())->Some_0;
        let mut out: Vec<Tuple> = Vec::new();
        let mut i: usize = 0;
        while i < pages.len()
            invariant
                pages@.len() == ch.len(),
                forall|k: int| 0 <= k < ch.len() ==> (#[trigger] pages@[k])@ == ch[k].1,
                i <= pages@.len(),
                out@.map_values(|t: Tuple| t@) == pages_tuples(ch.take(i as int)),
            decreases pages@.len() - i,
        {
            let page = &pages[i];
            assert(page@ == ch[i as int].1);
            let ghost base = out@.map_values(|t: Tuple| t@);
            let mut j: usize = 0;
            while j < page.tuples.len()
                invariant
                    page@ == ch[i as int].1,
                    j <= page.tuples@.len(),
                    out@.map_values(|t: Tuple| t@) == base + page@.tuples.take(j as int),
                decreases page.tuples@.len() - j,
            {
                let t = page.tuples[j].duplicate();
                let ghost before = out@;
                out.push(t);
                assert(out@.map_values(|t: Tuple| t@) =~= before.map_values(|t: Tuple| t@).push(t@));
                assert(page@.tuples[j as int] == page.tuples@[j as int]@);
                assert(page@.tuples.take(j + 1) =~= page@.tuples.take(j as int).push(t@));
                assert(base + page@.tuples.take(j + 1) =~= (base + page@.tuples.take(j as int)).push(t@));
                j = j + 1;
            }
            assert(page@.tuples.take(page@.tuples.len() as int) =~= page@.tuples);
            assert(ch.take(i + 1).drop_last() =~= ch.take(i as int));
            i = i + 1;
        }
        assert(ch.take(ch.len() as int) =~= ch);
        Ok(out)
    }

    /// One fetch of block `b` into frame `f` followed by one unpin leaves every pin count
    /// as it was.
    proof fn lemma_pins_back(&self, before: Seq<FrameView>, fetched: Seq<FrameView>, after: Seq<FrameView>, f: int, b: int)
        requires
            before.len() == POOL_SIZE,
            fetched.len() == POOL_SIZE,
            0 <= f < POOL_SIZE,
            fetched[f].pin_count > 0,
            if crate::buffer::resident(before, b) {
                fetched[f].pin_count == before[f].pin_count + 1
            } else {
                before[f].pin_count == 0 && fetched[f].pin_count == 1
            },
            forall|i: int| 0 <= i < POOL_SIZE && i != f ==> #[trigger] fetched[i] == before[i],
            after.len() == POOL_SIZE,
            after[f].pin_count == fetched[f].pin_count - 1,
            forall|i: int| 0 <= i < POOL_SIZE && i != f ==> #[trigger] after[i] == fetched[i],
        ensures
            pins_same(after, before),
    {
    }
}

} // verus!
