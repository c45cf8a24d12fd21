use vstd::prelude::*;
use vstd::utf8::encode_utf8;

use crate::buffer::{all_unpinned, pins_same, BufferPoolManager};
use crate::error::DbError;
use crate::storage::page::{page_fits, tuples_bytes, PageView};
use crate::storage::table::{
    chain_after_insert, fill_all, first_fit, in_chain, inserted, lemma_fill_all_in_order, lemma_insert_fill,
    lemma_pages_tuples_flat, page_lists, appends_in_order, lemma_chain_blocks_in_file, lemma_chain_from_valid,
    lemma_chain_stable, lemma_insert_blocks, lemma_insert_inserted, pages_tuples, table_pages, Table,
};
use crate::storage::tuple::{matches_types, tuple_bytes, tuple_fits, Tuple};
use crate::value::{value_bytes, value_fits, Value, ValueView};

verus! {

/// The type of a column.
#[derive(Debug, Clone, Copy, PartialEq, Eq, Structural)]
pub enum ColumnType {
    Int,
    Varchar,
}

/// A named, typed column.
#[derive(Debug, Clone, PartialEq, Eq)]
pub struct Column {
    pub name: String,
    pub column_type: ColumnType,
}

/// An ordered sequence of columns; the order fixes the layout of a tuple.
#[derive(Debug, Clone, PartialEq, Eq)]
pub struct Schema {
    pub columns: Vec<Column>,
}

impl View for Column {
    type V = (Seq<char>, ColumnType);

    open spec fn view(&self) -> (Seq<char>, ColumnType) {
        (self.name@, self.column_type)
    }
}

impl View for Schema {
    type V = Seq<(Seq<char>, ColumnType)>;

    open spec fn view(&self) -> Seq<(Seq<char>, ColumnType)> {
        self.columns@.map_values(|c: Column| c@)
    }
}

/// The column types of a schema, in order.
pub open spec fn column_types(s: Seq<(Seq<char>, ColumnType)>) -> Seq<ColumnType> {
    s.map_values(|c: (Seq<char>, ColumnType)| c.1)
}

/// Whether two columns of the schema share a name.
pub open spec fn has_duplicate_names(s: Seq<(Seq<char>, ColumnType)>) -> bool {
    exists|i: int, j: int| 0 <= i < j < s.len() && (#[trigger] s[i]).0 == (#[trigger] s[j]).0
}

impl Schema {
    /// Whether no two columns share a name.
    pub fn has_unique_names(&self) -> (r: bool)
        ensures
            r == !has_duplicate_names(self@),
    {
        let n = self.columns.len();
        let mut j: usize = 0;
        while j < n
            invariant
                n == self@.len(),
                j <= n,
                forall|a: int, b: int| 0 <= a < b < j ==> (#[trigger] self@[a]).0 != (#[trigger] self@[b]).0,
            decreases n - j,
        {
            let mut i: usize = 0;
            while i < j
                invariant
                    n == self@.len(),
                    i <= j < n,
                    forall|a: int, b: int| 0 <= a < b < j ==> (#[trigger] self@[a]).0 != (#[trigger] self@[b]).0,
                    forall|a: int| 0 <= a < i ==> (#[trigger] self@[a]).0 != self@[j as int].0,
                decreases j - i,
            {
                assert(self@[i as int].0 == self.columns@[i as int].name@);
                assert(self@[j as int].0 == self.columns@[j as int].name@);
                if self.columns[i].name == self.columns[j].name {
                    assert((self@[i as int]).0 == (self@[j as int]).0);
                    return false;
                }
                i = i + 1;
            }
            j = j + 1;
        }
        true
    }

    /// A copy of the schema.
    pub fn duplicate(&self) -> (r: Schema)
        ensures
            r@ == self@,
    {
        let mut columns: Vec<Column> = Vec::new();
        let mut i: usize = 0;
        while i < self.columns.len()
            invariant
                i <= self.columns@.len(),
                columns@.map_values(|c: Column| c@) == self@.take(i as int),
            decreases self.columns@.len() - i,
        {
            let c = Column { name: self.columns[i].name.clone(), column_type: self.columns[i].column_type };
            assert(c@ == self@[i as int]);
            let ghost before = columns@;
            columns.push(c);
            assert(columns@.map_values(|c: Column| c@) =~= before.map_values(|c: Column| c@).push(c@));
            assert(self@.take(i + 1) =~= self@.take(i as int).push(self@[i as int]));
            i = i + 1;
        }
        assert(self@.take(self@.len() as int) =~= self@);
        Schema { columns }
    }
}

/// The block of the first page of the header table.
pub const HEADER_FIRST_BLOCK_NUMBER: usize = 0;
/// The block of the first page of the table of tables.
pub const CATALOG_TABLE_FIRST_BLOCK_NUMBER: usize = 1;
/// The block of the first page of the table of columns.
pub const CATALOG_ATTRIBUTE_FIRST_BLOCK_NUMBER: usize = 2;
/// The object id of the header table.
pub const HEADER_OID: i32 = 0;
/// The object id of the table of tables.
pub const CATALOG_TABLE_OID: i32 = 1;
/// The object id of the table of columns.
pub const CATALOG_ATTRIBUTE_OID: i32 = 2;

/// The column types of the header table: object id and first block number.
pub open spec fn header_tys() -> Seq<ColumnType> {
    seq![ColumnType::Int, ColumnType::Int]
}

/// The column types of the table of tables: object id and name.
pub open spec fn tables_tys() -> Seq<ColumnType> {
    seq![ColumnType::Int, ColumnType::Varchar]
}

/// The column types of the table of columns: object id, column name and type name.
pub open spec fn attributes_tys() -> Seq<ColumnType> {
    seq![ColumnType::Int, ColumnType::Varchar, ColumnType::Varchar]
}

/// The rows of the table whose first page is at `block`, where its chain is sound.
pub open spec fn rows_of(c: Seq<Seq<u8>>, block: int, tys: Seq<ColumnType>) -> Option<Seq<Seq<ValueView>>> {
    match table_pages(c, block, tys) {
        Some(ch) => Some(pages_tuples(ch)),
        None => None,
    }
}

/// The object id of the first row of the table of tables that names `name`.
pub open spec fn find_oid(rows: Seq<Seq<ValueView>>, name: Seq<char>) -> Option<i32>
    decreases rows.len(),
{
    if rows.len() == 0 {
        None
    } else if rows[0].len() > 1 && rows[0][1] == ValueView::Varchar(name) && rows[0][0] is Int {
        Some(rows[0][0]->Int_0)
    } else {
        find_oid(rows.drop_first(), name)
    }
}

/// The first block number that the first header row of object `oid` records.
pub open spec fn find_block(rows: Seq<Seq<ValueView>>, oid: i32) -> Option<i32>
    decreases rows.len(),
{
    if rows.len() == 0 {
        None
    } else if rows[0].len() > 1 && rows[0][0] == ValueView::Int(oid) && rows[0][1] is Int {
        Some(rows[0][1]->Int_0)
    } else {
        find_block(rows.drop_first(), oid)
    }
}

/// The column type that a type name stands for: `int` or `varchar`.
pub open spec fn type_of_name(s: Seq<char>) -> Option<ColumnType> {
    if s == seq!['i', 'n', 't'] {
        Some(ColumnType::Int)
    } else if s == seq!['v', 'a', 'r', 'c', 'h', 'a', 'r'] {
        Some(ColumnType::Varchar)
    } else {
        None
    }
}

/// The name under which a column type is stored.
pub open spec fn name_of_type(t: ColumnType) -> Seq<char> {
    match t {
        ColumnType::Int => seq!['i', 'n', 't'],
        ColumnType::Varchar => seq!['v', 'a', 'r', 'c', 'h', 'a', 'r'],
    }
}

/// The columns that the rows of the table of columns record for object `oid`, in storage
/// order; `None` where one of them names an unknown type.
pub open spec fn columns_of(rows: Seq<Seq<ValueView>>, oid: i32) -> Option<Seq<(Seq<char>, ColumnType)>>
    decreases rows.len(),
{
    if rows.len() == 0 {
        Some(Seq::empty())
    } else {
        match columns_of(rows.drop_last(), oid) {
            None => None,
            Some(cs) => {
                let r = rows.last();
                if r.len() > 2 && r[0] == ValueView::Int(oid) && r[1] is Varchar && r[2] is Varchar {
                    match type_of_name(r[2]->Varchar_0) {
                        Some(t) => Some(cs.push((r[1]->Varchar_0, t))),
                        None => None,
                    }
                } else {
                    Some(cs)
                }
            },
        }
    }
}

/// Once a column names an unknown type, reading more rows does not mend it.
pub proof fn lemma_columns_of_none(rows: Seq<Seq<ValueView>>, oid: i32, k: int, k2: int)
    requires
        0 <= k <= k2 <= rows.len(),
        columns_of(rows.take(k), oid) is None,
    ensures
        columns_of(rows.take(k2), oid) is None,
    decreases k2,
{
    if k < k2 {
        lemma_columns_of_none(rows, oid, k, k2 - 1);
        assert(rows.take(k2).drop_last() =~= rows.take(k2 - 1));
    }
}

/// The largest object id that the header rows record, and at least 0.
pub open spec fn max_oid(rows: Seq<Seq<ValueView>>) -> int
    decreases rows.len(),
{
    if rows.len() == 0 {
        0
    } else {
        let m = max_oid(rows.drop_last());
        let r = rows.last();
        if r.len() > 0 && r[0] is Int && r[0]->Int_0 > m {
            r[0]->Int_0 as int
        } else {
            m
        }
    }
}

/// The row of the table of tables that records table `name` under `oid`.
pub open spec fn table_row(oid: i32, name: Seq<char>) -> Seq<ValueView> {
    seq![ValueView::Int(oid), ValueView::Varchar(name)]
}

/// The rows of the table of columns that record the columns of `s` under `oid`, in
/// order.
pub open spec fn attribute_rows(oid: i32, s: Seq<(Seq<char>, ColumnType)>) -> Seq<Seq<ValueView>> {
    s.map_values(
        |c: (Seq<char>, ColumnType)|
            seq![ValueView::Int(oid), ValueView::Varchar(c.0), ValueView::Varchar(name_of_type(c.1))],
    )
}

/// Whether no row of `rows` is recorded under `oid`.
pub open spec fn oid_unused(rows: Seq<Seq<ValueView>>, oid: i32) -> bool {
    forall|i: int| 0 <= i < rows.len() && (#[trigger] rows[i]).len() > 0 ==> rows[i][0] != ValueView::Int(oid)
}

proof fn lemma_find_oid_inserted(tables: Seq<Seq<ValueView>>, name: Seq<char>, oid: i32, i: int)
    requires
        find_oid(tables, name) is None,
        0 <= i <= tables.len(),
    ensures
        find_oid(tables.insert(i, table_row(oid, name)), name) == Some(oid),
    decreases tables.len(),
{
    let t2 = tables.insert(i, table_row(oid, name));
    if i > 0 {
        assert(t2[0] == tables[0]);
        assert(t2.drop_first() =~= tables.drop_first().insert(i - 1, table_row(oid, name)));
        lemma_find_oid_inserted(tables.drop_first(), name, oid, i - 1);
    } else {
        assert(t2[0] == table_row(oid, name));
    }
}

proof fn lemma_columns_of_unused(rows: Seq<Seq<ValueView>>, oid: i32)
    requires
        oid_unused(rows, oid),
    ensures
        columns_of(rows, oid) == Some(Seq::<(Seq<char>, ColumnType)>::empty()),
    decreases rows.len(),
{
    if rows.len() > 0 {
        let d = rows.drop_last();
        assert forall|i: int| 0 <= i < d.len() && (#[trigger] d[i]).len() > 0 implies d[i][0] != ValueView::Int(oid) by {
            assert(d[i] == rows[i]);
        }
        lemma_columns_of_unused(d, oid);
        assert(rows.last() == rows[rows.len() - 1]);
    }
}

proof fn lemma_columns_of_appended(attrs: Seq<Seq<ValueView>>, oid: i32, s: Seq<(Seq<char>, ColumnType)>, k: int)
    requires
        oid_unused(attrs, oid),
        0 <= k <= s.len(),
    ensures
        columns_of(attrs + attribute_rows(oid, s).take(k), oid) == Some(s.take(k)),
    decreases k,
{
    let rs = attribute_rows(oid, s);
    if k == 0 {
        assert(attrs + rs.take(0) =~= attrs);
        assert(s.take(0) =~= Seq::<(Seq<char>, ColumnType)>::empty());
        lemma_columns_of_unused(attrs, oid);
    } else {
        lemma_columns_of_appended(attrs, oid, s, k - 1);
        let all = attrs + rs.take(k);
        assert(all.drop_last() =~= attrs + rs.take(k - 1));
        assert(all.last() == rs[k - 1]);
        let c = s[k - 1];
        assert(type_of_name(name_of_type(c.1)) == Some(c.1));
        assert(s.take(k) =~= s.take(k - 1).push((c.0, c.1)));
    }
}

/// A table recorded under a name not taken yet, with a row inserted anywhere in the
/// table of tables, is found under that name; where its column rows, under an object id
/// that no column row uses yet, follow the existing ones in order, its columns are read
/// back as they were given.
pub proof fn lemma_created_table_found(
    tables: Seq<Seq<ValueView>>,
    tables2: Seq<Seq<ValueView>>,
    attrs: Seq<Seq<ValueView>>,
    name: Seq<char>,
    oid: i32,
    s: Seq<(Seq<char>, ColumnType)>,
)
    requires
        find_oid(tables, name) is None,
        inserted(tables, tables2, table_row(oid, name)),
        oid_unused(attrs, oid),
    ensures
        find_oid(tables2, name) == Some(oid),
        columns_of(attrs + attribute_rows(oid, s), oid) == Some(s),
{
    let i = choose|i: int| 0 <= i <= tables.len() && tables2 == tables.insert(i, table_row(oid, name));
    lemma_find_oid_inserted(tables, name, oid, i);
    lemma_columns_of_appended(attrs, oid, s, s.len() as int);
    assert(attribute_rows(oid, s).take(s.len() as int) =~= attribute_rows(oid, s));
    assert(s.take(s.len() as int) =~= s);
}

/// The column types of catalog table `w`: 0 the header, 1 the table of tables, 2 the
/// table of columns; each table's first page is at the block of its number.
pub open spec fn catalog_tys(w: int) -> Seq<ColumnType> {
    if w == 0 {
        header_tys()
    } else if w == 1 {
        tables_tys()
    } else {
        attributes_tys()
    }
}

/// The chain of pages of catalog table `w`.
pub open spec fn catalog_chain(c: Seq<Seq<u8>>, w: int) -> Seq<(int, PageView)> {
    table_pages(c, w, catalog_tys(w))->Some_0
}

/// Whether block `x` holds a page of one of the three catalog tables.
pub open spec fn in_catalog(c: Seq<Seq<u8>>, x: int) -> bool {
    in_chain(catalog_chain(c, 0), x) || in_chain(catalog_chain(c, 1), x) || in_chain(catalog_chain(c, 2), x)
}

/// Whether the three catalog tables are sound chains of pages that share no block.
pub open spec fn catalog_sound(c: Seq<Seq<u8>>) -> bool {
    &&& forall|w: int| 0 <= w < 3 ==> #[trigger] table_pages(c, w, catalog_tys(w)) is Some
    &&& forall|w: int, v: int, x: int|
        0 <= w < 3 && 0 <= v < 3 && w != v && #[trigger] in_chain(catalog_chain(c, w), x) ==> !#[trigger] in_chain(
            catalog_chain(c, v),
            x,
        )
}

/// The header rows of a new catalog.
pub open spec fn initial_header_rows() -> Seq<Seq<ValueView>> {
    seq![header_row(0, 0), header_row(1, 1), header_row(2, 2)]
}

/// The rows of the table of tables of a new catalog.
pub open spec fn initial_table_rows() -> Seq<Seq<ValueView>> {
    seq![table_row(1, "catalog_tables"@), table_row(2, "catalog_attributes"@)]
}

/// The row of the table of columns that records a column under `oid`.
pub open spec fn attribute_row(oid: i32, name: Seq<char>, stored_type: Seq<char>) -> Seq<ValueView> {
    seq![ValueView::Int(oid), ValueView::Varchar(name), ValueView::Varchar(stored_type)]
}

/// The rows of the table of columns of a new catalog.
pub open spec fn initial_attribute_rows() -> Seq<Seq<ValueView>> {
    seq![
        attribute_row(1, "object_id"@, "int"@),
        attribute_row(1, "name"@, "varchar"@),
        attribute_row(2, "object_id"@, "int"@),
        attribute_row(2, "name"@, "varchar"@),
        attribute_row(2, "type"@, "varchar"@),
    ]
}

/// Whether `c1` is the sound catalog `c0` after recording table `name` of columns `s`
/// under `oid`, its first page at the end of `c0`: one row inserted into the table of
/// tables, one into the header, and one per column, in order, into the table of columns, each
/// into the first page with room.
pub open spec fn table_created(
    c0: Seq<Seq<u8>>,
    c1: Seq<Seq<u8>>,
    oid: i32,
    name: Seq<char>,
    s: Seq<(Seq<char>, ColumnType)>,
) -> bool {
    &&& catalog_sound(c1)
    &&& inserted(pages_tuples(catalog_chain(c0, 1)), pages_tuples(catalog_chain(c1, 1)), table_row(oid, name))
    &&& inserted(pages_tuples(catalog_chain(c0, 0)), pages_tuples(catalog_chain(c1, 0)), header_row(oid, c0.len() as i32))
    &&& page_lists(catalog_chain(c1, 2)) == fill_all(page_lists(catalog_chain(c0, 2)), attribute_rows(oid, s))
}

/// Whether each row that recording table `name` of columns `s` under `oid`, first page
/// at block `first`, inserts fits in an empty page.
pub open spec fn rows_fit(oid: i32, name: Seq<char>, s: Seq<(Seq<char>, ColumnType)>, first: int) -> bool {
    &&& page_fits(seq![table_row(oid, name)])
    &&& page_fits(seq![header_row(oid, first as i32)])
    &&& forall|i: int| 0 <= i < s.len() ==> page_fits(seq![#[trigger] attribute_rows(oid, s)[i]])
}

/// The first block and the column types that the catalog records for the table named
/// `name`, as `get_first_block_number` and `get_schema` read them.
pub open spec fn table_target(c: Seq<Seq<u8>>, name: Seq<char>) -> Option<(int, Seq<(Seq<char>, ColumnType)>)> {
    match rows_of(c, CATALOG_TABLE_FIRST_BLOCK_NUMBER as int, tables_tys()) {
        None => None,
        Some(tables) => match find_oid(tables, name) {
            None => None,
            Some(oid) => match (
                rows_of(c, CATALOG_ATTRIBUTE_FIRST_BLOCK_NUMBER as int, attributes_tys()),
                rows_of(c, HEADER_FIRST_BLOCK_NUMBER as int, header_tys()),
            ) {
                (Some(attrs), Some(header)) => match (columns_of(attrs, oid), find_block(header, oid)) {
                    (Some(cs), Some(b)) => Some(((#[verifier::truncate] (b as usize)) as int, cs)),
                    _ => None,
                },
                _ => None,
            },
        },
    }
}

/// The UTF-8 encoding of a string takes at most four bytes per character.
proof fn lemma_encode_len(s: Seq<char>)
    ensures
        encode_utf8(s).len() <= 4 * s.len(),
    decreases s.len(),
{
    if s.len() > 0 {
        lemma_encode_len(s.drop_first());
    }
}

/// Whether `r` is a row of at most three values, strings of at most 18 characters.
pub open spec fn small_row(r: Seq<ValueView>) -> bool {
    &&& r.len() <= 3
    &&& forall|i: int| 0 <= i < r.len() ==> match #[trigger] r[i] {
        ValueView::Int(_) => true,
        ValueView::Varchar(s) => s.len() <= 18,
    }
}

proof fn lemma_small_row_bytes(r: Seq<ValueView>)
    requires
        small_row(r),
    ensures
        tuple_fits(r),
        tuple_bytes(r).len() <= 76 * r.len(),
    decreases r.len(),
{
    if r.len() > 0 {
        let d = r.drop_last();
        assert forall|i: int| 0 <= i < d.len() implies match #[trigger] d[i] {
            ValueView::Int(_) => true,
            ValueView::Varchar(s) => s.len() <= 18,
        } by {
            assert(d[i] == r[i]);
        }
        lemma_small_row_bytes(d);
        let v = r.last();
        assert(r[r.len() - 1] == v);
        if let ValueView::Varchar(s) = v {
            lemma_encode_len(s);
        }
        assert forall|i: int| 0 <= i < r.len() implies value_fits(#[trigger] r[i]) by {
            if i < r.len() - 1 {
                assert(r[i] == d[i]);
            }
        }
    }
}

/// At most five small rows fit in one page.
proof fn lemma_small_rows_fit(ts: Seq<Seq<ValueView>>)
    requires
        ts.len() <= 5,
        forall|i: int| 0 <= i < ts.len() ==> small_row(#[trigger] ts[i]),
    ensures
        page_fits(ts),
    decreases ts.len(),
{
    lemma_small_rows_bytes(ts);
    assert forall|i: int| 0 <= i < ts.len() implies tuple_fits(#[trigger] ts[i]) by {
        lemma_small_row_bytes(ts[i]);
    }
}

proof fn lemma_small_rows_bytes(ts: Seq<Seq<ValueView>>)
    requires
        forall|i: int| 0 <= i < ts.len() ==> small_row(#[trigger] ts[i]),
    ensures
        tuples_bytes(ts).len() <= 228 * ts.len(),
    decreases ts.len(),
{
    if ts.len() > 0 {
        let d = ts.drop_last();
        assert forall|i: int| 0 <= i < d.len() implies small_row(#[trigger] d[i]) by {
            assert(d[i] == ts[i]);
        }
        lemma_small_rows_bytes(d);
        assert(ts[ts.len() - 1] == ts.last());
        lemma_small_row_bytes(ts.last());
    }
}

/// The rows of a new catalog are small.
proof fn lemma_initial_rows_small()
    ensures
        forall|i: int| 0 <= i < initial_header_rows().len() ==> small_row(#[trigger] initial_header_rows()[i]),
        forall|i: int| 0 <= i < initial_table_rows().len() ==> small_row(#[trigger] initial_table_rows()[i]),
        forall|i: int| 0 <= i < initial_attribute_rows().len() ==> small_row(#[trigger] initial_attribute_rows()[i]),
{
    reveal_strlit("catalog_tables");
    reveal_strlit("catalog_attributes");
    reveal_strlit("object_id");
    reveal_strlit("name");
    reveal_strlit("type");
    reveal_strlit("int");
    reveal_strlit("varchar");
    assert forall|i: int| 0 <= i < initial_header_rows().len() implies small_row(#[trigger] initial_header_rows()[i]) by {
        let r = initial_header_rows()[i];
        assert forall|j: int| 0 <= j < r.len() implies match #[trigger] r[j] {
            ValueView::Int(_) => true,
            ValueView::Varchar(s) => s.len() <= 18,
        } by {}
    }
    assert forall|i: int| 0 <= i < initial_table_rows().len() implies small_row(#[trigger] initial_table_rows()[i]) by {
        let r = initial_table_rows()[i];
        assert forall|j: int| 0 <= j < r.len() implies match #[trigger] r[j] {
            ValueView::Int(_) => true,
            ValueView::Varchar(s) => s.len() <= 18,
        } by {}
    }
    assert forall|i: int| 0 <= i < initial_attribute_rows().len() implies small_row(#[trigger] initial_attribute_rows()[i]) by {
        let r = initial_attribute_rows()[i];
        assert forall|j: int| 0 <= j < r.len() implies match #[trigger] r[j] {
            ValueView::Int(_) => true,
            ValueView::Varchar(s) => s.len() <= 18,
        } by {}
    }
}

/// Where the first `k + 1` rows fit in one page, inserting row `k` into the page that
/// holds the first `k` rows leaves one page holding the first `k + 1`.
proof fn lemma_single_page_insert(b: int, rows: Seq<Seq<ValueView>>, k: int, nb: int)
    requires
        0 <= k < rows.len(),
        page_fits(rows.take(k + 1)),
    ensures
        first_fit(seq![(b, PageView { next: -1i32, tuples: rows.take(k) })], rows[k], 0) == 0,
        chain_after_insert(seq![(b, PageView { next: -1i32, tuples: rows.take(k) })], rows[k], nb) == seq![
            (b, PageView { next: -1i32, tuples: rows.take(k + 1) }),
        ],
{
    let ch = seq![(b, PageView { next: -1i32, tuples: rows.take(k) })];
    assert(rows.take(k).push(rows[k]) =~= rows.take(k + 1));
    assert(ch[0].1.tuples.push(rows[k]) == rows.take(k + 1));
    assert(first_fit(ch, rows[k], 0) == 0);
    assert(chain_after_insert(ch, rows[k], nb) =~= seq![(b, PageView { next: -1i32, tuples: rows.take(k + 1) })]);
}

/// The tuples of a chain of one page are that page's.
proof fn lemma_single_page_tuples(b: int, p: PageView)
    ensures
        pages_tuples(seq![(b, p)]) == p.tuples,
{
    let ch = seq![(b, p)];
    assert(ch.drop_last() =~= Seq::<(int, PageView)>::empty());
    assert(pages_tuples(ch.drop_last()) == Seq::<Seq<ValueView>>::empty());
    assert(pages_tuples(ch) =~= p.tuples);
}

/// The header row that records the first block `b` of object `oid`.
pub open spec fn header_row(oid: i32, b: i32) -> Seq<ValueView> {
    seq![ValueView::Int(oid), ValueView::Int(b)]
}

/// Appending a block keeps a sound catalog and its chains.
proof fn lemma_sound_after_push(c: Seq<Seq<u8>>, page: Seq<u8>)
    requires
        catalog_sound(c),
    ensures
        catalog_sound(c.push(page)),
        forall|w: int| 0 <= w < 3 ==> #[trigger] table_pages(c.push(page), w, catalog_tys(w)) == table_pages(c, w, catalog_tys(w)),
{
    assert forall|w: int| 0 <= w < 3 implies #[trigger] table_pages(c.push(page), w, catalog_tys(w)) == table_pages(c, w, catalog_tys(w)) by {
        assert(table_pages(c, w, catalog_tys(w)) is Some);
        lemma_chain_stable(c, c.push(page), w, catalog_tys(w));
    }
    assert forall|w: int, v: int, x: int|
        0 <= w < 3 && 0 <= v < 3 && w != v && #[trigger] in_chain(catalog_chain(c.push(page), w), x) implies !#[trigger] in_chain(
            catalog_chain(c.push(page), v),
            x,
        ) by {
        assert(catalog_chain(c.push(page), w) == catalog_chain(c, w));
        assert(catalog_chain(c.push(page), v) == catalog_chain(c, v));
    }
}

/// Inserting into catalog table `w` keeps a sound catalog, leaves the other two tables'
/// chains as they were, and inserts the row once among `w`'s rows.
proof fn lemma_sound_after_insert(c: Seq<Seq<u8>>, c2: Seq<Seq<u8>>, w: int, t: Seq<ValueView>)
    requires
        catalog_sound(c),
        0 <= w < 3,
        table_pages(c2, w, catalog_tys(w)) == Some(chain_after_insert(catalog_chain(c, w), t, c.len() as int)),
        c.len() <= c2.len(),
        forall|x: int| 0 <= x < c.len() && !in_chain(catalog_chain(c, w), x) ==> #[trigger] c2[x] == c[x],
    ensures
        catalog_sound(c2),
        forall|v: int| 0 <= v < 3 && v != w ==> #[trigger] table_pages(c2, v, catalog_tys(v)) == table_pages(c, v, catalog_tys(v)),
        inserted(pages_tuples(catalog_chain(c, w)), pages_tuples(catalog_chain(c2, w)), t),
        forall|x: int| 0 <= x < c.len() && !in_catalog(c, x) ==> #[trigger] c2[x] == c[x],
        forall|x: int| #[trigger] in_catalog(c2, x) ==> in_catalog(c, x) || x >= c.len(),
{
    assert(table_pages(c, w, catalog_tys(w)) is Some);
    lemma_chain_from_valid(c, w, catalog_tys(w), c.len());
    lemma_insert_inserted(catalog_chain(c, w), t, c.len() as int);
    assert forall|v: int| 0 <= v < 3 && v != w implies #[trigger] table_pages(c2, v, catalog_tys(v)) == table_pages(c, v, catalog_tys(v)) by {
        assert(table_pages(c, v, catalog_tys(v)) is Some);
        assert forall|x: int| 0 <= x < c.len() && in_chain(table_pages(c, v, catalog_tys(v))->Some_0, x) implies #[trigger] c2[x] == c[x] by {
            assert(in_chain(catalog_chain(c, v), x));
            if in_chain(catalog_chain(c, w), x) {
                assert(!in_chain(catalog_chain(c, v), x));
            }
        }
        lemma_chain_stable(c, c2, v, catalog_tys(v));
    }
    assert forall|a: int, b: int, x: int|
        0 <= a < 3 && 0 <= b < 3 && a != b && #[trigger] in_chain(catalog_chain(c2, a), x) implies !#[trigger] in_chain(
            catalog_chain(c2, b),
            x,
        ) by {
        if in_chain(catalog_chain(c2, b), x) {
            let after = chain_after_insert(catalog_chain(c, w), t, c.len() as int);
            assert(catalog_chain(c2, w) == after);
            if a == w {
                lemma_insert_blocks(catalog_chain(c, w), t, c.len() as int, x);
                assert(catalog_chain(c2, b) == catalog_chain(c, b));
                assert(in_chain(catalog_chain(c, b), x));
                lemma_chain_blocks_in_file(c, b, catalog_tys(b), x);
                if in_chain(catalog_chain(c, w), x) {
                    assert(!in_chain(catalog_chain(c, b), x));
                }
            } else if b == w {
                lemma_insert_blocks(catalog_chain(c, w), t, c.len() as int, x);
                assert(catalog_chain(c2, a) == catalog_chain(c, a));
                assert(in_chain(catalog_chain(c, a), x));
                lemma_chain_blocks_in_file(c, a, catalog_tys(a), x);
                if in_chain(catalog_chain(c, w), x) {
                    assert(!in_chain(catalog_chain(c, a), x));
                }
            } else {
                assert(catalog_chain(c2, a) == catalog_chain(c, a));
                assert(catalog_chain(c2, b) == catalog_chain(c, b));
                assert(in_chain(catalog_chain(c, a), x));
                assert(!in_chain(catalog_chain(c, b), x));
            }
        }
    }
    assert forall|v: int| 0 <= v < 3 implies #[trigger] table_pages(c2, v, catalog_tys(v)) is Some by {
        if v != w {
            assert(table_pages(c, v, catalog_tys(v)) is Some);
        }
    }
    assert forall|x: int| #[trigger] in_catalog(c2, x) implies in_catalog(c, x) || x >= c.len() by {
        if in_chain(catalog_chain(c2, w), x) {
            lemma_insert_blocks(catalog_chain(c, w), t, c.len() as int, x);
        }
        let o1 = if w == 0 { 1int } else { 0int };
        let o2 = if w == 2 { 1int } else { 2int };
        assert(table_pages(c2, o1, catalog_tys(o1)) == table_pages(c, o1, catalog_tys(o1)));
        assert(table_pages(c2, o2, catalog_tys(o2)) == table_pages(c, o2, catalog_tys(o2)));
    }
}

/// Creating a table and then reading its schema gives the schema it was created with:
/// where `create_table` recorded table `name` under an object id that no column row of
/// the old catalog uses, and each of its column rows went, by first fit, into the last
/// page of the table of columns or a new page after it, the catalog finds the table under
/// its name and reads back exactly its columns.
pub proof fn lemma_create_then_get_schema(
    c0: Seq<Seq<u8>>,
    c1: Seq<Seq<u8>>,
    oid: i32,
    name: Seq<char>,
    s: Seq<(Seq<char>, ColumnType)>,
)
    requires
        catalog_sound(c0),
        table_created(c0, c1, oid, name, s),
        find_oid(pages_tuples(catalog_chain(c0, 1)), name) is None,
        oid_unused(pages_tuples(catalog_chain(c0, 2)), oid),
        appends_in_order(page_lists(catalog_chain(c0, 2)), attribute_rows(oid, s)),
    ensures
        rows_of(c1, CATALOG_TABLE_FIRST_BLOCK_NUMBER as int, tables_tys()) matches Some(tables)
            && find_oid(tables, name) == Some(oid),
        rows_of(c1, CATALOG_ATTRIBUTE_FIRST_BLOCK_NUMBER as int, attributes_tys()) matches Some(attrs)
            && columns_of(attrs, oid) == Some(s),
{
    assert(table_pages(c0, 2, catalog_tys(2)) is Some);
    assert(table_pages(c1, 1, catalog_tys(1)) is Some);
    assert(table_pages(c1, 2, catalog_tys(2)) is Some);
    lemma_chain_from_valid(c0, 2, catalog_tys(2), c0.len());
    let p0 = page_lists(catalog_chain(c0, 2));
    let rows = attribute_rows(oid, s);
    lemma_fill_all_in_order(p0, rows);
    lemma_pages_tuples_flat(catalog_chain(c0, 2));
    lemma_pages_tuples_flat(catalog_chain(c1, 2));
    assert(pages_tuples(catalog_chain(c1, 2)) == pages_tuples(catalog_chain(c0, 2)) + rows);
    lemma_created_table_found(
        pages_tuples(catalog_chain(c0, 1)),
        pages_tuples(catalog_chain(c1, 1)),
        pages_tuples(catalog_chain(c0, 2)),
        name,
        oid,
        s,
    );
}

/// The schemas of the three catalog tables.
#[derive(Debug)]
struct CatalogSchemaMap {
    header: Schema,
    catalog_table: Schema,
    catalog_attribute: Schema,
}

impl CatalogSchemaMap {
    spec fn wf(&self) -> bool {
        &&& self.header@ == seq![("object_id"@, ColumnType::Int), ("first_block_number"@, ColumnType::Int)]
        &&& self.catalog_table@ == seq![("object_id"@, ColumnType::Int), ("name"@, ColumnType::Varchar)]
        &&& self.catalog_attribute@ == seq![
            ("object_id"@, ColumnType::Int),
            ("name"@, ColumnType::Varchar),
            ("type"@, ColumnType::Varchar),
        ]
        &&& column_types(self.header@) == header_tys()
        &&& column_types(self.catalog_table@) == tables_tys()
        &&& column_types(self.catalog_attribute@) == attributes_tys()
    }

    fn new() -> (r: CatalogSchemaMap)
        ensures
            r.wf(),
    {
        let r = CatalogSchemaMap {
            header: Schema {
                columns: vec![
                    Column { name: "object_id".to_owned(), column_type: ColumnType::Int },
                    Column { name: "first_block_number".to_owned(), column_type: ColumnType::Int },
                ],
            },
            catalog_table: Schema {
                columns: vec![
                    Column { name: "object_id".to_owned(), column_type: ColumnType::Int },
                    Column { name: "name".to_owned(), column_type: ColumnType::Varchar },
                ],
            },
            catalog_attribute: Schema {
                columns: vec![
                    Column { name: "object_id".to_owned(), column_type: ColumnType::Int },
                    Column { name: "name".to_owned(), column_type: ColumnType::Varchar },
                    Column { name: "type".to_owned(), column_type: ColumnType::Varchar },
                ],
            },
        };
        assert(r.header@ =~= seq![("object_id"@, ColumnType::Int), ("first_block_number"@, ColumnType::Int)]);
        assert(r.catalog_table@ =~= seq![("object_id"@, ColumnType::Int), ("name"@, ColumnType::Varchar)]);
        assert(r.catalog_attribute@ =~= seq![
            ("object_id"@, ColumnType::Int),
            ("name"@, ColumnType::Varchar),
            ("type"@, ColumnType::Varchar),
        ]);
        assert(column_types(r.header@) =~= header_tys());
        assert(column_types(r.catalog_table@) =~= tables_tys());
        assert(column_types(r.catalog_attribute@) =~= attributes_tys());
        r
    }
}

/// The system catalog: three heap tables at fixed blocks that record every table's
/// object id, name, first block and columns, and a counter of object ids.
#[derive(Debug)]
pub struct Catalog {
    catalog_schema_map: CatalogSchemaMap,
    oid_counter: usize,
}

impl Catalog {
    /// The last object id handed out.
    pub closed spec fn oid(&self) -> nat {
        self.oid_counter as nat
    }

    /// The catalog tables' schemas are the fixed ones.
    pub closed spec fn wf(&self) -> bool {
        self.catalog_schema_map.wf()
    }

    /// A catalog whose counter has handed out no object id yet.
    pub fn new() -> (r: Catalog)
        ensures
            r.wf(),
            r.oid() == 0,
    {
        Catalog { catalog_schema_map: CatalogSchemaMap::new(), oid_counter: 0 }
    }

    /// The last object id handed out.
    pub fn oid_counter(&self) -> (r: usize)
        ensures
            r == self.oid(),
    {
        self.oid_counter
    }

    /// The rows of one catalog table.
    fn rows(&self, pool: &mut BufferPoolManager, schema: &Schema, block: usize) -> (r: Result<Vec<Tuple>, DbError>)
        requires
            old(pool).wf(),
        ensures
            final(pool).wf(),
            final(pool).content() == old(pool).content(),
            pins_same(final(pool).frames(), old(pool).frames()),
            r matches Ok(ts) ==> rows_of(old(pool).content(), block as int, column_types(schema@)) == Some(
                ts@.map_values(|t: Tuple| t@),
            ),
            all_unpinned(old(pool).frames()) && rows_of(old(pool).content(), block as int, column_types(schema@)) is Some
                ==> r is Ok,
            rows_of(old(pool).content(), block as int, column_types(schema@)) is None ==> r is Err,
            r matches Err(e) ==> e != DbError::Duplicate,
    {
        let table = Table::new(schema.duplicate(), block);
        table.tuples(pool)
    }

    /// The object id of the first table named `table_name` in the table of tables.
    fn lookup_oid(&self, pool: &mut BufferPoolManager, table_name: &str) -> (r: Result<Option<i32>, DbError>)
        requires
            old(pool).wf(),
            self.wf(),
        ensures
            final(pool).wf(),
            final(pool).content() == old(pool).content(),
            pins_same(final(pool).frames(), old(pool).frames()),
            r matches Ok(o) ==> rows_of(old(pool).content(), CATALOG_TABLE_FIRST_BLOCK_NUMBER as int, tables_tys()) matches Some(rows)
                && o == find_oid(rows, table_name@),
            all_unpinned(old(pool).frames()) && rows_of(old(pool).content(), CATALOG_TABLE_FIRST_BLOCK_NUMBER as int, tables_tys()) is Some
                ==> r is Ok,
            rows_of(old(pool).content(), CATALOG_TABLE_FIRST_BLOCK_NUMBER as int, tables_tys()) is None ==> r is Err,
            r matches Err(e) ==> e != DbError::Duplicate,
    {
        let rows = match self.rows(pool, &self.catalog_schema_map.catalog_table, CATALOG_TABLE_FIRST_BLOCK_NUMBER) {
            Ok(rows) => rows,
            Err(e) => {
                return Err(e);
            },
        };
        let ghost rv = rows@.map_values(|t: Tuple| t@);
        let name = table_name.to_owned();
        let mut i: usize = 0;
        assert(rv.skip(0) =~= rv);
        while i < rows.len()
            invariant
                pool.wf(),
                pool.content() == old(pool).content(),
                pins_same(pool.frames(), old(pool).frames()),
                rows_of(old(pool).content(), CATALOG_TABLE_FIRST_BLOCK_NUMBER as int, tables_tys()) == Some(rv),
                i <= rows@.len(),
                rv == rows@.map_values(|t: Tuple| t@),
                name@ == table_name@,
                find_oid(rv, table_name@) == find_oid(rv.skip(i as int), table_name@),
            decreases rows@.len() - i,
        {
            let row = &rows[i];
            assert(rv.skip(i as int)[0] == row@);
            assert(rv.skip(i as int).drop_first() =~= rv.skip(i + 1));
            if row.values.len() > 1 {
                assert(row@[1] == row.values@[1]@ && row@[0] == row.values@[0]@);
                if let Value::Varchar(v) = &row.values[1] {
                    if *v == name {
                        if let Value::Int(oid) = row.values[0] {
                            return Ok(Some(oid));
                        }
                    }
                }
            }
            i = i + 1;
        }
        assert(rv.skip(rv.len() as int) =~= Seq::<Seq<ValueView>>::empty());
        Ok(None)
    }

    /// The object id of the first table named `table_name` in the table of tables.
    /// Fails where that table cannot be read.
    pub fn get_oid(&self, pool: &mut BufferPoolManager, table_name: &str) -> (r: Result<Option<usize>, DbError>)
        requires
            old(pool).wf(),
            self.wf(),
        ensures
            final(pool).wf(),
            final(pool).content() == old(pool).content(),
            pins_same(final(pool).frames(), old(pool).frames()),
            r matches Ok(o) ==> rows_of(old(pool).content(), CATALOG_TABLE_FIRST_BLOCK_NUMBER as int, tables_tys()) matches Some(rows)
                && o == match find_oid(rows, table_name@) {
                    Some(v) => Some(#[verifier::truncate] (v as usize)),
                    None => None,
                },
            all_unpinned(old(pool).frames()) && rows_of(old(pool).content(), CATALOG_TABLE_FIRST_BLOCK_NUMBER as int, tables_tys()) is Some
                ==> r is Ok,
            rows_of(old(pool).content(), CATALOG_TABLE_FIRST_BLOCK_NUMBER as int, tables_tys()) is None ==> r is Err,
    {
        match self.lookup_oid(pool, table_name) {
            Ok(Some(v)) => Ok(Some(v as usize)),
            Ok(None) => Ok(None),
            Err(e) => Err(e),
        }
    }

    /// The first block of the table named `table_name`, as the header records it for
    /// the table's object id. Fails where a catalog table cannot be read.
    pub fn get_first_block_number(&self, pool: &mut BufferPoolManager, table_name: &str) -> (r: Result<Option<usize>, DbError>)
        requires
            old(pool).wf(),
            self.wf(),
        ensures
            final(pool).wf(),
            final(pool).content() == old(pool).content(),
            pins_same(final(pool).frames(), old(pool).frames()),
            r matches Ok(o) ==> rows_of(old(pool).content(), CATALOG_TABLE_FIRST_BLOCK_NUMBER as int, tables_tys()) matches Some(tables)
                && match find_oid(tables, table_name@) {
                    None => o is None,
                    Some(oid) => rows_of(old(pool).content(), HEADER_FIRST_BLOCK_NUMBER as int, header_tys()) matches Some(header)
                        && o == match find_block(header, oid) {
                            Some(b) => Some(#[verifier::truncate] (b as usize)),
                            None => None,
                        },
                },
            all_unpinned(old(pool).frames()) && rows_of(old(pool).content(), CATALOG_TABLE_FIRST_BLOCK_NUMBER as int, tables_tys()) is Some
                && rows_of(old(pool).content(), HEADER_FIRST_BLOCK_NUMBER as int, header_tys()) is Some ==> r is Ok,
    {
        let oid = match self.lookup_oid(pool, table_name) {
            Ok(Some(v)) => v,
            Ok(None) => {
                return Ok(None);
            },
            Err(e) => {
                return Err(e);
            },
        };
        let rows = match self.rows(pool, &self.catalog_schema_map.header, HEADER_FIRST_BLOCK_NUMBER) {
            Ok(rows) => rows,
            Err(e) => {
                return Err(e);
            },
        };
        let ghost rv = rows@.map_values(|t: Tuple| t@);
        let mut i: usize = 0;
        assert(rv.skip(0) =~= rv);
        while i < rows.len()
            invariant
                pool.wf(),
                pool.content() == old(pool).content(),
                pins_same(pool.frames(), old(pool).frames()),
                rows_of(old(pool).content(), HEADER_FIRST_BLOCK_NUMBER as int, header_tys()) == Some(rv),
                (rows_of(old(pool).content(), CATALOG_TABLE_FIRST_BLOCK_NUMBER as int, tables_tys()) matches Some(tables)
                    && find_oid(tables, table_name@) == Some(oid)),
                i <= rows@.len(),
                rv == rows@.map_values(|t: Tuple| t@),
                find_block(rv, oid) == find_block(rv.skip(i as int), oid),
            decreases rows@.len() - i,
        {
            let row = &rows[i];
            assert(rv.skip(i as int)[0] == row@);
            assert(rv.skip(i as int).drop_first() =~= rv.skip(i + 1));
            if row.values.len() > 1 {
                assert(row@[1] == row.values@[1]@ && row@[0] == row.values@[0]@);
                if let Value::Int(v) = row.values[0] {
                    if v == oid {
                        if let Value::Int(b) = row.values[1] {
                            return Ok(Some(b as usize));
                        }
                    }
                }
            }
            i = i + 1;
        }
        assert(rv.skip(rv.len() as int) =~= Seq::<Seq<ValueView>>::empty());
        Ok(None)
    }

    /// The schema of the table named `table_name`: the columns that the table of columns
    /// records for its object id, in storage order. Fails with `Corruption` where one of
    /// them names a type other than `int` or `varchar`, and where a catalog table cannot
    /// be read.
    pub fn get_schema(&self, pool: &mut BufferPoolManager, table_name: &str) -> (r: Result<Option<Schema>, DbError>)
        requires
            old(pool).wf(),
            self.wf(),
        ensures
            final(pool).wf(),
            final(pool).content() == old(pool).content(),
            pins_same(final(pool).frames(), old(pool).frames()),
            r matches Ok(o) ==> rows_of(old(pool).content(), CATALOG_TABLE_FIRST_BLOCK_NUMBER as int, tables_tys()) matches Some(tables)
                && match find_oid(tables, table_name@) {
                    None => o is None,
                    Some(oid) => rows_of(old(pool).content(), CATALOG_ATTRIBUTE_FIRST_BLOCK_NUMBER as int, attributes_tys()) matches Some(attrs)
                        && columns_of(attrs, oid) matches Some(cs) && o matches Some(s) && s@ == cs,
                },
            rows_of(old(pool).content(), CATALOG_TABLE_FIRST_BLOCK_NUMBER as int, tables_tys()) matches Some(tables)
                && find_oid(tables, table_name@) matches Some(oid)
                && rows_of(old(pool).content(), CATALOG_ATTRIBUTE_FIRST_BLOCK_NUMBER as int, attributes_tys()) matches Some(attrs)
                && columns_of(attrs, oid) is None ==> r is Err,
            (all_unpinned(old(pool).frames()) && (rows_of(old(pool).content(), CATALOG_TABLE_FIRST_BLOCK_NUMBER as int, tables_tys()) matches Some(tables)
                && (find_oid(tables, table_name@) matches Some(oid) ==> (rows_of(old(pool).content(), CATALOG_ATTRIBUTE_FIRST_BLOCK_NUMBER as int, attributes_tys()) matches Some(attrs)
                    && columns_of(attrs, oid) is Some)))) ==> r is Ok,
    {
        let oid = match self.lookup_oid(pool, table_name) {
            Ok(Some(v)) => v,
            Ok(None) => {
                return Ok(None);
            },
            Err(e) => {
                return Err(e);
            },
        };
        let rows = match self.rows(pool, &self.catalog_schema_map.catalog_attribute, CATALOG_ATTRIBUTE_FIRST_BLOCK_NUMBER) {
            Ok(rows) => rows,
            Err(e) => {
                return Err(e);
            },
        };
        let ghost rv = rows@.map_values(|t: Tuple| t@);
        let int_name = "int".to_owned();
        let varchar_name = "varchar".to_owned();
        proof {
            reveal_strlit("int");
            reveal_strlit("varchar");
            assert(int_name@ =~= seq!['i', 'n', 't']);
            assert(varchar_name@ =~= seq!['v', 'a', 'r', 'c', 'h', 'a', 'r']);
        }
        let mut columns: Vec<Column> = Vec::new();
        let mut i: usize = 0;
        assert(rv.take(0) =~= Seq::<Seq<ValueView>>::empty());
        while i < rows.len()
            invariant
                pool.wf(),
                pool.content() == old(pool).content(),
                pins_same(pool.frames(), old(pool).frames()),
                rows_of(old(pool).content(), CATALOG_ATTRIBUTE_FIRST_BLOCK_NUMBER as int, attributes_tys()) == Some(rv),
                (rows_of(old(pool).content(), CATALOG_TABLE_FIRST_BLOCK_NUMBER as int, tables_tys()) matches Some(tables)
                    && find_oid(tables, table_name@) == Some(oid)),
                i <= rows@.len(),
                rv == rows@.map_values(|t: Tuple| t@),
                int_name@ == seq!['i', 'n', 't'],
                varchar_name@ == seq!['v', 'a', 'r', 'c', 'h', 'a', 'r'],
                columns_of(rv.take(i as int), oid) == Some(columns@.map_values(|c: Column| c@)),
            decreases rows@.len() - i,
        {
            let row = &rows[i];
            assert(rv[i as int] == row@);
            assert(rv.take(i + 1).drop_last() =~= rv.take(i as int));
            assert(rv.take(i + 1).last() == row@);
            if row.values.len() > 2 {
                assert(row@[2] == row.values@[2]@ && row@[1] == row.values@[1]@ && row@[0] == row.values@[0]@);
                if let Value::Int(v) = row.values[0] {
                    if v == oid {
                        if let Value::Varchar(name) = &row.values[1] {
                            if let Value::Varchar(ty) = &row.values[2] {
                                let column_type = if *ty == int_name {
                                    ColumnType::Int
                                } else if *ty == varchar_name {
                                    ColumnType::Varchar
                                } else {
                                    proof {
                                        assert(columns_of(rv.take(i + 1), oid) is None);
                                        lemma_columns_of_none(rv, oid, i + 1, rv.len() as int);
                                        assert(rv.take(rv.len() as int) =~= rv);
                                    }
                                    return Err(DbError::Corruption);
                                };
                                let c = Column { name: name.clone(), column_type };
                                let ghost before = columns@;
                                columns.push(c);
                                assert(columns@.map_values(|c: Column| c@) =~= before.map_values(|c: Column| c@).push(c@));
                            }
                        }
                    }
                }
            }
            i = i + 1;
        }
        assert(rv.take(rv.len() as int) =~= rv);
        Ok(Some(Schema { columns }))
    }

    /// Seeds the object id counter with the largest object id that the header records.
    /// Fails where the header cannot be read, leaving the counter as it was.
    pub fn bootstrap(&mut self, pool: &mut BufferPoolManager) -> (r: Result<(), DbError>)
        requires
            old(pool).wf(),
            old(self).wf(),
        ensures
            final(pool).wf(),
            final(self).wf(),
            final(pool).content() == old(pool).content(),
            pins_same(final(pool).frames(), old(pool).frames()),
            r is Ok ==> (rows_of(old(pool).content(), HEADER_FIRST_BLOCK_NUMBER as int, header_tys()) matches Some(header)
                && final(self).oid() == max_oid(header)),
            r is Err ==> final(self).oid() == old(self).oid(),
            all_unpinned(old(pool).frames()) && rows_of(old(pool).content(), HEADER_FIRST_BLOCK_NUMBER as int, header_tys()) is Some
                ==> r is Ok,
    {
        self.set_oid(pool)
    }

    fn set_oid(&mut self, pool: &mut BufferPoolManager) -> (r: Result<(), DbError>)
        requires
            old(pool).wf(),
            old(self).wf(),
        ensures
            final(pool).wf(),
            final(self).wf(),
            final(pool).content() == old(pool).content(),
            pins_same(final(pool).frames(), old(pool).frames()),
            r is Ok ==> (rows_of(old(pool).content(), HEADER_FIRST_BLOCK_NUMBER as int, header_tys()) matches Some(header)
                && final(self).oid() == max_oid(header)),
            r is Err ==> final(self).oid() == old(self).oid(),
            all_unpinned(old(pool).frames()) && rows_of(old(pool).content(), HEADER_FIRST_BLOCK_NUMBER as int, header_tys()) is Some
                ==> r is Ok,
    {
        let rows = match self.rows(pool, &self.catalog_schema_map.header, HEADER_FIRST_BLOCK_NUMBER) {
            Ok(rows) => rows,
            Err(e) => {
                return Err(e);
            },
        };
        let ghost rv = rows@.map_values(|t: Tuple| t@);
        let mut max: i32 = 0;
        let mut i: usize = 0;
        assert(rv.take(0) =~= Seq::<Seq<ValueView>>::empty());
        while i < rows.len()
            invariant
                i <= rows@.len(),
                rv == rows@.map_values(|t: Tuple| t@),
                max_oid(rv.take(i as int)) == max as int,
                max >= 0,
            decreases rows@.len() - i,
        {
            let row = &rows[i];
            assert(rv[i as int] == row@);
            assert(rv.take(i + 1).drop_last() =~= rv.take(i as int));
            assert(rv.take(i + 1).last() == row@);
            if row.values.len() > 0 {
                assert(row@[0] == row.values@[0]@);
                if let Value::Int(v) = row.values[0] {
                    if v > max {
                        max = v;
                    }
                }
            }
            i = i + 1;
        }
        assert(rv.take(rv.len() as int) =~= rv);
        self.oid_counter = max as usize;
        Ok(())
    }

    /// Creates the catalog in an empty data file: the header, the table of tables and the
    /// table of columns at blocks 0, 1 and 2, filled with the rows that describe them,
    /// then writes every cached page to the disk. The counter then stands at the largest
    /// object id recorded. Fails with `Corruption` where the data file is not empty, as it
    /// then holds blocks the catalog's fixed blocks would clash with, and
    /// as the heap tables' operations fail where frames are pinned.
    #[verifier::spinoff_prover]
    #[verifier::rlimit(100)]
    pub fn initialize(&mut self, pool: &mut BufferPoolManager) -> (r: Result<(), DbError>)
        requires
            old(pool).wf(),
            old(self).wf(),
        ensures
            final(pool).wf(),
            final(self).wf(),
            pins_same(final(pool).frames(), old(pool).frames()),
            old(pool).content().len() != 0 ==> r == Err::<(), DbError>(DbError::Corruption),
            old(pool).content().len() == 0 && all_unpinned(old(pool).frames()) ==> r is Ok,
            r is Err ==> final(self).oid() == old(self).oid(),
            r is Ok ==> {
                let c1 = final(pool).content();
                &&& final(self).oid() == CATALOG_ATTRIBUTE_OID
                &&& final(pool).disk() == c1
                &&& c1.len() == 3
                &&& catalog_sound(c1)
                &&& pages_tuples(catalog_chain(c1, 0)) == initial_header_rows()
                &&& pages_tuples(catalog_chain(c1, 1)) == initial_table_rows()
                &&& pages_tuples(catalog_chain(c1, 2)) == initial_attribute_rows()
            },
    {
        if pool.block_count() != 0 {
            return Err(DbError::Corruption);
        }
        let ghost owed = all_unpinned(pool.frames());
        proof {
            lemma_initial_rows_small();
            if owed {
                assert(pool.frames()[0].pin_count == 0);
                assert(crate::buffer::has_unpinned(pool.frames()));
            }
        }
        let header = match Table::create(pool, self.catalog_schema_map.header.duplicate()) {
            Ok(t) => t,
            Err(e) => {
                return Err(e);
            },
        };
        let ghost htys = header_tys();
        let ghost hrows = initial_header_rows();
        assert(header.tys() == htys);
        assert(hrows.take(0) =~= Seq::<Seq<ValueView>>::empty());
        let rows: Vec<(i32, i32)> = vec![
            (HEADER_OID, HEADER_FIRST_BLOCK_NUMBER as i32),
            (CATALOG_TABLE_OID, CATALOG_TABLE_FIRST_BLOCK_NUMBER as i32),
            (CATALOG_ATTRIBUTE_OID, CATALOG_ATTRIBUTE_FIRST_BLOCK_NUMBER as i32),
        ];
        let mut i: usize = 0;
        while i < rows.len()
            invariant
                pool.wf(),
                pins_same(pool.frames(), old(pool).frames()),
                self.wf(),
                self.oid() == old(self).oid(),
                owed == all_unpinned(old(pool).frames()),
                old(pool).content().len() == 0,
                rows@ == seq![(0i32, 0i32), (1i32, 1i32), (2i32, 2i32)],
                i <= 3,
                header.first_block_number == 0,
                header.tys() == htys,
                htys == header_tys(),
                hrows == initial_header_rows(),
                forall|k: int| 0 <= k < hrows.len() ==> small_row(#[trigger] hrows[k]),
                pool.content().len() == 1,
                table_pages(pool.content(), 0, htys) == Some(seq![(0int, PageView { next: -1i32, tuples: hrows.take(i as int) })]),
            decreases rows@.len() - i,
        {
            let (oid, block) = rows[i];
            let t = Tuple { values: vec![Value::Int(oid), Value::Int(block)] };
            assert(t@ =~= hrows[i as int]);
            proof {
                lemma_small_rows_fit(hrows.take(i + 1));
                lemma_small_rows_fit(seq![hrows[i as int]]);
                lemma_single_page_insert(0, hrows, i as int, 1);
                if owed {
                    assert(all_unpinned(pool.frames()));
                }
            }
            if let Err(e) = header.insert_tuple(pool, t) {
                return Err(e);
            }
            i = i + 1;
        }
        assert(hrows.take(3) =~= hrows);
        if pool.block_count() != 1 {
            return Err(DbError::Corruption);
        }
        let ghost c_h = pool.content();
        proof {
            if owed {
                assert(pool.frames()[0].pin_count == 0);
            }
        }
        let catalog_tables = match Table::create(pool, self.catalog_schema_map.catalog_table.duplicate()) {
            Ok(t) => t,
            Err(e) => {
                return Err(e);
            },
        };
        let ghost ttys = tables_tys();
        let ghost trows = initial_table_rows();
        assert(catalog_tables.tys() == ttys);
        assert(trows.take(0) =~= Seq::<Seq<ValueView>>::empty());
        let ghost hch = seq![(0int, PageView { next: -1i32, tuples: hrows })];
        proof {
            lemma_chain_stable(c_h, pool.content(), 0, htys);
        }
        let tables: Vec<(i32, &str)> = vec![
            (CATALOG_TABLE_OID, "catalog_tables"),
            (CATALOG_ATTRIBUTE_OID, "catalog_attributes"),
        ];
        let mut i: usize = 0;
        while i < tables.len()
            invariant
                pool.wf(),
                pins_same(pool.frames(), old(pool).frames()),
                self.wf(),
                self.oid() == old(self).oid(),
                owed == all_unpinned(old(pool).frames()),
                old(pool).content().len() == 0,
                tables@ == seq![(1i32, "catalog_tables"), (2i32, "catalog_attributes")],
                i <= 2,
                catalog_tables.first_block_number == 1,
                catalog_tables.tys() == ttys,
                ttys == tables_tys(),
                htys == header_tys(),
                trows == initial_table_rows(),
                forall|k: int| 0 <= k < trows.len() ==> small_row(#[trigger] trows[k]),
                pool.content().len() == 2,
                table_pages(pool.content(), 0, htys) == Some(hch),
                hch == seq![(0int, PageView { next: -1i32, tuples: hrows })],
                table_pages(pool.content(), 1, ttys) == Some(seq![(1int, PageView { next: -1i32, tuples: trows.take(i as int) })]),
            decreases tables@.len() - i,
        {
            let (oid, name) = tables[i];
            let t = Tuple { values: vec![Value::Int(oid), Value::Varchar(name.to_owned())] };
            assert(t@ =~= trows[i as int]);
            let ghost cur = pool.content();
            proof {
                lemma_small_rows_fit(trows.take(i + 1));
                lemma_small_rows_fit(seq![trows[i as int]]);
                lemma_single_page_insert(1, trows, i as int, 2);
                if owed {
                    assert(all_unpinned(pool.frames()));
                }
            }
            if let Err(e) = catalog_tables.insert_tuple(pool, t) {
                return Err(e);
            }
            proof {
                let tch = seq![(1int, PageView { next: -1i32, tuples: trows.take(i as int) })];
                assert forall|x: int| 0 <= x < cur.len() && in_chain(table_pages(cur, 0, htys)->Some_0, x) implies #[trigger] pool.content()[x] == cur[x] by {
                    assert(x == 0);
                    assert(!in_chain(tch, 0)) by {
                        if in_chain(tch, 0) {
                            let j = choose|j: int| 0 <= j < tch.len() && (#[trigger] tch[j]).0 == 0;
                        }
                    }
                }
                lemma_chain_stable(cur, pool.content(), 0, htys);
            }
            i = i + 1;
        }
        assert(trows.take(2) =~= trows);
        if pool.block_count() != 2 {
            return Err(DbError::Corruption);
        }
        let ghost c_t = pool.content();
        proof {
            if owed {
                assert(pool.frames()[0].pin_count == 0);
            }
        }
        let catalog_attributes = match Table::create(pool, self.catalog_schema_map.catalog_attribute.duplicate()) {
            Ok(t) => t,
            Err(e) => {
                return Err(e);
            },
        };
        let ghost atys = attributes_tys();
        let ghost arows = initial_attribute_rows();
        assert(catalog_attributes.tys() == atys);
        assert(arows.take(0) =~= Seq::<Seq<ValueView>>::empty());
        let ghost tch = seq![(1int, PageView { next: -1i32, tuples: trows })];
        proof {
            lemma_chain_stable(c_t, pool.content(), 0, htys);
            lemma_chain_stable(c_t, pool.content(), 1, ttys);
        }
        let attributes: Vec<(i32, &str, &str)> = vec![
            (CATALOG_TABLE_OID, "object_id", "int"),
            (CATALOG_TABLE_OID, "name", "varchar"),
            (CATALOG_ATTRIBUTE_OID, "object_id", "int"),
            (CATALOG_ATTRIBUTE_OID, "name", "varchar"),
            (CATALOG_ATTRIBUTE_OID, "type", "varchar"),
        ];
        let mut i: usize = 0;
        while i < attributes.len()
            invariant
                pool.wf(),
                pins_same(pool.frames(), old(pool).frames()),
                self.wf(),
                self.oid() == old(self).oid(),
                owed == all_unpinned(old(pool).frames()),
                old(pool).content().len() == 0,
                attributes@ == seq![
                    (1i32, "object_id", "int"),
                    (1i32, "name", "varchar"),
                    (2i32, "object_id", "int"),
                    (2i32, "name", "varchar"),
                    (2i32, "type", "varchar"),
                ],
                i <= 5,
                catalog_attributes.first_block_number == 2,
                catalog_attributes.tys() == atys,
                atys == attributes_tys(),
                ttys == tables_tys(),
                htys == header_tys(),
                arows == initial_attribute_rows(),
                forall|k: int| 0 <= k < arows.len() ==> small_row(#[trigger] arows[k]),
                pool.content().len() == 3,
                table_pages(pool.content(), 0, htys) == Some(hch),
                hch == seq![(0int, PageView { next: -1i32, tuples: hrows })],
                table_pages(pool.content(), 1, ttys) == Some(tch),
                tch == seq![(1int, PageView { next: -1i32, tuples: trows })],
                table_pages(pool.content(), 2, atys) == Some(seq![(2int, PageView { next: -1i32, tuples: arows.take(i as int) })]),
            decreases attributes@.len() - i,
        {
            let (oid, name, stored_type) = attributes[i];
            let t = Tuple {
                values: vec![Value::Int(oid), Value::Varchar(name.to_owned()), Value::Varchar(stored_type.to_owned())],
            };
            assert(t@ =~= arows[i as int]);
            let ghost cur = pool.content();
            proof {
                lemma_small_rows_fit(arows.take(i + 1));
                lemma_small_rows_fit(seq![arows[i as int]]);
                lemma_single_page_insert(2, arows, i as int, 3);
                if owed {
                    assert(all_unpinned(pool.frames()));
                }
            }
            if let Err(e) = catalog_attributes.insert_tuple(pool, t) {
                return Err(e);
            }
            proof {
                let ach = seq![(2int, PageView { next: -1i32, tuples: arows.take(i as int) })];
                assert forall|x: int| 0 <= x < cur.len() && in_chain(table_pages(cur, 0, htys)->Some_0, x) implies #[trigger] pool.content()[x] == cur[x] by {
                    assert(x == 0);
                    assert(!in_chain(ach, 0)) by {
                        if in_chain(ach, 0) {
                            let j = choose|j: int| 0 <= j < ach.len() && (#[trigger] ach[j]).0 == 0;
                        }
                    }
                }
                lemma_chain_stable(cur, pool.content(), 0, htys);
                assert forall|x: int| 0 <= x < cur.len() && in_chain(table_pages(cur, 1, ttys)->Some_0, x) implies #[trigger] pool.content()[x] == cur[x] by {
                    assert(x == 1);
                    assert(!in_chain(ach, 1)) by {
                        if in_chain(ach, 1) {
                            let j = choose|j: int| 0 <= j < ach.len() && (#[trigger] ach[j]).0 == 1;
                        }
                    }
                }
                lemma_chain_stable(cur, pool.content(), 1, ttys);
            }
            i = i + 1;
        }
        assert(arows.take(5) =~= arows);
        let _ = pool.flush_all_pages();
        proof {
            let c1 = pool.content();
            lemma_single_page_tuples(0, PageView { next: -1i32, tuples: hrows });
            lemma_single_page_tuples(1, PageView { next: -1i32, tuples: trows });
            lemma_single_page_tuples(2, PageView { next: -1i32, tuples: arows });
            assert forall|w: int| 0 <= w < 3 implies #[trigger] table_pages(c1, w, catalog_tys(w)) is Some by {}
            assert forall|w: int, v: int, x: int|
                0 <= w < 3 && 0 <= v < 3 && w != v && #[trigger] in_chain(catalog_chain(c1, w), x) implies !#[trigger] in_chain(
                    catalog_chain(c1, v),
                    x,
                ) by {
                let cw = catalog_chain(c1, w);
                let cv = catalog_chain(c1, v);
                let j = choose|j: int| 0 <= j < cw.len() && (#[trigger] cw[j]).0 == x;
                assert(x == w);
                if in_chain(cv, x) {
                    let k = choose|k: int| 0 <= k < cv.len() && (#[trigger] cv[k]).0 == x;
                    assert(x == v);
                }
            }
        }
        self.oid_counter = CATALOG_ATTRIBUTE_OID as usize;
        Ok(())
    }

    /// Inserts the row that records table `table_name` under `oid` into the table of
    /// tables, and the row that records its first block into the header.
    #[verifier::spinoff_prover]
    #[verifier::rlimit(100)]
    fn record_table(&self, pool: &mut BufferPoolManager, new_oid: i32, table_name: &str, first: usize) -> (r: Result<(), DbError>)
        requires
            old(pool).wf(),
            self.wf(),
        ensures
            final(pool).wf(),
            pins_same(final(pool).frames(), old(pool).frames()),
            final(pool).content().len() <= old(pool).content().len() + 2,
            r matches Err(e) ==> e != DbError::Duplicate,
            old(pool).content().len() <= final(pool).content().len(),
            r is Ok && catalog_sound(old(pool).content()) ==> {
                &&& forall|x: int| 0 <= x < old(pool).content().len() && !in_catalog(old(pool).content(), x)
                    ==> #[trigger] final(pool).content()[x] == old(pool).content()[x]
                &&& forall|x: int| #[trigger] in_catalog(final(pool).content(), x)
                    ==> in_catalog(old(pool).content(), x) || x >= old(pool).content().len()
            },
            r is Ok && catalog_sound(old(pool).content()) ==> {
                &&& catalog_sound(final(pool).content())
                &&& table_pages(final(pool).content(), 2, catalog_tys(2)) == table_pages(old(pool).content(), 2, catalog_tys(2))
                &&& inserted(
                    pages_tuples(catalog_chain(old(pool).content(), 1)),
                    pages_tuples(catalog_chain(final(pool).content(), 1)),
                    table_row(new_oid, table_name@),
                )
                &&& inserted(
                    pages_tuples(catalog_chain(old(pool).content(), 0)),
                    pages_tuples(catalog_chain(final(pool).content(), 0)),
                    header_row(new_oid, first as i32),
                )
            },
            (all_unpinned(old(pool).frames()) && catalog_sound(old(pool).content())
                && old(pool).content().len() + 2 < i32::MAX && first <= i32::MAX
                && page_fits(seq![table_row(new_oid, table_name@)])
                && page_fits(seq![header_row(new_oid, first as i32)])) ==> r is Ok,
    {
        let ghost ca = pool.content();
        let ghost owed = all_unpinned(pool.frames()) && catalog_sound(ca) && ca.len() + 2 < i32::MAX && first <= i32::MAX
            && page_fits(seq![table_row(new_oid, table_name@)]) && page_fits(seq![header_row(new_oid, first as i32)]);
        proof {
            if catalog_sound(ca) {
                assert(table_pages(ca, 1, catalog_tys(1)) is Some);
            }
        }
        let catalog_tables = Table::new(self.catalog_schema_map.catalog_table.duplicate(), CATALOG_TABLE_FIRST_BLOCK_NUMBER);
        let trow = Tuple { values: vec![Value::Int(new_oid), Value::Varchar(table_name.to_owned())] };
        assert(trow@ =~= table_row(new_oid, table_name@));
        assert(matches_types(trow@, tables_tys()));
        let r = catalog_tables.insert_tuple(pool, trow);
        if let Err(e) = r {
            return Err(e);
        }
        let ghost cb = pool.content();
        proof {
            if catalog_sound(ca) {
                lemma_sound_after_insert(ca, cb, 1, table_row(new_oid, table_name@));
                assert(table_pages(cb, 0, catalog_tys(0)) is Some);
            }
            if owed {
                assert(all_unpinned(pool.frames()));
            }
        }
        let header = Table::new(self.catalog_schema_map.header.duplicate(), HEADER_FIRST_BLOCK_NUMBER);
        let hrow = Tuple { values: vec![Value::Int(new_oid), Value::Int(first as i32)] };
        assert(hrow@ =~= header_row(new_oid, first as i32));
        assert(matches_types(hrow@, header_tys()));
        let r = header.insert_tuple(pool, hrow);
        if let Err(e) = r {
            return Err(e);
        }
        proof {
            if catalog_sound(ca) {
                let cc = pool.content();
                lemma_sound_after_insert(cb, cc, 0, header_row(new_oid, first as i32));
                assert(catalog_chain(cb, 0) == catalog_chain(ca, 0));
                assert(catalog_chain(cc, 1) == catalog_chain(cb, 1));
                assert forall|x: int| 0 <= x < ca.len() && !in_catalog(ca, x) implies #[trigger] cc[x] == ca[x] by {
                    assert(cb[x] == ca[x]);
                    if in_catalog(cb, x) {
                        assert(in_catalog(ca, x) || x >= ca.len());
                    }
                    assert(cc[x] == cb[x]);
                }
                assert forall|x: int| #[trigger] in_catalog(cc, x) implies in_catalog(ca, x) || x >= ca.len() by {
                    assert(in_catalog(cb, x) || x >= cb.len());
                    if in_catalog(cb, x) {
                        assert(in_catalog(ca, x) || x >= ca.len());
                    }
                }
            }
        }
        Ok(())
    }

    /// Inserts one row per column of `schema`, in order, into the table of columns,
    /// recorded under `oid`.
    #[verifier::spinoff_prover]
    #[verifier::rlimit(100)]
    fn insert_column_rows(&self, pool: &mut BufferPoolManager, new_oid: i32, schema: &Schema) -> (r: Result<(), DbError>)
        requires
            old(pool).wf(),
            self.wf(),
        ensures
            final(pool).wf(),
            pins_same(final(pool).frames(), old(pool).frames()),
            final(pool).content().len() <= old(pool).content().len() + schema@.len(),
            r matches Err(e) ==> e != DbError::Duplicate,
            old(pool).content().len() <= final(pool).content().len(),
            r is Ok && catalog_sound(old(pool).content()) ==> {
                &&& forall|x: int| 0 <= x < old(pool).content().len() && !in_catalog(old(pool).content(), x)
                    ==> #[trigger] final(pool).content()[x] == old(pool).content()[x]
                &&& forall|x: int| #[trigger] in_catalog(final(pool).content(), x)
                    ==> in_catalog(old(pool).content(), x) || x >= old(pool).content().len()
            },
            r is Ok && catalog_sound(old(pool).content()) ==> {
                &&& catalog_sound(final(pool).content())
                &&& table_pages(final(pool).content(), 0, catalog_tys(0)) == table_pages(old(pool).content(), 0, catalog_tys(0))
                &&& table_pages(final(pool).content(), 1, catalog_tys(1)) == table_pages(old(pool).content(), 1, catalog_tys(1))
                &&& page_lists(catalog_chain(final(pool).content(), 2)) == fill_all(
                    page_lists(catalog_chain(old(pool).content(), 2)),
                    attribute_rows(new_oid, schema@),
                )
            },
            (all_unpinned(old(pool).frames()) && catalog_sound(old(pool).content())
                && old(pool).content().len() + schema@.len() < i32::MAX
                && forall|i: int| 0 <= i < schema@.len() ==> page_fits(seq![#[trigger] attribute_rows(new_oid, schema@)[i]]))
                ==> r is Ok,
    {
        let ghost c0 = pool.content();
        let ghost owed = all_unpinned(pool.frames()) && catalog_sound(c0) && c0.len() + schema@.len() < i32::MAX
            && forall|i: int| 0 <= i < schema@.len() ==> page_fits(seq![#[trigger] attribute_rows(new_oid, schema@)[i]]);
        let catalog_attributes = Table::new(
            self.catalog_schema_map.catalog_attribute.duplicate(),
            CATALOG_ATTRIBUTE_FIRST_BLOCK_NUMBER,
        );
        let ghost arows = attribute_rows(new_oid, schema@);
        let int_name = "int".to_owned();
        let varchar_name = "varchar".to_owned();
        proof {
            reveal_strlit("int");
            reveal_strlit("varchar");
            assert(int_name@ =~= name_of_type(ColumnType::Int));
            assert(varchar_name@ =~= name_of_type(ColumnType::Varchar));
            assert(arows.take(0) =~= Seq::<Seq<ValueView>>::empty());

        }
        let mut i: usize = 0;
        while i < schema.columns.len()
            invariant
                pool.wf(),
                self.wf(),
                pins_same(pool.frames(), old(pool).frames()),
                c0 == old(pool).content(),
                i <= schema.columns@.len(),
                arows == attribute_rows(new_oid, schema@),
                int_name@ == name_of_type(ColumnType::Int),
                varchar_name@ == name_of_type(ColumnType::Varchar),
                catalog_attributes.first_block_number == CATALOG_ATTRIBUTE_FIRST_BLOCK_NUMBER,
                catalog_attributes.tys() == attributes_tys(),
                pool.content().len() <= c0.len() + i,
                owed == (all_unpinned(old(pool).frames()) && catalog_sound(c0) && c0.len() + schema@.len() < i32::MAX
                    && forall|k: int| 0 <= k < schema@.len() ==> page_fits(seq![#[trigger] attribute_rows(new_oid, schema@)[k]])),
                owed ==> all_unpinned(pool.frames()),
                c0.len() <= pool.content().len(),
                catalog_sound(c0) ==> {
                    &&& catalog_sound(pool.content())
                    &&& forall|x: int| 0 <= x < c0.len() && !in_catalog(c0, x) ==> #[trigger] pool.content()[x] == c0[x]
                    &&& forall|x: int| #[trigger] in_catalog(pool.content(), x) ==> in_catalog(c0, x) || x >= c0.len()
                    &&& table_pages(pool.content(), 0, catalog_tys(0)) == table_pages(c0, 0, catalog_tys(0))
                    &&& table_pages(pool.content(), 1, catalog_tys(1)) == table_pages(c0, 1, catalog_tys(1))
                    &&& page_lists(catalog_chain(pool.content(), 2)) == fill_all(page_lists(catalog_chain(c0, 2)), arows.take(i as int))
                },
            decreases schema.columns@.len() - i,
        {
            let column = &schema.columns[i];
            let stored_type = match column.column_type {
                ColumnType::Int => int_name.clone(),
                ColumnType::Varchar => varchar_name.clone(),
            };
            let arow = Tuple {
                values: vec![Value::Int(new_oid), Value::Varchar(column.name.clone()), Value::Varchar(stored_type)],
            };
            assert(schema@[i as int] == column@);
            assert(arow@ =~= arows[i as int]);
            let ghost cur = pool.content();
            proof {
                if owed {
                    assert(table_pages(cur, 2, catalog_tys(2)) is Some);
                    assert(page_fits(seq![arows[i as int]]));
                    assert(matches_types(arow@, attributes_tys()));
                    assert(cur.len() < i32::MAX);
                }
            }
            let r = catalog_attributes.insert_tuple(pool, arow);
            if let Err(e) = r {
                return Err(e);
            }
            proof {
                if catalog_sound(c0) {
                    let next = pool.content();
                    assert(table_pages(cur, 2, catalog_tys(2)) is Some);
                    lemma_sound_after_insert(cur, next, 2, arows[i as int]);
                    assert(arows.take(i + 1).drop_last() =~= arows.take(i as int));
                    assert(arows.take(i + 1).last() == arows[i as int]);
                    lemma_chain_from_valid(cur, 2, catalog_tys(2), cur.len());
                    lemma_insert_fill(catalog_chain(cur, 2), arows[i as int], cur.len() as int);
                    assert forall|x: int| 0 <= x < c0.len() && !in_catalog(c0, x) implies #[trigger] next[x] == c0[x] by {
                        assert(cur[x] == c0[x]);
                        if in_catalog(cur, x) {
                            assert(in_catalog(c0, x) || x >= c0.len());
                        }
                        assert(next[x] == cur[x]);
                    }
                    assert forall|x: int| #[trigger] in_catalog(next, x) implies in_catalog(c0, x) || x >= c0.len() by {
                        assert(in_catalog(cur, x) || x >= cur.len());
                        if in_catalog(cur, x) {
                            assert(in_catalog(c0, x) || x >= c0.len());
                        }
                    }
                }
            }
            i = i + 1;
        }
        assert(arows.take(schema@.len() as int) =~= arows);
        Ok(())
    }

    /// Records a new table: appends its first page, hands out the next object id, and
    /// inserts a row for it into the table of tables, the header and, one per column in
    /// order, the table of columns, each column's type stored as `int` or `varchar`.
    /// Fails with `Duplicate` where a table of that name is recorded or two columns share
    /// a name, with `Overflow` where the object id or the first block no longer fits in
    /// a row, and as the heap tables' operations fail.
    #[verifier::spinoff_prover]
    #[verifier::rlimit(100)]
    pub fn create_table(&mut self, pool: &mut BufferPoolManager, table_name: &str, schema: &Schema) -> (r: Result<(), DbError>)
        requires
            old(pool).wf(),
            old(self).wf(),
        ensures
            final(pool).wf(),
            final(self).wf(),
            pins_same(final(pool).frames(), old(pool).frames()),
            final(self).oid() >= old(self).oid(),
            r is Ok ==> final(self).oid() == old(self).oid() + 1,
            r is Ok ==> (rows_of(old(pool).content(), CATALOG_TABLE_FIRST_BLOCK_NUMBER as int, tables_tys()) matches Some(tables)
                && find_oid(tables, table_name@) is None),
            r is Ok ==> !has_duplicate_names(schema@),
            (rows_of(old(pool).content(), CATALOG_TABLE_FIRST_BLOCK_NUMBER as int, tables_tys()) matches Some(tables)
                && find_oid(tables, table_name@) is Some) ==> r is Err,
            (all_unpinned(old(pool).frames()) && (rows_of(old(pool).content(), CATALOG_TABLE_FIRST_BLOCK_NUMBER as int, tables_tys()) matches Some(tables)
                && find_oid(tables, table_name@) is Some)) ==> r == Err::<(), DbError>(DbError::Duplicate),
            has_duplicate_names(schema@) ==> r is Err,
            (all_unpinned(old(pool).frames()) && catalog_sound(old(pool).content())
                && find_oid(pages_tuples(catalog_chain(old(pool).content(), 1)), table_name@) is None
                && !has_duplicate_names(schema@) && old(self).oid() + 1 < i32::MAX
                && old(pool).content().len() + schema@.len() + 3 < i32::MAX
                && rows_fit((old(self).oid() + 1) as i32, table_name@, schema@, old(pool).content().len() as int))
                ==> r is Ok,
            (all_unpinned(old(pool).frames()) && rows_of(old(pool).content(), CATALOG_TABLE_FIRST_BLOCK_NUMBER as int, tables_tys()) is Some
                && has_duplicate_names(schema@)) ==> r == Err::<(), DbError>(DbError::Duplicate),
            r == Err::<(), DbError>(DbError::Duplicate) ==> final(pool).content() == old(pool).content()
                && final(self).oid() == old(self).oid(),
            r is Ok && catalog_sound(old(pool).content()) ==> table_pages(
                final(pool).content(),
                old(pool).content().len() as int,
                column_types(schema@),
            ) == Some(seq![(old(pool).content().len() as int, PageView { next: -1i32, tuples: Seq::empty() })]),
            r is Ok && catalog_sound(old(pool).content()) ==> table_created(
                old(pool).content(),
                final(pool).content(),
                final(self).oid() as i32,
                table_name@,
                schema@,
            ),
    {
        let ghost c0 = pool.content();
        let ghost owed = all_unpinned(pool.frames()) && catalog_sound(c0)
            && find_oid(pages_tuples(catalog_chain(c0, 1)), table_name@) is None
            && !has_duplicate_names(schema@) && self.oid() + 1 < i32::MAX
            && c0.len() + schema@.len() + 3 < i32::MAX
            && rows_fit((self.oid() + 1) as i32, table_name@, schema@, c0.len() as int);
        proof {
            if catalog_sound(c0) {
                assert(table_pages(c0, 1, catalog_tys(1)) is Some);
            }
        }
        match self.lookup_oid(pool, table_name) {
            Ok(Some(_)) => {
                return Err(DbError::Duplicate);
            },
            Ok(None) => {},
            Err(e) => {
                return Err(e);
            },
        }
        if !schema.has_unique_names() {
            return Err(DbError::Duplicate);
        }
        if self.oid_counter >= 0x7fff_ffffusize || pool.block_count() >= 0x7fff_ffffusize {
            return Err(DbError::Overflow);
        }
        proof {
            if owed {
                assert(pool.frames()[0].pin_count == old(pool).frames()[0].pin_count);
                assert(pool.frames()[0].pin_count == 0);
                assert(crate::buffer::has_unpinned(pool.frames()));
            }
        }
        let table = match Table::create(pool, schema.duplicate()) {
            Ok(t) => t,
            Err(e) => {
                return Err(e);
            },
        };
        let ghost ca = pool.content();
        proof {
            if catalog_sound(c0) {
                lemma_sound_after_push(c0, ca.last());
                assert(c0.push(ca.last()) == ca);
            }
            if owed {
                assert(all_unpinned(pool.frames()));
                assert(table_pages(ca, 1, catalog_tys(1)) is Some);
            }
        }
        self.oid_counter = self.oid_counter + 1;
        let new_oid = self.oid_counter as i32;
        proof {
            if owed {
                assert(catalog_sound(ca));
                assert(ca.len() + 2 < i32::MAX);
                assert(table.first_block_number as int == c0.len());
                assert(new_oid == (old(self).oid() + 1) as i32);
                assert(rows_fit(new_oid, table_name@, schema@, c0.len() as int));
                assert(page_fits(seq![table_row(new_oid, table_name@)]));
                assert(header_row(new_oid, table.first_block_number as i32) == header_row(new_oid, c0.len() as i32));
                assert(page_fits(seq![header_row(new_oid, table.first_block_number as i32)]));
            }
        }
        if let Err(e) = self.record_table(pool, new_oid, table_name, table.first_block_number) {
            return Err(e);
        }
        let ghost cc = pool.content();
        proof {
            if owed {
                assert(rows_fit(new_oid, table_name@, schema@, c0.len() as int));
                assert(all_unpinned(pool.frames()));
            }
        }
        let r = self.insert_column_rows(pool, new_oid, schema);
        proof {
            if catalog_sound(c0) && r is Ok {
                let cd = pool.content();
                assert(catalog_chain(cd, 0) == catalog_chain(cc, 0));
                assert(catalog_chain(cd, 1) == catalog_chain(cc, 1));
                assert(catalog_chain(cc, 2) == catalog_chain(ca, 2));
                assert(catalog_chain(ca, 2) == catalog_chain(c0, 2));
                assert(catalog_chain(ca, 1) == catalog_chain(c0, 1));
                assert(catalog_chain(ca, 0) == catalog_chain(c0, 0));
                let b = c0.len() as int;
                let tys = column_types(schema@);
                assert(!in_catalog(ca, b)) by {
                    if in_catalog(ca, b) {
                        if in_chain(catalog_chain(c0, 0), b) {
                            lemma_chain_blocks_in_file(c0, 0, catalog_tys(0), b);
                        } else if in_chain(catalog_chain(c0, 1), b) {
                            lemma_chain_blocks_in_file(c0, 1, catalog_tys(1), b);
                        } else {
                            lemma_chain_blocks_in_file(c0, 2, catalog_tys(2), b);
                        }
                    }
                }
                assert(cc[b] == ca[b]);
                assert(!in_catalog(cc, b)) by {
                    if in_catalog(cc, b) {
                        assert(in_catalog(ca, b) || b >= ca.len());
                    }
                }
                assert(cd[b] == cc[b]);
                assert forall|x: int| 0 <= x < ca.len() && in_chain(table_pages(ca, b, tys)->Some_0, x) implies #[trigger] cd[x] == ca[x] by {
                    let ch = table_pages(ca, b, tys)->Some_0;
                    let k = choose|k: int| 0 <= k < ch.len() && (#[trigger] ch[k]).0 == x;
                    assert(x == b);
                }
                lemma_chain_stable(ca, cd, b, tys);
            }
        }
        r
    }
}

} // verus!
