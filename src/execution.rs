use vstd::prelude::*;

use crate::buffer::BufferPoolManager;
use crate::catalog::{catalog_sound, column_types, table_created, table_target, Catalog, Column, Schema};
use crate::error::DbError;
use crate::parser::ast::TableElementAst;
use crate::parser::token::string_of;
use crate::parser::Stmt;
use crate::storage::table::{chain_after_insert, pages_tuples, table_pages, Table};
use crate::storage::tuple::{matches_types, Tuple};
use crate::value::{Value, ValueView};

verus! {

/// Why a statement could not be executed.
#[derive(Debug, Clone, Copy, PartialEq, Eq, Structural)]
pub enum ExecError {
    /// The storage core failed.
    Db(DbError),
    /// A table of that name exists already.
    TableExists,
    /// No table of that name exists.
    TableNotFound,
}

/// The character of a decimal digit.
pub open spec fn digit_char(d: nat) -> char {
    if d == 0 { '0' } else if d == 1 { '1' } else if d == 2 { '2' } else if d == 3 { '3' }
    else if d == 4 { '4' } else if d == 5 { '5' } else if d == 6 { '6' } else if d == 7 { '7' }
    else if d == 8 { '8' } else { '9' }
}

/// The decimal digits of `n`, most significant first.
pub open spec fn decimal(n: nat) -> Seq<char>
    decreases n,
{
    if n < 10 {
        seq![digit_char(n)]
    } else {
        decimal(n / 10).push(digit_char(n % 10))
    }
}

/// An integer as text: a minus sign where it is negative, then its decimal digits.
pub open spec fn int_text(v: i32) -> Seq<char> {
    if v < 0 {
        seq!['-'] + decimal((-(v as int)) as nat)
    } else {
        decimal(v as nat)
    }
}

/// A value as text: an integer in decimal, a string as it is.
pub open spec fn value_text(v: ValueView) -> Seq<char> {
    match v {
        ValueView::Int(i) => int_text(i),
        ValueView::Varchar(s) => s,
    }
}

/// The first `k` values of a row as text, separated by `, `.
pub open spec fn values_text(vs: Seq<ValueView>, k: nat) -> Seq<char>
    decreases k,
{
    if k == 0 {
        Seq::empty()
    } else if k == 1 {
        value_text(vs[0])
    } else {
        values_text(vs, (k - 1) as nat) + seq![',', ' '] + value_text(vs[k - 1])
    }
}

/// Rows as text: per row its first `width` values, then a line break.
pub open spec fn rows_text(rows: Seq<Seq<ValueView>>, width: nat) -> Seq<char>
    decreases rows.len(),
{
    if rows.len() == 0 {
        Seq::empty()
    } else {
        rows_text(rows.drop_last(), width) + values_text(rows.last(), width) + seq!['\n']
    }
}

/// The text that answers a statement that changed the database.
pub open spec fn ok_text() -> Seq<char> {
    seq!['Q', 'u', 'e', 'r', 'y', ' ', 'O', 'K', '\n']
}

/// Appends the decimal digits of `n`.
fn push_decimal(out: &mut Vec<char>, n: u32)
    ensures
        final(out)@ == old(out)@ + decimal(n as nat),
    decreases n,
{
    if n >= 10 {
        push_decimal(out, n / 10);
    }
    let d = n % 10;
    let c = if d == 0 { '0' } else if d == 1 { '1' } else if d == 2 { '2' } else if d == 3 { '3' }
        else if d == 4 { '4' } else if d == 5 { '5' } else if d == 6 { '6' } else if d == 7 { '7' }
        else if d == 8 { '8' } else { '9' };
    out.push(c);
    proof {
        if n >= 10 {
            assert(out@ =~= old(out)@ + decimal(n as nat));
        } else {
            assert(out@ =~= old(out)@ + decimal(n as nat));
        }
    }
}

/// Appends a value as `value_text` writes it.
fn push_value(out: &mut Vec<char>, v: &Value)
    ensures
        final(out)@ == old(out)@ + value_text(v@),
{
    match v {
        Value::Int(i) => {
            if *i < 0 {
                out.push('-');
                let m = (-(*i as i64)) as u32;
                push_decimal(out, m);
                assert(out@ =~= old(out)@ + value_text(v@));
            } else {
                push_decimal(out, *i as u32);
            }
        },
        Value::Varchar(s) => {
            let cs = crate::parser::token::chars_of(s.as_str());
            let mut k: usize = 0;
            while k < cs.len()
                invariant
                    k <= cs@.len(),
                    cs@ == s@,
                    out@ == old(out)@ + cs@.take(k as int),
                decreases cs@.len() - k,
            {
                out.push(cs[k]);
                assert(cs@.take(k + 1) =~= cs@.take(k as int).push(cs@[k as int]));
                k = k + 1;
            }
            assert(cs@.take(cs@.len() as int) =~= cs@);
        },
    }
}

impl Value {
    /// The value as text: an integer in decimal, a string as it is.
    pub fn to_text(&self) -> (r: String)
        ensures
            r@ == value_text(self@),
    {
        let mut out: Vec<char> = Vec::new();
        push_value(&mut out, self);
        assert(out@ =~= value_text(self@));
        string_of(out.as_slice())
    }
}

/// Rows as text, `width` values per row, as `rows_text` writes them.
pub fn format_rows(rows: &Vec<Tuple>, width: usize) -> (r: String)
    requires
        forall|i: int| 0 <= i < rows@.len() ==> (#[trigger] rows@[i])@.len() >= width,
    ensures
        r@ == rows_text(rows@.map_values(|t: Tuple| t@), width as nat),
{
    let ghost rv = rows@.map_values(|t: Tuple| t@);
    let mut out: Vec<char> = Vec::new();
    let mut i: usize = 0;
    assert(rv.take(0) =~= Seq::<Seq<ValueView>>::empty());
    while i < rows.len()
        invariant
            i <= rows@.len(),
            rv == rows@.map_values(|t: Tuple| t@),
            forall|k: int| 0 <= k < rows@.len() ==> (#[trigger] rows@[k])@.len() >= width,
            out@ == rows_text(rv.take(i as int), width as nat),
        decreases rows@.len() - i,
    {
        let row = &rows[i];
        assert(rv[i as int] == row@);
        let ghost base = out@;
        let mut j: usize = 0;
        while j < width
            invariant
                j <= width,
                row@.len() >= width,
                row@.len() == row.values@.len(),
                out@ == base + values_text(row@, j as nat),
            decreases width - j,
        {
            if j > 0 {
                out.push(',');
                out.push(' ');
            }
            assert(row@[j as int] == row.values@[j as int]@);
            push_value(&mut out, &row.values[j]);
            assert(out@ =~= base + values_text(row@, (j + 1) as nat));
            j = j + 1;
        }
        out.push('\n');
        assert(rv.take(i + 1).drop_last() =~= rv.take(i as int));
        assert(out@ =~= rows_text(rv.take(i + 1), width as nat));
        i = i + 1;
    }
    assert(rv.take(rv.len() as int) =~= rv);
    string_of(out.as_slice())
}

/// The text that answers a statement that changed the database.
fn ok_string() -> (r: String)
    ensures
        r@ == ok_text(),
{
    let cs: Vec<char> = vec!['Q', 'u', 'e', 'r', 'y', ' ', 'O', 'K', '\n'];
    assert(cs@ =~= ok_text());
    string_of(cs.as_slice())
}

/// A statement ready to be executed against the catalog and the buffer pool.
pub trait Executor {
    /// Executes the statement; answers with the text to show.
    fn execute(&self, catalog: &mut Catalog, pool: &mut BufferPoolManager) -> (r: Result<String, ExecError>)
        requires
            old(catalog).wf(),
            old(pool).wf(),
        ensures
            final(catalog).wf(),
            final(pool).wf(),
    ;
}

/// Executes a `CREATE TABLE` statement.
#[derive(Debug)]
pub struct CreateTableExecutor {
    pub stmt: Stmt,
}

/// Executes an `INSERT INTO` statement.
#[derive(Debug)]
pub struct InsertExecutor {
    pub stmt: Stmt,
}

/// Executes a `SELECT * FROM` statement.
#[derive(Debug)]
pub struct SelectExecutor {
    pub stmt: Stmt,
}

impl CreateTableExecutor {
    /// Creates the table the statement names with its columns, unless a table of that
    /// name has a first block recorded already; answers `Query OK`.
    pub fn execute(&self, catalog: &mut Catalog, pool: &mut BufferPoolManager) -> (r: Result<String, ExecError>)
        requires
            old(pool).wf(),
            old(catalog).wf(),
        ensures
            final(pool).wf(),
            final(catalog).wf(),
            r matches Ok(s) ==> s@ == ok_text(),
            r is Ok && self.stmt is CreateTableStmt ==> final(catalog).oid() == old(catalog).oid() + 1,
            r is Ok && catalog_sound(old(pool).content()) ==> match self.stmt {
                Stmt::CreateTableStmt(ast) => table_created(
                    old(pool).content(),
                    final(pool).content(),
                    final(catalog).oid() as i32,
                    ast.table_name@,
                    ast.table_element_list@.map_values(|e: TableElementAst| e@),
                ),
                _ => true,
            },
            !(self.stmt is CreateTableStmt) ==> r is Ok && final(catalog).oid() == old(catalog).oid(),
    {
        if let Stmt::CreateTableStmt(ast) = &self.stmt {
            match catalog.get_first_block_number(pool, ast.table_name.as_str()) {
                Ok(Some(_)) => {
                    return Err(ExecError::TableExists);
                },
                Ok(None) => {},
                Err(e) => {
                    return Err(ExecError::Db(e));
                },
            }
            let mut columns: Vec<Column> = Vec::new();
            let mut i: usize = 0;
            while i < ast.table_element_list.len()
                invariant
                    i <= ast.table_element_list@.len(),
                    columns@.map_values(|c: Column| c@) == ast.table_element_list@.map_values(|e: TableElementAst| e@).take(i as int),
                decreases ast.table_element_list@.len() - i,
            {
                let e: &TableElementAst = &ast.table_element_list[i];
                let c = Column { name: e.column_name.clone(), column_type: e.column_type };
                let ghost before = columns@;
                columns.push(c);
                assert(columns@.map_values(|c: Column| c@) =~= before.map_values(|c: Column| c@).push(c@));
                assert(ast.table_element_list@.map_values(|e: TableElementAst| e@).take(i + 1) =~= ast.table_element_list@.map_values(|e: TableElementAst| e@).take(i as int).push(e@));
                i = i + 1;
            }
            assert(ast.table_element_list@.map_values(|e: TableElementAst| e@).take(ast.table_element_list@.len() as int) =~= ast.table_element_list@.map_values(|e: TableElementAst| e@));
            let schema = Schema { columns };
            if let Err(e) = catalog.create_table(pool, ast.table_name.as_str(), &schema) {
                return Err(ExecError::Db(e));
            }
        }
        Ok(ok_string())
    }
}

impl InsertExecutor {
    /// Inserts the statement's values as one row of the table it names; answers
    /// `Query OK`.
    pub fn execute(&self, catalog: &Catalog, pool: &mut BufferPoolManager) -> (r: Result<String, ExecError>)
        requires
            old(pool).wf(),
            catalog.wf(),
        ensures
            final(pool).wf(),
            r matches Ok(s) ==> s@ == ok_text(),
            r is Ok ==> match self.stmt {
                Stmt::InsertStmt(ast) => table_target(old(pool).content(), ast.table_name@) matches Some((first, cs))
                    && matches_types(ast.values@.map_values(|v: Value| v@), column_types(cs))
                    && (table_pages(old(pool).content(), first, column_types(cs)) matches Some(ch) ==> table_pages(
                        final(pool).content(),
                        first,
                        column_types(cs),
                    ) == Some(chain_after_insert(ch, ast.values@.map_values(|v: Value| v@), old(pool).content().len() as int))),
                _ => final(pool).content() == old(pool).content(),
            },
    {
        if let Stmt::InsertStmt(ast) = &self.stmt {
            let schema = match catalog.get_schema(pool, ast.table_name.as_str()) {
                Ok(Some(s)) => s,
                Ok(None) => {
                    return Err(ExecError::TableNotFound);
                },
                Err(e) => {
                    return Err(ExecError::Db(e));
                },
            };
            let first = match catalog.get_first_block_number(pool, ast.table_name.as_str()) {
                Ok(Some(b)) => b,
                Ok(None) => {
                    return Err(ExecError::TableNotFound);
                },
                Err(e) => {
                    return Err(ExecError::Db(e));
                },
            };
            let table = Table::new(schema, first);
            let mut values: Vec<Value> = Vec::new();
            let mut i: usize = 0;
            while i < ast.values.len()
                invariant
                    i <= ast.values@.len(),
                    values@.map_values(|v: Value| v@) == ast.values@.map_values(|v: Value| v@).take(i as int),
                decreases ast.values@.len() - i,
            {
                let v = match &ast.values[i] {
                    Value::Int(x) => Value::Int(*x),
                    Value::Varchar(s) => Value::Varchar(s.clone()),
                };
                assert(v@ == ast.values@[i as int]@);
                let ghost before = values@;
                values.push(v);
                assert(values@.map_values(|v: Value| v@) =~= before.map_values(|v: Value| v@).push(v@));
                assert(ast.values@.map_values(|v: Value| v@).take(i + 1) =~= ast.values@.map_values(|v: Value| v@).take(i as int).push(v@));
                i = i + 1;
            }
            assert(ast.values@.map_values(|v: Value| v@).take(ast.values@.len() as int) =~= ast.values@.map_values(|v: Value| v@));
            if let Err(e) = table.insert_tuple(pool, Tuple { values }) {
                return Err(ExecError::Db(e));
            }
        }
        Ok(ok_string())
    }
}

impl SelectExecutor {
    /// The rows of the table the statement names, as `format_rows` writes them, one
    /// value per column of its schema.
    pub fn execute(&self, catalog: &Catalog, pool: &mut BufferPoolManager) -> (r: Result<String, ExecError>)
        requires
            old(pool).wf(),
            catalog.wf(),
        ensures
            final(pool).wf(),
            final(pool).content() == old(pool).content(),
            r matches Ok(text) ==> match self.stmt {
                Stmt::SelectStmt(ast) => table_target(old(pool).content(), ast.table_name@) matches Some((first, cs))
                    && table_pages(old(pool).content(), first, column_types(cs)) matches Some(ch)
                    && text@ == rows_text(pages_tuples(ch), cs.len()),
                _ => text@ == Seq::<char>::empty(),
            },
    {
        let mut res: Vec<char> = Vec::new();
        if let Stmt::SelectStmt(ast) = &self.stmt {
            let schema = match catalog.get_schema(pool, ast.table_name.as_str()) {
                Ok(Some(s)) => s,
                Ok(None) => {
                    return Err(ExecError::TableNotFound);
                },
                Err(e) => {
                    return Err(ExecError::Db(e));
                },
            };
            let first = match catalog.get_first_block_number(pool, ast.table_name.as_str()) {
                Ok(Some(b)) => b,
                Ok(None) => {
                    return Err(ExecError::TableNotFound);
                },
                Err(e) => {
                    return Err(ExecError::Db(e));
                },
            };
            let width = schema.columns.len();
            assert(width == schema@.len());
            let table = Table::new(schema, first);
            let rows = match table.tuples(pool) {
                Ok(rows) => rows,
                Err(e) => {
                    return Err(ExecError::Db(e));
                },
            };
            proof {
                crate::storage::table::lemma_table_rows_match(pool.content(), first as int, table.tys());
                assert(table.tys().len() == width);
                let ch = crate::storage::table::table_pages(pool.content(), first as int, table.tys())->Some_0;
                assert(rows@.map_values(|t: Tuple| t@) == crate::storage::table::pages_tuples(ch));
                assert forall|i: int| 0 <= i < rows@.len() implies (#[trigger] rows@[i])@.len() >= width by {
                    assert(rows@.map_values(|t: Tuple| t@)[i] == rows@[i]@);
                }
            }
            return Ok(format_rows(&rows, width));
        }
        Ok(string_of(res.as_slice()))
    }
}

impl Executor for CreateTableExecutor {
    fn execute(&self, catalog: &mut Catalog, pool: &mut BufferPoolManager) -> (r: Result<String, ExecError>) {
        CreateTableExecutor::execute(self, catalog, pool)
    }
}

impl Executor for InsertExecutor {
    fn execute(&self, catalog: &mut Catalog, pool: &mut BufferPoolManager) -> (r: Result<String, ExecError>) {
        InsertExecutor::execute(self, catalog, pool)
    }
}

impl Executor for SelectExecutor {
    fn execute(&self, catalog: &mut Catalog, pool: &mut BufferPoolManager) -> (r: Result<String, ExecError>) {
        SelectExecutor::execute(self, catalog, pool)
    }
}

} // verus!
