use vstd::prelude::*;

use crate::catalog::ColumnType;
use crate::value::Value;

verus! {

/// `CREATE TABLE name (column type, ...)`.
#[derive(Debug, Clone, PartialEq, Eq)]
pub struct CreateTableStmtAst {
    pub table_name: String,
    pub table_element_list: Vec<TableElementAst>,
}

/// One column of a `CREATE TABLE` statement.
#[derive(Debug, Clone, PartialEq, Eq)]
pub struct TableElementAst {
    pub column_name: String,
    pub column_type: ColumnType,
}

/// `INSERT INTO name VALUES (literal, ...)`.
#[derive(Debug, Clone, PartialEq, Eq)]
pub struct InsertStmtAst {
    pub table_name: String,
    pub values: Vec<Value>,
}

/// `SELECT * FROM name`.
#[derive(Debug, Clone, PartialEq, Eq)]
pub struct SelectStmtAst {
    pub table_name: String,
}

impl View for TableElementAst {
    type V = (Seq<char>, ColumnType);

    open spec fn view(&self) -> (Seq<char>, ColumnType) {
        (self.column_name@, self.column_type)
    }
}

} // verus!
