use toy_db::buffer::BufferPoolManager;
use toy_db::catalog::{Catalog, Column, ColumnType, Schema};
use toy_db::disk::DiskManager;
use toy_db::error::DbError;
use toy_db::execution::{CreateTableExecutor, ExecError, Executor, InsertExecutor, SelectExecutor};
use toy_db::parser::token::tokenize;
use toy_db::parser::Parser;
use toy_db::storage::table::Table;
use toy_db::storage::tuple::Tuple;
use toy_db::value::Value;

fn users_schema() -> Schema {
    Schema {
        columns: vec![
            Column {
                name: "id".to_string(),
                column_type: ColumnType::Int,
            },
            Column {
                name: "name".to_string(),
                column_type: ColumnType::Varchar,
            },
        ],
    }
}

fn restart(pool: BufferPoolManager) -> (BufferPoolManager, Catalog) {
    let image = pool.into_disk_manager().image();
    let disk = DiskManager::from_image("tmp/".to_string(), &image).unwrap();
    let mut pool = BufferPoolManager::new(disk);
    let mut catalog = Catalog::new();
    catalog.bootstrap(&mut pool).unwrap();
    (pool, catalog)
}

#[test]
fn catalog_bootstrap() {
    let mut disk = DiskManager::new("tmp/".to_string());
    disk.init_data_file();
    let mut pool = BufferPoolManager::new(disk);
    let mut catalog = Catalog::new();
    catalog.initialize(&mut pool).unwrap();
    pool.flush_all_pages().unwrap();
    let (mut pool, catalog) = restart(pool);
    assert_eq!(catalog.oid_counter(), 2);
    assert_eq!(catalog.get_first_block_number(&mut pool, "catalog_tables").unwrap(), Some(1));
    assert_eq!(catalog.get_first_block_number(&mut pool, "catalog_attributes").unwrap(), Some(2));
    assert_eq!(catalog.get_oid(&mut pool, "catalog_attributes").unwrap(), Some(2));
    assert_eq!(catalog.get_oid(&mut pool, "missing").unwrap(), None);
}

#[test]
fn catalog_insert_then_select() {
    let mut pool = BufferPoolManager::new(DiskManager::new("tmp/".to_string()));
    let mut catalog = Catalog::new();
    catalog.initialize(&mut pool).unwrap();
    catalog.bootstrap(&mut pool).unwrap();
    catalog.create_table(&mut pool, "users", &users_schema()).unwrap();
    let schema = catalog.get_schema(&mut pool, "users").unwrap().unwrap();
    assert_eq!(schema, users_schema());
    let first = catalog.get_first_block_number(&mut pool, "users").unwrap().unwrap();
    let table = Table::new(schema, first);
    let rows = vec![(1, "a"), (2, "bb"), (3, "ccc")];
    for (id, name) in rows.iter() {
        table
            .insert_tuple(
                &mut pool,
                Tuple {
                    values: vec![Value::Int(*id), Value::Varchar(name.to_string())],
                },
            )
            .unwrap();
    }
    pool.flush_all_pages().unwrap();
    let (mut pool, catalog) = restart(pool);
    assert_eq!(catalog.oid_counter(), 3);
    let schema = catalog.get_schema(&mut pool, "users").unwrap().unwrap();
    let first = catalog.get_first_block_number(&mut pool, "users").unwrap().unwrap();
    let got = Table::new(schema, first).tuples(&mut pool).unwrap();
    let expected: Vec<Tuple> = rows
        .iter()
        .map(|(id, name)| Tuple {
            values: vec![Value::Int(*id), Value::Varchar(name.to_string())],
        })
        .collect();
    assert_eq!(got, expected);
}

#[test]
fn catalog_rejects_duplicates() {
    let mut pool = BufferPoolManager::new(DiskManager::new("tmp/".to_string()));
    let mut catalog = Catalog::new();
    catalog.initialize(&mut pool).unwrap();
    catalog.create_table(&mut pool, "users", &users_schema()).unwrap();
    assert_eq!(
        catalog.create_table(&mut pool, "users", &users_schema()),
        Err(DbError::Duplicate)
    );
    let twice = Schema {
        columns: vec![
            Column {
                name: "id".to_string(),
                column_type: ColumnType::Int,
            },
            Column {
                name: "id".to_string(),
                column_type: ColumnType::Varchar,
            },
        ],
    };
    assert_eq!(catalog.create_table(&mut pool, "other", &twice), Err(DbError::Duplicate));
    assert_eq!(catalog.initialize(&mut pool), Err(DbError::Corruption));
    assert_eq!(catalog.get_schema(&mut pool, "nothing").unwrap(), None);
}

#[test]
fn catalog_schema_of_catalog_tables() {
    let mut pool = BufferPoolManager::new(DiskManager::new("tmp/".to_string()));
    let mut catalog = Catalog::new();
    catalog.initialize(&mut pool).unwrap();
    let schema = catalog.get_schema(&mut pool, "catalog_tables").unwrap().unwrap();
    let names: Vec<&str> = schema.columns.iter().map(|c| c.name.as_str()).collect();
    assert_eq!(names, vec!["object_id", "name"]);
    assert_eq!(schema.columns[0].column_type, ColumnType::Int);
    assert_eq!(schema.columns[1].column_type, ColumnType::Varchar);
}

#[test]
fn executors_answer_queries() {
    let mut pool = BufferPoolManager::new(DiskManager::new("tmp/".to_string()));
    let mut catalog = Catalog::new();
    catalog.initialize(&mut pool).unwrap();
    let parse = |q: &str| Parser::new(tokenize(q).unwrap()).parse().unwrap();
    let out = CreateTableExecutor { stmt: parse("CREATE TABLE t (a INT, b VARCHAR);") }
        .execute(&mut catalog, &mut pool)
        .unwrap();
    assert_eq!(out, "Query OK\n");
    assert_eq!(
        CreateTableExecutor { stmt: parse("CREATE TABLE t (a INT);") }.execute(&mut catalog, &mut pool),
        Err(ExecError::TableExists)
    );
    InsertExecutor { stmt: parse("INSERT INTO t VALUES (12, 'x y');") }
        .execute(&catalog, &mut pool)
        .unwrap();
    InsertExecutor { stmt: parse("INSERT INTO t VALUES (305, 'z');") }
        .execute(&catalog, &mut pool)
        .unwrap();
    let out = SelectExecutor { stmt: parse("SELECT * FROM t;") }
        .execute(&catalog, &mut pool)
        .unwrap();
    assert_eq!(out, "12, x y\n305, z\n");
    assert_eq!(
        SelectExecutor { stmt: parse("SELECT * FROM u;") }.execute(&catalog, &mut pool),
        Err(ExecError::TableNotFound)
    );
}

#[test]
fn format_rows_writes_values() {
    let rows = vec![
        Tuple {
            values: vec![Value::Int(-2147483648), Value::Varchar("a".to_string())],
        },
        Tuple {
            values: vec![Value::Int(0), Value::Varchar("".to_string())],
        },
    ];
    assert_eq!(
        toy_db::execution::format_rows(&rows, 2),
        "-2147483648, a\n0, \n"
    );
    assert_eq!(toy_db::execution::format_rows(&rows, 1), "-2147483648\n0\n");
}

#[test]
fn catalog_create_table_overflow() {
    let mut pool = BufferPoolManager::new(DiskManager::new("tmp/".to_string()));
    let mut catalog = Catalog::new();
    catalog.initialize(&mut pool).unwrap();
    let header_schema = catalog.get_schema(&mut pool, "catalog_tables").unwrap().unwrap();
    assert_eq!(header_schema.columns.len(), 2);
    let header = Table::new(
        Schema {
            columns: vec![
                Column {
                    name: "object_id".to_string(),
                    column_type: ColumnType::Int,
                },
                Column {
                    name: "first_block_number".to_string(),
                    column_type: ColumnType::Int,
                },
            ],
        },
        0,
    );
    header
        .insert_tuple(
            &mut pool,
            Tuple {
                values: vec![Value::Int(i32::MAX), Value::Int(0)],
            },
        )
        .unwrap();
    catalog.bootstrap(&mut pool).unwrap();
    assert_eq!(catalog.oid_counter(), i32::MAX as usize);
    assert_eq!(
        catalog.create_table(&mut pool, "users", &users_schema()),
        Err(DbError::Overflow)
    );
}

fn run_statement<E: Executor>(e: &E, catalog: &mut Catalog, pool: &mut BufferPoolManager) -> Result<String, ExecError> {
    e.execute(catalog, pool)
}

#[test]
fn executor_trait_runs_statements() {
    let mut pool = BufferPoolManager::new(DiskManager::new("tmp/".to_string()));
    let mut catalog = Catalog::new();
    catalog.initialize(&mut pool).unwrap();
    let parse = |q: &str| Parser::new(tokenize(q).unwrap()).parse().unwrap();
    let create = CreateTableExecutor { stmt: parse("CREATE TABLE t (a INT);") };
    assert_eq!(run_statement(&create, &mut catalog, &mut pool).unwrap(), "Query OK\n");
    let insert = InsertExecutor { stmt: parse("INSERT INTO t VALUES (7);") };
    assert_eq!(run_statement(&insert, &mut catalog, &mut pool).unwrap(), "Query OK\n");
    let select = SelectExecutor { stmt: parse("SELECT * FROM t;") };
    assert_eq!(run_statement(&select, &mut catalog, &mut pool).unwrap(), "7\n");
}

#[test]
fn created_table_starts_empty_and_duplicate_changes_nothing() {
    let mut pool = BufferPoolManager::new(DiskManager::new("tmp/".to_string()));
    let mut catalog = Catalog::new();
    catalog.initialize(&mut pool).unwrap();
    let before = pool.block_count();
    catalog.create_table(&mut pool, "users", &users_schema()).unwrap();
    let first = catalog.get_first_block_number(&mut pool, "users").unwrap().unwrap();
    assert_eq!(first, before);
    assert_eq!(Table::new(users_schema(), first).tuples(&mut pool).unwrap(), vec![]);
    let count = pool.block_count();
    let oid = catalog.oid_counter();
    assert_eq!(
        catalog.create_table(&mut pool, "users", &users_schema()),
        Err(DbError::Duplicate)
    );
    assert_eq!(pool.block_count(), count);
    assert_eq!(catalog.oid_counter(), oid);
}
