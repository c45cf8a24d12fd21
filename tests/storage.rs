use toy_db::buffer::{BufferPoolManager, POOL_SIZE};
use toy_db::catalog::{Column, ColumnType, Schema};
use toy_db::disk::{DiskManager, PAGE_SIZE};
use toy_db::error::DbError;
use toy_db::storage::table::Table;
use toy_db::storage::tuple::Tuple;
use toy_db::value::Value;

#[test]
fn disk_write_and_read_page() {
    let mut disk_manager = DiskManager::new("tmp/".to_string());
    disk_manager.init_data_file();
    disk_manager.write_page(0, &[65u8; PAGE_SIZE]).unwrap();
    disk_manager.write_page(1, &[66u8; PAGE_SIZE]).unwrap();
    disk_manager.write_page(2, &[67u8; PAGE_SIZE]).unwrap();
    let data = disk_manager.read_page(1).unwrap();
    assert_eq!(data, vec![66u8; PAGE_SIZE]);
}

#[test]
fn disk_write_past_end_fills_with_zeros() {
    let mut disk = DiskManager::new("tmp/".to_string());
    disk.write_page(2, &[7u8; PAGE_SIZE]).unwrap();
    assert_eq!(disk.block_count(), 3);
    assert_eq!(disk.read_page(0).unwrap(), vec![0u8; PAGE_SIZE]);
    assert_eq!(disk.read_page(2).unwrap(), vec![7u8; PAGE_SIZE]);
    assert_eq!(disk.read_page(3), Err(DbError::Io));
    assert_eq!(disk.write_page(0, &[1u8; 10]), Err(DbError::Io));
}

#[test]
fn disk_write_new_page_appends() {
    let mut disk = DiskManager::new("tmp/".to_string());
    assert_eq!(disk.write_new_page(&[1u8; PAGE_SIZE]), Ok(0));
    assert_eq!(disk.write_new_page(&[2u8; PAGE_SIZE]), Ok(1));
    assert_eq!(disk.read_page(1).unwrap(), vec![2u8; PAGE_SIZE]);
}

#[test]
fn disk_image_round_trip() {
    let mut disk = DiskManager::new("home".to_string());
    disk.write_new_page(&[1u8; PAGE_SIZE]).unwrap();
    disk.write_new_page(&[2u8; PAGE_SIZE]).unwrap();
    let image = disk.image();
    assert_eq!(image.len(), 2 * PAGE_SIZE);
    let back = DiskManager::from_image("home".to_string(), &image).unwrap();
    assert_eq!(back.read_page(1).unwrap(), vec![2u8; PAGE_SIZE]);
    assert_eq!(back.home_dir(), "home");
    assert!(DiskManager::from_image("home".to_string(), &[0u8; 10]).is_err());
}

fn disk_with_blocks(n: u8) -> DiskManager {
    let mut disk = DiskManager::new("tmp/".to_string());
    for i in 0..n {
        disk.write_new_page(&[i; PAGE_SIZE]).unwrap();
    }
    disk
}

#[test]
fn pool_pins_and_exhaustion() {
    let mut pool = BufferPoolManager::new(disk_with_blocks(POOL_SIZE as u8 + 1));
    let mut frames = Vec::new();
    for b in 0..POOL_SIZE {
        let (f, data) = pool.fetch_page(b).unwrap();
        assert_eq!(data, vec![b as u8; PAGE_SIZE]);
        frames.push(f);
    }
    assert_eq!(pool.fetch_page(POOL_SIZE), Err(DbError::PoolExhausted));
    let (again, _) = pool.fetch_page(0).unwrap();
    assert_eq!(again, frames[0]);
    pool.unpin_frame(frames[2], false);
    let (f, data) = pool.fetch_page(POOL_SIZE).unwrap();
    assert_eq!(f, frames[2]);
    assert_eq!(data, vec![POOL_SIZE as u8; PAGE_SIZE]);
    assert_eq!(pool.fetch_page(100), Err(DbError::Io));
}

#[test]
fn pool_flushes_dirty_victim() {
    let mut pool = BufferPoolManager::new(disk_with_blocks(POOL_SIZE as u8 + 1));
    let (f0, _) = pool.fetch_page(0).unwrap();
    pool.write_frame(f0, &[42u8; PAGE_SIZE]);
    pool.unpin_frame(f0, true);
    for b in 1..POOL_SIZE {
        pool.fetch_page(b).unwrap();
    }
    // Only the frame of block 0 is unpinned, so it is the victim.
    let (f, _) = pool.fetch_page(POOL_SIZE).unwrap();
    assert_eq!(f, f0);
    assert_eq!(pool.disk_manager().read_page(0).unwrap(), vec![42u8; PAGE_SIZE]);
}

#[test]
fn pool_flush_all_pages_persists_content() {
    let mut pool = BufferPoolManager::new(disk_with_blocks(2));
    let (f, _) = pool.fetch_page(1).unwrap();
    pool.write_frame(f, &[9u8; PAGE_SIZE]);
    assert_eq!(pool.disk_manager().read_page(1).unwrap(), vec![1u8; PAGE_SIZE]);
    pool.flush_all_pages().unwrap();
    assert_eq!(pool.disk_manager().read_page(1).unwrap(), vec![9u8; PAGE_SIZE]);
}

#[test]
fn pool_new_page() {
    let mut pool = BufferPoolManager::new(disk_with_blocks(1));
    let (b, f, data) = pool.new_page(&[5u8; PAGE_SIZE]).unwrap();
    assert_eq!(b, 1);
    assert_eq!(data, vec![5u8; PAGE_SIZE]);
    pool.unpin_frame(f, true);
    assert_eq!(pool.block_count(), 2);
    assert_eq!(pool.new_page(&[5u8; 3]), Err(DbError::Io));
}

fn users_schema() -> Schema {
    Schema {
        columns: vec![
            Column {
                name: "id".to_string(),
                column_type: ColumnType::Int,
            },
            Column {
                name: "name".to_string(),
                column_type: ColumnType::Varchar,
            },
        ],
    }
}

fn row(id: i32, name: &str) -> Tuple {
    Tuple {
        values: vec![Value::Int(id), Value::Varchar(name.to_string())],
    }
}

#[test]
fn heap_table_keeps_insertion_order_across_pages() {
    let mut pool = BufferPoolManager::new(DiskManager::new("tmp/".to_string()));
    let table = Table::create(&mut pool, users_schema()).unwrap();
    let long = "z".repeat(1000);
    let mut expected = Vec::new();
    for i in 0..10 {
        let t = row(i, &long);
        table.insert_tuple(&mut pool, t.clone()).unwrap();
        expected.push(t);
    }
    assert_eq!(table.tuples(&mut pool).unwrap(), expected);
    assert!(table.pages(&mut pool).unwrap().len() >= 3);
}

#[test]
fn heap_table_first_fit_uses_earlier_room() {
    let mut pool = BufferPoolManager::new(DiskManager::new("tmp/".to_string()));
    let table = Table::create(&mut pool, users_schema()).unwrap();
    table.insert_tuple(&mut pool, row(1, &"a".repeat(3000))).unwrap();
    table.insert_tuple(&mut pool, row(2, &"b".repeat(2000))).unwrap();
    table.insert_tuple(&mut pool, row(3, "c")).unwrap();
    let ids: Vec<i32> = table
        .tuples(&mut pool)
        .unwrap()
        .iter()
        .map(|t| match t.values[0] {
            Value::Int(v) => v,
            _ => -1,
        })
        .collect();
    assert_eq!(ids, vec![1, 3, 2]);
}

#[test]
fn heap_table_errors() {
    let mut pool = BufferPoolManager::new(DiskManager::new("tmp/".to_string()));
    let table = Table::create(&mut pool, users_schema()).unwrap();
    let wrong = Tuple {
        values: vec![Value::Varchar("x".to_string()), Value::Int(1)],
    };
    assert_eq!(table.insert_tuple(&mut pool, wrong), Err(DbError::SchemaMismatch));
    assert_eq!(
        table.insert_tuple(&mut pool, row(1, &"x".repeat(5000))),
        Err(DbError::TupleTooLarge)
    );
    let broken = Table::new(users_schema(), 7);
    assert_eq!(broken.insert_tuple(&mut pool, row(1, "x")), Err(DbError::Corruption));
    assert_eq!(broken.tuples(&mut pool), Err(DbError::Corruption));
}
