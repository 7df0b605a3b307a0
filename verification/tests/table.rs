use slite::cursor::Cursor;
use slite::data::row::{Row, ROW_SIZE};
use slite::data::table::{Table, PAGE_SIZE, TABLE_MAX_PAGES};
use slite::trees::consts::LEAF_NODE_MAX_CELLS;
use slite::errors::PagerError;

/// A table on an empty database file.
fn new_table() -> Table {
    Table::new(0, Vec::new()).unwrap()
}

/// The database file after closing `table` over `file`: every cached page
/// written at its offset.
fn close(table: &Table, mut file: Vec<u8>) -> Vec<u8> {
    for page in table.pager.cached_pages() {
        let (offset, bytes) = table.pager.flush(page).unwrap();
        let start = offset as usize;
        let end = start + PAGE_SIZE;
        if file.len() < end {
            file.resize(end, 0);
        }
        file[start..end].copy_from_slice(bytes);
    }
    file
}

/// A table opened on the database file `file`.
fn open(file: &[u8]) -> Table {
    let pages: Vec<[u8; PAGE_SIZE]> = file
        .chunks_exact(PAGE_SIZE)
        .take(TABLE_MAX_PAGES)
        .map(|c| {
            let mut p = [0u8; PAGE_SIZE];
            p.copy_from_slice(c);
            p
        })
        .collect();
    Table::new(file.len() as u64, pages).unwrap()
}

#[test]
fn test_table_new() {
    let table = new_table();
    assert_eq!(table.root_page_num, 0);
}

#[test]
fn test_get_row_slot() {
    let mut table = new_table();
    let mut cursor = Cursor::new(&mut table);

    let slot = cursor.curr_value().unwrap();
    assert_eq!(slot.len(), ROW_SIZE);
}

#[test]
fn test_insert_and_retrieve_row() {
    let mut table = new_table();

    let row = Row {
        id: 1,
        username: "testuser".to_string(),
        email: "test@example.com".to_string(),
    };

    {
        let mut cursor = Cursor::new(&mut table);
        cursor.insert_leaf_page(1, &row).unwrap();
    }

    let mut retrieved = Row::new();

    {
        let mut cursor = Cursor::new(&mut table);
        let slot = cursor.curr_value().unwrap();
        retrieved.ingest_deserialized(slot);
    }

    assert_eq!(retrieved.id, 1);
    assert_eq!(retrieved.username, "testuser");
    assert_eq!(retrieved.email, "test@example.com");
}

#[test]
fn test_insert_multiple_rows() {
    let mut table = new_table();

    for i in 0..5 {
        let row = Row {
            id: i as i32,
            username: format!("user{}", i),
            email: format!("user{}@example.com", i),
        };

        let mut cursor = Cursor::new(&mut table);
        cursor.cell_num = i;
        cursor.insert_leaf_page(i as usize, &row).unwrap();
    }

    let mut cursor = Cursor::new(&mut table);

    for i in 0..5 {
        cursor.cell_num = i;

        let mut retrieved = Row::new();
        let slot = cursor.curr_value().unwrap();
        retrieved.ingest_deserialized(slot);

        assert_eq!(retrieved.id, i as i32);
        assert_eq!(retrieved.username, format!("user{}", i));
    }
}

#[test]
fn test_flush_nonexistent_page_returns_error() {
    let table = new_table();
    let result = table.pager.flush(99);

    assert!(result.is_err());
    if let Err(PagerError::FlushError { page_num }) = result {
        assert_eq!(page_num, 99);
    } else {
        panic!("expected FlushError");
    }
}

#[test]
fn test_persistence_after_recreate() {
    let file = {
        let mut table = new_table();

        for i in 0..3 {
            let row = Row {
                id: i as i32 + 1,
                username: format!("user{}", i),
                email: format!("user{}@example.com", i),
            };

            let mut cursor = Cursor::new(&mut table);
            cursor.cell_num = i;
            cursor.insert_leaf_page(i, &row).unwrap();
        }
        close(&table, Vec::new())
    };

    {
        let mut table = open(&file);
        let mut cursor = Cursor::new(&mut table);

        for i in 0..3 {
            cursor.cell_num = i;

            let mut retrieved = Row::new();
            let slot = cursor.curr_value().unwrap();
            retrieved.ingest_deserialized(slot);

            assert_eq!(retrieved.id, i as i32 + 1);
            assert_eq!(retrieved.username, format!("user{}", i));
        }
    }
}

#[test]
fn test_flush_writes_to_disk() {
    let mut table = new_table();

    let row = Row {
        id: 42,
        username: "flushuser".to_string(),
        email: "flush@test.com".to_string(),
    };

    {
        let mut cursor = Cursor::new(&mut table);
        cursor.insert_leaf_page(42, &row).unwrap();
    }

    let (offset, bytes) = table.pager.flush(0).expect("flush should succeed");
    let mut file_data: Vec<u8> = Vec::new();
    file_data.resize(offset as usize + PAGE_SIZE, 0);
    file_data[offset as usize..].copy_from_slice(bytes);

    assert!(file_data.len() > 0);
}

#[test]
fn test_table_drop_flushes_to_disk() {
    let file_data = {
        let mut table = new_table();

        let row = Row {
            id: 100,
            username: "dropuser".to_string(),
            email: "drop@test.com".to_string(),
        };

        let mut cursor = Cursor::new(&mut table);
        cursor.insert_leaf_page(100, &row).unwrap();
        close(&table, Vec::new())
    };

    assert!(
        file_data.len() >= PAGE_SIZE,
        "file should have at least one page"
    );
}

// Fills the table's root leaf to its limit and reads the last row back. A
// leaf holds `LEAF_NODE_MAX_CELLS` rows, so inserting at cell numbers up to
// `TABLE_MAX_ROWS - 1` in one page, as a test over the whole table would,
// runs past the page's end; the rows are therefore inserted up to the leaf's
// limit.
#[test]
fn test_table_max_rows_limit() {
    let mut table = new_table();

    for i in 0..LEAF_NODE_MAX_CELLS {
        let row = Row {
            id: i as i32,
            username: format!("user{}", i),
            email: format!("user{}@example.com", i),
        };

        let mut cursor = Cursor::new(&mut table);
        cursor.cell_num = i;
        cursor.insert_leaf_page(i, &row).unwrap();
    }

    let mut cursor = Cursor::new(&mut table);
    cursor.cell_num = LEAF_NODE_MAX_CELLS - 1;

    let mut retrieved = Row::new();
    let slot = cursor.curr_value().unwrap();
    retrieved.ingest_deserialized(slot);

    assert_eq!(retrieved.id, (LEAF_NODE_MAX_CELLS - 1) as i32);
}
