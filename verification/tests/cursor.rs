use slite::cursor::Cursor;
use slite::data::row::Row;
use slite::data::table::{Table, PAGE_SIZE, TABLE_MAX_PAGES};
use slite::errors::PagerError;
use slite::trees::node_type::NodeType;
use slite::trees::page_node::Page;

fn row(id: i32) -> Row {
    Row { id, username: format!("u{}", id), email: format!("u{}@x", id) }
}

/// A table on an empty file whose root page holds `keys` in its cells.
fn table_with_keys(keys: &[usize]) -> Table {
    let mut table = Table::new(0, Vec::new()).unwrap();
    for (i, k) in keys.iter().enumerate() {
        let mut cursor = Cursor::new(&mut table);
        cursor.cell_num = i;
        cursor.insert_leaf_page(*k, &row(*k as i32)).unwrap();
    }
    table
}

/// `table` closed and opened again: its cached pages become the file.
fn reopen(table: &Table) -> Table {
    let mut file: Vec<u8> = Vec::new();
    for page in table.pager.cached_pages() {
        let (offset, bytes) = table.pager.flush(page).unwrap();
        let end = offset as usize + PAGE_SIZE;
        if file.len() < end {
            file.resize(end, 0);
        }
        file[offset as usize..end].copy_from_slice(bytes);
    }
    let pages: Vec<[u8; PAGE_SIZE]> = file
        .chunks_exact(PAGE_SIZE)
        .map(|c| {
            let mut p = [0u8; PAGE_SIZE];
            p.copy_from_slice(c);
            p
        })
        .collect();
    Table::new(file.len() as u64, pages).unwrap()
}

fn keys_of(table: &mut Table, page: usize) -> Vec<i32> {
    Page::new(table.pager.get_page(page).unwrap()).leaf_node_keys()
}

#[test]
fn leaf_search_finds_key_or_its_place() {
    let mut table = table_with_keys(&[0, 2, 4, 6, 8, 10, 12, 14, 16, 18]);
    let mut cursor = Cursor::new(&mut table);
    cursor.leaf_node_find(0, 6);
    assert_eq!((cursor.curr_page_num, cursor.cell_num), (0, 3));
    cursor.leaf_node_find(0, 7);
    assert_eq!(cursor.cell_num, 4);
    cursor.leaf_node_find(0, 0);
    assert_eq!(cursor.cell_num, 0);
    cursor.leaf_node_find(0, 19);
    assert_eq!(cursor.cell_num, 10);
    cursor.leaf_node_find(0, 18);
    assert_eq!(cursor.cell_num, 9);
}

#[test]
fn table_find_searches_the_leaf_root() {
    // A new database's root is a leaf.
    let mut table = table_with_keys(&[1, 3, 5]);
    assert_eq!(
        Page::new(table.pager.get_page(0).unwrap()).get_node_type(),
        NodeType::NodeLeaf
    );
    let mut cursor = Cursor::new(&mut table);
    cursor.table_find(5);
    assert_eq!((cursor.curr_page_num, cursor.cell_num), (0, 2));
    cursor.table_find(4);
    assert_eq!(cursor.cell_num, 2);
}

#[test]
fn advance_moves_through_cells_then_pages() {
    let mut table = table_with_keys(&[1, 2]);
    let mut cursor = Cursor::new(&mut table);
    cursor.advance();
    assert_eq!((cursor.curr_page_num, cursor.cell_num), (0, 1));
    cursor.advance();
    assert_eq!((cursor.curr_page_num, cursor.cell_num), (0, 2));
    cursor.advance();
    assert_eq!((cursor.curr_page_num, cursor.cell_num), (1, 0));
    assert!(!cursor.at_table_end);
    cursor.curr_page_num = TABLE_MAX_PAGES - 1;
    cursor.advance();
    assert!(cursor.at_table_end);
    assert_eq!(cursor.curr_page_num, TABLE_MAX_PAGES - 1);
}

#[test]
fn curr_value_out_of_bound() {
    let mut table = Table::new(0, Vec::new()).unwrap();
    let mut cursor = Cursor::new(&mut table);
    cursor.curr_page_num = TABLE_MAX_PAGES;
    assert_eq!(
        cursor.curr_value().err(),
        Some(PagerError::OutBoundSeek { page: TABLE_MAX_PAGES, max_allowed_pages: TABLE_MAX_PAGES })
    );
    assert_eq!(
        cursor.insert_leaf_page(1, &row(1)).err(),
        Some(PagerError::OutBoundSeek { page: TABLE_MAX_PAGES, max_allowed_pages: TABLE_MAX_PAGES })
    );
}

#[test]
fn insert_keeps_other_cells() {
    let mut table = table_with_keys(&[10, 20, 30]);
    {
        let mut cursor = Cursor::new(&mut table);
        cursor.cell_num = 1;
        cursor.insert_leaf_page(15, &row(15)).unwrap();
    }
    assert_eq!(keys_of(&mut table, 0), vec![10, 15, 20, 30]);
    let p = Page::new(table.pager.get_page(0).unwrap());
    assert_eq!(p.get_cell_row(2).username, "u20");
    let (k, r) = p.get_cell(1);
    assert_eq!((k, r.id, r.email.as_str()), (15, 15, "u15@x"));
}

#[test]
fn negative_id_key_keeps_low_bits() {
    let mut table = Table::new(0, Vec::new()).unwrap();
    let mut cursor = Cursor::new(&mut table);
    cursor.insert_leaf_page(-3i32 as usize, &row(-3)).unwrap();
    let p = Page::new(cursor.table.pager.get_page(0).unwrap());
    assert_eq!(p.get_cell_key(0), -3);
    assert_eq!(p.get_cell_row(0).id, -3);
}

#[test]
fn full_leaf_splits_into_a_new_page() {
    let mut table = reopen(&table_with_keys(&[0, 2, 4, 6, 8, 10, 12, 14, 16, 18]));
    assert_eq!(table.pager.num_pages, 1);
    {
        let mut cursor = Cursor::new(&mut table);
        let page = cursor.insert_leaf_page(5, &row(5)).unwrap();
        assert_eq!(Page::new(page).cell_count(), 6);
        // Key 5 is below the new page's first key: the cursor stays.
        assert_eq!(cursor.curr_page_num, 0);
    }
    // The split put key 5 in at its place; the insert then put it in again
    // at the cursor's cell.
    assert_eq!(keys_of(&mut table, 0), vec![5, 0, 2, 4, 5, 6]);
    assert_eq!(keys_of(&mut table, 1), vec![8, 10, 12, 14, 16, 18]);
    let p = Page::new(table.pager.get_page(1).unwrap());
    assert_eq!(p.get_cell_row(0).username, "u8");
    assert_eq!(p.get_cell_row(5).email, "u18@x");
}

#[test]
fn split_moves_cursor_to_new_page_for_high_key() {
    let mut table = reopen(&table_with_keys(&[0, 2, 4, 6, 8, 10, 12, 14, 16, 18]));
    {
        let mut cursor = Cursor::new(&mut table);
        cursor.insert_leaf_page(17, &row(17)).unwrap();
        assert_eq!(cursor.curr_page_num, 1);
    }
    assert_eq!(keys_of(&mut table, 0), vec![0, 2, 4, 6, 8]);
    assert_eq!(keys_of(&mut table, 1), vec![17, 10, 12, 14, 16, 17, 18]);
}
