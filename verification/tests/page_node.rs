use slite::data::row::Row;
use slite::data::table::PAGE_SIZE;
use slite::trees::errors::InternalNodeError;
use slite::trees::node_type::NodeType;
use slite::trees::page_node::Page;

#[test]
fn node_type_bytes() {
    assert_eq!(NodeType::from_u8(&0), NodeType::NodeInternal);
    assert_eq!(NodeType::from_u8(&1), NodeType::NodeLeaf);
    assert_eq!(NodeType::NodeInternal.to_u8(), 0);
    assert_eq!(NodeType::NodeLeaf.to_u8(), 1);
}

#[test]
fn header_fields() {
    let mut data = [0u8; PAGE_SIZE];
    let mut p = Page::new(&mut data);
    assert_eq!(p.get_node_type(), NodeType::NodeInternal);
    assert!(!p.is_root_node());
    p.set_node_type(NodeType::NodeLeaf);
    p.set_root_node(true);
    p.set_cell_count(0x01020304);
    assert_eq!(p.get_node_type(), NodeType::NodeLeaf);
    assert!(p.is_root_node());
    assert_eq!(p.cell_count(), 0x01020304);
    p.set_root_node(false);
    assert!(!p.is_root_node());
    assert_eq!(&data[0..10], &[1, 0, 0, 0, 0, 0, 4, 3, 2, 1]);
}

#[test]
fn leaf_cells() {
    let mut data = [0u8; PAGE_SIZE];
    let mut p = Page::new(&mut data);
    let row = Row { id: 9, username: "nine".to_string(), email: "n@9".to_string() };
    p.insert_cell(0x1_0000_0007, &row, 2);
    assert_eq!(p.get_cell_key(2), 7);
    assert_eq!(p.get_node_cell(2).len(), 395);
    assert_eq!(p.get_cell_value(2).len(), 391);
    assert_eq!(p.get_cell_row(2).username, "nine");
    p.set_cell_key(11, 2);
    p.get_node_cell_mut(0)[0] = 5;
    assert_eq!(p.get_cell(2).0, 11);
    assert_eq!(p.get_cell_key(0), 5);
    let other = Row { id: 1, username: "one".to_string(), email: "o".to_string() };
    p.write_cell_value(&other, 2);
    assert_eq!(p.get_cell(2).1.username, "one");
    assert_eq!(p.get_cell_key(2), 11);
    assert_eq!(data[10 + 2 * 395], 11);
}

#[test]
fn leaf_keys_in_cell_order() {
    let mut data = [0u8; PAGE_SIZE];
    let mut p = Page::new(&mut data);
    p.set_cell_key(4, 0);
    p.set_cell_key(usize::MAX, 1);
    p.set_cell_key(2, 2);
    p.set_cell_count(3);
    assert_eq!(p.leaf_node_keys(), vec![4, -1, 2]);
    p.set_cell_count(0);
    assert!(p.leaf_node_keys().is_empty());
}

#[test]
fn internal_node_fields() {
    let mut data = [0u8; PAGE_SIZE];
    // Key count 5 at bytes 6..14, right child at bytes 14..18.
    data[6] = 5;
    data[14..18].copy_from_slice(&[9, 8, 7, 6]);
    data[22..26].copy_from_slice(&[1, 2, 0, 0]);
    let p = Page::new(&mut data);
    assert_eq!(p.internal_node_num_keys(), 5);
    assert_eq!(p.internal_node_right_child(), &[9, 8, 7, 6]);
    assert_eq!(p.internal_node_child(5).unwrap(), &[9, 8, 7, 6]);
    assert_eq!(p.internal_node_cell(3).len(), 6);
    assert_eq!(p.internal_node_child(4).unwrap().len(), 14);
    assert_eq!(p.internal_node_key(4), 0x0201);
    assert_eq!(
        p.internal_node_child(6).err(),
        Some(InternalNodeError::InvalidChildAccess { child_no: 6, max_child_no_available: 5 })
    );
}
