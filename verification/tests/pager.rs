use slite::data::table::{Table, PAGE_SIZE, TABLE_MAX_PAGES};
use slite::errors::{PagerError, ParseError};
use slite::pager::Pager;
use slite::trees::errors::InternalNodeError;
use slite::trees::node_type::NodeType;
use slite::trees::page_node::Page;

fn page_of(b: u8) -> [u8; PAGE_SIZE] {
    [b; PAGE_SIZE]
}

#[test]
fn pager_refuses_partial_pages() {
    match Pager::new(PAGE_SIZE as u64 + 1, Vec::new()) {
        Err(e) => {
            assert_eq!(
                e,
                PagerError::InitError { cause: "DB file corrupt. Invalid db file.".to_string() }
            );
            assert_eq!(e.message(), "[DB_INIT_ERROR]:: DB file corrupt. Invalid db file.");
        }
        Ok(_) => panic!("expected an error"),
    }
    assert!(Table::new(10, Vec::new()).is_err());
}

#[test]
fn pager_loads_file_pages_and_zeroes_new_ones() {
    let mut pager = Pager::new(2 * PAGE_SIZE as u64, vec![page_of(7), page_of(9)]).unwrap();
    assert_eq!(pager.num_pages, 2);
    assert_eq!(pager.get_page(0).unwrap()[100], 7);
    // Page 1 is in the file, but the cache has a single slot.
    assert!(!pager.page_available(1));
    assert!(pager.page_available(2));
    assert!(pager.page_available(TABLE_MAX_PAGES));
    let p5 = pager.get_page(5).unwrap();
    assert!(p5.iter().all(|b| *b == 0));
    assert_eq!(pager.pages.len(), 6);
    assert!(pager.page_available(1));
    assert_eq!(pager.get_page(1).unwrap()[0], 9);
}

#[test]
fn pager_refuses_pages_out_of_bound() {
    let mut pager = Pager::new(0, Vec::new()).unwrap();
    match pager.get_page(TABLE_MAX_PAGES) {
        Err(e) => assert_eq!(
            e,
            PagerError::OutBoundSeek { page: TABLE_MAX_PAGES, max_allowed_pages: TABLE_MAX_PAGES }
        ),
        Ok(_) => panic!("expected an error"),
    }
    assert_eq!(pager.pages.len(), 1);
}

#[test]
fn written_page_reads_back() {
    let mut pager = Pager::new(0, Vec::new()).unwrap();
    {
        let p = pager.get_page(3).unwrap();
        p[17] = 42;
        p[4095] = 1;
    }
    let p = pager.get_page(3).unwrap();
    assert_eq!(p[17], 42);
    assert_eq!(p[4095], 1);
    assert_eq!(pager.pages.len(), 4);
}

#[test]
fn asking_for_a_lower_page_past_the_file_drops_higher_slots() {
    let mut pager = Pager::new(0, Vec::new()).unwrap();
    pager.get_page(3).unwrap()[0] = 5;
    pager.get_page(1).unwrap();
    assert_eq!(pager.pages.len(), 2);
    assert_eq!(pager.get_page(3).unwrap()[0], 0);
}

#[test]
fn allocate_zeroes_a_page() {
    let mut pager = Pager::new(PAGE_SIZE as u64, vec![page_of(3)]).unwrap();
    pager.get_page(0).unwrap();
    pager.allocate_page(0);
    assert!(pager.get_page(0).unwrap().iter().all(|b| *b == 0));
    pager.allocate_page(4);
    assert_eq!(pager.pages.len(), 5);
    assert!(pager.pages[4].is_some());
}

#[test]
fn cached_pages_and_flush() {
    let mut pager = Pager::new(0, Vec::new()).unwrap();
    pager.get_page(2).unwrap()[0] = 8;
    pager.get_page(2).unwrap();
    pager.allocate_page(2);
    pager.get_page(0).unwrap();
    // Page 0 asked for after page 2 resized the cache to one slot.
    assert_eq!(pager.cached_pages(), vec![0]);
    let mut pager = Pager::new(0, Vec::new()).unwrap();
    pager.get_page(4).unwrap()[1] = 6;
    assert_eq!(pager.cached_pages(), vec![4]);
    match pager.flush(4) {
        Ok((offset, bytes)) => {
            assert_eq!(offset, 4 * PAGE_SIZE as u64);
            assert_eq!(bytes[1], 6);
        }
        Err(e) => panic!("unexpected {:?}", e),
    }
    assert_eq!(pager.flush(2).err(), Some(PagerError::FlushError { page_num: 2 }));
    assert_eq!(pager.flush(9).err(), Some(PagerError::FlushError { page_num: 9 }));
}

#[test]
fn two_pages_at_once() {
    let mut pager = Pager::new(PAGE_SIZE as u64, vec![page_of(1)]).unwrap();
    pager.allocate_page(1);
    {
        let (a, b) = pager.get_two_pages(0, 1).unwrap();
        assert_eq!(a[0], 1);
        assert_eq!(b[0], 0);
        a[0] = 10;
        b[0] = 20;
    }
    assert_eq!(pager.get_page(0).unwrap()[0], 10);
    assert_eq!(pager.get_page(1).unwrap()[0], 20);
    let (b, a) = pager.get_two_pages(1, 0).unwrap();
    assert_eq!((b[0], a[0]), (20, 10));
}

#[test]
fn table_on_empty_file_has_root_leaf_header() {
    let mut table = Table::new(0, Vec::new()).unwrap();
    assert_eq!(table.root_page_num, 0);
    let p = table.pager.get_page(0).unwrap();
    assert_eq!(p[0], 1);
    assert_eq!(p[1], 1);
    assert!(p[2..].iter().all(|b| *b == 0));
    let root = Page::new(p);
    assert_eq!(root.get_node_type(), NodeType::NodeLeaf);
    assert!(root.is_root_node());
    assert_eq!(root.cell_count(), 0);
}

#[test]
fn table_on_existing_file_leaves_pages_uncached() {
    let table = Table::new(PAGE_SIZE as u64, vec![page_of(4)]).unwrap();
    assert_eq!(table.pager.pages.len(), 1);
    assert!(table.pager.pages[0].is_none());
    assert!(table.pager.cached_pages().is_empty());
}

#[test]
fn error_messages() {
    assert_eq!(
        PagerError::PageNotFound { page_seeked: 3 }.message(),
        "page 3 not found"
    );
    assert_eq!(
        PagerError::FlushError { page_num: 0 }.message(),
        "error flushing data to the disk for page 0"
    );
    assert_eq!(
        PagerError::OutBoundSeek { page: 1234567, max_allowed_pages: 10 }.message(),
        "page 1234567 is out of the bound (max pages per table: 10)"
    );
    assert_eq!(
        InternalNodeError::InvalidChildAccess { child_no: 12, max_child_no_available: 7 }.message(),
        "Tried to access child_num 12 > num_keys 7"
    );
    assert_eq!(
        ParseError::ArgsPassError { arg: "db filename not provided" }.message(),
        "error parsing arguement db filename not provided"
    );
}
