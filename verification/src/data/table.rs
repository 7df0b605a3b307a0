//! The table: a pager and the number of its root page.
use vstd::prelude::*;
use crate::data::row::ROW_SIZE;
use crate::errors::PagerError;
use crate::pager::{min, Pager, PagerView};
use crate::trees::node_type::NodeType;
use crate::trees::page_node::Page;

verus! {

pub const PAGE_SIZE: usize = 4096;
pub const TABLE_MAX_PAGES: usize = 100;

pub const ROWS_PER_PAGE: usize = PAGE_SIZE / ROW_SIZE;
pub const TABLE_MAX_ROWS: usize = ROWS_PER_PAGE * TABLE_MAX_PAGES;

pub const MAX_USERNAME_SIZE: usize = 32;
pub const MAX_EMAIL_SIZE: usize = 32;

pub const DB_FILE_PATH: &'static str = "test.db";

pub struct Table {
    pub pager: Pager,
    pub root_page_num: usize,
}

/// The root page of a new database: a leaf node with no cells, flagged as
/// the root (every other byte zero).
pub open spec fn new_root_page() -> Seq<u8> {
    Seq::new(PAGE_SIZE as nat, |i: int| if i == 0 || i == 1 { 1u8 } else { 0u8 })
}

impl Table {
    /// Opens the table of a database file of `file_length` bytes whose first
    /// pages are `file_pages`; the root is page 0. For an empty file, page 0 is
    /// set up as a root leaf node with no cells.
    pub fn new(file_length: u64, file_pages: Vec<[u8; PAGE_SIZE]>) -> (r: Result<Self, PagerError>)
        requires
            file_length <= usize::MAX,
            file_length % (PAGE_SIZE as u64) == 0 ==> file_pages@.len() == min(
                (file_length / (PAGE_SIZE as u64)) as int,
                TABLE_MAX_PAGES as int,
            ),
        ensures
            file_length % (PAGE_SIZE as u64) != 0 ==> (r matches Err(PagerError::InitError { cause })
                && cause@ == "DB file corrupt. Invalid db file."@),
            file_length % (PAGE_SIZE as u64) == 0 ==> (r matches Ok(t) && t.root_page_num == 0
                && t.pager@.wf() && t.pager@ == (PagerView {
                file_length,
                num_pages: (file_length / (PAGE_SIZE as u64)) as usize,
                pages: if file_length == 0 {
                    seq![Some(new_root_page())]
                } else {
                    seq![None]
                },
                file_pages: file_pages@.map_values(|a: [u8; PAGE_SIZE]| a@),
            })),
    {
        let mut pager = Pager::new(file_length, file_pages)?;
        let root_page_num: usize = 0;
        if pager.num_pages == 0 {
            proof {
                crate::pager::lemma_after_get(pager@, 0);
            }
            let mut root_page = Page::new(pager.get_page(0)?);
            root_page.set_node_type(NodeType::NodeLeaf);
            root_page.set_cell_count(0);
            root_page.set_root_node(true);
            assert(root_page@ =~= new_root_page());
        }
        let t = Self { pager, root_page_num };
        assert(t.pager@.pages =~= (if file_length == 0 {
            seq![Some(new_root_page())]
        } else {
            seq![None]
        }));
        Ok(t)
    }
}

} // verus!
