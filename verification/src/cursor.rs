//! A cursor: a position (page and cell) in a table, and the operations that
//! read and write the table there.
use vstd::prelude::*;
use crate::codec::{
    le_u32_bytes, le_u32_value, lemma_le_u32_bytes_low, lemma_le_u32_roundtrip,
    lemma_le_u32_value_bound, page_subslice_mut, splice,
};
use crate::data::row::{Row, ROW_SIZE};
use crate::data::table::{Table, PAGE_SIZE, TABLE_MAX_PAGES};
use crate::errors::PagerError;
use crate::pager::{lemma_after_get, PagerView};
use crate::trees::consts::{
    lemma_layout, LEAF_NODE_CELL_SIZE, LEAF_NODE_HEADER_SIZE, LEAF_NODE_MAX_CELLS,
    LEAF_NODE_NUM_CELLS_OFFSET, LEAF_NODE_VALUE_OFFSET, NODE_TYPE_OFFSET,
};
use crate::trees::node_type::NodeType;
use crate::trees::page_node::{
    cell_start, cells_written, insert_position, key_as_i32, lemma_cells_written,
    lemma_cells_written_step, lemma_split_cell_at, lemma_insert_position_bound, normalized_cell,
    page_cell, page_cell_count, page_cell_key, page_cell_value, split_cells, split_index,
    split_new_page, split_old_page, value_start, Page, leaf_insert, cells_shifted,
};
use crate::data::row::{
    lemma_row_roundtrip, row_decodable, stored_email, stored_id, stored_username, EMAIL_SIZE,
    USERNAME_SIZE,
};
use crate::codec::no_nul;
use crate::trees::laws::{
    cell_keys_increase, key_put_in, lemma_leaf_insert_cells, lemma_split_keeps_cells,
    lemma_split_keeps_key_order,
};
use vstd::utf8::{decode_utf8, encode_utf8};
use crate::pager::{max, min, zero_page};

verus! {

/// A stored key widened to `usize` as `as` does: negative keys sign-extend.
pub open spec fn key_as_usize(k: i32) -> int {
    if k >= 0 {
        k as int
    } else {
        k + usize::MAX + 1
    }
}

/// Widening a stored key to `usize` and writing back its low 32 bits gives the
/// key's bytes back.
pub proof fn lemma_key_bytes_kept(page: Seq<u8>, x: int)
    requires
        page.len() == PAGE_SIZE,
        0 <= x < LEAF_NODE_MAX_CELLS,
    ensures
        le_u32_bytes(key_as_usize(page_cell_key(page, x)) as nat) == page.subrange(
            cell_start(x),
            cell_start(x) + 4,
        ),
{
    lemma_layout();
    let at = cell_start(x);
    lemma_le_u32_value_bound(page, at);
    let v = le_u32_value(page, at);
    if v >= 2147483648 {
        assert(usize::MAX == 4294967295 || usize::MAX == 18446744073709551615);
        if usize::MAX == 18446744073709551615 {
            let w: u64 = (v + 18446744069414584320) as u64;
            lemma_le_u32_bytes_low(w);
            assert(w % 4294967296 == v) by (nonlinear_arith)
                requires
                    w == v + 4294967295 * 4294967296,
                    0 <= v < 4294967296,
            ;
        }
    }
}

/// `k as usize`.
pub fn i32_as_usize(k: i32) -> (r: usize)
    ensures
        r == key_as_usize(k),
{
    if k >= 0 {
        k as usize
    } else {
        usize::MAX - ((-(k as i64) - 1) as usize)
    }
}

/// The cell the binary search of `leaf_node_find` settles on for `key`
/// within cells `lo..hi` of a leaf page: the middle cell's key is compared
/// with `key`; on a match that cell is the answer, else the search goes on in
/// the half that can hold `key`; when the range is empty the answer is its
/// start. `None` when the search would read a cell beyond the page.
pub open spec fn leaf_search(page: Seq<u8>, key: int, lo: int, hi: int) -> Option<int>
    decreases hi - lo,
{
    if lo >= hi {
        Some(lo)
    } else {
        let mid = (lo + hi) / 2;
        if mid >= LEAF_NODE_MAX_CELLS {
            None
        } else {
            let k = key_as_usize(page_cell_key(page, mid));
            if key == k {
                Some(mid)
            } else if key < k {
                leaf_search(page, key, lo, mid)
            } else {
                leaf_search(page, key, mid + 1, hi)
            }
        }
    }
}

/// The keys of cells `0..n` of a leaf page, widened to `usize`, strictly
/// increase.
pub open spec fn keys_sorted(page: Seq<u8>, n: int) -> bool {
    forall|i: int, j: int|
        0 <= i < j < n ==> key_as_usize(#[trigger] page_cell_key(page, i)) < key_as_usize(
            #[trigger] page_cell_key(page, j),
        )
}

proof fn lemma_leaf_search_range(page: Seq<u8>, key: int, lo: int, hi: int, n: int)
    requires
        0 <= lo <= hi <= n <= LEAF_NODE_MAX_CELLS,
        keys_sorted(page, n),
        forall|j: int| 0 <= j < lo ==> key_as_usize(#[trigger] page_cell_key(page, j)) < key,
        forall|j: int| hi <= j < n ==> key <= key_as_usize(#[trigger] page_cell_key(page, j)),
    ensures
        leaf_search(page, key, lo, hi) matches Some(i) && lo <= i <= hi && (forall|j: int|
            0 <= j < i ==> key_as_usize(#[trigger] page_cell_key(page, j)) < key) && (forall|j: int|
            i <= j < n ==> key <= key_as_usize(#[trigger] page_cell_key(page, j))),
    decreases hi - lo,
{
    if lo < hi {
        let mid = (lo + hi) / 2;
        let k = key_as_usize(page_cell_key(page, mid));
        if key == k {
        } else if key < k {
            lemma_leaf_search_range(page, key, lo, mid, n);
        } else {
            lemma_leaf_search_range(page, key, mid + 1, hi, n);
        }
    }
}

/// On a leaf whose keys increase, the search of `leaf_node_find` for `key`
/// settles on the first cell whose key is at least `key`: every cell before it
/// has a smaller key. So it finds the cell that holds `key` when there is one,
/// and otherwise the position where `key` belongs.
pub proof fn lemma_leaf_search_finds(page: Seq<u8>, key: int, n: int)
    requires
        0 <= n <= LEAF_NODE_MAX_CELLS,
        keys_sorted(page, n),
    ensures
        leaf_search(page, key, 0, n) matches Some(i) && 0 <= i <= n && (forall|j: int|
            0 <= j < i ==> key_as_usize(#[trigger] page_cell_key(page, j)) < key) && (forall|j: int|
            i <= j < n ==> key <= key_as_usize(#[trigger] page_cell_key(page, j))),
        forall|j: int|
            0 <= j < n && key_as_usize(#[trigger] page_cell_key(page, j)) == key ==> leaf_search(
                page,
                key,
                0,
                n,
            ) == Some(j),
{
    lemma_leaf_search_range(page, key, 0, n, n);
    let i = leaf_search(page, key, 0, n)->0;
    assert forall|j: int|
        0 <= j < n && key_as_usize(#[trigger] page_cell_key(page, j)) == key implies leaf_search(
        page,
        key,
        0,
        n,
    ) == Some(j) by {
        if j < i {
        } else if j > i {
            assert(key_as_usize(page_cell_key(page, i)) < key_as_usize(page_cell_key(page, j)));
        }
    }
}

/// A row inserted at a cell reads back from that cell. After an insert into
/// page `c` that needs no split (the pager as `insert_leaf_page` leaves it),
/// asking for page `c` again changes nothing, its cell `cell_num` holds the
/// row's encoding and the key, and that encoding decodes to the row when the
/// row's text fits its fields.
pub proof fn lemma_insert_reads_back(v: PagerView, c: int, cell_num: int, key: usize, row: Row)
    requires
        v.wf(),
        0 <= c < TABLE_MAX_PAGES,
        v.can_get(c),
        0 <= cell_num < LEAF_NODE_MAX_CELLS,
        page_cell_count(v.after_get(c).page(c)) < LEAF_NODE_MAX_CELLS,
        no_nul(row.username@),
        no_nul(row.email@),
        encode_utf8(row.username@).len() <= USERNAME_SIZE,
        encode_utf8(row.email@).len() <= EMAIL_SIZE,
    ensures
        ({
            let s1 = v.after_get(c);
            let w = s1.with_page(c, leaf_insert(s1.page(c), cell_num, key as nat, row.encoding()));
            let page = w.after_get(c).page(c);
            let value = page_cell_value(page, cell_num);
            &&& w.wf()
            &&& w.can_get(c)
            &&& w.after_get(c) == w
            &&& page_cell_count(page) == page_cell_count(s1.page(c)) + 1
            &&& page_cell_key(page, cell_num) == key_as_i32(key as nat)
            &&& value == row.encoding()
            &&& row_decodable(value)
            &&& stored_id(value) == row.id
            &&& decode_utf8(stored_username(value)) == row.username@
            &&& decode_utf8(stored_email(value)) == row.email@
        }),
{
    lemma_layout();
    lemma_after_get(v, c);
    let s1 = v.after_get(c);
    let enc = row.encoding();
    lemma_row_roundtrip(row, Seq::<u8>::empty());
    assert(enc + Seq::<u8>::empty() =~= enc);
    assert(enc.len() == ROW_SIZE);
    lemma_leaf_insert_cells(s1.page(c), cell_num, key, enc);
    let w = s1.with_page(c, leaf_insert(s1.page(c), cell_num, key as nat, enc));
    assert forall|i: int| 0 <= i < w.pages.len() && (#[trigger] w.pages[i]) is Some implies w.pages[i]->0.len()
        == PAGE_SIZE by {
        if i != c {
            assert(w.pages[i] == s1.pages[i]);
        }
    }
    lemma_after_get(w, c);
    assert(w.pages[c] is Some);
    if c >= w.num_pages {
        assert(crate::pager::resized(w.pages, (c + 1) as nat) =~= w.pages);
    }
    assert(w.after_get(c) =~= w);
}

/// The pager state a split of leaf `curr` works on: a zeroed new page at the
/// first page number past the file's pages, then `curr` and the new page
/// loaded.
pub open spec fn split_source(v: PagerView, curr: int) -> PagerView {
    let new = v.num_pages as int;
    v.after_allocate(new).after_get(curr).after_get(new)
}

/// A split of leaf `curr` can go ahead: the new page number is below
/// `TABLE_MAX_PAGES` and differs from `curr` (`curr` is one of the file's
/// pages), and the leaf's cells (at most `LEAF_NODE_MAX_CELLS`) all decode.
pub open spec fn can_split(v: PagerView, curr: int) -> bool {
    let page = split_source(v, curr).page(curr);
    &&& v.num_pages < TABLE_MAX_PAGES
    &&& 0 <= curr < v.num_pages
    &&& v.can_get(curr)
    &&& page_cell_count(page) <= LEAF_NODE_MAX_CELLS
    &&& forall|i: int|
        0 <= i < page_cell_count(page) ==> row_decodable(#[trigger] page_cell_value(page, i))
}

/// The pager after leaf `curr` is split into the new page (see
/// `split_old_page` and `split_new_page`) with `key`/`value` put in.
pub open spec fn split_pager(v: PagerView, curr: int, key: nat, value: Seq<u8>) -> PagerView {
    let new = v.num_pages as int;
    let s = split_source(v, curr);
    let old = s.page(curr);
    s.with_page(curr, split_old_page(old, key, value)).with_page(
        new,
        split_new_page(old, key, value),
    )
}

/// The page the cursor is on after the split: the new page when `key` is at
/// least the new page's first key (widened to `usize`), else `curr`.
pub open spec fn split_target(v: PagerView, curr: int, key: nat, value: Seq<u8>) -> int {
    let old = split_source(v, curr).page(curr);
    if key >= key_as_usize(page_cell_key(split_new_page(old, key, value), 0)) {
        v.num_pages as int
    } else {
        curr
    }
}

/// After a split, the cursor is on the page that holds the new key's cell.
/// For a full leaf whose keys increase and are not negative, and a key that
/// fits an `i32`: when the new key's place in the merged order is at or past
/// the split index, the cursor moves to the new page, where the new key then
/// stands at that place less the split index; when its place is before the
/// split index and no old cell holds the same key, the cursor stays on its
/// page, where the new key stands at its place.
pub proof fn lemma_split_cursor_follows_key(v: PagerView, curr: int, key: usize, value: Seq<u8>)
    requires
        v.wf(),
        can_split(v, curr),
        value.len() == ROW_SIZE,
        key <= 2147483647,
        cell_keys_increase(
            split_source(v, curr).page(curr),
            page_cell_count(split_source(v, curr).page(curr)) as int,
        ),
        forall|i: int|
            0 <= i < page_cell_count(split_source(v, curr).page(curr)) ==> #[trigger] page_cell_key(
                split_source(v, curr).page(curr),
                i,
            ) >= 0,
    ensures
        ({
            let old = split_source(v, curr).page(curr);
            let n = page_cell_count(old) as int;
            let pos = insert_position(old, key as i32, 0, n);
            let sp = split_index(old);
            let target = split_target(v, curr, key as nat, value);
            let after = split_pager(v, curr, key as nat, value);
            &&& pos >= sp ==> target == v.num_pages && page_cell_key(after.page(target), pos - sp)
                == key
            &&& (pos < sp && forall|i: int| 0 <= i < n ==> page_cell_key(old, i) != key) ==> target
                == curr && page_cell_key(after.page(target), pos) == key
        }),
{
    lemma_layout();
    lemma_split_source(v, curr);
    let old = split_source(v, curr).page(curr);
    let n = page_cell_count(old) as int;
    let k = key_as_i32(key as nat);
    assert(k == key as i32) by {
        assert(key as nat % 4294967296 == key as nat);
    }
    lemma_split_keeps_key_order(old, key, value);
    let pos = insert_position(old, k, 0, n);
    let sp = split_index(old);
    let new_page = split_new_page(old, key as nat, value);
    let old_page = split_old_page(old, key as nat, value);
    let after = split_pager(v, curr, key as nat, value);
    let new = v.num_pages as int;
    assert(after.page(new) == new_page);
    assert(after.page(curr) == old_page);
    let first = page_cell_key(new_page, 0);
    assert(first == key_put_in(old, pos, k, sp)) by {
        assert(page_cell_key(new_page, sp - sp) == key_put_in(old, pos, k, sp));
    }
    if pos >= sp {
        assert(key_put_in(old, pos, k, sp) <= key_put_in(old, pos, k, pos));
        assert(page_cell_key(new_page, pos - sp) == key_put_in(old, pos, k, pos));
        if pos > sp {
            assert(page_cell_key(old, sp) >= 0);
        }
    } else {
        assert(page_cell_key(old_page, pos) == key_put_in(old, pos, k, pos));
        if forall|i: int| 0 <= i < n ==> page_cell_key(old, i) != key {
            assert(page_cell_key(old, sp - 1) != key);
            assert(k <= page_cell_key(old, sp - 1));
        }
    }
}

pub struct Cursor<'a> {
    pub table: &'a mut Table,
    pub curr_page_num: usize,
    pub cell_num: usize,
    pub at_table_end: bool,
}

impl<'a> Cursor<'a> {
    /// The pager of the cursor's table.
    pub open spec fn pager(&self) -> PagerView {
        self.table.pager@
    }

    /// The root page number of the cursor's table.
    pub open spec fn root(&self) -> usize {
        self.table.root_page_num
    }

    /// A cursor at the first cell of the table's root page.
    pub fn new(table: &'a mut Table) -> (c: Self)
        ensures
            c.pager() == old(table).pager@,
            c.root() == old(table).root_page_num,
            c.curr_page_num == old(table).root_page_num,
            c.cell_num == 0,
            !c.at_table_end,
            *final(c.table) == *final(table),
    {
        let root_page_num = table.root_page_num;
        Self { table, curr_page_num: root_page_num, at_table_end: false, cell_num: 0 }
    }

    /// Binary search for `key` among the cells of leaf page `page_num`; the
    /// cursor moves to that page and to the cell `leaf_search` names.
    pub fn leaf_node_find(&mut self, page_num: usize, key: usize)
        requires
            old(self).pager().wf(),
            page_num < TABLE_MAX_PAGES,
            old(self).pager().can_get(page_num as int),
            leaf_search(
                old(self).pager().after_get(page_num as int).page(page_num as int),
                key as int,
                0,
                page_cell_count(old(self).pager().after_get(page_num as int).page(page_num as int))
                    as int,
            ) is Some,
        ensures
            final(self).pager() == old(self).pager().after_get(page_num as int),
            final(self).root() == old(self).root(),
            final(self).curr_page_num == page_num,
            final(self).cell_num == leaf_search(
                old(self).pager().after_get(page_num as int).page(page_num as int),
                key as int,
                0,
                page_cell_count(old(self).pager().after_get(page_num as int).page(page_num as int))
                    as int,
            )->0,
            final(self).at_table_end == old(self).at_table_end,
            *final(final(self).table) == *final(old(self).table),
    {
        proof {
            lemma_after_get(self.pager(), page_num as int);
        }
        let page = Page::new(self.table.pager.get_page(page_num).unwrap());
        let index = search_leaf(&page, key);
        self.curr_page_num = page_num;
        self.cell_num = index;
    }

    /// Finds `key` in the table: the root must be a leaf, searched as by
    /// `leaf_node_find`.
    pub fn table_find(&mut self, key: usize)
        requires
            old(self).pager().wf(),
            old(self).root() < TABLE_MAX_PAGES,
            old(self).pager().can_get(old(self).root() as int),
            old(self).pager().after_get(old(self).root() as int).page(old(self).root() as int)[
                NODE_TYPE_OFFSET as int] == NodeType::NodeLeaf.spec_byte(),
            leaf_search(
                old(self).pager().after_get(old(self).root() as int).page(old(self).root() as int),
                key as int,
                0,
                page_cell_count(
                    old(self).pager().after_get(old(self).root() as int).page(
                        old(self).root() as int,
                    ),
                ) as int,
            ) is Some,
        ensures
            final(self).pager() == old(self).pager().after_get(old(self).root() as int),
            final(self).root() == old(self).root(),
            final(self).curr_page_num == old(self).root(),
            final(self).cell_num == leaf_search(
                old(self).pager().after_get(old(self).root() as int).page(old(self).root() as int),
                key as int,
                0,
                page_cell_count(
                    old(self).pager().after_get(old(self).root() as int).page(
                        old(self).root() as int,
                    ),
                ) as int,
            )->0,
            final(self).at_table_end == old(self).at_table_end,
            *final(final(self).table) == *final(old(self).table),
    {
        proof {
            lemma_after_get(self.pager(), self.root() as int);
        }
        let root_page_num = self.table.root_page_num;
        let root_page = Page::new(self.table.pager.get_page(root_page_num).unwrap());
        let is_leaf = root_page.get_node_type() == NodeType::NodeLeaf;
        if is_leaf {
            self.leaf_node_find(root_page_num, key);
        }
    }

    /// Moves to the next cell of the current page. Past the page's last cell
    /// it moves to the start of the next page; when there is no next page
    /// (its number reaches `TABLE_MAX_PAGES`) the cursor stays and is marked at
    /// the table's end.
    pub fn advance(&mut self)
        requires
            old(self).pager().wf(),
            old(self).curr_page_num < TABLE_MAX_PAGES,
            old(self).pager().can_get(old(self).curr_page_num as int),
            old(self).cell_num >= page_cell_count(
                old(self).pager().after_get(old(self).curr_page_num as int).page(
                    old(self).curr_page_num as int,
                ),
            ) ==> old(self).pager().after_get(old(self).curr_page_num as int).can_get(
                old(self).curr_page_num + 1,
            ),
        ensures
            ({
                let c = old(self).curr_page_num as int;
                let s1 = old(self).pager().after_get(c);
                if old(self).cell_num < page_cell_count(s1.page(c)) {
                    &&& final(self).pager() == s1
                    &&& final(self).curr_page_num == old(self).curr_page_num
                    &&& final(self).cell_num == old(self).cell_num + 1
                    &&& final(self).at_table_end == old(self).at_table_end
                } else if c + 1 >= TABLE_MAX_PAGES {
                    &&& final(self).pager() == s1
                    &&& final(self).curr_page_num == old(self).curr_page_num
                    &&& final(self).cell_num == old(self).cell_num
                    &&& final(self).at_table_end
                } else {
                    &&& final(self).pager() == s1.after_get(c + 1)
                    &&& final(self).curr_page_num == c + 1
                    &&& final(self).cell_num == 0
                    &&& final(self).at_table_end == old(self).at_table_end
                }
            }),
            final(self).root() == old(self).root(),
            *final(final(self).table) == *final(old(self).table),
    {
        proof {
            lemma_after_get(self.pager(), self.curr_page_num as int);
        }
        let num_cells = {
            let page = Page::new(self.table.pager.get_page(self.curr_page_num).unwrap());
            page.cell_count()
        };
        if self.cell_num < num_cells as usize {
            self.cell_num = self.cell_num + 1;
            return;
        }
        let next_page_num = self.curr_page_num + 1;
        if self.table.pager.get_page(next_page_num).is_err() {
            self.at_table_end = true;
            return;
        }
        self.curr_page_num = next_page_num;
        self.cell_num = 0;
    }

    /// The encoded row at the cursor's cell, borrowed mutably.
    pub fn curr_value(&mut self) -> (r: Result<&mut [u8], PagerError>)
        requires
            old(self).pager().wf(),
            old(self).pager().can_get(old(self).curr_page_num as int),
            old(self).curr_page_num < TABLE_MAX_PAGES ==> old(self).cell_num < LEAF_NODE_MAX_CELLS,
        ensures
            old(self).curr_page_num >= TABLE_MAX_PAGES ==> (r matches Err(e) && e == PagerError::OutBoundSeek {
                page: old(self).curr_page_num,
                max_allowed_pages: TABLE_MAX_PAGES,
            } && final(self).pager() == old(self).pager()),
            old(self).curr_page_num < TABLE_MAX_PAGES ==> ({
                let c = old(self).curr_page_num as int;
                let s1 = old(self).pager().after_get(c);
                &&& r matches Ok(v)
                &&& v@ == page_cell_value(s1.page(c), old(self).cell_num as int)
                &&& final(self).pager() == s1.with_page(
                    c,
                    splice(s1.page(c), value_start(old(self).cell_num as int), final(v)@),
                )
            }),
            final(self).curr_page_num == old(self).curr_page_num,
            final(self).cell_num == old(self).cell_num,
            final(self).at_table_end == old(self).at_table_end,
            final(self).root() == old(self).root(),
            *final(final(self).table) == *final(old(self).table),
    {
        proof {
            lemma_layout();
            if self.curr_page_num < TABLE_MAX_PAGES {
                lemma_after_get(self.pager(), self.curr_page_num as int);
            }
        }
        let ghost s1 = self.pager().after_get(self.curr_page_num as int);
        let ghost cell = self.cell_num as int;
        let ghost c = self.curr_page_num as int;
        let page_data = self.table.pager.get_page(self.curr_page_num)?;
        assert(page_data@ == s1.page(c));
        let start = LEAF_NODE_HEADER_SIZE + (self.cell_num * LEAF_NODE_CELL_SIZE);
        let value_offset = start + LEAF_NODE_VALUE_OFFSET;
        let end = value_offset + ROW_SIZE;
        let v = page_subslice_mut(page_data, value_offset, end);
        assert(value_offset == value_start(cell));
        assert(v@ == page_cell_value(s1.page(c), cell));
        Ok(v)
    }

    /// The page number past the file's pages.
    fn get_unused_page(&self) -> (n: usize)
        ensures
            n == self.pager().num_pages,
    {
        self.table.pager.num_pages
    }

    /// Inserts the cell `key`/`row` at the cursor's cell of its leaf page (see
    /// `leaf_insert`). A full leaf is split first (see
    /// `split_node_and_insert`, which also puts the cell in), and the insert
    /// then happens on the page the cursor moved to. Returns the page written.
    pub fn insert_leaf_page(&mut self, key: usize, row: &Row) -> (r: Result<
        &mut [u8; PAGE_SIZE],
        PagerError,
    >)
        requires
            old(self).pager().wf(),
            old(self).pager().can_get(old(self).curr_page_num as int),
            old(self).curr_page_num < TABLE_MAX_PAGES ==> ({
                let c = old(self).curr_page_num as int;
                let n = page_cell_count(old(self).pager().after_get(c).page(c));
                &&& old(self).cell_num < LEAF_NODE_MAX_CELLS
                &&& n >= LEAF_NODE_MAX_CELLS ==> can_split(old(self).pager(), c)
            }),
        ensures
            old(self).curr_page_num >= TABLE_MAX_PAGES ==> (r matches Err(e) && e == PagerError::OutBoundSeek {
                page: old(self).curr_page_num,
                max_allowed_pages: TABLE_MAX_PAGES,
            } && final(self).pager() == old(self).pager() && final(self).curr_page_num
                == old(self).curr_page_num),
            old(self).curr_page_num < TABLE_MAX_PAGES ==> ({
                let v = old(self).pager();
                let c = old(self).curr_page_num as int;
                let s1 = v.after_get(c);
                let split = page_cell_count(s1.page(c)) >= LEAF_NODE_MAX_CELLS;
                let s2 = if split {
                    split_pager(v, c, key as nat, row.encoding())
                } else {
                    s1
                };
                let c2 = if split {
                    split_target(v, c, key as nat, row.encoding())
                } else {
                    c
                };
                &&& r matches Ok(p)
                &&& p@ == leaf_insert(
                    s2.page(c2),
                    old(self).cell_num as int,
                    key as nat,
                    row.encoding(),
                )
                &&& final(self).pager() == s2.with_page(c2, final(p)@)
                &&& final(self).curr_page_num == c2
            }),
            final(self).cell_num == old(self).cell_num,
            final(self).at_table_end == old(self).at_table_end,
            final(self).root() == old(self).root(),
            *final(final(self).table) == *final(old(self).table),
    {
        proof {
            lemma_layout();
            if self.curr_page_num < TABLE_MAX_PAGES {
                lemma_after_get(self.pager(), self.curr_page_num as int);
            }
        }
        let ghost v = self.pager();
        let num_cells = {
            let last_page_bytes = self.table.pager.get_page(self.curr_page_num)?;
            let page = Page::new(last_page_bytes);
            page.cell_count() as usize
        };
        if num_cells >= LEAF_NODE_MAX_CELLS {
            proof {
                lemma_split_result(v, self.curr_page_num as int, key, row.encoding());
            }
            self.split_node_and_insert(key, row);
        }
        let last_page_bytes = self.table.pager.get_page(self.curr_page_num)?;
        insert_into_leaf(last_page_bytes, self.cell_num, key, row);
        Ok(last_page_bytes)
    }

    /// Splits the current leaf into a new page (numbered past the file's
    /// pages) with `key`/`row` put in at their position by key, and moves the
    /// cursor to the new page when `key` is at least its first key.
    fn split_node_and_insert(&mut self, key: usize, row: &Row)
        requires
            old(self).pager().wf(),
            can_split(old(self).pager(), old(self).curr_page_num as int),
        ensures
            final(self).pager() == split_pager(
                old(self).pager(),
                old(self).curr_page_num as int,
                key as nat,
                row.encoding(),
            ),
            final(self).curr_page_num == split_target(
                old(self).pager(),
                old(self).curr_page_num as int,
                key as nat,
                row.encoding(),
            ),
            final(self).cell_num == old(self).cell_num,
            final(self).at_table_end == old(self).at_table_end,
            final(self).root() == old(self).root(),
            *final(final(self).table) == *final(old(self).table),
    {
        let ghost v = self.pager();
        let ghost curr = self.curr_page_num as int;
        let new_page_num = self.get_unused_page();
        self.table.pager.allocate_page(new_page_num);
        proof {
            lemma_split_source(v, curr);
        }
        let (old_page_bytes, new_page_bytes) = self.table.pager.get_two_pages(
            self.curr_page_num,
            new_page_num,
        ).unwrap();
        let routing_key = split_leaf(old_page_bytes, new_page_bytes, key, row);
        if key >= i32_as_usize(routing_key) {
            self.curr_page_num = new_page_num;
        }
    }
}

/// The binary search of `leaf_node_find` over the cells of `page`.
fn search_leaf(page: &Page, key: usize) -> (index: usize)
    requires
        leaf_search(page@, key as int, 0, page_cell_count(page@) as int) is Some,
    ensures
        index == leaf_search(page@, key as int, 0, page_cell_count(page@) as int)->0,
{
    proof {
        lemma_layout();
    }
    let num_cells = page.cell_count();
    let mut min_index: u64 = 0;
    let mut one_past_max_index: u64 = num_cells as u64;
    while one_past_max_index != min_index
        invariant
            min_index <= one_past_max_index <= num_cells,
            num_cells == page_cell_count(page@),
            leaf_search(page@, key as int, 0, num_cells as int) == leaf_search(
                page@,
                key as int,
                min_index as int,
                one_past_max_index as int,
            ),
            leaf_search(page@, key as int, 0, num_cells as int) is Some,
        decreases one_past_max_index - min_index,
    {
        let index = (min_index + one_past_max_index) / 2;
        let index_key = i32_as_usize(page.get_cell_key(index as usize));
        if key == index_key {
            return index as usize;
        } else if key < index_key {
            one_past_max_index = index;
        } else {
            min_index = index + 1;
        }
    }
    min_index as usize
}

/// The key (widened to `usize`) and row of leaf cell `cell` of `page`, which
/// together encode that cell as `normalized_cell` has it.
fn read_normalized_cell(page: &mut [u8; PAGE_SIZE], cell: usize, Ghost(o): Ghost<Seq<u8>>) -> (r: (
    usize,
    Row,
))
    requires
        cell < LEAF_NODE_MAX_CELLS,
        o.len() == PAGE_SIZE,
        page_cell(old(page)@, cell as int) == page_cell(o, cell as int),
        row_decodable(page_cell_value(o, cell as int)),
    ensures
        final(page)@ == old(page)@,
        le_u32_bytes(r.0 as nat) + r.1.encoding() == normalized_cell(page_cell(o, cell as int)),
{
    proof {
        lemma_layout();
    }
    let ghost cur = page@;
    assert(page_cell_value(cur, cell as int) =~= page_cell(cur, cell as int).subrange(4, 395));
    assert(page_cell_value(o, cell as int) =~= page_cell(o, cell as int).subrange(4, 395));
    let p = Page::new(page);
    let k = i32_as_usize(p.get_cell_key(cell));
    let r = p.get_cell_row(cell);
    proof {
        lemma_key_bytes_kept(o, cell as int);
        let c = page_cell(o, cell as int);
        assert(c.subrange(0, 4) =~= o.subrange(cell_start(cell as int), cell_start(cell as int) + 4));
        assert(page_cell(cur, cell as int).subrange(0, 4) =~= cur.subrange(cell_start(cell as int), cell_start(cell as int) + 4));
        assert(page_cell_key(cur, cell as int) == page_cell_key(o, cell as int));
        assert(le_u32_bytes(k as nat) + r.encoding() =~= normalized_cell(c));
    }
    (k, r)
}

/// Writes the cell `key`/`row` as merged cell `i` of a split: into the old
/// page below `split_at`, else into the new page at `i - split_at`.
fn place_cell(
    old_bytes: &mut [u8; PAGE_SIZE],
    new_bytes: &mut [u8; PAGE_SIZE],
    i: usize,
    split_at: usize,
    key: usize,
    row: &Row,
)
    requires
        i < LEAF_NODE_MAX_CELLS + 1,
        split_at <= i ==> i - split_at < LEAF_NODE_MAX_CELLS,
        i < split_at ==> i < LEAF_NODE_MAX_CELLS,
    ensures
        i >= split_at ==> final(old_bytes)@ == old(old_bytes)@ && final(new_bytes)@ == splice(
            old(new_bytes)@,
            cell_start(i - split_at),
            le_u32_bytes(key as nat) + row.encoding(),
        ),
        i < split_at ==> final(new_bytes)@ == old(new_bytes)@ && final(old_bytes)@ == splice(
            old(old_bytes)@,
            cell_start(i as int),
            le_u32_bytes(key as nat) + row.encoding(),
        ),
{
    if i >= split_at {
        let mut page = Page::new(new_bytes);
        page.insert_cell(key, row, i - split_at);
    } else {
        let mut page = Page::new(old_bytes);
        page.insert_cell(key, row, i);
    }
}

proof fn lemma_split_source(v: PagerView, curr: int)
    requires
        v.wf(),
        can_split(v, curr),
    ensures
        ({
            let new = v.num_pages as int;
            let a = v.after_allocate(new);
            let s = split_source(v, curr);
            &&& a.wf()
            &&& a.can_get(curr)
            &&& a.after_get(curr).can_get(new)
            &&& curr < s.pages.len()
            &&& s.pages[curr] is Some
            &&& s.pages[new] is Some
            &&& s.page(new) == zero_page()
            &&& s.page(curr).len() == PAGE_SIZE
            &&& s.wf()
        }),
{
    let new = v.num_pages as int;
    let a = v.after_allocate(new);
    assert forall|i: int| 0 <= i < a.pages.len() && (#[trigger] a.pages[i]) is Some implies a.pages[i]->0.len() == PAGE_SIZE by {
        if i != new && i < v.pages.len() {
            assert(a.pages[i] == v.pages[i]);
        }
    }
    lemma_after_get(a, curr);
    lemma_after_get(a.after_get(curr), new);
}

proof fn lemma_split_result(v: PagerView, curr: int, key: usize, value: Seq<u8>)
    requires
        v.wf(),
        can_split(v, curr),
        value.len() == ROW_SIZE,
    ensures
        ({
            let s2 = split_pager(v, curr, key as nat, value);
            let c2 = split_target(v, curr, key as nat, value);
            &&& s2.wf()
            &&& 0 <= c2 < TABLE_MAX_PAGES
            &&& s2.can_get(c2)
            &&& s2.after_get(c2) == s2
            &&& s2.pages[c2] is Some
            &&& page_cell_count(s2.page(c2)) <= 6
        }),
{
    lemma_layout();
    lemma_split_source(v, curr);
    let s = split_source(v, curr);
    let old = s.page(curr);
    let new = v.num_pages as int;
    lemma_split_keeps_cells(old, key, value);
    let s2 = split_pager(v, curr, key as nat, value);
    assert forall|i: int| 0 <= i < s2.pages.len() && (#[trigger] s2.pages[i]) is Some implies s2.pages[i]->0.len() == PAGE_SIZE by {
        if i != curr && i != new {
            assert(s2.pages[i] == s.pages[i]);
        }
    }
    let c2 = split_target(v, curr, key as nat, value);
    assert(s2.after_get(c2).pages =~= s2.pages);
}

/// Copies leaf cell `from` over leaf cell `to`.
fn copy_cell(page: &mut [u8; PAGE_SIZE], from: usize, to: usize)
    requires
        from < LEAF_NODE_MAX_CELLS,
        to < LEAF_NODE_MAX_CELLS,
        from != to,
    ensures
        final(page)@ == splice(old(page)@, cell_start(to as int), page_cell(old(page)@, from as int)),
{
    proof {
        lemma_layout();
    }
    let src = LEAF_NODE_HEADER_SIZE + from * LEAF_NODE_CELL_SIZE;
    let dest = LEAF_NODE_HEADER_SIZE + to * LEAF_NODE_CELL_SIZE;
    let ghost before = page@;
    let ghost cell = page_cell(before, from as int);
    let mut k: usize = 0;
    while k < LEAF_NODE_CELL_SIZE
        invariant
            k <= LEAF_NODE_CELL_SIZE,
            src == cell_start(from as int),
            dest == cell_start(to as int),
            from != to,
            from < LEAF_NODE_MAX_CELLS,
            to < LEAF_NODE_MAX_CELLS,
            cell == page_cell(before, from as int),
            page@.len() == PAGE_SIZE,
            before.len() == PAGE_SIZE,
            forall|b: int| 0 <= b < PAGE_SIZE && !(dest <= b < dest + k) ==> page@[b] == before[b],
            forall|b: int| 0 <= b < k ==> page@[dest + b] == cell[b],
        decreases LEAF_NODE_CELL_SIZE - k,
    {
        proof {
            lemma_layout();
        }
        assert(!(dest <= src + k < dest + k));
        assert(page@[src + k] == before[src + k]);
        assert(cell[k as int] == before[src + k]);
        let byte = page[src + k];
        page[dest + k] = byte;
        k = k + 1;
    }
    assert(page@ =~= splice(before, dest as int, cell));
}

/// Inserts the cell `key`/`row` into the leaf `page` at `cell_num`, as
/// `leaf_insert` has it.
fn insert_into_leaf(page: &mut [u8; PAGE_SIZE], cell_num: usize, key: usize, row: &Row)
    requires
        cell_num < LEAF_NODE_MAX_CELLS,
        cell_num < page_cell_count(old(page)@) ==> page_cell_count(old(page)@) < LEAF_NODE_MAX_CELLS,
    ensures
        final(page)@ == leaf_insert(old(page)@, cell_num as int, key as nat, row.encoding()),
{
    proof {
        lemma_layout();
    }
    let ghost before = page@;
    let num_cells = {
        let p = Page::new(page);
        p.cell_count() as usize
    };
    if cell_num < num_cells {
        let mut i: usize = num_cells;
        while i > cell_num
            invariant
                cell_num <= i <= num_cells,
                num_cells < LEAF_NODE_MAX_CELLS,
                before.len() == PAGE_SIZE,
                page@ == before.subrange(0, cell_start(i + 1)) + before.subrange(
                    cell_start(i as int),
                    cell_start(num_cells as int),
                ) + before.subrange(cell_start(num_cells + 1), PAGE_SIZE as int),
            decreases i,
        {
            proof {
                lemma_layout();
            }
            let ghost cur = page@;
            assert(page_cell(cur, i - 1) =~= before.subrange(cell_start(i - 1), cell_start(i as int)));
            copy_cell(page, i - 1, i);
            i = i - 1;
            assert(page@ =~= before.subrange(0, cell_start(i + 1)) + before.subrange(
                cell_start(i as int),
                cell_start(num_cells as int),
            ) + before.subrange(cell_start(num_cells + 1), PAGE_SIZE as int));
        }
        assert(page@ =~= cells_shifted(before, cell_num as int, num_cells as int));
    }
    let ghost shifted = page@;
    {
        let mut p = Page::new(page);
        p.set_cell_key(key, cell_num);
    }
    let value_offset = LEAF_NODE_HEADER_SIZE + cell_num * LEAF_NODE_CELL_SIZE + LEAF_NODE_VALUE_OFFSET;
    let destination = page_subslice_mut(page, value_offset, value_offset + ROW_SIZE);
    row.serialize(destination);
    assert(page@ =~= splice(shifted, cell_start(cell_num as int), le_u32_bytes(key as nat) + row.encoding()));
    let mut p = Page::new(page);
    p.set_cell_count((num_cells + 1) as u32);
}

/// One step of `split_leaf`: writes merged cell `i`, cells `i + 1..` being
/// written already.
fn split_step(
    old_bytes: &mut [u8; PAGE_SIZE],
    new_bytes: &mut [u8; PAGE_SIZE],
    i: usize,
    insert_pos: usize,
    split_at: usize,
    total: usize,
    key: usize,
    row: &Row,
    Ghost(o): Ghost<Seq<u8>>,
    Ghost(z): Ghost<Seq<u8>>,
    Ghost(m): Ghost<Seq<Seq<u8>>>,
)
    requires
        i < total,
        total == page_cell_count(o) + 1,
        page_cell_count(o) <= LEAF_NODE_MAX_CELLS,
        split_at == total / 2,
        m == split_cells(o, key as nat, row.encoding()),
        m.len() == total,
        insert_pos == insert_position(o, key_as_i32(key as nat), 0, page_cell_count(o) as int),
        o.len() == PAGE_SIZE,
        z == zero_page(),
        forall|x: int| 0 <= x < m.len() ==> (#[trigger] m[x]).len() == LEAF_NODE_CELL_SIZE,
        forall|x: int|
            0 <= x < page_cell_count(o) ==> row_decodable(#[trigger] page_cell_value(o, x)),
        old(old_bytes)@ == cells_written(
            o,
            m.subrange(min(i + 1, split_at as int), split_at as int),
            min(i + 1, split_at as int),
        ),
        old(new_bytes)@ == cells_written(
            z,
            m.subrange(max(i + 1, split_at as int), total as int),
            max(i + 1, split_at as int) - split_at,
        ),
    ensures
        final(old_bytes)@ == cells_written(
            o,
            m.subrange(min(i as int, split_at as int), split_at as int),
            min(i as int, split_at as int),
        ),
        final(new_bytes)@ == cells_written(
            z,
            m.subrange(max(i as int, split_at as int), total as int),
            max(i as int, split_at as int) - split_at,
        ),
{
    proof {
        lemma_layout();
    }
    let j = i + 1;
        let ghost lo_old = min(j as int, split_at as int);
        proof {
            lemma_cells_written(o, m.subrange(lo_old, split_at as int), lo_old);
        }
        proof {
            if i >= split_at {
                lemma_cells_written_step(z, m, i as int, total as int, i - split_at);
                assert(max(j as int, split_at as int) == i + 1);
                assert(max(i as int, split_at as int) == i);
                assert(min(j as int, split_at as int) == split_at);
                assert(min(i as int, split_at as int) == split_at);
            } else {
                lemma_cells_written_step(o, m, i as int, split_at as int, i as int);
                assert(min(j as int, split_at as int) == i + 1);
                assert(min(i as int, split_at as int) == i);
                assert(max(j as int, split_at as int) == split_at);
                assert(max(i as int, split_at as int) == split_at);
            }
        }
        proof {
            lemma_split_cell_at(o, key as nat, row.encoding(), i as int);
            lemma_insert_position_bound(o, key_as_i32(key as nat), 0, page_cell_count(o) as int);
        }
        if i == insert_pos {
            place_cell(old_bytes, new_bytes, i, split_at, key, row);
        } else {
            let old_i = if i > insert_pos {
                i - 1
            } else {
                i
            };
            assert(page_cell(old_bytes@, old_i as int) =~= page_cell(o, old_i as int));
            let (k, r) = read_normalized_cell(old_bytes, old_i, Ghost(o));
            place_cell(old_bytes, new_bytes, i, split_at, k, &r);
        }
}

/// Splits the full leaf `old_bytes` into itself and the zeroed page
/// `new_bytes`, putting in the cell `key`/`row` at its position by key (see
/// `split_old_page` and `split_new_page`). Returns the key of the new page's
/// first cell.
fn split_leaf(
    old_bytes: &mut [u8; PAGE_SIZE],
    new_bytes: &mut [u8; PAGE_SIZE],
    key: usize,
    row: &Row,
) -> (routing_key: i32)
    requires
        old(new_bytes)@ == zero_page(),
        page_cell_count(old(old_bytes)@) <= LEAF_NODE_MAX_CELLS,
        forall|i: int|
            0 <= i < page_cell_count(old(old_bytes)@) ==> row_decodable(
                #[trigger] page_cell_value(old(old_bytes)@, i),
            ),
    ensures
        final(old_bytes)@ == split_old_page(old(old_bytes)@, key as nat, row.encoding()),
        final(new_bytes)@ == split_new_page(old(old_bytes)@, key as nat, row.encoding()),
        routing_key == page_cell_key(final(new_bytes)@, 0),
{
    proof {
        lemma_layout();
    }
    let ghost o = old_bytes@;
    let ghost z = new_bytes@;
    let num_cells = {
        let page = Page::new(old_bytes);
        page.cell_count() as usize
    };
    let total = num_cells + 1;
    let key_bits: u32 = (key as u64 % 4294967296) as u32;
    let key_i32: i32 = if key_bits >= 2147483648 {
        (key_bits as i64 - 4294967296i64) as i32
    } else {
        key_bits as i32
    };
    assert(key_i32 == key_as_i32(key as nat));
    let mut insert_pos: usize = 0;
    loop
        invariant_except_break
            insert_pos < num_cells ==> insert_position(o, key_i32, 0, num_cells as int)
                == insert_position(o, key_i32, insert_pos as int, num_cells as int),
        invariant
            insert_pos <= num_cells,
            num_cells == page_cell_count(o),
            num_cells <= LEAF_NODE_MAX_CELLS,
            old_bytes@ == o,
            insert_pos == num_cells ==> insert_position(o, key_i32, 0, num_cells as int)
                == insert_position(o, key_i32, insert_pos as int, num_cells as int),
        ensures
            insert_pos == insert_position(o, key_i32, 0, num_cells as int),
        decreases num_cells - insert_pos,
    {
        if insert_pos >= num_cells {
            break;
        }
        let k = {
            let page = Page::new(old_bytes);
            page.get_cell_key(insert_pos)
        };
        if k >= key_i32 {
            break;
        }
        insert_pos = insert_pos + 1;
    }
    let split_at = total / 2;
    let ghost m = split_cells(o, key as nat, row.encoding());
    assert(split_at == split_index(o));
    assert forall|i: int| 0 <= i < m.len() implies (#[trigger] m[i]).len() == LEAF_NODE_CELL_SIZE by {
    }
    let mut j: usize = total;
    while j > 0
        invariant
            j <= total,
            total == num_cells + 1,
            num_cells == page_cell_count(o),
            num_cells <= LEAF_NODE_MAX_CELLS,
            split_at == total / 2,
            m == split_cells(o, key as nat, row.encoding()),
            m.len() == total,
            insert_pos == insert_position(o, key_as_i32(key as nat), 0, num_cells as int),
            o.len() == PAGE_SIZE,
            z == zero_page(),
            forall|i: int| 0 <= i < m.len() ==> (#[trigger] m[i]).len() == LEAF_NODE_CELL_SIZE,
            forall|i: int|
                0 <= i < num_cells ==> row_decodable(#[trigger] page_cell_value(o, i)),
            old_bytes@ == cells_written(
                o,
                m.subrange(min(j as int, split_at as int), split_at as int),
                min(j as int, split_at as int),
            ),
            new_bytes@ == cells_written(
                z,
                m.subrange(max(j as int, split_at as int), total as int),
                max(j as int, split_at as int) - split_at,
            ),
        decreases j,
    {
        let i = j - 1;
        split_step(old_bytes, new_bytes, i, insert_pos, split_at, total, key, row, Ghost(o), Ghost(z), Ghost(m));
        j = i;
    }
    let mut old_page = Page::new(old_bytes);
    old_page.set_cell_count(split_at as u32);
    let mut new_page = Page::new(new_bytes);
    new_page.set_cell_count((total - split_at) as u32);
    new_page.get_cell_key(0)
}

} // verus!
