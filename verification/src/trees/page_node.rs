//! A view of one page as a tree node.
use vstd::prelude::*;
use vstd::utf8::decode_utf8;
use crate::codec::{
    i32_from_bits, le_u32_bytes, lemma_le_u32_bytes_low, le_u32_value, le_u64_value, read_u32_le, read_u64_le, splice,
    subslice, subslice_mut, write_u32_le,
};
use crate::data::row::{
    row_bytes, row_decodable, stored_email, stored_id, stored_username, Row, ROW_SIZE,
};
use crate::data::table::PAGE_SIZE;
use crate::pager::zero_page;
use crate::trees::consts::{
    INTERNAL_NODE_CELL_SIZE, INTERNAL_NODE_CHILD_SIZE, INTERNAL_NODE_HEADER_SIZE,
    INTERNAL_NODE_KEY_SIZE, INTERNAL_NODE_NUM_KEYS_OFFSET, INTERNAL_NODE_NUM_KEYS_SIZE,
    INTERNAL_NODE_RIGHT_CHILD_OFFSET, INTERNAL_NODE_RIGHT_CHILD_SIZE, IS_ROOT_OFFSET,
    LEAF_NODE_CELL_SIZE, LEAF_NODE_HEADER_SIZE, LEAF_NODE_MAX_CELLS, LEAF_NODE_NUM_CELLS_OFFSET,
    LEAF_NODE_NUM_CELLS_SIZE, LEAF_NODE_VALUE_OFFSET, NODE_TYPE_OFFSET,
};
use crate::trees::consts::lemma_layout;
use crate::trees::errors::InternalNodeError;
use crate::trees::node_type::NodeType;

verus! {

/// Offset of leaf cell `cell_num` in a page.
pub open spec fn cell_start(cell_num: int) -> int {
    LEAF_NODE_HEADER_SIZE + cell_num * LEAF_NODE_CELL_SIZE
}

/// Offset of the row stored in leaf cell `cell_num`.
pub open spec fn value_start(cell_num: int) -> int {
    cell_start(cell_num) + LEAF_NODE_VALUE_OFFSET
}

/// The number of cells a leaf page records in its header.
pub open spec fn page_cell_count(page: Seq<u8>) -> nat {
    le_u32_value(page, LEAF_NODE_NUM_CELLS_OFFSET as int)
}

/// The key stored in leaf cell `cell_num`.
pub open spec fn page_cell_key(page: Seq<u8>, cell_num: int) -> i32 {
    i32_from_bits(le_u32_value(page, cell_start(cell_num))) as i32
}

/// The bytes of leaf cell `cell_num`.
pub open spec fn page_cell(page: Seq<u8>, cell_num: int) -> Seq<u8> {
    page.subrange(cell_start(cell_num), cell_start(cell_num) + LEAF_NODE_CELL_SIZE)
}

/// The encoded row of leaf cell `cell_num`.
pub open spec fn page_cell_value(page: Seq<u8>, cell_num: int) -> Seq<u8> {
    page.subrange(value_start(cell_num), cell_start(cell_num) + LEAF_NODE_CELL_SIZE)
}

/// The number of keys an internal page records in its header.
pub open spec fn page_num_keys(page: Seq<u8>) -> nat {
    le_u64_value(page, INTERNAL_NODE_NUM_KEYS_OFFSET as int)
}

/// A leaf page with the cells `cell_num..num_cells` moved up by one cell;
/// cell `cell_num` keeps its bytes.
pub open spec fn cells_shifted(page: Seq<u8>, cell_num: int, num_cells: int) -> Seq<u8> {
    page.subrange(0, cell_start(cell_num + 1)) + page.subrange(
        cell_start(cell_num),
        cell_start(num_cells),
    ) + page.subrange(cell_start(num_cells + 1), page.len() as int)
}

/// A leaf page after inserting the cell `key`/`value` at `cell_num`: the
/// cells from `cell_num` on move up by one when `cell_num` is below the cell
/// count, the new cell is written at `cell_num`, and the cell count goes up by
/// one.
pub open spec fn leaf_insert(page: Seq<u8>, cell_num: int, key: nat, value: Seq<u8>) -> Seq<u8> {
    let n = page_cell_count(page) as int;
    let shifted = if cell_num < n {
        cells_shifted(page, cell_num, n)
    } else {
        page
    };
    splice(
        splice(shifted, cell_start(cell_num), le_u32_bytes(key) + value),
        LEAF_NODE_NUM_CELLS_OFFSET as int,
        le_u32_bytes((n + 1) as nat),
    )
}

/// The first cell from `i` on (below `n`) whose key is at least `key`, or `n`.
pub open spec fn insert_position(page: Seq<u8>, key: i32, i: int, n: int) -> int
    decreases n - i,
{
    if i >= n {
        n
    } else if page_cell_key(page, i) >= key {
        i
    } else {
        insert_position(page, key, i + 1, n)
    }
}

/// A cell as it reads back through a `Row`: the key bytes as they are, the
/// row re-encoded from what its bytes decode to.
pub open spec fn normalized_cell(cell: Seq<u8>) -> Seq<u8> {
    let v = cell.subrange(LEAF_NODE_VALUE_OFFSET as int, LEAF_NODE_CELL_SIZE as int);
    cell.subrange(0, LEAF_NODE_VALUE_OFFSET as int) + row_bytes(
        stored_id(v),
        decode_utf8(stored_username(v)),
        decode_utf8(stored_email(v)),
    )
}

/// The cells of a full leaf with the new cell put in at `pos`: the cells
/// before `pos`, the new cell, then the cells from `pos` on, each of the old
/// cells as `normalized_cell` has it.
pub open spec fn merged_cells(page: Seq<u8>, n: int, pos: int, new_cell: Seq<u8>) -> Seq<Seq<u8>> {
    Seq::new(
        (n + 1) as nat,
        |i: int|
            if i == pos {
                new_cell
            } else if i > pos {
                normalized_cell(page_cell(page, i - 1))
            } else {
                normalized_cell(page_cell(page, i))
            },
    )
}

/// `page` with `cells` written as its cells `base`, `base + 1`, ...
pub open spec fn cells_written(page: Seq<u8>, cells: Seq<Seq<u8>>, base: int) -> Seq<u8>
    decreases cells.len(),
{
    if cells.len() == 0 {
        page
    } else {
        splice(cells_written(page, cells.drop_first(), base + 1), cell_start(base), cells[0])
    }
}

/// The key `key` as a stored cell key: its low 32 bits as an `i32`.
pub open spec fn key_as_i32(key: nat) -> i32 {
    i32_from_bits(key % 4294967296) as i32
}

/// The cells of a full leaf `page` with `key`/`value` put in at their
/// position by key.
pub open spec fn split_cells(page: Seq<u8>, key: nat, value: Seq<u8>) -> Seq<Seq<u8>> {
    let n = page_cell_count(page) as int;
    merged_cells(page, n, insert_position(page, key_as_i32(key), 0, n), le_u32_bytes(key) + value)
}

/// The number of merged cells that stay in the old page of a split.
pub open spec fn split_index(page: Seq<u8>) -> int {
    ((page_cell_count(page) + 1) / 2) as int
}

/// The old page of a split: the first `split_index` merged cells, with that
/// cell count.
pub open spec fn split_old_page(page: Seq<u8>, key: nat, value: Seq<u8>) -> Seq<u8> {
    let m = split_cells(page, key, value);
    let sp = split_index(page);
    splice(
        cells_written(page, m.subrange(0, sp), 0),
        LEAF_NODE_NUM_CELLS_OFFSET as int,
        le_u32_bytes(sp as nat),
    )
}

/// The new page of a split: the remaining merged cells in a zeroed page, with
/// their count.
pub open spec fn split_new_page(page: Seq<u8>, key: nat, value: Seq<u8>) -> Seq<u8> {
    let m = split_cells(page, key, value);
    let sp = split_index(page);
    splice(
        cells_written(zero_page(), m.subrange(sp, m.len() as int), 0),
        LEAF_NODE_NUM_CELLS_OFFSET as int,
        le_u32_bytes((m.len() - sp) as nat),
    )
}

pub proof fn lemma_cells_written(page: Seq<u8>, cells: Seq<Seq<u8>>, base: int)
    requires
        page.len() == PAGE_SIZE,
        0 <= base,
        base + cells.len() <= LEAF_NODE_MAX_CELLS,
        forall|i: int| 0 <= i < cells.len() ==> (#[trigger] cells[i]).len() == LEAF_NODE_CELL_SIZE,
    ensures
        cells_written(page, cells, base).len() == PAGE_SIZE,
        forall|b: int| 0 <= b < cell_start(base) ==> #[trigger] cells_written(page, cells, base)[b]
            == page[b],
    decreases cells.len(),
{
    lemma_layout();
    if cells.len() > 0 {
        let rest = cells.drop_first();
        assert forall|i: int| 0 <= i < rest.len() implies (#[trigger] rest[i]).len() == LEAF_NODE_CELL_SIZE by {
            assert(rest[i] == cells[i + 1]);
        }
        lemma_cells_written(page, rest, base + 1);
        let inner = cells_written(page, rest, base + 1);
        assert(cells[0].len() == LEAF_NODE_CELL_SIZE);
        assert forall|b: int| 0 <= b < cell_start(base) implies #[trigger] cells_written(page, cells, base)[b]
            == page[b] by {
            assert(cells_written(page, cells, base)[b] == inner[b]);
        }
    }
}

pub proof fn lemma_insert_position_bound(page: Seq<u8>, key: i32, i: int, n: int)
    requires
        0 <= i <= n,
    ensures
        i <= insert_position(page, key, i, n) <= n,
    decreases n - i,
{
    if i < n && page_cell_key(page, i) < key {
        lemma_insert_position_bound(page, key, i + 1, n);
    }
}

pub proof fn lemma_split_cell_at(page: Seq<u8>, key: nat, value: Seq<u8>, i: int)
    requires
        0 <= i <= page_cell_count(page),
    ensures
        ({
            let n = page_cell_count(page) as int;
            let pos = insert_position(page, key_as_i32(key), 0, n);
            let m = split_cells(page, key, value);
            &&& m.len() == n + 1
            &&& i == pos ==> m[i] == le_u32_bytes(key) + value
            &&& i > pos ==> m[i] == normalized_cell(page_cell(page, i - 1))
            &&& i < pos ==> m[i] == normalized_cell(page_cell(page, i))
        }),
{
}

/// Writing the cells `m[lo..hi]` from cell `base` on is writing `m[lo + 1..hi]`
/// from cell `base + 1` on, then `m[lo]` as cell `base`.
pub proof fn lemma_cells_written_step(page: Seq<u8>, m: Seq<Seq<u8>>, lo: int, hi: int, base: int)
    requires
        0 <= lo < hi <= m.len(),
    ensures
        cells_written(page, m.subrange(lo, hi), base) == splice(
            cells_written(page, m.subrange(lo + 1, hi), base + 1),
            cell_start(base),
            m[lo],
        ),
{
    assert(m.subrange(lo, hi).drop_first() =~= m.subrange(lo + 1, hi));
}

pub struct Page<'a> {
    pub data: &'a mut [u8; PAGE_SIZE],
}

impl<'a> View for Page<'a> {
    type V = Seq<u8>;

    open spec fn view(&self) -> Seq<u8> {
        self.data@
    }
}

impl<'a> Page<'a> {
    pub fn new(data: &'a mut [u8; PAGE_SIZE]) -> (p: Self)
        ensures
            p@ == old(data)@,
            *final(p.data) == *final(data),
    {
        Self { data }
    }

    pub fn cell_count(&self) -> (n: u32)
        ensures
            n == page_cell_count(self@),
    {
        read_u32_le(self.data, LEAF_NODE_NUM_CELLS_OFFSET)
    }

    pub fn set_cell_count(&mut self, count: u32)
        ensures
            final(self)@ == splice(
                old(self)@,
                LEAF_NODE_NUM_CELLS_OFFSET as int,
                le_u32_bytes(count as nat),
            ),
            *final(final(self).data) == *final(old(self).data),
    {
        write_u32_le(self.data, LEAF_NODE_NUM_CELLS_OFFSET, count);
    }

    pub fn get_node_cell(&self, cell_num: usize) -> (cell: &[u8])
        requires
            cell_num < LEAF_NODE_MAX_CELLS,
        ensures
            cell@ == page_cell(self@, cell_num as int),
    {
        proof {
            lemma_layout();
        }
        let start = LEAF_NODE_HEADER_SIZE + (cell_num * LEAF_NODE_CELL_SIZE);
        let end = start + LEAF_NODE_CELL_SIZE;
        subslice(self.data, start, end)
    }

    pub fn get_node_cell_mut(&mut self, cell_num: usize) -> (cell: &mut [u8])
        requires
            cell_num < LEAF_NODE_MAX_CELLS,
        ensures
            cell@ == page_cell(old(self)@, cell_num as int),
            final(self)@ == splice(old(self)@, cell_start(cell_num as int), final(cell)@),
            *final(final(self).data) == *final(old(self).data),
    {
        proof {
            lemma_layout();
        }
        let start = LEAF_NODE_HEADER_SIZE + (cell_num * LEAF_NODE_CELL_SIZE);
        let end = start + LEAF_NODE_CELL_SIZE;
        subslice_mut(self.data, start, end)
    }

    pub fn get_cell_key(&self, cell_num: usize) -> (key: i32)
        requires
            cell_num < LEAF_NODE_MAX_CELLS,
        ensures
            key == page_cell_key(self@, cell_num as int),
    {
        proof {
            lemma_layout();
        }
        let cell = self.get_node_cell(cell_num);
        let bits = read_u32_le(cell, 0);
        if bits >= 2147483648 {
            (bits as i64 - 4294967296i64) as i32
        } else {
            bits as i32
        }
    }

    pub fn get_cell(&self, cell_num: usize) -> (r: (i32, Row))
        requires
            cell_num < LEAF_NODE_MAX_CELLS,
            row_decodable(page_cell_value(self@, cell_num as int)),
        ensures
            r.0 == page_cell_key(self@, cell_num as int),
            r.1.id == stored_id(page_cell_value(self@, cell_num as int)),
            r.1.username@ == decode_utf8(stored_username(page_cell_value(self@, cell_num as int))),
            r.1.email@ == decode_utf8(stored_email(page_cell_value(self@, cell_num as int))),
    {
        (self.get_cell_key(cell_num), self.get_cell_row(cell_num))
    }

    /// Writes `key` and `row` into leaf cell `cell_num`.
    pub fn insert_cell(&mut self, key: usize, row: &Row, cell_num: usize)
        requires
            cell_num < LEAF_NODE_MAX_CELLS,
        ensures
            final(self)@ == splice(
                old(self)@,
                cell_start(cell_num as int),
                le_u32_bytes(key as nat) + row.encoding(),
            ),
            *final(final(self).data) == *final(old(self).data),
    {
        proof {
            lemma_layout();
        }
        let ghost s0 = self@;
        self.set_cell_key(key, cell_num);
        let ghost s1 = self@;
        self.write_cell_value(row, cell_num);
        assert(row.encoding().len() == ROW_SIZE);
        assert(le_u32_bytes(key as nat).len() == 4);
        assert(self@ =~= splice(
            old(self)@,
            cell_start(cell_num as int),
            le_u32_bytes(key as nat) + row.encoding(),
        ));
    }

    /// Writes the low 32 bits of `key`, little-endian, as the key of leaf cell
    /// `cell_num`.
    pub fn set_cell_key(&mut self, key: usize, cell_num: usize)
        requires
            cell_num < LEAF_NODE_MAX_CELLS,
        ensures
            final(self)@ == splice(old(self)@, cell_start(cell_num as int), le_u32_bytes(key as nat)),
            *final(final(self).data) == *final(old(self).data),
    {
        proof {
            lemma_layout();
        }
        let low: u32 = (key as u64 % 4294967296) as u32;
        proof {
            lemma_le_u32_bytes_low(key as u64);
        }
        let cell = self.get_node_cell_mut(cell_num);
        write_u32_le(cell, 0, low);
    }

    pub fn get_cell_value(&self, cell_num: usize) -> (value: &[u8])
        requires
            cell_num < LEAF_NODE_MAX_CELLS,
        ensures
            value@ == page_cell_value(self@, cell_num as int),
    {
        proof {
            lemma_layout();
        }
        let cell = self.get_node_cell(cell_num);
        subslice(cell, LEAF_NODE_VALUE_OFFSET, LEAF_NODE_CELL_SIZE)
    }

    /// Writes the encoding of `value` as the row of leaf cell `cell_num`.
    pub fn write_cell_value(&mut self, value: &Row, cell_num: usize)
        requires
            cell_num < LEAF_NODE_MAX_CELLS,
        ensures
            final(self)@ == splice(old(self)@, value_start(cell_num as int), value.encoding()),
            *final(final(self).data) == *final(old(self).data),
    {
        proof {
            lemma_layout();
        }
        let cell = self.get_node_cell_mut(cell_num);
        let dest = subslice_mut(cell, LEAF_NODE_VALUE_OFFSET, LEAF_NODE_CELL_SIZE);
        value.serialize(dest);
    }

    pub fn get_cell_row(&self, cell_num: usize) -> (row: Row)
        requires
            cell_num < LEAF_NODE_MAX_CELLS,
            row_decodable(page_cell_value(self@, cell_num as int)),
        ensures
            row.id == stored_id(page_cell_value(self@, cell_num as int)),
            row.username@ == decode_utf8(stored_username(page_cell_value(self@, cell_num as int))),
            row.email@ == decode_utf8(stored_email(page_cell_value(self@, cell_num as int))),
    {
        let mut new_row = Row::new();
        new_row.ingest_deserialized(self.get_cell_value(cell_num));
        new_row
    }

    pub fn get_node_type(&self) -> (t: NodeType)
        requires
            self@[NODE_TYPE_OFFSET as int] <= 1,
        ensures
            t.spec_byte() == self@[NODE_TYPE_OFFSET as int],
    {
        NodeType::from_u8(&self.data[NODE_TYPE_OFFSET])
    }

    pub fn set_node_type(&mut self, node_type: NodeType)
        ensures
            final(self)@ == old(self)@.update(NODE_TYPE_OFFSET as int, node_type.spec_byte()),
            *final(final(self).data) == *final(old(self).data),
    {
        self.data[NODE_TYPE_OFFSET] = node_type.to_u8();
    }

    pub fn internal_node_right_child(&self) -> (child: &[u8])
        ensures
            child@ == self@.subrange(
                INTERNAL_NODE_RIGHT_CHILD_OFFSET as int,
                INTERNAL_NODE_RIGHT_CHILD_OFFSET + INTERNAL_NODE_RIGHT_CHILD_SIZE,
            ),
    {
        subslice(
            self.data,
            INTERNAL_NODE_RIGHT_CHILD_OFFSET,
            INTERNAL_NODE_RIGHT_CHILD_OFFSET + INTERNAL_NODE_RIGHT_CHILD_SIZE,
        )
    }

    /// The bytes from the end of the internal node header up to
    /// `cell_num * INTERNAL_NODE_CELL_SIZE`.
    pub fn internal_node_cell(&self, cell_num: usize) -> (cell: &[u8])
        requires
            INTERNAL_NODE_HEADER_SIZE <= cell_num * INTERNAL_NODE_CELL_SIZE <= PAGE_SIZE,
        ensures
            cell@ == self@.subrange(
                INTERNAL_NODE_HEADER_SIZE as int,
                cell_num * INTERNAL_NODE_CELL_SIZE,
            ),
    {
        subslice(self.data, INTERNAL_NODE_HEADER_SIZE, cell_num * INTERNAL_NODE_CELL_SIZE)
    }

    /// The key of `internal_node_cell(key_num)`: its bytes
    /// `INTERNAL_NODE_CHILD_SIZE..INTERNAL_NODE_CHILD_SIZE + INTERNAL_NODE_KEY_SIZE`
    /// read as a little-endian `u32`.
    pub fn internal_node_key(&self, key_num: usize) -> (key: u32)
        requires
            INTERNAL_NODE_HEADER_SIZE + INTERNAL_NODE_CHILD_SIZE + INTERNAL_NODE_KEY_SIZE
                <= key_num * INTERNAL_NODE_CELL_SIZE <= PAGE_SIZE,
        ensures
            key == le_u32_value(
                self@,
                INTERNAL_NODE_HEADER_SIZE + INTERNAL_NODE_CHILD_SIZE,
            ),
    {
        let cell = self.internal_node_cell(key_num);
        let key_bytes = subslice(
            cell,
            INTERNAL_NODE_CHILD_SIZE,
            INTERNAL_NODE_CHILD_SIZE + INTERNAL_NODE_KEY_SIZE,
        );
        read_u32_le(key_bytes, 0)
    }

    /// The right child when `child_num` is the key count, the cell
    /// `internal_node_cell(child_num)` when it is below, and an error when it
    /// is above.
    pub fn internal_node_child(&self, child_num: usize) -> (r: Result<&[u8], InternalNodeError>)
        requires
            page_num_keys(self@) <= usize::MAX,
            child_num < page_num_keys(self@) ==> INTERNAL_NODE_HEADER_SIZE <= child_num
                * INTERNAL_NODE_CELL_SIZE <= PAGE_SIZE,
        ensures
            child_num > page_num_keys(self@) ==> r == Err::<&[u8], InternalNodeError>(
                InternalNodeError::InvalidChildAccess {
                    child_no: child_num,
                    max_child_no_available: page_num_keys(self@) as usize,
                },
            ),
            child_num == page_num_keys(self@) ==> (r matches Ok(c) && c@ == self@.subrange(
                INTERNAL_NODE_RIGHT_CHILD_OFFSET as int,
                INTERNAL_NODE_RIGHT_CHILD_OFFSET + INTERNAL_NODE_RIGHT_CHILD_SIZE,
            )),
            child_num < page_num_keys(self@) ==> (r matches Ok(c) && c@ == self@.subrange(
                INTERNAL_NODE_HEADER_SIZE as int,
                child_num * INTERNAL_NODE_CELL_SIZE,
            )),
    {
        let num_keys = self.internal_node_num_keys();
        if child_num > num_keys {
            return Err(
                InternalNodeError::InvalidChildAccess {
                    child_no: child_num,
                    max_child_no_available: num_keys,
                },
            );
        }
        if child_num == num_keys {
            return Ok(self.internal_node_right_child());
        }
        Ok(self.internal_node_cell(child_num))
    }

    pub fn is_root_node(&self) -> (b: bool)
        ensures
            b == (self@[IS_ROOT_OFFSET as int] != 0),
    {
        self.data[IS_ROOT_OFFSET] != 0
    }

    pub fn set_root_node(&mut self, is_root: bool)
        ensures
            final(self)@ == old(self)@.update(IS_ROOT_OFFSET as int, if is_root { 1u8 } else { 0u8 }),
            *final(final(self).data) == *final(old(self).data),
    {
        self.data[IS_ROOT_OFFSET] = if is_root {
            1
        } else {
            0
        };
    }

    /// The key count of an internal node, stored as an 8-byte little-endian
    /// integer.
    pub fn internal_node_num_keys(&self) -> (n: usize)
        requires
            page_num_keys(self@) <= usize::MAX,
        ensures
            n == page_num_keys(self@),
    {
        let v = read_u64_le(self.data, INTERNAL_NODE_NUM_KEYS_OFFSET);
        v as usize
    }

    /// The keys of the leaf's cells, in cell order.
    pub fn leaf_node_keys(&self) -> (keys: Vec<i32>)
        requires
            page_cell_count(self@) <= LEAF_NODE_MAX_CELLS,
        ensures
            keys@.len() == page_cell_count(self@),
            forall|i: int| 0 <= i < keys@.len() ==> keys@[i] == page_cell_key(self@, i),
    {
        proof {
            lemma_layout();
        }
        let num_cells = self.cell_count();
        let mut keys: Vec<i32> = Vec::new();
        let mut i: u32 = 0;
        while i < num_cells
            invariant
                i <= num_cells,
                num_cells == page_cell_count(self@),
                num_cells <= LEAF_NODE_MAX_CELLS,
                keys@.len() == i,
                forall|j: int| 0 <= j < i ==> keys@[j] == page_cell_key(self@, j),
            decreases num_cells - i,
        {
            keys.push(self.get_cell_key(i as usize));
            i = i + 1;
        }
        keys
    }
}

} // verus!
