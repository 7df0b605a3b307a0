//! What the leaf operations keep: an insert puts its cell in and keeps the
//! others, and a split loses no cell.
use vstd::prelude::*;
use crate::codec::{le_u32_bytes, le_u32_value, lemma_le_u32_bytes_low, lemma_le_u32_roundtrip, splice};
use crate::data::row::ROW_SIZE;
use crate::data::table::PAGE_SIZE;
use crate::trees::consts::{lemma_layout, LEAF_NODE_CELL_SIZE, LEAF_NODE_MAX_CELLS, LEAF_NODE_NUM_CELLS_OFFSET};
use crate::pager::zero_page;
use crate::trees::page_node::{
    cell_start, cells_written, insert_position, key_as_i32, leaf_insert, lemma_cells_written,
    lemma_split_cell_at, normalized_cell, page_cell, page_cell_count, page_cell_key,
    page_cell_value, split_cells, split_index, split_new_page, split_old_page,
};

verus! {

/// Inserting a cell into a leaf page that has room for it puts the key (its
/// low 32 bits) and the row at `cell_num`, counts one cell more, keeps the
/// cells before `cell_num`, and moves the cells from `cell_num` up to the old
/// count up by one.
pub proof fn lemma_leaf_insert_cells(page: Seq<u8>, cell_num: int, key: usize, value: Seq<u8>)
    requires
        page.len() == PAGE_SIZE,
        0 <= cell_num < LEAF_NODE_MAX_CELLS,
        cell_num < page_cell_count(page) ==> page_cell_count(page) < LEAF_NODE_MAX_CELLS,
        value.len() == ROW_SIZE,
    ensures
        ({
            let r = leaf_insert(page, cell_num, key as nat, value);
            let n = page_cell_count(page) as int;
            &&& r.len() == PAGE_SIZE
            &&& page_cell_count(r) == n + 1
            &&& page_cell_value(r, cell_num) == value
            &&& page_cell_key(r, cell_num) == key_as_i32(key as nat)
            &&& forall|i: int| 0 <= i < cell_num ==> #[trigger] page_cell(r, i) == page_cell(page, i)
            &&& forall|i: int|
                cell_num < i <= n ==> #[trigger] page_cell(r, i) == page_cell(page, i - 1)
        }),
{
    lemma_layout();
    let n = page_cell_count(page) as int;
    let shifted = if cell_num < n {
        crate::trees::page_node::cells_shifted(page, cell_num, n)
    } else {
        page
    };
    let cell = le_u32_bytes(key as nat) + value;
    let s1 = splice(shifted, cell_start(cell_num), cell);
    let r = leaf_insert(page, cell_num, key as nat, value);
    assert(shifted.len() == PAGE_SIZE);
    assert(s1.len() == PAGE_SIZE);
    assert(n + 1 <= LEAF_NODE_MAX_CELLS);
    assert(r == splice(s1, LEAF_NODE_NUM_CELLS_OFFSET as int, le_u32_bytes((n + 1) as nat)));
    // The cell count.
    lemma_le_u32_roundtrip((n + 1) as nat);
    assert(r.subrange(6, 10) =~= le_u32_bytes((n + 1) as nat));
    assert(le_u32_value(r, 6) == le_u32_value(le_u32_bytes((n + 1) as nat), 0));
    // Every cell lies past the header, so the count does not touch it.
    assert forall|i: int| 0 <= i < LEAF_NODE_MAX_CELLS implies #[trigger] page_cell(r, i)
        == page_cell(s1, i) by {
        assert(page_cell(r, i) =~= page_cell(s1, i));
    }
    // The new cell.
    assert(page_cell(s1, cell_num) =~= cell);
    assert(page_cell_value(r, cell_num) =~= page_cell(r, cell_num).subrange(4, 395));
    assert(page_cell(r, cell_num).subrange(4, 395) =~= value);
    lemma_le_u32_bytes_low(key as u64);
    lemma_le_u32_roundtrip((key as u64 % 4294967296) as nat);
    assert(r.subrange(cell_start(cell_num), cell_start(cell_num) + 4) =~= le_u32_bytes(key as nat));
    assert(le_u32_value(r, cell_start(cell_num)) == le_u32_value(le_u32_bytes(key as nat), 0));
    // The cells before and after it.
    assert forall|i: int| 0 <= i < cell_num implies #[trigger] page_cell(r, i) == page_cell(page, i) by {
        assert(page_cell(s1, i) =~= page_cell(shifted, i));
        assert(page_cell(shifted, i) =~= page_cell(page, i));
    }
    assert forall|i: int| cell_num < i <= n implies #[trigger] page_cell(r, i) == page_cell(page, i - 1) by {
        assert(page_cell(s1, i) =~= page_cell(shifted, i));
        assert(page_cell(shifted, i) =~= page_cell(page, i - 1));
    }
}

/// Writing `cells` from cell `base` on puts `cells[k]` in cell `base + k` and
/// keeps the other cells of the page.
pub proof fn lemma_cells_written_cells(page: Seq<u8>, cells: Seq<Seq<u8>>, base: int)
    requires
        page.len() == PAGE_SIZE,
        0 <= base,
        base + cells.len() <= LEAF_NODE_MAX_CELLS,
        forall|i: int| 0 <= i < cells.len() ==> (#[trigger] cells[i]).len() == LEAF_NODE_CELL_SIZE,
    ensures
        cells_written(page, cells, base).len() == PAGE_SIZE,
        forall|k: int|
            0 <= k < cells.len() ==> #[trigger] page_cell(cells_written(page, cells, base), base + k)
                == cells[k],
        forall|i: int|
            0 <= i < LEAF_NODE_MAX_CELLS && !(base <= i < base + cells.len()) ==> #[trigger] page_cell(
                cells_written(page, cells, base),
                i,
            ) == page_cell(page, i),
        cells_written(page, cells, base).subrange(0, cell_start(base)) == page.subrange(
            0,
            cell_start(base),
        ),
    decreases cells.len(),
{
    lemma_layout();
    lemma_cells_written(page, cells, base);
    let w = cells_written(page, cells, base);
    assert(w.subrange(0, cell_start(base)) =~= page.subrange(0, cell_start(base)));
    if cells.len() > 0 {
        let rest = cells.drop_first();
        assert forall|i: int| 0 <= i < rest.len() implies (#[trigger] rest[i]).len()
            == LEAF_NODE_CELL_SIZE by {
            assert(rest[i] == cells[i + 1]);
        }
        lemma_cells_written_cells(page, rest, base + 1);
        let inner = cells_written(page, rest, base + 1);
        assert(w == splice(inner, cell_start(base), cells[0]));
        assert(page_cell(w, base) =~= cells[0]);
        assert forall|k: int| 0 <= k < cells.len() implies #[trigger] page_cell(w, base + k)
            == cells[k] by {
            if k > 0 {
                assert(page_cell(w, base + k) =~= page_cell(inner, base + 1 + (k - 1)));
                assert(rest[k - 1] == cells[k]);
            }
        }
        assert forall|i: int|
            0 <= i < LEAF_NODE_MAX_CELLS && !(base <= i < base + cells.len()) implies #[trigger] page_cell(
            w,
            i,
        ) == page_cell(page, i) by {
            assert(page_cell(w, i) =~= page_cell(inner, i));
        }
    }
}

/// Splitting a full leaf while putting in a new cell loses no cell: the merged
/// cells are the old cells (as they read back) with the new cell at its
/// position by key; the old page keeps the first `split_index` of them and the
/// new page the rest, each page counting its own.
pub proof fn lemma_split_keeps_cells(page: Seq<u8>, key: usize, value: Seq<u8>)
    requires
        page.len() == PAGE_SIZE,
        page_cell_count(page) <= LEAF_NODE_MAX_CELLS,
        value.len() == ROW_SIZE,
    ensures
        ({
            let n = page_cell_count(page) as int;
            let pos = insert_position(page, key_as_i32(key as nat), 0, n);
            let m = split_cells(page, key as nat, value);
            let sp = split_index(page);
            let old_page = split_old_page(page, key as nat, value);
            let new_page = split_new_page(page, key as nat, value);
            &&& m.len() == n + 1
            &&& old_page.len() == PAGE_SIZE
            &&& new_page.len() == PAGE_SIZE
            &&& 0 <= pos <= n
            &&& m[pos] == le_u32_bytes(key as nat) + value
            &&& forall|i: int| 0 <= i < pos ==> #[trigger] m[i] == normalized_cell(page_cell(page, i))
            &&& forall|i: int| pos < i <= n ==> #[trigger] m[i] == normalized_cell(page_cell(page, i - 1))
            &&& page_cell_count(old_page) == sp
            &&& page_cell_count(new_page) == n + 1 - sp
            &&& forall|i: int| 0 <= i < sp ==> #[trigger] page_cell(old_page, i) == m[i]
            &&& forall|i: int| sp <= i <= n ==> #[trigger] page_cell(new_page, i - sp) == m[i]
        }),
{
    lemma_layout();
    let n = page_cell_count(page) as int;
    let kk = key_as_i32(key as nat);
    crate::trees::page_node::lemma_insert_position_bound(page, kk, 0, n);
    let pos = insert_position(page, kk, 0, n);
    let m = split_cells(page, key as nat, value);
    let sp = split_index(page);
    assert forall|i: int| 0 <= i <= n implies (#[trigger] m[i]).len() == LEAF_NODE_CELL_SIZE && (i
        == pos ==> m[i] == le_u32_bytes(key as nat) + value) && (i < pos ==> m[i] == normalized_cell(
        page_cell(page, i),
    )) && (i > pos ==> m[i] == normalized_cell(page_cell(page, i - 1))) by {
        lemma_split_cell_at(page, key as nat, value, i);
    }
    lemma_split_cell_at(page, key as nat, value, 0);
    let low = m.subrange(0, sp);
    let high = m.subrange(sp, n + 1);
    assert forall|i: int| 0 <= i < low.len() implies (#[trigger] low[i]).len() == LEAF_NODE_CELL_SIZE by {
        assert(low[i] == m[i]);
    }
    assert forall|i: int| 0 <= i < high.len() implies (#[trigger] high[i]).len() == LEAF_NODE_CELL_SIZE by {
        assert(high[i] == m[sp + i]);
    }
    lemma_cells_written_cells(page, low, 0);
    lemma_cells_written_cells(zero_page(), high, 0);
    let wo = cells_written(page, low, 0);
    let wn = cells_written(zero_page(), high, 0);
    let old_page = split_old_page(page, key as nat, value);
    let new_page = split_new_page(page, key as nat, value);
    assert(old_page == splice(wo, LEAF_NODE_NUM_CELLS_OFFSET as int, le_u32_bytes(sp as nat)));
    assert(new_page == splice(wn, LEAF_NODE_NUM_CELLS_OFFSET as int, le_u32_bytes((n + 1 - sp) as nat)));
    lemma_le_u32_roundtrip(sp as nat);
    lemma_le_u32_roundtrip((n + 1 - sp) as nat);
    assert(old_page.subrange(6, 10) =~= le_u32_bytes(sp as nat));
    assert(le_u32_value(old_page, 6) == le_u32_value(le_u32_bytes(sp as nat), 0));
    assert(new_page.subrange(6, 10) =~= le_u32_bytes((n + 1 - sp) as nat));
    assert(le_u32_value(new_page, 6) == le_u32_value(le_u32_bytes((n + 1 - sp) as nat), 0));
    assert forall|i: int| 0 <= i < sp implies #[trigger] page_cell(old_page, i) == m[i] by {
        assert(page_cell(old_page, i) =~= page_cell(wo, 0 + i));
        assert(low[i] == m[i]);
    }
    assert forall|i: int| sp <= i <= n implies #[trigger] page_cell(new_page, i - sp) == m[i] by {
        assert(page_cell(new_page, i - sp) =~= page_cell(wn, 0 + (i - sp)));
        assert(high[i - sp] == m[i]);
    }
}

/// The keys of cells `0..n` of a leaf page strictly increase.
pub open spec fn cell_keys_increase(page: Seq<u8>, n: int) -> bool {
    forall|i: int, j: int|
        0 <= i < j < n ==> #[trigger] page_cell_key(page, i) < #[trigger] page_cell_key(page, j)
}

/// The key of the `i`-th cell when `k` is put in at position `pos` among
/// the keys of cells `0..` of `page`.
pub open spec fn key_put_in(page: Seq<u8>, pos: int, k: i32, i: int) -> i32 {
    if i < pos {
        page_cell_key(page, i)
    } else if i == pos {
        k
    } else {
        page_cell_key(page, i - 1)
    }
}

/// The key stored at the start of a cell.
spec fn stored_cell_key(cell: Seq<u8>) -> i32 {
    crate::codec::i32_from_bits(le_u32_value(cell, 0)) as i32
}

proof fn lemma_page_cell_key_of_cell(page: Seq<u8>, i: int)
    requires
        page.len() == PAGE_SIZE,
        0 <= i < LEAF_NODE_MAX_CELLS,
    ensures
        page_cell_key(page, i) == stored_cell_key(page_cell(page, i)),
{
    lemma_layout();
    let c = page_cell(page, i);
    assert(c[0] == page[cell_start(i)]);
    assert(c[1] == page[cell_start(i) + 1]);
    assert(c[2] == page[cell_start(i) + 2]);
    assert(c[3] == page[cell_start(i) + 3]);
}

proof fn lemma_insert_position_keys(page: Seq<u8>, key: i32, i: int, n: int)
    requires
        0 <= i <= n,
    ensures
        i <= insert_position(page, key, i, n) <= n,
        forall|j: int|
            i <= j < insert_position(page, key, i, n) ==> #[trigger] page_cell_key(page, j) < key,
        insert_position(page, key, i, n) < n ==> page_cell_key(page, insert_position(page, key, i, n))
            >= key,
    decreases n - i,
{
    if i < n && page_cell_key(page, i) < key {
        lemma_insert_position_keys(page, key, i + 1, n);
    }
}

/// A split of a full leaf whose keys increase keeps the keys in order. The
/// new key goes in at the position where every old key before it is smaller
/// and every old key from it on is at least as large (after all the old keys
/// when it is the largest). The old page then holds the first `split_index`
/// keys of that order and the new page the rest, so reading the old page and
/// then the new one gives the keys in increasing order.
pub proof fn lemma_split_keeps_key_order(page: Seq<u8>, key: usize, value: Seq<u8>)
    requires
        page.len() == PAGE_SIZE,
        page_cell_count(page) <= LEAF_NODE_MAX_CELLS,
        value.len() == ROW_SIZE,
        cell_keys_increase(page, page_cell_count(page) as int),
    ensures
        ({
            let n = page_cell_count(page) as int;
            let k = key_as_i32(key as nat);
            let pos = insert_position(page, k, 0, n);
            let sp = split_index(page);
            let old_page = split_old_page(page, key as nat, value);
            let new_page = split_new_page(page, key as nat, value);
            &&& 0 <= pos <= n
            &&& forall|i: int| 0 <= i < pos ==> #[trigger] page_cell_key(page, i) < k
            &&& forall|i: int| pos <= i < n ==> k <= #[trigger] page_cell_key(page, i)
            &&& forall|i: int|
                0 <= i < sp ==> #[trigger] page_cell_key(old_page, i) == key_put_in(page, pos, k, i)
            &&& forall|i: int|
                sp <= i <= n ==> #[trigger] page_cell_key(new_page, i - sp) == key_put_in(
                    page,
                    pos,
                    k,
                    i,
                )
            &&& forall|i: int, j: int|
                0 <= i < j <= n ==> key_put_in(page, pos, k, i) <= key_put_in(page, pos, k, j)
            &&& forall|i: int, j: int|
                0 <= i < j < sp ==> page_cell_key(old_page, i) <= page_cell_key(old_page, j)
            &&& forall|i: int, j: int|
                0 <= i < j <= n - sp ==> page_cell_key(new_page, i) <= page_cell_key(new_page, j)
            &&& forall|i: int| 0 <= i < sp ==> page_cell_key(old_page, i) <= page_cell_key(new_page, 0)
        }),
{
    lemma_layout();
    let n = page_cell_count(page) as int;
    let k = key_as_i32(key as nat);
    lemma_insert_position_keys(page, k, 0, n);
    let pos = insert_position(page, k, 0, n);
    let sp = split_index(page);
    let m = split_cells(page, key as nat, value);
    let old_page = split_old_page(page, key as nat, value);
    let new_page = split_new_page(page, key as nat, value);
    lemma_split_keeps_cells(page, key, value);
    assert forall|i: int| pos <= i < n implies k <= #[trigger] page_cell_key(page, i) by {
        if i > pos {
            assert(page_cell_key(page, pos) < page_cell_key(page, i));
        }
    }
    // The key of each merged cell.
    lemma_le_u32_bytes_low(key as u64);
    lemma_le_u32_roundtrip((key as u64 % 4294967296) as nat);
    assert forall|i: int| 0 <= i <= n implies #[trigger] stored_cell_key(m[i]) == key_put_in(
        page,
        pos,
        k,
        i,
    ) by {
        lemma_split_cell_at(page, key as nat, value, i);
        if i == pos {
            let c = le_u32_bytes(key as nat) + value;
            assert(c.subrange(0, 4) =~= le_u32_bytes(key as nat));
            assert(le_u32_value(c, 0) == le_u32_value(le_u32_bytes(key as nat), 0));
        } else {
            let j = if i < pos { i } else { i - 1 };
            lemma_page_cell_key_of_cell(page, j);
            let c = page_cell(page, j);
            let nc = normalized_cell(c);
            assert(nc[0] == c[0] && nc[1] == c[1] && nc[2] == c[2] && nc[3] == c[3]);
        }
    }
    assert forall|i: int| 0 <= i < sp implies #[trigger] page_cell_key(old_page, i) == key_put_in(
        page,
        pos,
        k,
        i,
    ) by {
        lemma_page_cell_key_of_cell(old_page, i);
    }
    assert forall|i: int| sp <= i <= n implies #[trigger] page_cell_key(new_page, i - sp)
        == key_put_in(page, pos, k, i) by {
        lemma_page_cell_key_of_cell(new_page, i - sp);
    }
    assert forall|i: int, j: int|
        0 <= i < j <= n implies key_put_in(page, pos, k, i) <= key_put_in(page, pos, k, j) by {
        if i < pos && j < pos {
            assert(page_cell_key(page, i) < page_cell_key(page, j));
        } else if i < pos && j > pos {
            assert(page_cell_key(page, i) < k);
            assert(k <= page_cell_key(page, j - 1));
        } else if i == pos && j > pos {
            assert(k <= page_cell_key(page, j - 1));
        } else if i > pos {
            if i - 1 < j - 1 {
                assert(page_cell_key(page, i - 1) < page_cell_key(page, j - 1));
            }
        }
    }
    assert forall|i: int, j: int|
        0 <= i < j < sp implies page_cell_key(old_page, i) <= page_cell_key(old_page, j) by {
        assert(page_cell_key(old_page, i) == key_put_in(page, pos, k, i));
        assert(page_cell_key(old_page, j) == key_put_in(page, pos, k, j));
    }
    assert forall|i: int, j: int|
        0 <= i < j <= n - sp implies page_cell_key(new_page, i) <= page_cell_key(new_page, j) by {
        assert(page_cell_key(new_page, (i + sp) - sp) == key_put_in(page, pos, k, i + sp));
        assert(page_cell_key(new_page, (j + sp) - sp) == key_put_in(page, pos, k, j + sp));
    }
    assert forall|i: int| 0 <= i < sp implies page_cell_key(old_page, i) <= page_cell_key(
        new_page,
        0,
    ) by {
        assert(page_cell_key(old_page, i) == key_put_in(page, pos, k, i));
        assert(page_cell_key(new_page, sp - sp) == key_put_in(page, pos, k, sp));
    }
}

} // verus!
