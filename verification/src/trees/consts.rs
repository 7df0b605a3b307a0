//! Byte layout of a tree node page.
use vstd::prelude::*;
use crate::data::row::ROW_SIZE;
use crate::data::table::PAGE_SIZE;

verus! {

// Common node header.
pub const NODE_TYPE_SIZE: usize = 1;
pub const NODE_TYPE_OFFSET: usize = 0;

pub const IS_ROOT_SIZE: usize = 1;
pub const IS_ROOT_OFFSET: usize = NODE_TYPE_OFFSET + NODE_TYPE_SIZE;

pub const PARENT_POINTER_SIZE: usize = 4;
pub const PARENT_POINTER_OFFSET: usize = IS_ROOT_OFFSET + IS_ROOT_SIZE;

pub const COMMON_HEADER_SIZE: usize = NODE_TYPE_SIZE + IS_ROOT_SIZE + PARENT_POINTER_SIZE;

// Leaf node header.
pub const LEAF_NODE_NUM_CELLS_SIZE: usize = 4;
pub const LEAF_NODE_NUM_CELLS_OFFSET: usize = COMMON_HEADER_SIZE;
pub const LEAF_NODE_HEADER_SIZE: usize = COMMON_HEADER_SIZE + LEAF_NODE_NUM_CELLS_SIZE;

// Leaf node body: cells of a key followed by a row.
pub const LEAF_NODE_KEY_SIZE: usize = 4;
pub const LEAF_NODE_KEY_OFFSET: usize = 0;

pub const LEAF_NODE_VALUE_SIZE: usize = ROW_SIZE;
pub const LEAF_NODE_VALUE_OFFSET: usize = LEAF_NODE_KEY_OFFSET + LEAF_NODE_KEY_SIZE;

pub const LEAF_NODE_CELL_SIZE: usize = LEAF_NODE_KEY_SIZE + LEAF_NODE_VALUE_SIZE;
pub const LEAF_NODE_SPACE_FOR_CELLS: usize = PAGE_SIZE - LEAF_NODE_HEADER_SIZE;

pub const LEAF_NODE_MAX_CELLS: usize = LEAF_NODE_SPACE_FOR_CELLS / LEAF_NODE_CELL_SIZE;

// Internal node header: the key count (a native-width unsigned integer) and
// the right child's page number.
pub const INTERNAL_NODE_NUM_KEYS_SIZE: usize = 8;
pub const INTERNAL_NODE_NUM_KEYS_OFFSET: usize = COMMON_HEADER_SIZE;

pub const INTERNAL_NODE_RIGHT_CHILD_SIZE: usize = 4;
pub const INTERNAL_NODE_RIGHT_CHILD_OFFSET: usize = INTERNAL_NODE_NUM_KEYS_OFFSET
    + INTERNAL_NODE_NUM_KEYS_SIZE;

pub const INTERNAL_NODE_HEADER_SIZE: usize = COMMON_HEADER_SIZE + INTERNAL_NODE_NUM_KEYS_SIZE
    + INTERNAL_NODE_RIGHT_CHILD_SIZE;

// Internal node body: cells of a child page number followed by a key.
pub const INTERNAL_NODE_KEY_SIZE: usize = 4;
pub const INTERNAL_NODE_CHILD_SIZE: usize = 4;
pub const INTERNAL_NODE_CELL_SIZE: usize = INTERNAL_NODE_CHILD_SIZE + INTERNAL_NODE_KEY_SIZE;

pub proof fn lemma_layout()
    ensures
        LEAF_NODE_HEADER_SIZE == 10,
        LEAF_NODE_CELL_SIZE == 395,
        LEAF_NODE_MAX_CELLS == 10,
{
    assert(4086int / 395int == 10) by (nonlinear_arith);
}

} // verus!
