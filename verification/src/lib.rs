use vstd::prelude::*;

pub mod cmd;
pub mod codec;
pub mod cursor;
pub mod data;
pub mod errors;
pub mod input_buffer;
pub mod pager;
pub mod statements;
pub mod text;
pub mod trees;
