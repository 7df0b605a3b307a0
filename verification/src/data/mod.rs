pub mod row;
pub mod table;
