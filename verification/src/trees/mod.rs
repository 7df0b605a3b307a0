pub mod consts;
pub mod errors;
pub mod node_type;
pub mod page_node;
pub mod laws;
