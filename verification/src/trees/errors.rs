use vstd::prelude::*;
use crate::text::{decimal, push_decimal};

verus! {

#[derive(Debug, PartialEq, Eq, Structural)]
pub enum InternalNodeError {
    InvalidChildAccess { child_no: usize, max_child_no_available: usize },
}

/// The text that describes an internal node error.
pub open spec fn internal_node_error_text(e: InternalNodeError) -> Seq<char> {
    match e {
        InternalNodeError::InvalidChildAccess { child_no, max_child_no_available } =>
            "Tried to access child_num "@ + decimal(child_no as nat) + " > num_keys "@ + decimal(
            max_child_no_available as nat),
    }
}

impl InternalNodeError {
    /// The text that describes the error.
    pub fn message(&self) -> (s: String)
        ensures
            s@ == internal_node_error_text(*self),
    {
        let mut s = String::new();
        match self {
            InternalNodeError::InvalidChildAccess { child_no, max_child_no_available } => {
                s.append("Tried to access child_num ");
                push_decimal(&mut s, *child_no);
                s.append(" > num_keys ");
                push_decimal(&mut s, *max_child_no_available);
            },
        }
        s
    }
}

} // verus!
