use vstd::prelude::*;
use crate::text::{decimal, push_decimal};

verus! {

#[derive(Debug, PartialEq, Eq)]
pub enum PagerError {
    OutBoundSeek { page: usize, max_allowed_pages: usize },
    PageNotFound { page_seeked: usize },
    FlushError { page_num: usize },
    InitError { cause: String },
}

/// The text that describes a pager error.
pub open spec fn pager_error_text(e: PagerError) -> Seq<char> {
    match e {
        PagerError::OutBoundSeek { page, max_allowed_pages } => "page "@ + decimal(page as nat)
            + " is out of the bound (max pages per table: "@ + decimal(max_allowed_pages as nat)
            + ")"@,
        PagerError::PageNotFound { page_seeked } => "page "@ + decimal(page_seeked as nat)
            + " not found"@,
        PagerError::FlushError { page_num } => "error flushing data to the disk for page "@
            + decimal(page_num as nat),
        PagerError::InitError { cause } => "[DB_INIT_ERROR]:: "@ + cause@,
    }
}

impl PagerError {
    /// The text that describes the error.
    pub fn message(&self) -> (s: String)
        ensures
            s@ == pager_error_text(*self),
    {
        let mut s = String::new();
        match self {
            PagerError::OutBoundSeek { page, max_allowed_pages } => {
                s.append("page ");
                push_decimal(&mut s, *page);
                s.append(" is out of the bound (max pages per table: ");
                push_decimal(&mut s, *max_allowed_pages);
                s.append(")");
            },
            PagerError::PageNotFound { page_seeked } => {
                s.append("page ");
                push_decimal(&mut s, *page_seeked);
                s.append(" not found");
            },
            PagerError::FlushError { page_num } => {
                s.append("error flushing data to the disk for page ");
                push_decimal(&mut s, *page_num);
            },
            PagerError::InitError { cause } => {
                s.append("[DB_INIT_ERROR]:: ");
                s.append(cause.as_str());
            },
        }
        s
    }
}

#[derive(Debug, PartialEq, Eq)]
pub enum ParseError {
    ArgsPassError { arg: &'static str },
}

/// The text that describes an argument error.
pub open spec fn parse_error_text(e: ParseError) -> Seq<char> {
    match e {
        ParseError::ArgsPassError { arg } => "error parsing arguement "@ + arg@,
    }
}

impl ParseError {
    /// The text that describes the error.
    pub fn message(&self) -> (s: String)
        ensures
            s@ == parse_error_text(*self),
    {
        let mut s = String::new();
        match self {
            ParseError::ArgsPassError { arg } => {
                s.append("error parsing arguement ");
                s.append(arg);
            },
        }
        s
    }
}

} // verus!
