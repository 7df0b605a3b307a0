//! Statements: parsing the command line into statements, and running them.
use vstd::prelude::*;
use vstd::utf8::encode_utf8;
use std::str::FromStr;
use vstd::utf8::decode_utf8;
use crate::cursor::{i32_as_usize, key_as_usize, lemma_insert_reads_back, Cursor};
use crate::data::row::{
    row_decodable, stored_email, stored_id, stored_username, Row, EMAIL_SIZE, USERNAME_SIZE,
};
use crate::data::table::{Table, MAX_EMAIL_SIZE, MAX_USERNAME_SIZE, TABLE_MAX_PAGES};
use crate::errors::{pager_error_text, PagerError};
use crate::pager::{lemma_after_get, PagerView};
use crate::trees::consts::{
    lemma_layout, LEAF_NODE_CELL_SIZE, LEAF_NODE_HEADER_SIZE, LEAF_NODE_MAX_CELLS,
    LEAF_NODE_NUM_CELLS_OFFSET, LEAF_NODE_VALUE_OFFSET,
};
use crate::trees::page_node::{leaf_insert, page_cell_count, page_cell_value, value_start, Page};
use crate::codec::{no_nul, read_u32_le, splice, subslice};
use crate::input_buffer::InputBuffer;
use crate::text::{chars_equal, parse_i32, parse_i32_chars, str_chars, word_spans, words};

verus! {

#[derive(Debug, PartialEq, Eq, Structural)]
pub enum MetaCmdRes {
    MetaRecognizedCommand,
    ExitCmd,
    MetaCmdClear,
    MetaCmdBtree,
    MetaCmdConstants,
    UnrecognizedCommand,
}

/// What parsing `s` as a meta command gives: texts that do not start with `_`
/// are refused; `_exit`, `_cl`, `_btree` and `_constants` are the named
/// commands; any other text starting with `_` is a recognized meta command
/// with no action of its own.
pub open spec fn meta_parses_as(s: Seq<char>, r: Result<MetaCmdRes, ()>) -> bool {
    if !(s.len() > 0 && s[0] == '_') {
        r is Err
    } else if s == "_exit"@ {
        r == Ok::<MetaCmdRes, ()>(MetaCmdRes::ExitCmd)
    } else if s == "_cl"@ {
        r == Ok::<MetaCmdRes, ()>(MetaCmdRes::MetaCmdClear)
    } else if s == "_btree"@ {
        r == Ok::<MetaCmdRes, ()>(MetaCmdRes::MetaCmdBtree)
    } else if s == "_constants"@ {
        r == Ok::<MetaCmdRes, ()>(MetaCmdRes::MetaCmdConstants)
    } else {
        r == Ok::<MetaCmdRes, ()>(MetaCmdRes::MetaRecognizedCommand)
    }
}

impl MetaCmdRes {
    /// Parses a meta command.
    pub fn parse(s: &str) -> (r: Result<MetaCmdRes, ()>)
        ensures
            meta_parses_as(s@, r),
    {
        let chars = str_chars(s);
        if !(chars.len() > 0 && chars[0] == '_') {
            return Err(());
        }
        if chars_equal(chars.as_slice(), "_exit") {
            Ok(MetaCmdRes::ExitCmd)
        } else if chars_equal(chars.as_slice(), "_cl") {
            Ok(MetaCmdRes::MetaCmdClear)
        } else if chars_equal(chars.as_slice(), "_btree") {
            Ok(MetaCmdRes::MetaCmdBtree)
        } else if chars_equal(chars.as_slice(), "_constants") {
            Ok(MetaCmdRes::MetaCmdConstants)
        } else {
            Ok(MetaCmdRes::MetaRecognizedCommand)
        }
    }
}

/// What the command line does for a meta command.
#[derive(Debug, PartialEq, Eq)]
pub enum MetaAction {
    Exit,
    ClearScreen,
    PrintConstants,
    PrintTree,
    Fail { cause: String },
}

impl MetaCmdRes {
    /// The action for this meta command: `_exit` leaves, `_cl` clears the
    /// screen, `_constants` prints the layout constants, `_btree` prints the
    /// tree, and any other meta command fails as unrecognized.
    pub fn action(&self) -> (a: MetaAction)
        ensures
            match *self {
                MetaCmdRes::ExitCmd => a == MetaAction::Exit,
                MetaCmdRes::MetaCmdClear => a == MetaAction::ClearScreen,
                MetaCmdRes::MetaCmdConstants => a == MetaAction::PrintConstants,
                MetaCmdRes::MetaCmdBtree => a == MetaAction::PrintTree,
                _ => a matches MetaAction::Fail { cause } && cause@ == "Unrecognized meta cmd"@,
            },
    {
        match self {
            MetaCmdRes::ExitCmd => MetaAction::Exit,
            MetaCmdRes::MetaCmdClear => MetaAction::ClearScreen,
            MetaCmdRes::MetaCmdConstants => MetaAction::PrintConstants,
            MetaCmdRes::MetaCmdBtree => MetaAction::PrintTree,
            _ => MetaAction::Fail { cause: "Unrecognized meta cmd".to_owned() },
        }
    }
}

impl FromStr for MetaCmdRes {
    type Err = ();

    fn from_str(s: &str) -> (r: Result<Self, Self::Err>)
        ensures
            meta_parses_as(s@, r),
    {
        MetaCmdRes::parse(s)
    }
}

#[derive(Debug)]
pub enum StatementType {
    StatementInsert { row: Row },
    StatementSelect,
}

#[derive(Debug)]
pub enum PrepareResult {
    PrepareSuccess { statement_type: StatementType },
    PrepareUnrecognizedStatement,
    PrepareSyntaxError { cause: &'static str },
    PrepareStringTooLong { cause: &'static str },
    PrepareNegativeId,
    IdParseErr,
}

/// What parsing `s` as a statement gives, by its white-space separated words.
/// The first word names the statement. `.insert` takes exactly three more
/// words: an `i32` id that is not negative, a username and an email of at most
/// `MAX_USERNAME_SIZE` and `MAX_EMAIL_SIZE` bytes (the email is checked
/// first). `.select` ignores any further words.
pub open spec fn statement_parses_as(s: Seq<char>, r: Result<StatementType, PrepareResult>) -> bool {
    let w = words(s);
    if w.len() == 0 {
        r matches Err(PrepareResult::PrepareSyntaxError { cause }) && cause@
            == "unable to parse command"@
    } else if w[0] == ".insert"@ {
        if w.len() != 4 {
            r matches Err(PrepareResult::PrepareSyntaxError { cause }) && cause@
                == "expected .insert <id> <username> <email>"@
        } else if parse_i32(w[1]) is None {
            r matches Err(PrepareResult::IdParseErr)
        } else if parse_i32(w[1])->0 < 0 {
            r matches Err(PrepareResult::PrepareNegativeId)
        } else if encode_utf8(w[3]).len() > MAX_EMAIL_SIZE {
            r matches Err(PrepareResult::PrepareStringTooLong { cause }) && cause@
                == "email string too long"@
        } else if encode_utf8(w[2]).len() > MAX_USERNAME_SIZE {
            r matches Err(PrepareResult::PrepareStringTooLong { cause }) && cause@
                == "username too long"@
        } else {
            r matches Ok(StatementType::StatementInsert { row }) && row.id == parse_i32(w[1])->0
                && row.username@ == w[2] && row.email@ == w[3]
        }
    } else if w[0] == ".select"@ {
        r matches Ok(StatementType::StatementSelect)
    } else {
        r matches Err(PrepareResult::PrepareUnrecognizedStatement)
    }
}

impl StatementType {
    /// Parses a statement.
    pub fn parse(s: &str) -> (r: Result<StatementType, PrepareResult>)
        ensures
            statement_parses_as(s@, r),
    {
        let chars = str_chars(s);
        let spans = word_spans(chars.as_slice());
        let ghost w = words(s@);
        if spans.len() == 0 {
            return Err(PrepareResult::PrepareSyntaxError { cause: "unable to parse command" });
        }
        let (c0, c1) = spans[0];
        let command = vstd::slice::slice_subrange(chars.as_slice(), c0, c1);
        if chars_equal(command, ".insert") {
            if spans.len() != 4 {
                return Err(
                    PrepareResult::PrepareSyntaxError {
                        cause: "expected .insert <id> <username> <email>",
                    },
                );
            }
            let (i0, i1) = spans[1];
            let (u0, u1) = spans[2];
            let (e0, e1) = spans[3];
            let id_chars = vstd::slice::slice_subrange(chars.as_slice(), i0, i1);
            let id = match parse_i32_chars(id_chars) {
                Some(id) => id,
                None => {
                    return Err(PrepareResult::IdParseErr);
                },
            };
            if id < 0 {
                return Err(PrepareResult::PrepareNegativeId);
            }
            let username = s.substring_char(u0, u1);
            let email = s.substring_char(e0, e1);
            if email.as_bytes().len() > MAX_EMAIL_SIZE {
                return Err(PrepareResult::PrepareStringTooLong { cause: "email string too long" });
            }
            if username.as_bytes().len() > MAX_USERNAME_SIZE {
                return Err(PrepareResult::PrepareStringTooLong { cause: "username too long" });
            }
            Ok(
                StatementType::StatementInsert {
                    row: Row { id, username: username.to_owned(), email: email.to_owned() },
                },
            )
        } else if chars_equal(command, ".select") {
            Ok(StatementType::StatementSelect)
        } else {
            Err(PrepareResult::PrepareUnrecognizedStatement)
        }
    }
}

impl FromStr for StatementType {
    type Err = PrepareResult;

    fn from_str(s: &str) -> (r: Result<Self, Self::Err>)
        ensures
            statement_parses_as(s@, r),
    {
        StatementType::parse(s)
    }
}

#[derive(Debug)]
pub struct Statement {
    pub statement_type: StatementType,
}

/// Parses the line in `buffer` as a statement; any refusal is reported as an
/// unrecognized statement.
pub fn parse_statement(buffer: &InputBuffer) -> (r: PrepareResult)
    ensures
        match r {
            PrepareResult::PrepareSuccess { statement_type } => statement_parses_as(
                buffer.buffer@,
                Ok(statement_type),
            ),
            PrepareResult::PrepareUnrecognizedStatement => exists|e: PrepareResult|
                statement_parses_as(buffer.buffer@, Err(e)),
            _ => false,
        },
{
    match StatementType::parse(buffer.buffer.as_str()) {
        Ok(statement_type) => PrepareResult::PrepareSuccess { statement_type },
        Err(e) => PrepareResult::PrepareUnrecognizedStatement,
    }
}

#[derive(Debug, PartialEq, Eq, Clone)]
pub enum ExecStatementRes {
    ExecSuccess,
    ExecFailure { cause: String },
    ExecExit,
}

/// A row as plain values: id, username, email.
pub open spec fn row_value(r: Row) -> (i32, Seq<char>, Seq<char>) {
    (r.id, r.username@, r.email@)
}

/// The row an encoded row reads back as.
pub open spec fn decoded_row(bytes: Seq<u8>) -> (i32, Seq<char>, Seq<char>) {
    (stored_id(bytes), decode_utf8(stored_username(bytes)), decode_utf8(stored_email(bytes)))
}

/// A scan from cell `c` of page `p` runs without failing: each cell it reads
/// lies within its page and decodes. The scan reads a cell, then moves on:
/// to the next cell while the cell index is below the page's cell count
/// (so it reads one cell past the last), else to cell 0 of the next page,
/// up to page `TABLE_MAX_PAGES - 1`. Pages are asked for as
/// `PagerView::after_get` has it.
pub open spec fn scan_ok(v: PagerView, p: int, c: int) -> bool
    decreases TABLE_MAX_PAGES - p, LEAF_NODE_MAX_CELLS - c,
    when 0 <= p < TABLE_MAX_PAGES && 0 <= c < LEAF_NODE_MAX_CELLS
{
    let s1 = v.after_get(p);
    let page = s1.page(p);
    &&& v.can_get(p)
    &&& row_decodable(page_cell_value(page, c))
    &&& if c < page_cell_count(page) {
        c + 1 < LEAF_NODE_MAX_CELLS && scan_ok(s1, p, c + 1)
    } else if p + 1 >= TABLE_MAX_PAGES {
        true
    } else {
        s1.can_get(p + 1) && scan_ok(s1.after_get(p + 1), p + 1, 0)
    }
}

/// A scan from cell `c` (at most the cell count) of page `p` runs exactly
/// when every cell it reads on that page lies inside the page and decodes,
/// and the scan of the next page runs: the page can be asked for, it counts
/// fewer than `LEAF_NODE_MAX_CELLS` cells (so cells `c..=count` all lie inside
/// it), each of those cells decodes, and, unless `p` is the last page, the
/// next page can be asked for and the scan from its first cell runs.
pub proof fn lemma_scan_ok_page(v: PagerView, p: int, c: int)
    requires
        v.wf(),
        0 <= p < TABLE_MAX_PAGES,
        0 <= c < LEAF_NODE_MAX_CELLS,
        v.can_get(p) ==> c <= page_cell_count(v.after_get(p).page(p)),
    ensures
        scan_ok(v, p, c) <==> {
            let s1 = v.after_get(p);
            let page = s1.page(p);
            let count = page_cell_count(page) as int;
            &&& v.can_get(p)
            &&& count < LEAF_NODE_MAX_CELLS
            &&& forall|i: int| c <= i <= count ==> row_decodable(#[trigger] page_cell_value(page, i))
            &&& p + 1 < TABLE_MAX_PAGES ==> s1.can_get(p + 1) && scan_ok(s1.after_get(p + 1), p + 1, 0)
        },
    decreases LEAF_NODE_MAX_CELLS - c,
{
    lemma_layout();
    if v.can_get(p) {
        lemma_after_get(v, p);
        let s1 = v.after_get(p);
        let page = s1.page(p);
        let count = page_cell_count(page) as int;
        if c < count && c + 1 < LEAF_NODE_MAX_CELLS {
            lemma_scan_ok_page(s1, p, c + 1);
            assert(s1.after_get(p) == s1);
            if scan_ok(v, p, c) {
                assert forall|i: int| c <= i <= count implies row_decodable(
                    #[trigger] page_cell_value(page, i),
                ) by {
                    if i > c {
                        assert(c + 1 <= i);
                    }
                }
            }
        }
    }
}

/// The rows a scan from cell `c` of page `p` reads (see `scan_ok`).
pub open spec fn scan_rows(v: PagerView, p: int, c: int) -> Seq<(i32, Seq<char>, Seq<char>)>
    decreases TABLE_MAX_PAGES - p, LEAF_NODE_MAX_CELLS - c,
    when 0 <= p < TABLE_MAX_PAGES && 0 <= c < LEAF_NODE_MAX_CELLS
{
    let s1 = v.after_get(p);
    let page = s1.page(p);
    let row = decoded_row(page_cell_value(page, c));
    if c < page_cell_count(page) {
        if c + 1 < LEAF_NODE_MAX_CELLS {
            seq![row] + scan_rows(s1, p, c + 1)
        } else {
            seq![row]
        }
    } else if p + 1 >= TABLE_MAX_PAGES {
        seq![row]
    } else {
        seq![row] + scan_rows(s1.after_get(p + 1), p + 1, 0)
    }
}

/// The pager state a scan from cell `c` of page `p` ends in (see `scan_ok`).
pub open spec fn scan_end(v: PagerView, p: int, c: int) -> PagerView
    decreases TABLE_MAX_PAGES - p, LEAF_NODE_MAX_CELLS - c,
    when 0 <= p < TABLE_MAX_PAGES && 0 <= c < LEAF_NODE_MAX_CELLS
{
    let s1 = v.after_get(p);
    let page = s1.page(p);
    if c < page_cell_count(page) {
        if c + 1 < LEAF_NODE_MAX_CELLS {
            scan_end(s1, p, c + 1)
        } else {
            s1
        }
    } else if p + 1 >= TABLE_MAX_PAGES {
        s1
    } else {
        scan_end(s1.after_get(p + 1), p + 1, 0)
    }
}

pub proof fn lemma_with_same_page(v: PagerView, p: int)
    requires
        0 <= p < v.pages.len(),
        v.pages[p] is Some,
    ensures
        v.with_page(p, v.page(p)) == v,
{
    assert(v.with_page(p, v.page(p)).pages =~= v.pages);
}

/// A row that `.insert` accepts fits the row encoding: its id is not
/// negative, and its username and email take at most `USERNAME_SIZE` and
/// `EMAIL_SIZE` bytes, so they are stored whole.
pub proof fn lemma_parsed_row_fits(s: Seq<char>, row: Row)
    requires
        statement_parses_as(s, Ok(StatementType::StatementInsert { row })),
    ensures
        row.id >= 0,
        encode_utf8(row.username@).len() <= USERNAME_SIZE,
        encode_utf8(row.email@).len() <= EMAIL_SIZE,
{
}

/// A select shows a row just inserted at the root's first cell (where the
/// command line's cursor stands) as the first row it reads, when the row's
/// text fits its fields.
pub proof fn lemma_select_shows_inserted_row(v: PagerView, root: int, key: usize, row: Row)
    requires
        v.wf(),
        0 <= root < TABLE_MAX_PAGES,
        v.can_get(root),
        page_cell_count(v.after_get(root).page(root)) < LEAF_NODE_MAX_CELLS,
        no_nul(row.username@),
        no_nul(row.email@),
        encode_utf8(row.username@).len() <= USERNAME_SIZE,
        encode_utf8(row.email@).len() <= EMAIL_SIZE,
    ensures
        ({
            let s1 = v.after_get(root);
            let w = s1.with_page(root, leaf_insert(s1.page(root), 0, key as nat, row.encoding()));
            &&& scan_rows(w, root, 0).len() >= 1
            &&& scan_rows(w, root, 0)[0] == row_value(row)
        }),
{
    lemma_layout();
    lemma_insert_reads_back(v, root, 0, key, row);
}

/// Reads every row from the root's first cell on (see `scan_rows`), as the
/// rows to show. A root page number from `TABLE_MAX_PAGES` on fails with the
/// pager's out-of-bound message.
fn exec_select(table: &mut Table) -> (r: (ExecStatementRes, Vec<Row>))
    requires
        old(table).pager@.wf(),
        old(table).root_page_num < TABLE_MAX_PAGES ==> scan_ok(
            old(table).pager@,
            old(table).root_page_num as int,
            0,
        ),
    ensures
        old(table).root_page_num >= TABLE_MAX_PAGES ==> (r.0 matches ExecStatementRes::ExecFailure {
            cause,
        } && cause@ == pager_error_text(
            PagerError::OutBoundSeek {
                page: old(table).root_page_num,
                max_allowed_pages: TABLE_MAX_PAGES,
            },
        ) && r.1@.len() == 0 && final(table).pager@ == old(table).pager@),
        old(table).root_page_num < TABLE_MAX_PAGES ==> (r.0 == ExecStatementRes::ExecSuccess
            && r.1@.map_values(|row: Row| row_value(row)) == scan_rows(
            old(table).pager@,
            old(table).root_page_num as int,
            0,
        ) && final(table).pager@ == scan_end(
            old(table).pager@,
            old(table).root_page_num as int,
            0,
        )),
        final(table).root_page_num == old(table).root_page_num,
{
    let ghost v0 = table.pager@;
    let ghost root = table.root_page_num as int;
    proof {
        lemma_layout();
    }
    let mut cursor = Cursor::new(table);
    let mut rows: Vec<Row> = Vec::new();
    while !cursor.at_table_end
        invariant
            cursor.pager().wf(),
            cursor.root() == root,
            !cursor.at_table_end ==> cursor.cell_num < LEAF_NODE_MAX_CELLS,
            !cursor.at_table_end && root < TABLE_MAX_PAGES ==> {
                &&& cursor.curr_page_num < TABLE_MAX_PAGES
                &&& scan_ok(cursor.pager(), cursor.curr_page_num as int, cursor.cell_num as int)
                &&& rows@.map_values(|row: Row| row_value(row)) + scan_rows(
                    cursor.pager(),
                    cursor.curr_page_num as int,
                    cursor.cell_num as int,
                ) == scan_rows(v0, root, 0)
                &&& scan_end(cursor.pager(), cursor.curr_page_num as int, cursor.cell_num as int)
                    == scan_end(v0, root, 0)
            },
            !cursor.at_table_end && root >= TABLE_MAX_PAGES ==> {
                &&& cursor.curr_page_num == root
                &&& cursor.pager() == v0
                &&& rows@.len() == 0
            },
            cursor.at_table_end ==> root < TABLE_MAX_PAGES && rows@.map_values(
                |row: Row| row_value(row),
            ) == scan_rows(v0, root, 0) && cursor.pager() == scan_end(v0, root, 0),
            after_borrow(*table) == *final(cursor.table),
            v0 == old(table).pager@,
            root == old(table).root_page_num,
        decreases
            TABLE_MAX_PAGES - cursor.curr_page_num,
            LEAF_NODE_MAX_CELLS - cursor.cell_num,
            if cursor.at_table_end { 0int } else { 1int },
    {
        proof {
            lemma_layout();
        }
        let ghost v = cursor.pager();
        let ghost p = cursor.curr_page_num as int;
        let ghost c = cursor.cell_num as int;
        let ghost rows_before = rows@;
        proof {
            if p < TABLE_MAX_PAGES {
                lemma_after_get(v, p);
            }
        }
        match cursor.curr_value() {
            Ok(val) => {
                let mut row = Row::new();
                row.ingest_deserialized(val);
                let ghost s1 = v.after_get(p);
                let ghost page = s1.page(p);
                proof {
                    assert(splice(page, value_start(c), page_cell_value(page, c)) =~= page);
                    lemma_with_same_page(s1, p);
                }
                assert(cursor.pager() == s1);
                assert(row_value(row) == decoded_row(page_cell_value(page, c)));
                rows.push(row);
                assert(rows@.map_values(|row: Row| row_value(row)) =~= rows_before.map_values(
                    |row: Row| row_value(row),
                ).push(decoded_row(page_cell_value(page, c))));
                cursor.advance();
            },
            Err(e) => {
                return (ExecStatementRes::ExecFailure { cause: e.message() }, rows);
            },
        }
    }
    (ExecStatementRes::ExecSuccess, rows)
}

/// Whether a select on `table` runs to its end: a root page number from
/// `TABLE_MAX_PAGES` on is answered with an error, and any other root asks
/// that the scan from its first cell runs without failing (see `scan_ok`).
/// The scan runs on a copy of the table's pager, so the table is not touched.
pub fn select_is_defined(table: &Table) -> (b: bool)
    requires
        table.pager@.wf(),
    ensures
        b == (table.root_page_num < TABLE_MAX_PAGES ==> scan_ok(
            table.pager@,
            table.root_page_num as int,
            0,
        )),
{
    proof {
        lemma_layout();
    }
    let root = table.root_page_num;
    if root >= TABLE_MAX_PAGES {
        return true;
    }
    let mut pager = table.pager.copy();
    let mut p: usize = root;
    let mut c: usize = 0;
    loop
        invariant
            pager@.wf(),
            p < TABLE_MAX_PAGES,
            c < LEAF_NODE_MAX_CELLS,
            scan_ok(table.pager@, root as int, 0) == scan_ok(pager@, p as int, c as int),
            root == table.root_page_num,
            root < TABLE_MAX_PAGES,
        decreases TABLE_MAX_PAGES - p, LEAF_NODE_MAX_CELLS - c,
    {
        proof {
            lemma_layout();
        }
        let ghost v = pager@;
        if !pager.page_available(p) {
            return false;
        }
        proof {
            lemma_after_get(v, p as int);
        }
        let ghost s1 = v.after_get(p as int);
        let (decodable, count) = {
            let page = pager.get_page(p).unwrap();
            let start = LEAF_NODE_HEADER_SIZE + c * LEAF_NODE_CELL_SIZE;
            let value = subslice(page, start + LEAF_NODE_VALUE_OFFSET, start + LEAF_NODE_CELL_SIZE);
            assert(value@ == page_cell_value(s1.page(p as int), c as int));
            (Row::is_decodable(value), read_u32_le(page, LEAF_NODE_NUM_CELLS_OFFSET))
        };
        proof {
            lemma_with_same_page(s1, p as int);
        }
        assert(pager@ == s1);
        if !decodable {
            return false;
        }
        if c < count as usize {
            if c + 1 >= LEAF_NODE_MAX_CELLS {
                return false;
            }
            c = c + 1;
        } else if p + 1 >= TABLE_MAX_PAGES {
            return true;
        } else {
            if !pager.page_available(p + 1) {
                return false;
            }
            proof {
                lemma_after_get(s1, p + 1);
            }
            let next = pager.get_page(p + 1).is_ok();
            proof {
                lemma_with_same_page(s1.after_get(p + 1), p + 1);
            }
            p = p + 1;
            c = 0;
        }
    }
}

/// Inserts `row` with its id as key at the cursor's cell (see
/// `Cursor::insert_leaf_page`), unless the cursor's page is full.
fn exec_insert(row: &Row, cursor: &mut Cursor) -> (r: ExecStatementRes)
    requires
        old(cursor).pager().wf(),
        old(cursor).curr_page_num < TABLE_MAX_PAGES,
        old(cursor).pager().can_get(old(cursor).curr_page_num as int),
        old(cursor).cell_num < LEAF_NODE_MAX_CELLS,
    ensures
        ({
            let v = old(cursor).pager();
            let c = old(cursor).curr_page_num as int;
            let s1 = v.after_get(c);
            let page = s1.page(c);
            if page_cell_count(page) >= LEAF_NODE_MAX_CELLS {
                &&& r matches ExecStatementRes::ExecFailure { cause }
                &&& cause@ == "table full"@
                &&& final(cursor).pager() == s1
            } else {
                &&& r == ExecStatementRes::ExecSuccess
                &&& final(cursor).pager() == s1.with_page(
                    c,
                    leaf_insert(
                        page,
                        old(cursor).cell_num as int,
                        key_as_usize(row.id) as nat,
                        row.encoding(),
                    ),
                )
            }
        }),
        final(cursor).curr_page_num == old(cursor).curr_page_num,
        final(cursor).cell_num == old(cursor).cell_num,
        final(cursor).at_table_end == old(cursor).at_table_end,
        final(cursor).root() == old(cursor).root(),
        *final(final(cursor).table) == *final(old(cursor).table),
{
    proof {
        lemma_after_get(cursor.pager(), cursor.curr_page_num as int);
        lemma_layout();
    }
    let num_cells = {
        let page = Page::new(cursor.table.pager.get_page(cursor.curr_page_num).unwrap());
        page.cell_count()
    };
    if num_cells as usize >= LEAF_NODE_MAX_CELLS {
        return ExecStatementRes::ExecFailure { cause: "table full".to_owned() };
    }
    match cursor.insert_leaf_page(i32_as_usize(row.id), row) {
        Ok(_) => {},
        Err(e) => {
            return ExecStatementRes::ExecFailure { cause: e.message() };
        },
    };
    ExecStatementRes::ExecSuccess
}

/// Runs a statement at the cursor: an insert as `exec_insert`, a select as
/// `exec_select` on the cursor's table. Returns the outcome and the rows a
/// select read, to show.
pub fn exec_statement(statement_type: StatementType, cursor: &mut Cursor) -> (r: (
    ExecStatementRes,
    Vec<Row>,
))
    requires
        old(cursor).pager().wf(),
        statement_type matches StatementType::StatementInsert { .. } ==> {
            &&& old(cursor).curr_page_num < TABLE_MAX_PAGES
            &&& old(cursor).pager().can_get(old(cursor).curr_page_num as int)
            &&& old(cursor).cell_num < LEAF_NODE_MAX_CELLS
        },
        statement_type matches StatementType::StatementSelect ==> (old(cursor).root()
            < TABLE_MAX_PAGES ==> scan_ok(old(cursor).pager(), old(cursor).root() as int, 0)),
    ensures
        match statement_type {
            StatementType::StatementInsert { row } => {
                let v = old(cursor).pager();
                let c = old(cursor).curr_page_num as int;
                let s1 = v.after_get(c);
                let page = s1.page(c);
                &&& r.1@.len() == 0
                &&& if page_cell_count(page) >= LEAF_NODE_MAX_CELLS {
                    &&& r.0 matches ExecStatementRes::ExecFailure { cause }
                    &&& cause@ == "table full"@
                    &&& final(cursor).pager() == s1
                } else {
                    &&& r.0 == ExecStatementRes::ExecSuccess
                    &&& final(cursor).pager() == s1.with_page(
                        c,
                        leaf_insert(
                            page,
                            old(cursor).cell_num as int,
                            key_as_usize(row.id) as nat,
                            row.encoding(),
                        ),
                    )
                }
            },
            StatementType::StatementSelect => {
                let v = old(cursor).pager();
                let root = old(cursor).root();
                &&& root >= TABLE_MAX_PAGES ==> (r.0 matches ExecStatementRes::ExecFailure { cause }
                    && cause@ == pager_error_text(
                    PagerError::OutBoundSeek { page: root, max_allowed_pages: TABLE_MAX_PAGES },
                ) && r.1@.len() == 0 && final(cursor).pager() == v)
                &&& root < TABLE_MAX_PAGES ==> (r.0 == ExecStatementRes::ExecSuccess
                    && r.1@.map_values(|row: Row| row_value(row)) == scan_rows(v, root as int, 0)
                    && final(cursor).pager() == scan_end(v, root as int, 0))
            },
        },
        final(cursor).curr_page_num == old(cursor).curr_page_num,
        final(cursor).cell_num == old(cursor).cell_num,
        final(cursor).at_table_end == old(cursor).at_table_end,
        final(cursor).root() == old(cursor).root(),
        *final(final(cursor).table) == *final(old(cursor).table),
{
    match statement_type {
        StatementType::StatementInsert { ref row } => (exec_insert(row, cursor), Vec::new()),
        StatementType::StatementSelect => exec_select(cursor.table),
    }
}

} // verus!
