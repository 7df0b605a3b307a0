use slite::cmd::CLIcommand;
use slite::cursor::Cursor;
use slite::data::row::Row;
use slite::data::table::{Table, TABLE_MAX_PAGES};
use slite::errors::PagerError;
use slite::statements::{exec_statement, select_is_defined, ExecStatementRes, StatementType};

fn insert(cursor: &mut Cursor, id: i32, name: &str) -> ExecStatementRes {
    let row = Row {
        id,
        username: name.to_string(),
        email: format!("{}@example.com", name),
    };
    let (res, rows) = exec_statement(StatementType::StatementInsert { row }, cursor);
    assert!(rows.is_empty());
    res
}

#[test]
fn select_on_empty_table_reads_one_cell_per_page() {
    let mut table = Table::new(0, Vec::new()).unwrap();
    assert!(select_is_defined(&table));
    let mut cursor = Cursor::new(&mut table);
    let (res, rows) = exec_statement(StatementType::StatementSelect, &mut cursor);
    assert_eq!(res, ExecStatementRes::ExecSuccess);
    assert_eq!(rows.len(), TABLE_MAX_PAGES);
    assert!(rows.iter().all(|r| r.id == 0 && r.username.is_empty() && r.email.is_empty()));
}

#[test]
fn inserts_at_the_cursor_cell_then_select_reads_them() {
    let mut table = Table::new(0, Vec::new()).unwrap();
    let mut cursor = Cursor::new(&mut table);
    assert_eq!(insert(&mut cursor, 1, "a"), ExecStatementRes::ExecSuccess);
    assert_eq!(insert(&mut cursor, 2, "b"), ExecStatementRes::ExecSuccess);
    assert_eq!(insert(&mut cursor, 3, "c"), ExecStatementRes::ExecSuccess);
    assert!(select_is_defined(cursor.table));
    let (res, rows) = exec_statement(StatementType::StatementSelect, &mut cursor);
    assert_eq!(res, ExecStatementRes::ExecSuccess);
    // Three rows (each insert went in at cell 0), the empty cell past them,
    // then one empty cell on each later page.
    assert_eq!(rows.len(), 4 + TABLE_MAX_PAGES - 1);
    let ids: Vec<i32> = rows.iter().take(4).map(|r| r.id).collect();
    assert_eq!(ids, vec![3, 2, 1, 0]);
    assert_eq!(rows[0].username, "c");
    assert_eq!(rows[0].email, "c@example.com");
    assert_eq!(rows[2].username, "a");
}

#[test]
fn insert_into_full_page_fails() {
    let mut table = Table::new(0, Vec::new()).unwrap();
    let mut cursor = Cursor::new(&mut table);
    for i in 0..10 {
        assert_eq!(insert(&mut cursor, i, "u"), ExecStatementRes::ExecSuccess);
    }
    match insert(&mut cursor, 10, "u") {
        ExecStatementRes::ExecFailure { cause } => assert_eq!(cause, "table full"),
        other => panic!("unexpected {:?}", other),
    }
}

#[test]
fn select_with_root_out_of_bound_fails() {
    let mut table = Table::new(0, Vec::new()).unwrap();
    table.root_page_num = 150;
    assert!(select_is_defined(&table));
    let mut cursor = Cursor::new(&mut table);
    let (res, rows) = exec_statement(StatementType::StatementSelect, &mut cursor);
    assert!(rows.is_empty());
    assert_eq!(
        res,
        ExecStatementRes::ExecFailure {
            cause: PagerError::OutBoundSeek { page: 150, max_allowed_pages: 100 }.message()
        }
    );
    assert_eq!(
        PagerError::OutBoundSeek { page: 150, max_allowed_pages: 100 }.message(),
        "page 150 is out of the bound (max pages per table: 100)"
    );
}

#[test]
fn select_is_not_defined_on_undecodable_cell() {
    let mut table = Table::new(0, Vec::new()).unwrap();
    {
        let page = table.pager.get_page(0).unwrap();
        // First byte of the username of cell 0: not UTF-8.
        page[10 + 4 + 4] = 0xFF;
    }
    assert!(!select_is_defined(&table));
}

#[test]
fn cli_command_classifies_lines() {
    assert!(matches!(CLIcommand::parse("_exit"), Ok(CLIcommand::Meta(_))));
    assert!(matches!("_whatever".parse::<CLIcommand>(), Ok(CLIcommand::Meta(_))));
    assert!(matches!(
        CLIcommand::parse(".select"),
        Ok(CLIcommand::Statement(StatementType::StatementSelect))
    ));
    assert!(matches!(
        CLIcommand::parse(".insert 4 x y"),
        Ok(CLIcommand::Statement(StatementType::StatementInsert { row })) if row.id == 4
    ));
    assert!(CLIcommand::parse("hello").is_err());
    assert!(CLIcommand::parse(".insert 1 x").is_err());
}
