use slite::input_buffer::InputBuffer;
use slite::statements::{MetaAction, MetaCmdRes, PrepareResult, StatementType};

#[test]
fn meta_commands_by_name() {
    assert_eq!(MetaCmdRes::parse("_btree"), Ok(MetaCmdRes::MetaCmdBtree));
    assert_eq!(MetaCmdRes::parse("_constants"), Ok(MetaCmdRes::MetaCmdConstants));
    assert_eq!(MetaCmdRes::parse("_foo"), Ok(MetaCmdRes::MetaRecognizedCommand));
    assert_eq!(MetaCmdRes::parse("_"), Ok(MetaCmdRes::MetaRecognizedCommand));
    assert_eq!(MetaCmdRes::parse("_exit "), Ok(MetaCmdRes::MetaRecognizedCommand));
    assert_eq!(MetaCmdRes::parse(""), Err(()));
    assert_eq!(MetaCmdRes::parse(".exit"), Err(()));
}

#[test]
fn insert_with_negative_id() {
    assert!(matches!(
        StatementType::parse(".insert -1 a b"),
        Err(PrepareResult::PrepareNegativeId)
    ));
}

#[test]
fn insert_with_id_out_of_range() {
    assert!(matches!(
        StatementType::parse(".insert 2147483648 a b"),
        Err(PrepareResult::IdParseErr)
    ));
    assert!(matches!(StatementType::parse(".insert 1x a b"), Err(PrepareResult::IdParseErr)));
    assert!(matches!(StatementType::parse(".insert - a b"), Err(PrepareResult::IdParseErr)));
}

#[test]
fn insert_id_forms() {
    assert!(matches!(
        StatementType::parse(".insert +5 a b"),
        Ok(StatementType::StatementInsert { row }) if row.id == 5
    ));
    assert!(matches!(
        StatementType::parse(".insert -0 a b"),
        Ok(StatementType::StatementInsert { row }) if row.id == 0
    ));
    assert!(matches!(
        StatementType::parse("  .insert   2147483647\ta\nb  "),
        Ok(StatementType::StatementInsert { row })
            if row.id == 2147483647 && row.username == "a" && row.email == "b"
    ));
}

#[test]
fn insert_with_long_strings() {
    let long = "x".repeat(33);
    let fits = "y".repeat(32);
    match StatementType::parse(&format!(".insert 1 {} {}", fits, long)) {
        Err(PrepareResult::PrepareStringTooLong { cause }) => assert_eq!(cause, "email string too long"),
        other => panic!("unexpected {:?}", other),
    }
    match StatementType::parse(&format!(".insert 1 {} {}", long, fits)) {
        Err(PrepareResult::PrepareStringTooLong { cause }) => assert_eq!(cause, "username too long"),
        other => panic!("unexpected {:?}", other),
    }
    // The email is checked before the username.
    match StatementType::parse(&format!(".insert 1 {} {}", long, long)) {
        Err(PrepareResult::PrepareStringTooLong { cause }) => assert_eq!(cause, "email string too long"),
        other => panic!("unexpected {:?}", other),
    }
    // Lengths count bytes: 17 two-byte characters are too long.
    match StatementType::parse(&format!(".insert 1 {} e", "é".repeat(17))) {
        Err(PrepareResult::PrepareStringTooLong { cause }) => assert_eq!(cause, "username too long"),
        other => panic!("unexpected {:?}", other),
    }
    assert!(matches!(
        StatementType::parse(&format!(".insert 1 {} {}", fits, fits)),
        Ok(StatementType::StatementInsert { .. })
    ));
}

#[test]
fn statement_syntax_errors() {
    match StatementType::parse("") {
        Err(PrepareResult::PrepareSyntaxError { cause }) => assert_eq!(cause, "unable to parse command"),
        other => panic!("unexpected {:?}", other),
    }
    match StatementType::parse("   ") {
        Err(PrepareResult::PrepareSyntaxError { cause }) => assert_eq!(cause, "unable to parse command"),
        other => panic!("unexpected {:?}", other),
    }
    match StatementType::parse(".insert 1 a b c") {
        Err(PrepareResult::PrepareSyntaxError { cause }) => {
            assert_eq!(cause, "expected .insert <id> <username> <email>")
        }
        other => panic!("unexpected {:?}", other),
    }
    assert!(matches!(
        StatementType::parse(".delete 1"),
        Err(PrepareResult::PrepareUnrecognizedStatement)
    ));
    assert!(matches!(StatementType::parse(".select all"), Ok(StatementType::StatementSelect)));
    assert!(matches!(".select".parse::<StatementType>(), Ok(StatementType::StatementSelect)));
}

#[test]
fn input_buffer_holds_and_clears() {
    let mut b = InputBuffer::from("abc".to_string());
    assert_eq!(b.buffer, "abc");
    b.clear();
    assert_eq!(b.buffer, "");
    assert_eq!(InputBuffer::new().buffer, "");
}

#[test]
fn meta_command_actions() {
    assert_eq!(MetaCmdRes::ExitCmd.action(), MetaAction::Exit);
    assert_eq!(MetaCmdRes::MetaCmdClear.action(), MetaAction::ClearScreen);
    assert_eq!(MetaCmdRes::MetaCmdConstants.action(), MetaAction::PrintConstants);
    assert_eq!(MetaCmdRes::MetaCmdBtree.action(), MetaAction::PrintTree);
    assert_eq!(
        MetaCmdRes::MetaRecognizedCommand.action(),
        MetaAction::Fail { cause: "Unrecognized meta cmd".to_string() }
    );
    assert_eq!(
        MetaCmdRes::UnrecognizedCommand.action(),
        MetaAction::Fail { cause: "Unrecognized meta cmd".to_string() }
    );
}
