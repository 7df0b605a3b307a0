use slite::data::row::{Row, EMAIL_SIZE, ROW_SIZE, USERNAME_SIZE};

#[test]
fn test_serialize_deserialize_roundtrip() {
    let row = Row {
        id: 42,
        username: "testuser".to_string(),
        email: "test@example.com".to_string(),
    };

    let mut buffer = vec![0u8; ROW_SIZE];
    row.serialize(&mut buffer);

    let mut deserialized = Row::new();
    deserialized.ingest_deserialized(&buffer);

    assert_eq!(deserialized.id, row.id);
    assert_eq!(deserialized.username, row.username);
    assert_eq!(deserialized.email, row.email);
}

#[test]
fn test_serialize_empty_strings() {
    let row = Row {
        id: 1,
        username: "".to_string(),
        email: "".to_string(),
    };

    let mut buffer = vec![0u8; ROW_SIZE];
    row.serialize(&mut buffer);

    let mut deserialized = Row::new();
    deserialized.ingest_deserialized(&buffer);

    assert_eq!(deserialized.id, 1);
    assert_eq!(deserialized.username, "");
    assert_eq!(deserialized.email, "");
}

#[test]
fn test_serialize_max_length_strings() {
    let row = Row {
        id: 1,
        username: "a".repeat(USERNAME_SIZE),
        email: "b".repeat(EMAIL_SIZE),
    };

    let mut buffer = vec![0u8; ROW_SIZE];
    row.serialize(&mut buffer);

    let mut deserialized = Row::new();
    deserialized.ingest_deserialized(&buffer);

    assert_eq!(deserialized.username.len(), USERNAME_SIZE);
    assert_eq!(deserialized.email.len(), EMAIL_SIZE);
}

#[test]
fn test_serialize_truncates_long_strings() {
    let long_username = "a".repeat(100);
    let long_email = "b".repeat(500);

    let row = Row {
        id: 1,
        username: long_username.clone(),
        email: long_email.clone(),
    };

    let mut buffer = vec![0u8; ROW_SIZE];
    row.serialize(&mut buffer);

    let mut deserialized = Row::new();
    deserialized.ingest_deserialized(&buffer);

    assert_eq!(deserialized.username.len(), USERNAME_SIZE);
    assert_eq!(deserialized.email.len(), EMAIL_SIZE);
}

#[test]
fn serialize_negative_id_reads_back() {
    let row = Row {
        id: -7,
        username: "neg".to_string(),
        email: "neg@example.com".to_string(),
    };
    let mut buffer = vec![0xAAu8; ROW_SIZE + 3];
    row.serialize(&mut buffer);
    assert_eq!(&buffer[0..4], &[0xF9, 0xFF, 0xFF, 0xFF]);
    assert_eq!(&buffer[ROW_SIZE..], &[0xAA, 0xAA, 0xAA]);

    let mut deserialized = Row::new();
    deserialized.ingest_deserialized(&buffer);
    assert_eq!(deserialized.id, -7);
    assert_eq!(deserialized.username, "neg");
    assert_eq!(deserialized.email, "neg@example.com");
}

#[test]
fn serialize_layout_is_id_username_email() {
    let row = Row {
        id: 258,
        username: "ab".to_string(),
        email: "c".to_string(),
    };
    let mut buffer = vec![0xFFu8; ROW_SIZE];
    row.serialize(&mut buffer);
    assert_eq!(&buffer[0..4], &[2, 1, 0, 0]);
    assert_eq!(&buffer[4..7], &[b'a', b'b', 0]);
    assert!(buffer[6..36].iter().all(|b| *b == 0));
    assert_eq!(buffer[36], b'c');
    assert!(buffer[37..ROW_SIZE].iter().all(|b| *b == 0));
}

#[test]
fn decodable_needs_full_row_and_utf8() {
    let row = Row {
        id: 3,
        username: "ok".to_string(),
        email: "ok".to_string(),
    };
    let mut buffer = vec![0u8; ROW_SIZE];
    row.serialize(&mut buffer);
    assert!(Row::is_decodable(&buffer));
    assert!(!Row::is_decodable(&buffer[..ROW_SIZE - 1]));
    buffer[4] = 0xFF;
    assert!(!Row::is_decodable(&buffer));
}

#[test]
fn multibyte_text_is_cut_by_bytes() {
    // "é" is two bytes, so 16 of them fill the 32-byte username field exactly.
    let row = Row {
        id: 5,
        username: "é".repeat(16),
        email: "x".to_string(),
    };
    let mut buffer = vec![0u8; ROW_SIZE];
    row.serialize(&mut buffer);
    let mut deserialized = Row::new();
    deserialized.ingest_deserialized(&buffer);
    assert_eq!(deserialized.username, "é".repeat(16));
}

#[test]
fn display_line_pads_each_value() {
    let row = Row {
        id: 7,
        username: "bob".to_string(),
        email: "b@x".to_string(),
    };
    assert_eq!(
        row.display_line(),
        format!("| {:<5} | {:<32} | {:<355} |", 7, "bob", "b@x")
    );
    let row = Row {
        id: -123456,
        username: "é".repeat(40),
        email: String::new(),
    };
    assert_eq!(
        row.display_line(),
        format!("| {:<5} | {:<32} | {:<355} |", -123456, "é".repeat(40), "")
    );
    assert!(row.display_line().starts_with("| -123456 | éé"));
}
