use cast_core::error::AppError;
use cast_core::extractors::{collect_lowered, collect_matches, collect_phones, phone_from_match, push_unique};

fn groups(gs: &[Option<&str>]) -> Vec<Option<String>> {
    gs.iter().map(|g| g.map(|s| s.to_string())).collect()
}

#[test]
fn match_groups_are_joined_and_normalized() {
    let m = groups(&[Some("1 (555) 123-4567"), Some("555"), Some("123"), Some("4567")]);
    assert_eq!(phone_from_match(&m), Some("5551234567".to_string()));
    let m = groups(&[Some("x"), Some("1555"), Some("123"), Some("4567")]);
    assert_eq!(phone_from_match(&m), Some("5551234567".to_string()));
}

#[test]
fn absent_groups_are_skipped() {
    let m = groups(&[Some("555-1234567"), Some("555"), None, Some("1234567")]);
    assert_eq!(phone_from_match(&m), Some("5551234567".to_string()));
}

#[test]
fn wrong_lengths_yield_nothing() {
    assert_eq!(phone_from_match(&groups(&[Some("55-123-4567"), Some("55"), Some("123"), Some("4567")])), None);
    assert_eq!(phone_from_match(&groups(&[Some("25551234567"), Some("2555"), Some("123"), Some("4567")])), None);
    assert_eq!(phone_from_match(&groups(&[])), None);
    assert_eq!(phone_from_match(&groups(&[Some("whole")])), None);
}

#[test]
fn collected_phones_are_distinct() {
    let caps = vec![
        groups(&[Some("a"), Some("555"), Some("123"), Some("4567")]),
        groups(&[Some("b"), Some("555"), Some("1234"), Some("567")]),
        groups(&[Some("c"), Some("555"), Some("999"), Some("0000")]),
        groups(&[Some("d"), Some("5"), Some("1"), Some("2")]),
    ];
    let mut out = vec!["5559990000".to_string()];
    collect_phones(&mut out, &caps);
    assert_eq!(out, vec!["5559990000".to_string(), "5551234567".to_string()]);
}

#[test]
fn collected_emails_are_lowered_and_distinct() {
    let ms = vec!["Bob@Mail.org".to_string(), "bob@mail.org".to_string(), "Z@q.io".to_string()];
    let mut out = Vec::new();
    collect_lowered(&mut out, &ms);
    assert_eq!(out, vec!["bob@mail.org".to_string(), "z@q.io".to_string()]);
}

#[test]
fn collected_matches_are_distinct() {
    let ms = vec!["1.1.1.1".to_string(), "::1".to_string(), "1.1.1.1".to_string()];
    let mut out = Vec::new();
    collect_matches(&mut out, &ms);
    assert_eq!(out, vec!["1.1.1.1".to_string(), "::1".to_string()]);
}

#[test]
fn push_unique_keeps_one_copy() {
    let mut out = vec!["a".to_string()];
    push_unique(&mut out, "a".to_string());
    push_unique(&mut out, "b".to_string());
    assert_eq!(out, vec!["a".to_string(), "b".to_string()]);
}

#[test]
fn error_messages_name_their_kind() {
    assert_eq!(AppError::Excel("bad zip".to_string()).message(), "Excel error: bad zip");
    assert_eq!(AppError::InvalidFormat.message(), "Invalid file format");
    assert_eq!(AppError::General("Database not initialized".to_string()).message(), "General error: Database not initialized");
}
