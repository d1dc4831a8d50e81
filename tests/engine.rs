use cast_core::commands::{
    analyze_cross_reference, clear_all, get_analysis, get_database_info, load_database,
    process_file, save_database,
};
use cast_core::database::Database;
use cast_core::error::AppError;
use cast_core::extractors::{normalize_phone, Extractors};
use cast_core::file_processor::{decode, detect_format, file_extension, FileFormat, FileProcessor, SheetRows};
use cast_core::models::{ExtractedItem, ItemType};

const TS: &str = "2024-05-01 12:00:00";
const NO_SHEETS: SheetRows = Ok(Vec::new());

fn rows(items: &[ExtractedItem]) -> Vec<(String, i32, i32)> {
    items.iter().map(|i| (i.value.clone(), i.source, i.count)).collect()
}

fn sorted(mut v: Vec<String>) -> Vec<String> {
    v.sort();
    v
}

#[test]
fn phones_in_two_forms_give_one_value() {
    let ex = Extractors::new();
    let r = ex.extract_phones("Call 555-123-4567 or 15551234567");
    assert_eq!(r, vec!["5551234567".to_string()]);
}

#[test]
fn emails_are_lower_cased_and_merged() {
    let ex = Extractors::new();
    let r = ex.extract_emails("Contact A@Example.COM and a@example.com");
    assert_eq!(r, vec!["a@example.com".to_string()]);
}

#[test]
fn normalization_is_idempotent() {
    for s in ["15551234567", "(555) 123-4567", "555.123.4567", "25551234567", "12"] {
        let once = normalize_phone(s);
        assert_eq!(normalize_phone(&once), once);
    }
    assert_eq!(normalize_phone("15551234567"), "5551234567");
    assert_eq!(normalize_phone("(555) 123-4567"), "5551234567");
    assert_eq!(normalize_phone("25551234567"), "25551234567");
}

#[test]
fn extraction_sets_have_no_duplicates() {
    let ex = Extractors::new();
    let ips = ex.extract_ips("10.0.0.1 and 10.0.0.1 again, 10.0.0.2");
    assert_eq!(sorted(ips), vec!["10.0.0.1".to_string(), "10.0.0.2".to_string()]);
    let phones = ex.extract_phones("(555) 123-4567, 555.123.4567, 5551234567");
    assert_eq!(phones, vec!["5551234567".to_string()]);
}

#[test]
fn ip_forms() {
    let ex = Extractors::new();
    let ips = ex.extract_ips("host 192.168.1.20 and 2001:0db8:85a3:0000:0000:8a2e:0370:7334 not 999.1.1.1");
    assert_eq!(
        sorted(ips),
        vec!["192.168.1.20".to_string(), "2001:0db8:85a3:0000:0000:8a2e:0370:7334".to_string()]
    );
    assert!(ex.extract_ips("no address here").is_empty());
}

#[test]
fn phone_lengths_outside_plan_are_rejected() {
    let ex = Extractors::new();
    assert!(ex.extract_phones("ref 12345").is_empty());
    assert!(ex.extract_phones("").is_empty());
}

#[test]
fn cross_reference_counts_all_sources() {
    let mut db = Database::new_memory();
    let f1 = db.insert_file("a.txt", 1, "x", TS).unwrap();
    let f2 = db.insert_file("b.txt", 2, "y", TS).unwrap();
    db.insert_extracted_item("5551234567", ItemType::Phone, 1, f1).unwrap();
    db.insert_extracted_item("5551234567", ItemType::Phone, 2, f2).unwrap();
    db.insert_extracted_item("5551234567", ItemType::Phone, 2, f2).unwrap();
    let r = db.get_cross_reference_items();
    assert_eq!(rows(&r), vec![("5551234567".to_string(), 0, 3)]);
}

#[test]
fn cross_reference_leaves_out_single_source_values() {
    let mut db = Database::new_memory();
    db.insert_extracted_item("only@one.org", ItemType::Email, 1, 1).unwrap();
    db.insert_extracted_item("only@one.org", ItemType::Email, 1, 1).unwrap();
    db.insert_extracted_item("b@x.org", ItemType::Email, 1, 1).unwrap();
    db.insert_extracted_item("b@x.org", ItemType::Email, 2, 2).unwrap();
    db.insert_extracted_item("a@x.org", ItemType::Email, 2, 2).unwrap();
    db.insert_extracted_item("a@x.org", ItemType::Email, 1, 1).unwrap();
    let r = db.get_cross_reference_items();
    assert_eq!(rows(&r), vec![("a@x.org".to_string(), 0, 2), ("b@x.org".to_string(), 0, 2)]);
}

#[test]
fn aggregate_orders_by_count() {
    let mut db = Database::new_memory();
    db.insert_extracted_item("z@example.com", ItemType::Email, 2, 2).unwrap();
    for _ in 0..3 {
        db.insert_extracted_item("a@example.com", ItemType::Email, 1, 1).unwrap();
    }
    db.insert_extracted_item("5551234567", ItemType::Phone, 1, 1).unwrap();
    let r = db.get_extracted_items_by_type(ItemType::Email);
    assert_eq!(
        rows(&r),
        vec![("a@example.com".to_string(), 1, 3), ("z@example.com".to_string(), 2, 1)]
    );
    assert!(r.iter().all(|i| i.item_type == ItemType::Email));
}

#[test]
fn aggregate_breaks_ties_by_value_then_source() {
    let mut db = Database::new_memory();
    db.insert_extracted_item("b", ItemType::Ip, 2, 1).unwrap();
    db.insert_extracted_item("b", ItemType::Ip, 1, 1).unwrap();
    db.insert_extracted_item("a", ItemType::Ip, 2, 1).unwrap();
    let r = db.get_extracted_items_by_type(ItemType::Ip);
    assert_eq!(
        rows(&r),
        vec![("a".to_string(), 2, 1), ("b".to_string(), 1, 1), ("b".to_string(), 2, 1)]
    );
    assert!(db.get_extracted_items_by_type(ItemType::Phone).is_empty());
}

#[test]
fn snapshot_round_trip_keeps_views() {
    let mut db = Database::new_memory();
    let f = db.insert_file("a.txt", 1, "hello", TS).unwrap();
    db.insert_extracted_item("5551234567", ItemType::Phone, 1, f).unwrap();
    db.insert_extracted_item("5551234567", ItemType::Phone, 2, f).unwrap();
    db.insert_extracted_item("x@y.io", ItemType::Email, 1, f).unwrap();
    let snap = db.save_snapshot();
    let mut other = Database::new_memory();
    other.load_snapshot(snap).unwrap();
    for t in [ItemType::Phone, ItemType::Email, ItemType::Ip] {
        assert_eq!(rows(&db.get_extracted_items_by_type(t)), rows(&other.get_extracted_items_by_type(t)));
    }
    assert_eq!(rows(&db.get_cross_reference_items()), rows(&other.get_cross_reference_items()));
    let files = other.get_all_files();
    assert_eq!(files.len(), 1);
    assert_eq!(files[0].content, "hello");
    assert_eq!(other.insert_file("b.txt", 2, "", TS).unwrap(), f + 1);
}

#[test]
fn file_ids_count_from_one_and_clear_resets() {
    let mut db = Database::new_memory();
    assert_eq!(db.insert_file("a", 1, "", TS).unwrap(), 1);
    assert_eq!(db.insert_file("b", 2, "", TS).unwrap(), 2);
    db.clear_all();
    assert!(db.get_all_files().is_empty());
    assert_eq!(db.insert_file("c", 1, "", TS).unwrap(), 1);
}

#[test]
fn entity_split_across_chunks_is_not_found() {
    let mut lines: Vec<String> = (0..99).map(|i| format!("filler {}", i % 7)).collect();
    lines.push("call 555-123".to_string());
    lines.push("4567 later".to_string());
    let text = lines.join("\n");
    let mut db = Database::new_memory();
    let p = FileProcessor::new();
    let out = p.process_file("notes.txt", text.as_bytes(), &NO_SHEETS, 1, TS, &mut db).unwrap();
    assert!(out.is_empty());
    assert!(db.get_extracted_items_by_type(ItemType::Phone).is_empty());
}

#[test]
fn entity_within_one_chunk_is_found() {
    let text = "call 555-123\n4567 later";
    let mut db = Database::new_memory();
    let p = FileProcessor::new();
    let out = p.process_file("notes.txt", text.as_bytes(), &NO_SHEETS, 1, TS, &mut db).unwrap();
    assert_eq!(out, vec!["5551234567".to_string()]);
}

#[test]
fn repeated_value_in_two_chunks_gives_two_rows() {
    let mut lines: Vec<String> = (0..100).map(|_| "x".to_string()).collect();
    lines[0] = "mail me@site.org".to_string();
    lines.push("again me@site.org".to_string());
    let text = lines.join("\n");
    let mut db = Database::new_memory();
    let out = FileProcessor::new().process_file("a.log", text.as_bytes(), &NO_SHEETS, 2, TS, &mut db).unwrap();
    assert_eq!(out, vec!["me@site.org".to_string(), "me@site.org".to_string()]);
    assert_eq!(rows(&db.get_extracted_items_by_type(ItemType::Email)), vec![("me@site.org".to_string(), 2, 2)]);
    let files = db.get_all_files();
    assert_eq!(files[0].content, text);
}

#[test]
fn csv_rows_are_joined_by_spaces() {
    let r = decode("data.CSV", b"name,phone\nann,555-123-4567\nbob\n", &NO_SHEETS).unwrap();
    assert_eq!(r, vec!["ann 555-123-4567".to_string(), "bob".to_string()]);
}

#[test]
fn text_drops_blank_lines() {
    let r = decode("notes.txt", b"one\n\n   \ntwo  \r\nthree", &NO_SHEETS).unwrap();
    assert_eq!(r, vec!["one".to_string(), "two  ".to_string(), "three".to_string()]);
    let r = decode("noext", b"a\nb", &NO_SHEETS).unwrap();
    assert_eq!(r, vec!["a".to_string(), "b".to_string()]);
}

#[test]
fn invalid_bytes_are_replaced() {
    let r = decode("x.txt", &[b'a', 0xff, b'b'], &NO_SHEETS).unwrap();
    assert_eq!(r, vec!["a\u{fffd}b".to_string()]);
}

#[test]
fn html_tags_and_entities_become_spaces() {
    let r = decode("page.html", b"<p>Hi&nbsp;there</p><div>mail <b>x@y.com</b></div>line<br>next", &NO_SHEETS).unwrap();
    assert_eq!(
        r,
        vec!["Hi there".to_string(), "mail  x@y.com".to_string(), "line".to_string(), "next".to_string()]
    );
}

#[test]
fn broken_spreadsheet_is_a_format_error() {
    let broken: SheetRows = Err("not a zip archive".to_string());
    match decode("book.xlsx", b"not a zip", &broken) {
        Err(AppError::Excel(m)) => assert_eq!(m, "not a zip archive"),
        _ => panic!("expected a format error"),
    }
    let mut db = Database::new_memory();
    let r = FileProcessor::new().process_file("book.xls", b"junk", &broken, 1, TS, &mut db);
    assert!(matches!(r, Err(AppError::Excel(_))));
    assert!(db.get_all_files().is_empty());
}

#[test]
fn extension_is_case_insensitive() {
    assert_eq!(file_extension("a.b.Txt"), vec!['T', 'x', 't']);
    assert!(file_extension("plain").is_empty());
    assert!(file_extension("archive.").is_empty());
    assert_eq!(detect_format("csv"), FileFormat::PlainText);
    assert_eq!(detect_format("X.CSV"), FileFormat::Csv);
    assert_eq!(detect_format("x.Xlsx"), FileFormat::Spreadsheet);
    assert_eq!(detect_format("x.xls"), FileFormat::Spreadsheet);
    assert_eq!(detect_format("x.HTML"), FileFormat::Html);
    assert_eq!(detect_format("x.md"), FileFormat::PlainText);
}

#[test]
fn commands_need_a_store() {
    let state: Option<Database> = None;
    assert!(matches!(get_analysis(&state), Err(AppError::General(_))));
    assert!(matches!(analyze_cross_reference(&state), Err(AppError::General(_))));
    assert!(matches!(save_database(&state), Err(AppError::General(_))));
    assert!(matches!(get_database_info(&state), Err(AppError::General(_))));
}

#[test]
fn commands_ingest_and_report() {
    let mut state: Option<Database> = None;
    let r = process_file("one.txt", b"call 555-123-4567\nmail A@B.io", &NO_SHEETS, 1, TS, &mut state).unwrap();
    assert_eq!(r.file_name, "one.txt");
    let vals: Vec<String> = r.records.iter().map(|x| x.content.clone()).collect();
    assert_eq!(vals, vec!["5551234567".to_string(), "a@b.io".to_string()]);
    process_file("two.txt", b"5551234567", &NO_SHEETS, 2, TS, &mut state).unwrap();
    let a = get_analysis(&state).unwrap();
    assert_eq!(rows(&a.phones), vec![("5551234567".to_string(), 1, 1), ("5551234567".to_string(), 2, 1)]);
    assert_eq!(rows(&a.emails), vec![("a@b.io".to_string(), 1, 1)]);
    assert!(a.ips.is_empty());
    let x = analyze_cross_reference(&state).unwrap();
    assert_eq!(rows(&x), vec![("5551234567".to_string(), 0, 2)]);
    let info = get_database_info(&state).unwrap();
    assert_eq!(info.source1.files, vec!["one.txt".to_string()]);
    let lines1: Vec<String> = info.source1.records.iter().map(|x| x.content.clone()).collect();
    assert_eq!(lines1, vec!["call 555-123-4567".to_string(), "mail A@B.io".to_string()]);
    assert_eq!(info.source2.files, vec!["two.txt".to_string()]);
    let snap = save_database(&state).unwrap();
    clear_all(&mut state).unwrap();
    assert!(get_analysis(&state).unwrap().phones.is_empty());
    load_database(snap, &mut state).unwrap();
    assert_eq!(rows(&analyze_cross_reference(&state).unwrap()), vec![("5551234567".to_string(), 0, 2)]);
}

#[test]
fn item_type_tags() {
    assert_eq!(ItemType::Phone.as_str(), "phone");
    assert_eq!(ItemType::Email.as_str(), "email");
    assert_eq!(ItemType::Ip.as_str(), "ip");
}

#[test]
fn files_carry_their_ingestion_time() {
    let mut db = Database::new_memory();
    db.insert_file("a.txt", 1, "x", "2024-06-01 08:30:00").unwrap();
    let files = db.get_all_files();
    assert_eq!(files[0].processed_at, Some("2024-06-01 08:30:00".to_string()));
    assert_eq!(files[0].id, Some(1));
}

#[test]
fn snapshots_with_bad_ids_are_refused() {
    let mut db = Database::new_memory();
    db.insert_file("a.txt", 1, "x", TS).unwrap();
    db.insert_file("b.txt", 2, "y", TS).unwrap();
    let mut snap = db.save_snapshot();
    snap.files[0].id = None;
    let mut other = Database::new_memory();
    assert!(matches!(other.load_snapshot(snap), Err(AppError::Database(_))));
    let mut snap = db.save_snapshot();
    snap.files.swap(0, 1);
    assert!(matches!(other.load_snapshot(snap), Err(AppError::Database(_))));
    assert!(other.get_all_files().is_empty());
    let mut snap = db.save_snapshot();
    snap.files[0].id = Some(5);
    snap.files[1].id = Some(9);
    other.load_snapshot(snap).unwrap();
    assert_eq!(other.insert_file("c.txt", 1, "", TS).unwrap(), 10);
}

#[test]
fn missing_store_message() {
    let state: Option<Database> = None;
    match get_analysis(&state) {
        Err(AppError::General(m)) => assert_eq!(m, "Database not initialized"),
        _ => panic!("expected the missing-store error"),
    }
}

#[test]
fn tags_round_trip() {
    for t in [ItemType::Phone, ItemType::Email, ItemType::Ip] {
        assert_eq!(ItemType::from_tag(t.as_str()), Some(t));
    }
    assert_eq!(ItemType::from_tag("fax"), None);
    assert_eq!(ItemType::from_tag("Phone"), None);
}

#[test]
fn spreadsheet_rows_are_joined_by_spaces() {
    let sheets: SheetRows = Ok(vec![
        vec!["name".to_string(), "phone".to_string()],
        vec!["ann".to_string(), "555-123-4567".to_string()],
    ]);
    let r = decode("book.XLSX", b"", &sheets).unwrap();
    assert_eq!(r, vec!["name phone".to_string(), "ann 555-123-4567".to_string()]);
    let mut db = Database::new_memory();
    let out = FileProcessor::new().process_file("book.xlsx", b"", &sheets, 2, TS, &mut db).unwrap();
    assert_eq!(out, vec!["5551234567".to_string()]);
}

#[test]
fn email_domain_ends_in_letters() {
    let ex = Extractors::new();
    assert!(ex.extract_emails("write to x@y.c|m").is_empty());
    assert_eq!(ex.extract_emails("write to x@y.com|"), vec!["x@y.com".to_string()]);
}
