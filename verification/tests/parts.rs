use epub_fixer::archive::entry;
use epub_fixer::bytes::contains;
use epub_fixer::bytes::ends_with;
use epub_fixer::bytes::is_before;
use epub_fixer::bytes::matches_at;
use epub_fixer::bytes::same;
use epub_fixer::bytes::starts_with;
use epub_fixer::epub::contributors::assign_name;
use epub_fixer::epub::contributors::assign_role;
use epub_fixer::epub::contributors::assign_sort_key;
use epub_fixer::epub::contributors::clear;
use epub_fixer::epub::contributors::find;
use epub_fixer::epub::contributors::Contributor;
use epub_fixer::epub::package::key_for_position;
use epub_fixer::epub::package::key_for_reference;
use epub_fixer::error::ExtractError;
use epub_fixer::numeral::parse_truncated;
use epub_fixer::numeral::push_decimal;
use epub_fixer::pocketbook::arguments;
use epub_fixer::pocketbook::Icon;
use epub_fixer::sweep::sweep_plan;
use epub_fixer::sweep::DependentTable;
use epub_fixer::text::holds;
use epub_fixer::text::insert_ordered;
use epub_fixer::text::join;
use epub_fixer::text::sort_distinct;
use epub_fixer::xml::local_name;
use epub_fixer::xml::read_events;
use epub_fixer::xml::XmlEvent;
use std::io::Cursor;
use std::io::Write;
use zip::write::FileOptions;
use zip::ZipWriter;

fn strings(values: &[&str]) -> Vec<String> {
    values.iter().map(|value| value.to_string()).collect()
}

fn decimal(n: usize) -> String {
    let mut out = Vec::new();
    push_decimal(&mut out, n);
    String::from_utf8(out).unwrap()
}

#[test]
fn numeral_is_cut_off_at_its_point() {
    assert_eq!(parse_truncated(b"0"), 0);
    assert_eq!(parse_truncated(b"7"), 7);
    assert_eq!(parse_truncated(b"12"), 12);
    assert_eq!(parse_truncated(b"2.0"), 2);
    assert_eq!(parse_truncated(b"2.99"), 2);
    assert_eq!(parse_truncated(b"0.99"), 0);
    assert_eq!(parse_truncated(b"3."), 3);
    assert_eq!(parse_truncated(b".5"), 0);
    assert_eq!(parse_truncated(b"007"), 7);
}

#[test]
fn numeral_may_have_a_sign() {
    assert_eq!(parse_truncated(b"+4"), 4);
    assert_eq!(parse_truncated(b"-4"), -4);
    assert_eq!(parse_truncated(b"-4.9"), -4);
    assert_eq!(parse_truncated(b"-0.5"), 0);
    assert_eq!(parse_truncated(b"-.5"), 0);
}

#[test]
fn text_that_is_no_numeral_is_zero() {
    assert_eq!(parse_truncated(b""), 0);
    assert_eq!(parse_truncated(b"."), 0);
    assert_eq!(parse_truncated(b"+"), 0);
    assert_eq!(parse_truncated(b"-"), 0);
    assert_eq!(parse_truncated(b"-."), 0);
    assert_eq!(parse_truncated(b"three"), 0);
    assert_eq!(parse_truncated(b" 3"), 0);
    assert_eq!(parse_truncated(b"3 "), 0);
    assert_eq!(parse_truncated(b"3,5"), 0);
    assert_eq!(parse_truncated(b"1.2.3"), 0);
    assert_eq!(parse_truncated(b"1e3"), 0);
    assert_eq!(parse_truncated(b"--3"), 0);
    assert_eq!(parse_truncated(b"3-"), 0);
    assert_eq!(parse_truncated(b"1.5x"), 0);
}

#[test]
fn numeral_stays_within_the_range_of_the_index() {
    assert_eq!(parse_truncated(b"2147483647"), i32::MAX);
    assert_eq!(parse_truncated(b"2147483648"), i32::MAX);
    assert_eq!(parse_truncated(b"99999999999999999999999999"), i32::MAX);
    assert_eq!(parse_truncated(b"-2147483647"), -2147483647);
    assert_eq!(parse_truncated(b"-2147483648"), i32::MIN);
    assert_eq!(parse_truncated(b"-2147483649"), i32::MIN);
    assert_eq!(parse_truncated(b"-99999999999999999999999999.5"), i32::MIN);
    assert_eq!(parse_truncated(b"16777217"), 16777217);
}

#[test]
fn count_is_written_in_decimal() {
    assert_eq!(decimal(0), "0");
    assert_eq!(decimal(7), "7");
    assert_eq!(decimal(10), "10");
    assert_eq!(decimal(409), "409");
    assert_eq!(decimal(1234567890), "1234567890");
    let mut out = b"none".to_vec();
    push_decimal(&mut out, 12);
    assert_eq!(out, b"none12".to_vec());
}

#[test]
fn keys_are_made_of_position_or_id() {
    assert_eq!(key_for_position(0), b"none0".to_vec());
    assert_eq!(key_for_position(21), b"none21".to_vec());
    assert_eq!(key_for_reference(b"c1"), b"#c1".to_vec());
    assert_eq!(key_for_reference(b""), b"#".to_vec());
}

#[test]
fn bytes_are_compared_and_searched() {
    assert!(same(b"abc", b"abc"));
    assert!(!same(b"abc", b"abd"));
    assert!(!same(b"abc", b"ab"));
    assert!(same(b"", b""));
    assert!(starts_with(b"3.0", b"3"));
    assert!(!starts_with(b"2.0", b"3"));
    assert!(!starts_with(b"", b"3"));
    assert!(starts_with(b"abc", b""));
    assert!(ends_with(b"opf:file-as", b"file-as"));
    assert!(ends_with(b"file-as", b"file-as"));
    assert!(!ends_with(b"file-as-not", b"file-as"));
    assert!(!ends_with(b"as", b"file-as"));
    assert!(matches_at(b"hello world", b"world", 6));
    assert!(!matches_at(b"hello world", b"world", 5));
    assert!(!matches_at(b"hello world", b"world", 7));
    assert!(!matches_at(b"hello", b"", 6));
    assert!(matches_at(b"hello", b"", 5));
    assert!(contains(b"hello world", b"o w"));
    assert!(contains(b"hello world", b"hello world"));
    assert!(contains(b"hello world", b""));
    assert!(contains(b"", b""));
    assert!(contains(b"hello world", b"d"));
    assert!(!contains(b"hello world", b"worlds"));
    assert!(!contains(b"", b"a"));
    assert!(!contains(b"aab", b"abb"));
}

#[test]
fn bytes_are_ordered_lexicographically() {
    assert!(is_before(b"a", b"b"));
    assert!(!is_before(b"b", b"a"));
    assert!(is_before(b"a", b"ab"));
    assert!(!is_before(b"ab", b"a"));
    assert!(!is_before(b"a", b"a"));
    assert!(is_before(b"", b"a"));
    assert!(!is_before(b"", b""));
    assert!(is_before(b"Z", b"a"));
    assert!(is_before(b"ab", b"b"));
    assert!(is_before(&[0x7F], &[0x80]));
}

#[test]
fn texts_are_held_byte_by_byte() {
    assert!(holds("Doe, Jane & Roe, Richard", "Roe, Richard"));
    assert!(!holds("Doe, Jane", "doe"));
    assert!(holds("Zo\u{eb}", "\u{eb}"));
    assert!(holds("", ""));
}

#[test]
fn parts_are_joined_with_the_separator_between_them() {
    assert_eq!(join(&strings(&[]), ", "), "");
    assert_eq!(join(&strings(&["one"]), ", "), "one");
    assert_eq!(join(&strings(&["one", "two", "three"]), ", "), "one, two, three");
    assert_eq!(join(&strings(&["", ""]), " & "), " & ");
}

#[test]
fn texts_are_sorted_each_of_them_once() {
    assert_eq!(sort_distinct(&strings(&[])), strings(&[]));
    assert_eq!(sort_distinct(&strings(&["b", "a", "c", "a", "b"])), strings(&["a", "b", "c"]));
    assert_eq!(sort_distinct(&strings(&["ab", "a", "B", ""])), strings(&["", "B", "a", "ab"]));
    let mut sorted = strings(&["a", "c"]);
    insert_ordered(&mut sorted, "b".to_string());
    insert_ordered(&mut sorted, "c".to_string());
    insert_ordered(&mut sorted, "d".to_string());
    insert_ordered(&mut sorted, "".to_string());
    assert_eq!(sorted, strings(&["", "a", "b", "c", "d"]));
}

#[test]
fn local_name_follows_the_first_colon() {
    assert_eq!(local_name(b"dc:creator"), b"creator");
    assert_eq!(local_name(b"creator"), b"creator");
    assert_eq!(local_name(b"a:b:c"), b"b:c");
    assert_eq!(local_name(b":x"), b"x");
    assert_eq!(local_name(b"x:"), b"");
    assert_eq!(local_name(b""), b"");
}

#[test]
fn document_is_cut_into_events() {
    let events = read_events(
        br#"<?xml version="1.0"?><a:root one="1" two='x &amp; y'>text &lt;<leaf/><!-- note --></a:root>"#,
    );
    assert_eq!(events.len(), 11);
    assert!(matches!(events[0], XmlEvent::Text { .. }));
    assert!(matches!(events[1], XmlEvent::Other));
    match &events[2] {
        XmlEvent::Text { raw, .. } => assert!(raw.is_empty()),
        _ => panic!("text expected"),
    }
    match &events[3] {
        XmlEvent::Start { name, attributes } => {
            assert_eq!(name, b"a:root");
            let attributes = attributes.as_ref().unwrap();
            assert_eq!(attributes.len(), 2);
            assert_eq!(attributes[0].key, b"one");
            assert_eq!(attributes[0].value, b"1");
            assert_eq!(attributes[0].unescaped, Some(b"1".to_vec()));
            assert_eq!(attributes[1].key, b"two");
            assert_eq!(attributes[1].value, b"x &amp; y");
            assert_eq!(attributes[1].unescaped, Some(b"x & y".to_vec()));
        },
        _ => panic!("opening tag expected"),
    }
    match &events[4] {
        XmlEvent::Text { raw, unescaped } => {
            assert_eq!(raw, b"text &lt;");
            assert_eq!(unescaped, &Some(b"text <".to_vec()));
        },
        _ => panic!("text expected"),
    }
    match &events[5] {
        XmlEvent::Empty { name, attributes } => {
            assert_eq!(name, b"leaf");
            assert!(attributes.as_ref().unwrap().is_empty());
        },
        _ => panic!("self-closing tag expected"),
    }
    assert!(matches!(events[6], XmlEvent::Text { .. }));
    assert!(matches!(events[7], XmlEvent::Other));
    assert!(matches!(events[8], XmlEvent::Text { .. }));
    assert!(matches!(events[9], XmlEvent::Other));
    assert!(matches!(events[10], XmlEvent::Eof));
}

#[test]
fn events_end_with_the_end_of_the_document() {
    let events = read_events(b"<a>b</a>");
    assert_eq!(events.len(), 5);
    assert!(matches!(events[4], XmlEvent::Eof));
    let events = read_events(b"");
    assert_eq!(events.len(), 1);
    assert!(matches!(events[0], XmlEvent::Eof));
}

#[test]
fn events_end_with_the_first_error() {
    let events = read_events(b"<a>b</c><d>e</d>");
    assert_eq!(events.len(), 4);
    assert!(matches!(events[0], XmlEvent::Text { .. }));
    assert!(matches!(events[1], XmlEvent::Start { .. }));
    assert!(matches!(events[2], XmlEvent::Text { .. }));
    assert!(matches!(events[3], XmlEvent::Malformed));
}

#[test]
fn malformed_attributes_and_escapes_are_told() {
    let events = read_events(br#"<a one=1>&nosuch;<b two="&nosuch;" two="again"/>"#);
    match &events[1] {
        XmlEvent::Start { attributes, .. } => assert!(attributes.is_none()),
        _ => panic!("opening tag expected"),
    }
    match &events[2] {
        XmlEvent::Text { raw, unescaped } => {
            assert_eq!(raw, b"&nosuch;");
            assert!(unescaped.is_none());
        },
        _ => panic!("text expected"),
    }
    match &events[3] {
        XmlEvent::Empty { attributes, .. } => assert!(attributes.is_none()),
        _ => panic!("self-closing tag expected"),
    }
    let events = read_events(br#"<b two="&nosuch;"/>"#);
    match &events[1] {
        XmlEvent::Empty { attributes, .. } => {
            let attributes = attributes.as_ref().unwrap();
            assert_eq!(attributes[0].value, b"&nosuch;");
            assert!(attributes[0].unescaped.is_none());
        },
        _ => panic!("self-closing tag expected"),
    }
}

#[test]
fn entry_is_read_from_an_archive() {
    let mut writer = ZipWriter::new(Cursor::new(Vec::new()));
    writer.start_file("one.txt", FileOptions::default()).unwrap();
    writer.write_all(b"the first entry").unwrap();
    writer.start_file("dir/two.txt", FileOptions::default()).unwrap();
    writer.write_all(&[b'x'; 5000]).unwrap();
    let archive = writer.finish().unwrap().into_inner();
    assert_ne!(archive, b"the first entry".to_vec());
    assert_eq!(entry(&archive, "one.txt").unwrap(), b"the first entry".to_vec());
    assert_eq!(entry(&archive, "dir/two.txt").unwrap(), vec![b'x'; 5000]);
    assert!(matches!(entry(&archive, "three.txt"), Err(ExtractError::ArchiveUnreadable)));
    assert!(matches!(entry(b"no archive", "one.txt"), Err(ExtractError::ArchiveUnreadable)));
}

#[test]
fn contributors_are_kept_in_the_order_of_their_first_mention() {
    let mut all: Vec<Contributor> = Vec::new();
    assign_role(&mut all, b"#b", b"aut".to_vec());
    assign_name(&mut all, b"#a", b"Alice".to_vec());
    assign_name(&mut all, b"#b", b"Bob".to_vec());
    assign_sort_key(&mut all, b"#a", b"A".to_vec());
    assert_eq!(all.len(), 2);
    assert_eq!(all[0].key, b"#b");
    assert_eq!(all[0].name, b"Bob");
    assert_eq!(all[0].role, b"aut");
    assert_eq!(all[0].sort_key, b"");
    assert_eq!(all[1].key, b"#a");
    assert_eq!(all[1].name, b"Alice");
    assert_eq!(all[1].sort_key, b"A");
    assert_eq!(find(&all, b"#a"), Some(1));
    assert_eq!(find(&all, b"#c"), None);
    clear(&mut all, b"#b");
    assert_eq!(all.len(), 2);
    assert_eq!(all[0].key, b"#b");
    assert_eq!(all[0].name, b"");
    assert_eq!(all[0].role, b"");
    clear(&mut all, b"#c");
    assert_eq!(all.len(), 3);
    assert_eq!(all[2].key, b"#c");
}

#[test]
fn tables_to_sweep_depend_on_the_version() {
    assert_eq!(
        sweep_plan(37),
        vec![
            DependentTable::Settings,
            DependentTable::FastHashes,
            DependentTable::ShelfMemberships,
            DependentTable::GenreLinks,
            DependentTable::Social,
        ]
    );
    assert_eq!(sweep_plan(38)[1], DependentTable::FastHashes);
    assert_eq!(sweep_plan(36)[1], DependentTable::Identifiers);
    assert_eq!(sweep_plan(0)[1], DependentTable::Identifiers);
    assert_eq!(sweep_plan(-1).len(), 5);
}

#[test]
fn tables_have_their_names_and_columns() {
    assert_eq!(DependentTable::Settings.name(), "books_settings");
    assert_eq!(DependentTable::Settings.column(), "bookid");
    assert_eq!(DependentTable::FastHashes.name(), "books_fast_hashes");
    assert_eq!(DependentTable::FastHashes.column(), "book_id");
    assert_eq!(DependentTable::Identifiers.name(), "books_uids");
    assert_eq!(DependentTable::Identifiers.column(), "book_id");
    assert_eq!(DependentTable::ShelfMemberships.name(), "bookshelfs_books");
    assert_eq!(DependentTable::ShelfMemberships.column(), "bookid");
    assert_eq!(DependentTable::GenreLinks.name(), "booktogenre");
    assert_eq!(DependentTable::GenreLinks.column(), "bookid");
    assert_eq!(DependentTable::Social.name(), "social");
    assert_eq!(DependentTable::Social.column(), "bookid");
}

#[test]
fn icons_have_their_codes() {
    assert_eq!(Icon::Blank.code(), "0");
    assert_eq!(Icon::Info.code(), "1");
    assert_eq!(Icon::Question.code(), "2");
    assert_eq!(Icon::Attention.code(), "3");
    assert_eq!(Icon::X.code(), "4");
    assert_eq!(Icon::WLan.code(), "5");
}

#[test]
fn dialog_is_started_with_icon_title_text_and_buttons() {
    assert_eq!(
        arguments(Icon::Info, "Proceed?", &strings(&["Cancel", "Yes"])),
        strings(&["1", "", "Proceed?", "Cancel", "Yes"])
    );
    assert_eq!(arguments(Icon::Blank, "", &strings(&[])), strings(&["0", "", ""]));
}

fn central_header(method: u16, offset: u32, name: &[u8], extra: &[u8]) -> Vec<u8> {
    let mut header = Vec::new();
    header.extend_from_slice(&0x02014b50u32.to_le_bytes());
    header.extend_from_slice(&20u16.to_le_bytes());
    header.extend_from_slice(&20u16.to_le_bytes());
    header.extend_from_slice(&0u16.to_le_bytes());
    header.extend_from_slice(&method.to_le_bytes());
    header.extend_from_slice(&0u16.to_le_bytes());
    header.extend_from_slice(&0u16.to_le_bytes());
    header.extend_from_slice(&0u32.to_le_bytes());
    header.extend_from_slice(&0u32.to_le_bytes());
    header.extend_from_slice(&0u32.to_le_bytes());
    header.extend_from_slice(&(name.len() as u16).to_le_bytes());
    header.extend_from_slice(&(extra.len() as u16).to_le_bytes());
    header.extend_from_slice(&0u16.to_le_bytes());
    header.extend_from_slice(&0u16.to_le_bytes());
    header.extend_from_slice(&0u16.to_le_bytes());
    header.extend_from_slice(&0u32.to_le_bytes());
    header.extend_from_slice(&offset.to_le_bytes());
    header.extend_from_slice(name);
    header.extend_from_slice(extra);
    header
}

fn end_record(directory_size: u32, directory_offset: u32) -> Vec<u8> {
    let mut record = Vec::new();
    record.extend_from_slice(&0x06054b50u32.to_le_bytes());
    record.extend_from_slice(&0u16.to_le_bytes());
    record.extend_from_slice(&0u16.to_le_bytes());
    record.extend_from_slice(&1u16.to_le_bytes());
    record.extend_from_slice(&1u16.to_le_bytes());
    record.extend_from_slice(&directory_size.to_le_bytes());
    record.extend_from_slice(&directory_offset.to_le_bytes());
    record.extend_from_slice(&0u16.to_le_bytes());
    record
}

#[test]
fn archive_whose_offsets_do_not_fit_is_unreadable() {
    let mut extra = Vec::new();
    extra.extend_from_slice(&1u16.to_le_bytes());
    extra.extend_from_slice(&8u16.to_le_bytes());
    extra.extend_from_slice(&u64::MAX.to_le_bytes());
    let header = central_header(0, u32::MAX, b"one.txt", &extra);
    let mut archive = vec![0u8];
    archive.extend_from_slice(&header);
    archive.extend_from_slice(&end_record(header.len() as u32, 0));
    assert!(matches!(entry(&archive, "one.txt"), Err(ExtractError::ArchiveUnreadable)));
}

#[test]
fn entry_with_stray_encryption_data_is_unreadable() {
    let name = b"one.txt";
    let mut local = Vec::new();
    local.extend_from_slice(&0x04034b50u32.to_le_bytes());
    local.extend_from_slice(&[0u8; 22]);
    local.extend_from_slice(&(name.len() as u16).to_le_bytes());
    local.extend_from_slice(&0u16.to_le_bytes());
    local.extend_from_slice(name);
    let mut extra = Vec::new();
    extra.extend_from_slice(&0x9901u16.to_le_bytes());
    extra.extend_from_slice(&7u16.to_le_bytes());
    extra.extend_from_slice(&2u16.to_le_bytes());
    extra.extend_from_slice(&0x4541u16.to_le_bytes());
    extra.push(3);
    extra.extend_from_slice(&0u16.to_le_bytes());
    let header = central_header(0, 0, name, &extra);
    let mut archive = local.clone();
    archive.extend_from_slice(&header);
    archive.extend_from_slice(&end_record(header.len() as u32, local.len() as u32));
    assert!(matches!(entry(&archive, "one.txt"), Err(ExtractError::ArchiveUnreadable)));

    let plain = central_header(0, 0, name, &[]);
    let mut archive = local.clone();
    archive.extend_from_slice(&plain);
    archive.extend_from_slice(&end_record(plain.len() as u32, local.len() as u32));
    assert_eq!(entry(&archive, "one.txt").unwrap(), Vec::<u8>::new());
}
