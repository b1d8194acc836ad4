use epub_fixer::database::apply;
use epub_fixer::database::fix_db_entries;
use epub_fixer::database::is_drm_protected;
use epub_fixer::database::letter_correction;
use epub_fixer::database::reconcile;
use epub_fixer::database::Book;
use epub_fixer::database::BookEntry;
use epub_fixer::database::Corrections;
use epub_fixer::database::Statistics;
use epub_fixer::epub::get_epub_metadata;
use epub_fixer::epub::package::parse_package;
use epub_fixer::epub::Author;
use epub_fixer::epub::EpubMetadata;
use epub_fixer::epub::Series;
use std::io::Cursor;
use std::io::Write;
use zip::write::FileOptions;
use zip::ZipWriter;

fn entry(id: i32) -> BookEntry {
    BookEntry {
        id,
        filepath: format!("/mnt/ext1/Books/{}.epub", id),
        author: String::new(),
        firstauthor: String::new(),
        genre: String::new(),
        first_author_letter: String::new(),
        series: String::new(),
    }
}

fn author(name: &str, sort_key: &str) -> Author {
    Author { name: name.to_string(), firstauthor: sort_key.to_string() }
}

fn metadata(authors: Vec<Author>) -> EpubMetadata {
    EpubMetadata { authors, genre: String::new(), series: Series::new() }
}

fn is_empty(changes: &Corrections) -> bool {
    changes.firstauthor.is_none()
        && changes.first_author_letter.is_none()
        && changes.author.is_none()
        && changes.genre.is_none()
        && changes.series.is_none()
}

fn text(value: &str) -> Option<String> {
    Some(value.to_string())
}

#[test]
fn empty_record_is_filled_from_a_current_dialect_book() {
    let package = r##"<package version="3.0"><metadata>
        <dc:creator id="c1">Jane Doe</dc:creator>
        <meta refines="#c1" property="file-as">Doe, Jane</meta>
        <meta refines="#c1" property="role">aut</meta>
        <dc:subject>Fiction</dc:subject>
    </metadata></package>"##;
    let container = r#"<container><rootfiles><rootfile full-path="content.opf"/></rootfiles></container>"#;
    let mut writer = ZipWriter::new(Cursor::new(Vec::new()));
    writer.start_file("META-INF/container.xml", FileOptions::default()).unwrap();
    writer.write_all(container.as_bytes()).unwrap();
    writer.start_file("content.opf", FileOptions::default()).unwrap();
    writer.write_all(package.as_bytes()).unwrap();
    let archive = writer.finish().unwrap().into_inner();

    let books = vec![Book { entry: entry(1), metadata: get_epub_metadata(&archive) }];
    let repair = fix_db_entries(&books, None);

    assert_eq!(repair.corrections.len(), 1);
    let changes = &repair.corrections[0];
    assert_eq!(changes.book, 1);
    assert_eq!(changes.firstauthor, text("Doe, Jane"));
    assert_eq!(changes.author, text("Jane Doe"));
    assert_eq!(changes.first_author_letter, text("D"));
    assert_eq!(changes.genre, text("Fiction"));
    assert!(changes.series.is_none());
    assert_eq!(repair.statistics.authors_fixed, 2);
    assert_eq!(repair.statistics.sorting_fixed, 1);
    assert_eq!(repair.statistics.genres_fixed, 1);
    assert_eq!(repair.statistics.series_fixed, 0);
    assert_eq!(repair.statistics.ghost_books_cleaned, 0);
    assert_eq!(repair.statistics.drm_skipped, 0);
    assert!(repair.statistics.anything_fixed());
}

#[test]
fn sort_string_is_in_byte_order_whatever_the_document_order() {
    let first = metadata(vec![
        author("Carol Clark", "Clark, Carol"),
        author("Alice Adams", "Adams, Alice"),
        author("Bob Brown", "Brown, Bob"),
    ]);
    let second = metadata(vec![
        author("Bob Brown", "Brown, Bob"),
        author("Carol Clark", "Clark, Carol"),
        author("Alice Adams", "Adams, Alice"),
    ]);
    let expected = text("Adams, Alice & Brown, Bob & Clark, Carol");
    assert_eq!(reconcile(&entry(1), &first).firstauthor, expected);
    assert_eq!(reconcile(&entry(1), &second).firstauthor, expected);
}

#[test]
fn display_string_keeps_the_document_order() {
    let first = metadata(vec![author("Carol Clark", "Clark, Carol"), author("Alice Adams", "")]);
    let second = metadata(vec![author("Alice Adams", ""), author("Carol Clark", "Clark, Carol")]);
    assert_eq!(reconcile(&entry(1), &first).author, text("Carol Clark, Alice Adams"));
    assert_eq!(reconcile(&entry(1), &second).author, text("Alice Adams, Carol Clark"));
}

#[test]
fn sort_keys_are_ordered_by_their_bytes() {
    let found = metadata(vec![
        author("a", "b"),
        author("b", "B"),
        author("c", "\u{e9}"),
        author("d", "a"),
        author("e", "ab"),
        author("f", "Z"),
    ]);
    assert_eq!(reconcile(&entry(1), &found).firstauthor, text("B & Z & a & ab & b & \u{e9}"));
}

#[test]
fn equal_sort_keys_stand_once() {
    let found = metadata(vec![
        author("Jane Doe", "Doe, Jane"),
        author("J. Doe", "Doe, Jane"),
        author("Adam Ant", "Ant, Adam"),
    ]);
    let changes = reconcile(&entry(1), &found);
    assert_eq!(changes.firstauthor, text("Ant, Adam & Doe, Jane"));
    assert_eq!(changes.author, text("Jane Doe, J. Doe, Adam Ant"));
}

#[test]
fn author_without_sort_key_is_displayed_but_not_sorted() {
    let found = metadata(vec![author("Jane Doe", ""), author("Richard Roe", "Roe, Richard")]);
    let changes = reconcile(&entry(1), &found);
    assert_eq!(changes.firstauthor, text("Roe, Richard"));
    assert_eq!(changes.first_author_letter, text("R"));
    assert_eq!(changes.author, text("Jane Doe, Richard Roe"));
}

#[test]
fn sort_string_that_holds_every_key_is_kept() {
    let mut stored = entry(1);
    stored.firstauthor = "x Roe, Richard; Doe, Jane (decorated)".to_string();
    let found = metadata(vec![author("Jane Doe", "Doe, Jane"), author("Richard Roe", "Roe, Richard")]);
    assert!(reconcile(&stored, &found).firstauthor.is_none());
}

#[test]
fn sort_string_that_lacks_a_key_is_replaced() {
    let mut stored = entry(1);
    stored.firstauthor = "Doe, Jane".to_string();
    let found = metadata(vec![author("Jane Doe", "Doe, Jane"), author("Richard Roe", "Roe, Richard")]);
    assert_eq!(reconcile(&stored, &found).firstauthor, text("Doe, Jane & Roe, Richard"));
}

#[test]
fn sort_key_is_compared_case_sensitively() {
    let mut stored = entry(1);
    stored.firstauthor = "doe, jane".to_string();
    let found = metadata(vec![author("Jane Doe", "Doe, Jane")]);
    assert_eq!(reconcile(&stored, &found).firstauthor, text("Doe, Jane"));
}

#[test]
fn first_letter_is_the_upper_case_start_of_the_sort_string() {
    let found = metadata(vec![author("e. e. cummings", "cummings, e. e.")]);
    assert_eq!(reconcile(&entry(1), &found).first_author_letter, text("C"));
    let found = metadata(vec![author("\u{e9}mile", "\u{e9}mile")]);
    assert_eq!(reconcile(&entry(1), &found).first_author_letter, text("\u{c9}"));
    let found = metadata(vec![author("Stra\u{df}e", "\u{df}")]);
    assert_eq!(reconcile(&entry(1), &found).first_author_letter, text("SS"));
}

#[test]
fn first_letter_that_is_stored_is_kept() {
    let mut stored = entry(1);
    stored.first_author_letter = "D".to_string();
    let found = metadata(vec![author("Jane Doe", "Doe, Jane")]);
    assert!(reconcile(&stored, &found).first_author_letter.is_none());
    stored.first_author_letter = "d".to_string();
    assert_eq!(reconcile(&stored, &found).first_author_letter, text("D"));
}

#[test]
fn no_sort_key_gives_no_first_letter() {
    let mut stored = entry(1);
    stored.first_author_letter = "X".to_string();
    let changes = reconcile(&stored, &metadata(vec![author("Jane Doe", "")]));
    assert!(changes.first_author_letter.is_none());
    assert!(changes.firstauthor.is_none());
}

#[test]
fn null_character_is_no_first_letter() {
    let changes = reconcile(&entry(1), &metadata(vec![author("Nobody", "\0nobody")]));
    assert!(changes.first_author_letter.is_none());
    assert_eq!(changes.firstauthor, text("\0nobody"));
}

#[test]
fn display_string_of_another_length_is_replaced() {
    let mut stored = entry(1);
    stored.author = "Jo, Jo".to_string();
    let found = metadata(vec![author("Jo", ""), author("Jo Smith", "")]);
    assert_eq!(reconcile(&stored, &found).author, text("Jo, Jo Smith"));

    stored.author = "Jo, Jo Smith".to_string();
    let found = metadata(vec![author("Jo", ""), author("Jo", "")]);
    assert_eq!(reconcile(&stored, &found).author, text("Jo, Jo"));
}

#[test]
fn display_string_of_the_same_length_that_holds_every_name_is_kept() {
    let mut stored = entry(1);
    stored.author = "Jo Smith; Jo".to_string();
    let found = metadata(vec![author("Jo", ""), author("Jo Smith", "")]);
    assert!(reconcile(&stored, &found).author.is_none());
}

#[test]
fn display_length_counts_bytes() {
    let mut stored = entry(1);
    stored.author = "Zoe".to_string();
    let found = metadata(vec![author("Zo\u{eb}", "")]);
    assert_eq!(reconcile(&stored, &found).author, text("Zo\u{eb}"));
    stored.author = "Zo\u{eb}".to_string();
    assert!(reconcile(&stored, &found).author.is_none());
}

#[test]
fn book_without_authors_clears_the_display_string() {
    let mut stored = entry(1);
    stored.author = "Somebody".to_string();
    stored.firstauthor = "Somebody".to_string();
    let changes = reconcile(&stored, &metadata(vec![]));
    assert_eq!(changes.author, text(""));
    assert!(changes.firstauthor.is_none());
    assert!(changes.first_author_letter.is_none());
}

#[test]
fn stored_genre_is_never_replaced() {
    let mut stored = entry(1);
    stored.genre = "History".to_string();
    let mut found = metadata(vec![]);
    found.genre = "Fiction".to_string();
    assert!(reconcile(&stored, &found).genre.is_none());
    stored.genre = String::new();
    assert_eq!(reconcile(&stored, &found).genre, text("Fiction"));
    found.genre = String::new();
    assert!(reconcile(&stored, &found).genre.is_none());
}

#[test]
fn stored_series_is_never_replaced() {
    let mut stored = entry(1);
    stored.series = "Old Saga".to_string();
    let mut found = metadata(vec![]);
    found.series = Series { name: "The Saga".to_string(), index: 3 };
    assert!(reconcile(&stored, &found).series.is_none());
    stored.series = String::new();
    let series = reconcile(&stored, &found).series.unwrap();
    assert_eq!(series.name, "The Saga");
    assert_eq!(series.index, 3);
    found.series = Series { name: String::new(), index: 3 };
    assert!(reconcile(&stored, &found).series.is_none());
}

#[test]
fn second_pass_corrects_nothing() {
    let mut found = metadata(vec![
        author("Richard Roe", "Roe, Richard"),
        author("Jane Doe", "Doe, Jane"),
        author("Anonymous", ""),
    ]);
    found.genre = "Fiction".to_string();
    found.series = Series { name: "The Saga".to_string(), index: 2 };
    let mut stored = entry(9);
    stored.author = "Jane Doe".to_string();
    stored.first_author_letter = "X".to_string();

    let first = reconcile(&stored, &found);
    assert!(!is_empty(&first));
    apply(&mut stored, &first);
    assert_eq!(stored.firstauthor, "Doe, Jane & Roe, Richard");
    assert_eq!(stored.first_author_letter, "D");
    assert_eq!(stored.author, "Richard Roe, Jane Doe, Anonymous");
    assert_eq!(stored.genre, "Fiction");
    assert_eq!(stored.series, "The Saga");
    assert_eq!(stored.id, 9);

    let second = reconcile(&stored, &found);
    assert_eq!(second.book, 9);
    assert!(is_empty(&second));

    let books = vec![Book { entry: stored, metadata: Some(found) }];
    let repair = fix_db_entries(&books, None);
    assert!(!repair.statistics.anything_fixed());
    assert_eq!(repair.statistics.authors_fixed, 0);
    assert_eq!(repair.corrections.len(), 1);
}

#[test]
fn book_without_metadata_counts_nowhere() {
    let books = vec![
        Book { entry: entry(1), metadata: None },
        Book { entry: entry(2), metadata: Some(metadata(vec![author("Jane Doe", "Doe, Jane")])) },
        Book { entry: entry(3), metadata: None },
    ];
    let repair = fix_db_entries(&books, None);
    assert_eq!(repair.corrections.len(), 1);
    assert_eq!(repair.corrections[0].book, 2);
    assert_eq!(repair.statistics.authors_fixed, 2);
    assert_eq!(repair.statistics.sorting_fixed, 1);
    assert_eq!(repair.statistics.genres_fixed, 0);
    assert_eq!(repair.statistics.series_fixed, 0);
}

#[test]
fn corrections_are_counted_rule_by_rule() {
    let mut first = metadata(vec![author("Jane Doe", "Doe, Jane")]);
    first.genre = "Fiction".to_string();
    first.series = Series { name: "The Saga".to_string(), index: 1 };
    let mut second = metadata(vec![author("Richard Roe", "")]);
    second.series = Series { name: "The Saga".to_string(), index: 2 };
    let mut kept = entry(3);
    kept.author = "Richard Roe".to_string();
    let books = vec![
        Book { entry: entry(1), metadata: Some(first) },
        Book { entry: entry(2), metadata: Some(second) },
        Book { entry: kept, metadata: Some(metadata(vec![author("Richard Roe", "")])) },
    ];
    let repair = fix_db_entries(&books, None);
    assert_eq!(repair.corrections.len(), 3);
    assert_eq!(repair.statistics.authors_fixed, 3);
    assert_eq!(repair.statistics.sorting_fixed, 1);
    assert_eq!(repair.statistics.genres_fixed, 1);
    assert_eq!(repair.statistics.series_fixed, 2);
    assert!(is_empty(&repair.corrections[2]));
}

#[test]
fn no_books_give_nothing_to_do() {
    let repair = fix_db_entries(&Vec::new(), Some("/mnt/ext1/vault/"));
    assert!(repair.corrections.is_empty());
    assert!(!repair.statistics.anything_fixed());
}

#[test]
fn protected_books_are_passed_over() {
    let mut protected = entry(1);
    protected.filepath = "/mnt/ext1/vault/secret.epub".to_string();
    let books = vec![
        Book { entry: protected, metadata: Some(metadata(vec![author("Jane Doe", "Doe, Jane")])) },
        Book { entry: entry(2), metadata: Some(metadata(vec![author("Jane Doe", "Doe, Jane")])) },
    ];
    let repair = fix_db_entries(&books, Some("/mnt/ext1/vault/"));
    assert_eq!(repair.statistics.drm_skipped, 1);
    assert_eq!(repair.corrections.len(), 1);
    assert_eq!(repair.corrections[0].book, 2);
    assert_eq!(repair.statistics.authors_fixed, 2);

    let repair = fix_db_entries(&books, None);
    assert_eq!(repair.statistics.drm_skipped, 0);
    assert_eq!(repair.corrections.len(), 2);
}

#[test]
fn protection_is_a_matter_of_the_path_prefix() {
    assert!(is_drm_protected("/vault/a.epub", Some("/vault/")));
    assert!(is_drm_protected("/vault/", Some("/vault/")));
    assert!(!is_drm_protected("/books/vault/a.epub", Some("/vault/")));
    assert!(!is_drm_protected("/vaul", Some("/vault/")));
    assert!(!is_drm_protected("/vault/a.epub", None));
    assert!(is_drm_protected("/anything", Some("")));
}

#[test]
fn skipped_books_are_no_fix() {
    let mut statistics = Statistics::new();
    assert!(!statistics.anything_fixed());
    statistics.drm_skipped = 4;
    assert!(!statistics.anything_fixed());
}

#[test]
fn each_counter_tells_that_something_was_fixed() {
    let mut statistics = Statistics::new();
    statistics.authors_fixed = 1;
    assert!(statistics.anything_fixed());
    let mut statistics = Statistics::new();
    statistics.ghost_books_cleaned = 1;
    assert!(statistics.anything_fixed());
    let mut statistics = Statistics::new();
    statistics.genres_fixed = 1;
    assert!(statistics.anything_fixed());
    let mut statistics = Statistics::new();
    statistics.sorting_fixed = 1;
    assert!(statistics.anything_fixed());
    let mut statistics = Statistics::new();
    statistics.series_fixed = 1;
    assert!(statistics.anything_fixed());
}

#[test]
fn record_counts_sort_and_display_string_apart() {
    let mut statistics = Statistics::new();
    let changes = Corrections {
        book: 1,
        firstauthor: text("Doe, Jane"),
        first_author_letter: None,
        author: text("Jane Doe"),
        genre: None,
        series: Some(Series { name: "The Saga".to_string(), index: 1 }),
    };
    statistics.record(&changes);
    statistics.record(&changes);
    assert_eq!(statistics.authors_fixed, 4);
    assert_eq!(statistics.sorting_fixed, 0);
    assert_eq!(statistics.genres_fixed, 0);
    assert_eq!(statistics.series_fixed, 2);
}

#[test]
fn legacy_book_fills_series_and_sort_string() {
    let found = parse_package(
        br#"<package version="2.0"><metadata>
            <dc:creator opf:file-as="Doe, Jane" opf:role="aut">Jane Doe</dc:creator>
            <meta name="calibre:series" content="The Saga"/>
            <meta name="calibre:series_index" content="2.0"/>
        </metadata></package>"#,
    )
    .unwrap();
    let mut stored = entry(5);
    stored.author = "Jane Doe".to_string();
    stored.first_author_letter = "D".to_string();
    let changes = reconcile(&stored, &found);
    assert_eq!(changes.firstauthor, text("Doe, Jane"));
    assert!(changes.first_author_letter.is_none());
    assert!(changes.author.is_none());
    assert!(changes.genre.is_none());
    let series = changes.series.unwrap();
    assert_eq!(series.name, "The Saga");
    assert_eq!(series.index, 2);
}

#[test]
fn letter_replaces_another_stored_letter_only() {
    assert_eq!(letter_correction("D".to_string(), "X"), text("D"));
    assert_eq!(letter_correction("D".to_string(), ""), text("D"));
    assert_eq!(letter_correction("D".to_string(), "d"), text("D"));
    assert_eq!(letter_correction("SS".to_string(), "S"), text("SS"));
    assert_eq!(letter_correction("D".to_string(), "D"), None);
    assert_eq!(letter_correction("".to_string(), "D"), None);
    assert_eq!(letter_correction("\0".to_string(), "D"), None);
    assert_eq!(letter_correction("\0\0".to_string(), "D"), text("\0\0"));
    assert_eq!(letter_correction("\u{c9}".to_string(), "E"), text("\u{c9}"));
}

#[test]
fn row_becomes_a_record_with_its_path_and_empty_defaults() {
    let full = BookEntry::from_row(
        4,
        "/mnt/ext1/Books",
        "a book.epub",
        text("Doe, Jane"),
        text("Jane Doe"),
        text("Fiction"),
        text("D"),
        text("The Saga"),
    );
    assert_eq!(full.id, 4);
    assert_eq!(full.filepath, "/mnt/ext1/Books/a book.epub");
    assert_eq!(full.firstauthor, "Doe, Jane");
    assert_eq!(full.author, "Jane Doe");
    assert_eq!(full.genre, "Fiction");
    assert_eq!(full.first_author_letter, "D");
    assert_eq!(full.series, "The Saga");

    let bare = BookEntry::from_row(5, "", "b.epub", None, None, None, None, None);
    assert_eq!(bare.id, 5);
    assert_eq!(bare.filepath, "/b.epub");
    assert_eq!(bare.firstauthor, "");
    assert_eq!(bare.author, "");
    assert_eq!(bare.genre, "");
    assert_eq!(bare.first_author_letter, "");
    assert_eq!(bare.series, "");
}
