use epub_fixer::sweep::remove_book;
use epub_fixer::sweep::remove_ghost_book;
use epub_fixer::sweep::remove_rows;
use epub_fixer::sweep::select_ghost_books;
use epub_fixer::sweep::DependentTable;
use rusqlite::Connection;

const SCHEMA: &str = "
    CREATE TABLE books_impl (id INTEGER PRIMARY KEY, title TEXT);
    CREATE TABLE files (id INTEGER PRIMARY KEY, book_id INTEGER, filename TEXT);
    CREATE TABLE books_settings (bookid INTEGER, profileid INTEGER);
    CREATE TABLE books_uids (book_id INTEGER, uid TEXT);
    CREATE TABLE books_fast_hashes (book_id INTEGER, hash TEXT);
    CREATE TABLE bookshelfs_books (bookshelfid INTEGER, bookid INTEGER);
    CREATE TABLE booktogenre (bookid INTEGER, genreid INTEGER);
    CREATE TABLE social (bookid INTEGER, flags INTEGER);
    CREATE TABLE version (id INTEGER);
";

fn library(version: i32) -> Connection {
    let conn = Connection::open_in_memory().unwrap();
    conn.execute_batch(SCHEMA).unwrap();
    conn.execute("INSERT INTO version (id) VALUES (?1)", [version]).unwrap();
    for book in [3, 7, 8] {
        conn.execute("INSERT INTO books_impl (id, title) VALUES (?1, 'a book')", [book]).unwrap();
        conn.execute("INSERT INTO books_settings (bookid, profileid) VALUES (?1, 1)", [book])
            .unwrap();
        conn.execute("INSERT INTO books_uids (book_id, uid) VALUES (?1, 'uid')", [book]).unwrap();
        conn.execute("INSERT INTO books_fast_hashes (book_id, hash) VALUES (?1, 'hash')", [book])
            .unwrap();
        conn.execute("INSERT INTO bookshelfs_books (bookshelfid, bookid) VALUES (1, ?1)", [book])
            .unwrap();
        conn.execute("INSERT INTO booktogenre (bookid, genreid) VALUES (?1, 1)", [book]).unwrap();
        conn.execute("INSERT INTO social (bookid, flags) VALUES (?1, 0)", [book]).unwrap();
    }
    for book in [3, 8] {
        conn.execute("INSERT INTO files (book_id, filename) VALUES (?1, 'book.epub')", [book])
            .unwrap();
    }
    conn
}

fn sweep(conn: &Connection) -> usize {
    let ghosts: Vec<i32> = {
        let mut query = conn.prepare(select_ghost_books()).unwrap();
        let rows = query.query_map([], |row| row.get(0)).unwrap();
        rows.map(|id| id.unwrap()).collect()
    };
    let version: i32 = conn.query_row("SELECT id FROM version", [], |row| row.get(0)).unwrap();
    let statements = remove_ghost_book(version);
    let mut removed = 0;
    for book in ghosts {
        for (step, statement) in statements.iter().enumerate() {
            let rows = conn.execute(statement, &[(":book_id", &book)]).unwrap();
            if step == 0 {
                removed += rows;
            }
        }
    }
    removed
}

fn books_in(conn: &Connection, table: &str, column: &str) -> Vec<i32> {
    let mut statement = conn
        .prepare(&format!("SELECT {} FROM {} ORDER BY {}", column, table, column))
        .unwrap();
    let rows = statement.query_map([], |row| row.get(0)).unwrap();
    rows.map(|book| book.unwrap()).collect()
}

#[test]
fn record_without_file_is_swept_with_all_that_refers_to_it() {
    let conn = library(37);
    assert_eq!(sweep(&conn), 1);
    assert_eq!(books_in(&conn, "books_impl", "id"), vec![3, 8]);
    assert_eq!(books_in(&conn, "books_settings", "bookid"), vec![3, 8]);
    assert_eq!(books_in(&conn, "books_fast_hashes", "book_id"), vec![3, 8]);
    assert_eq!(books_in(&conn, "bookshelfs_books", "bookid"), vec![3, 8]);
    assert_eq!(books_in(&conn, "booktogenre", "bookid"), vec![3, 8]);
    assert_eq!(books_in(&conn, "social", "bookid"), vec![3, 8]);
    assert_eq!(books_in(&conn, "files", "book_id"), vec![3, 8]);
    assert_eq!(books_in(&conn, "books_uids", "book_id"), vec![3, 7, 8]);
}

#[test]
fn older_database_keeps_identifiers_in_place_of_hashes() {
    let conn = library(36);
    assert_eq!(sweep(&conn), 1);
    assert_eq!(books_in(&conn, "books_impl", "id"), vec![3, 8]);
    assert_eq!(books_in(&conn, "books_uids", "book_id"), vec![3, 8]);
    assert_eq!(books_in(&conn, "books_fast_hashes", "book_id"), vec![3, 7, 8]);
    assert_eq!(books_in(&conn, "books_settings", "bookid"), vec![3, 8]);
    assert_eq!(books_in(&conn, "social", "bookid"), vec![3, 8]);
}

#[test]
fn sweep_of_a_library_without_ghosts_removes_nothing() {
    let conn = library(37);
    conn.execute("INSERT INTO files (book_id, filename) VALUES (7, 'seven.epub')", []).unwrap();
    assert_eq!(sweep(&conn), 0);
    assert_eq!(books_in(&conn, "books_impl", "id"), vec![3, 7, 8]);
    assert_eq!(books_in(&conn, "social", "bookid"), vec![3, 7, 8]);
}

#[test]
fn rows_that_were_orphans_before_are_left_alone() {
    let conn = library(37);
    conn.execute("INSERT INTO social (bookid, flags) VALUES (99, 0)", []).unwrap();
    conn.execute("INSERT INTO booktogenre (bookid, genreid) VALUES (99, 2)", []).unwrap();
    conn.execute("INSERT INTO books_settings (bookid, profileid) VALUES (98, 1)", []).unwrap();
    assert_eq!(sweep(&conn), 1);
    assert_eq!(books_in(&conn, "books_impl", "id"), vec![3, 8]);
    assert_eq!(books_in(&conn, "social", "bookid"), vec![3, 8, 99]);
    assert_eq!(books_in(&conn, "booktogenre", "bookid"), vec![3, 8, 99]);
    assert_eq!(books_in(&conn, "books_settings", "bookid"), vec![3, 8, 98]);
    assert_eq!(books_in(&conn, "bookshelfs_books", "bookid"), vec![3, 8]);
}

#[test]
fn several_ghosts_are_swept_one_by_one() {
    let conn = library(37);
    conn.execute("DELETE FROM files WHERE book_id = 3", []).unwrap();
    assert_eq!(sweep(&conn), 2);
    assert_eq!(books_in(&conn, "books_impl", "id"), vec![8]);
    assert_eq!(books_in(&conn, "social", "bookid"), vec![8]);
    assert_eq!(books_in(&conn, "books_fast_hashes", "book_id"), vec![8]);
    assert_eq!(sweep(&conn), 0);
}

#[test]
fn statements_name_table_and_column() {
    assert_eq!(
        remove_rows(DependentTable::Settings),
        "DELETE FROM books_settings WHERE bookid = :book_id"
    );
    assert_eq!(
        remove_rows(DependentTable::FastHashes),
        "DELETE FROM books_fast_hashes WHERE book_id = :book_id"
    );
    assert_eq!(remove_book(), "DELETE FROM books_impl WHERE id = :book_id");
    assert!(select_ghost_books().starts_with("SELECT books.id FROM books_impl"));
    assert_eq!(
        remove_ghost_book(36),
        vec![
            "DELETE FROM books_impl WHERE id = :book_id".to_string(),
            "DELETE FROM books_settings WHERE bookid = :book_id".to_string(),
            "DELETE FROM books_uids WHERE book_id = :book_id".to_string(),
            "DELETE FROM bookshelfs_books WHERE bookid = :book_id".to_string(),
            "DELETE FROM booktogenre WHERE bookid = :book_id".to_string(),
            "DELETE FROM social WHERE bookid = :book_id".to_string(),
        ]
    );
    assert_eq!(
        remove_ghost_book(37)[2],
        "DELETE FROM books_fast_hashes WHERE book_id = :book_id"
    );
}
