//! The sweep after a pass: a record whose book is gone is removed, and with
//! it the rows of other tables that refer to it. Rows that refer to no
//! record for another reason are left alone. Which tables there are depends
//! on the version of the database.

use vstd::prelude::*;
use vstd::string::StringExecFns;

verus! {

/// The version of the database from which on the hashes of a book are kept
/// in a table of their own, in place of the table of identifiers.
pub const FAST_HASHES_SINCE: i32 = 37;

/// A table whose rows refer to the record of a book.
#[derive(Clone, Copy, Debug, PartialEq, Eq, Structural)]
pub enum DependentTable {
    Settings,
    FastHashes,
    Identifiers,
    ShelfMemberships,
    GenreLinks,
    Social,
}

/// The table that holds what identifies the file of a book.
pub open spec fn identity_table(version: i32) -> DependentTable {
    if version >= FAST_HASHES_SINCE {
        DependentTable::FastHashes
    } else {
        DependentTable::Identifiers
    }
}

/// The tables to sweep, in the order of the sweep.
pub open spec fn dependent_tables(version: i32) -> Seq<DependentTable> {
    seq![
        DependentTable::Settings,
        identity_table(version),
        DependentTable::ShelfMemberships,
        DependentTable::GenreLinks,
        DependentTable::Social,
    ]
}

/// The name of a table in the database.
pub open spec fn table_name(table: DependentTable) -> Seq<char> {
    match table {
        DependentTable::Settings => "books_settings"@,
        DependentTable::FastHashes => "books_fast_hashes"@,
        DependentTable::Identifiers => "books_uids"@,
        DependentTable::ShelfMemberships => "bookshelfs_books"@,
        DependentTable::GenreLinks => "booktogenre"@,
        DependentTable::Social => "social"@,
    }
}

/// The name of the column by which a table refers to a book.
pub open spec fn book_column(table: DependentTable) -> Seq<char> {
    match table {
        DependentTable::FastHashes => "book_id"@,
        DependentTable::Identifiers => "book_id"@,
        _ => "bookid"@,
    }
}

impl DependentTable {
    /// The name of the table in the database.
    pub fn name(&self) -> (name: &'static str)
        ensures
            name@ == table_name(*self),
    {
        match self {
            DependentTable::Settings => "books_settings",
            DependentTable::FastHashes => "books_fast_hashes",
            DependentTable::Identifiers => "books_uids",
            DependentTable::ShelfMemberships => "bookshelfs_books",
            DependentTable::GenreLinks => "booktogenre",
            DependentTable::Social => "social",
        }
    }

    /// The name of the column by which the table refers to a book.
    pub fn column(&self) -> (name: &'static str)
        ensures
            name@ == book_column(*self),
    {
        match self {
            DependentTable::FastHashes => "book_id",
            DependentTable::Identifiers => "book_id",
            _ => "bookid",
        }
    }
}

/// The query for the records of books without a file.
pub open spec fn ghost_books_query() -> Seq<char> {
    "SELECT books.id FROM books_impl books LEFT OUTER JOIN files ON books.id = files.book_id WHERE files.filename is NULL"@
}

/// The statement that removes the record of the book `:book_id`.
pub open spec fn record_removal() -> Seq<char> {
    "DELETE FROM books_impl WHERE id = :book_id"@
}

/// The statement that removes from a table the rows that refer to the book
/// `:book_id`, and no others.
pub open spec fn rows_removal(table: DependentTable) -> Seq<char> {
    "DELETE FROM "@ + table_name(table) + " WHERE "@ + book_column(table) + " = :book_id"@
}

/// The statements that remove one book: first its record, then the rows
/// that refer to it, table by table in the order of the sweep.
pub open spec fn book_removal(version: i32) -> Seq<Seq<char>> {
    seq![record_removal()] + dependent_tables(version).map_values(
        |table: DependentTable| rows_removal(table),
    )
}

/// The query for the records of books without a file. It is the first step
/// of the sweep: only the books that it finds are removed.
pub fn select_ghost_books() -> (query: &'static str)
    ensures
        query@ == ghost_books_query(),
{
    "SELECT books.id FROM books_impl books LEFT OUTER JOIN files ON books.id = files.book_id WHERE files.filename is NULL"
}

/// The statement that removes the record of the book `:book_id`.
pub fn remove_book() -> (statement: &'static str)
    ensures
        statement@ == record_removal(),
{
    "DELETE FROM books_impl WHERE id = :book_id"
}

/// The statement that removes from a table the rows that refer to the book
/// `:book_id`.
pub fn remove_rows(table: DependentTable) -> (statement: String)
    ensures
        statement@ == rows_removal(table),
{
    let mut statement = String::from_str("DELETE FROM ");
    statement.append(table.name());
    statement.append(" WHERE ");
    statement.append(table.column());
    statement.append(" = :book_id");
    statement
}

/// The statements to run for each book that the sweep removes, in a
/// database of the given version.
pub fn remove_ghost_book(version: i32) -> (statements: Vec<String>)
    ensures
        statements.deep_view() == book_removal(version),
{
    let tables = sweep_plan(version);
    let mut statements: Vec<String> = Vec::new();
    statements.push(String::from_str(remove_book()));
    let ghost head = statements.deep_view();
    assert(head =~= seq![record_removal()]);
    let mut i: usize = 0;
    while i < tables.len()
        invariant
            i <= tables.len(),
            tables@ == dependent_tables(version),
            head == seq![record_removal()],
            statements.deep_view() == head + tables@.take(i as int).map_values(
                |table: DependentTable| rows_removal(table),
            ),
        decreases tables.len() - i,
    {
        let ghost before = statements.deep_view();
        statements.push(remove_rows(tables[i]));
        proof {
            assert(statements.deep_view() =~= before.push(rows_removal(tables[i as int])));
            assert(tables@.take(i + 1).map_values(|table: DependentTable| rows_removal(table))
                =~= tables@.take(i as int).map_values(
                |table: DependentTable| rows_removal(table),
            ).push(rows_removal(tables[i as int])));
        }
        i += 1;
    }
    assert(tables@.take(i as int) =~= tables@);
    statements
}

/// The tables to sweep in a database of the given version, in the order of
/// the sweep.
pub fn sweep_plan(version: i32) -> (tables: Vec<DependentTable>)
    ensures
        tables@ == dependent_tables(version),
{
    let mut tables: Vec<DependentTable> = Vec::new();
    tables.push(DependentTable::Settings);
    if version >= FAST_HASHES_SINCE {
        tables.push(DependentTable::FastHashes);
    } else {
        tables.push(DependentTable::Identifiers);
    }
    tables.push(DependentTable::ShelfMemberships);
    tables.push(DependentTable::GenreLinks);
    tables.push(DependentTable::Social);
    assert(tables@ =~= dependent_tables(version));
    tables
}

} // verus!
