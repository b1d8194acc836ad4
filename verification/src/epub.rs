//! The metadata of an EPUB book: what is extracted from a book, and the
//! extraction from its archive.

pub mod container;
pub mod contributors;
pub mod laws;
pub mod package;

use crate::archive::entry;
use crate::archive::entry_of;
use crate::epub::container::container_rootfile;
use crate::epub::container::parse_container;
use crate::epub::container::text_or_error;
use crate::epub::package::document_metadata;
use crate::epub::package::metadata_or_error;
use crate::epub::package::parse_package;
use crate::error::ExtractError;
use vstd::prelude::*;

verus! {

/// A person credited as an author of a book.
#[derive(Debug)]
pub struct Author {
    /// The name as it is displayed.
    pub name: String,
    /// The name as it is sorted, empty where the document gives none.
    pub firstauthor: String,
}

/// The view of an [`Author`].
pub struct AuthorView {
    pub name: Seq<char>,
    pub firstauthor: Seq<char>,
}

impl View for Author {
    type V = AuthorView;

    open spec fn view(&self) -> AuthorView {
        AuthorView { name: self.name@, firstauthor: self.firstauthor@ }
    }
}

impl DeepView for Author {
    type V = AuthorView;

    open spec fn deep_view(&self) -> AuthorView {
        self@
    }
}

/// The series that a book belongs to; without a series the name is empty and
/// the index 0.
#[derive(Debug)]
pub struct Series {
    pub name: String,
    pub index: i32,
}

/// The view of a [`Series`].
pub struct SeriesView {
    pub name: Seq<char>,
    pub index: i32,
}

impl View for Series {
    type V = SeriesView;

    open spec fn view(&self) -> SeriesView {
        SeriesView { name: self.name@, index: self.index }
    }
}

impl Series {
    /// No series.
    pub fn new() -> (series: Self)
        ensures
            series@ == (SeriesView { name: Seq::empty(), index: 0 }),
    {
        Series { name: String::new(), index: 0 }
    }
}

/// The metadata of one book.
#[derive(Debug)]
pub struct EpubMetadata {
    /// The authors in the order of the document.
    pub authors: Vec<Author>,
    /// The genre, empty where the document gives none.
    pub genre: String,
    pub series: Series,
}

/// The view of an [`EpubMetadata`].
pub struct MetadataView {
    pub authors: Seq<AuthorView>,
    pub genre: Seq<char>,
    pub series: SeriesView,
}

impl View for EpubMetadata {
    type V = MetadataView;

    open spec fn view(&self) -> MetadataView {
        MetadataView {
            authors: self.authors.deep_view(),
            genre: self.genre@,
            series: self.series@,
        }
    }
}

impl EpubMetadata {
    /// The metadata of a book of which nothing is known.
    pub fn new() -> (metadata: Self)
        ensures
            metadata@ == (MetadataView {
                authors: Seq::empty(),
                genre: Seq::empty(),
                series: SeriesView { name: Seq::empty(), index: 0 },
            }),
    {
        let metadata = EpubMetadata {
            authors: Vec::new(),
            genre: String::new(),
            series: Series::new(),
        };
        assert(metadata.authors.deep_view() =~= Seq::empty());
        metadata
    }
}

/// The name of the entry that holds the container document.
pub open spec fn container_entry() -> Seq<char> {
    "META-INF/container.xml"@
}

/// The path of the package document of an archive.
pub open spec fn archive_rootfile(archive: Seq<u8>) -> Result<Seq<char>, ExtractError> {
    match entry_of(archive, container_entry()) {
        Ok(container) => container_rootfile(container),
        Err(error) => Err(error),
    }
}

/// The metadata of the book in an archive: the container document names the
/// package document, and the package document holds the metadata.
pub open spec fn archive_metadata(archive: Seq<u8>) -> Result<MetadataView, ExtractError> {
    match archive_rootfile(archive) {
        Ok(path) => match entry_of(archive, path) {
            Ok(document) => document_metadata(document),
            Err(error) => Err(error),
        },
        Err(error) => Err(error),
    }
}

/// The metadata of a book, `None` for each failure.
pub open spec fn book_metadata(archive: Seq<u8>) -> Option<MetadataView> {
    match archive_metadata(archive) {
        Ok(metadata) => Some(metadata),
        Err(_) => None,
    }
}

/// The view of metadata that may be missing.
pub open spec fn optional_metadata(metadata: Option<EpubMetadata>) -> Option<MetadataView> {
    match metadata {
        Some(metadata) => Some(metadata@),
        None => None,
    }
}

/// Finds the path of the package document of an archive.
pub fn get_rootfile(archive: &[u8]) -> (path: Result<String, ExtractError>)
    ensures
        text_or_error(path) == archive_rootfile(archive@),
{
    match entry(archive, "META-INF/container.xml") {
        Ok(container) => parse_container(container.as_slice()),
        Err(error) => Err(error),
    }
}

/// Reads the metadata of the book in an archive, and says why where there
/// is none.
pub fn extract_metadata(archive: &[u8]) -> (metadata: Result<EpubMetadata, ExtractError>)
    ensures
        metadata_or_error(metadata) == archive_metadata(archive@),
{
    let path = match get_rootfile(archive) {
        Ok(path) => path,
        Err(error) => {
            return Err(error);
        },
    };
    match entry(archive, path.as_str()) {
        Ok(document) => parse_package(document.as_slice()),
        Err(error) => Err(error),
    }
}

/// Reads the metadata of the book in an archive. A book whose archive,
/// container or package document cannot be read has none.
pub fn get_epub_metadata(archive: &[u8]) -> (metadata: Option<EpubMetadata>)
    ensures
        optional_metadata(metadata) == book_metadata(archive@),
{
    match extract_metadata(archive) {
        Ok(metadata) => Some(metadata),
        Err(_) => None,
    }
}

} // verus!
