//! Repairs the bibliographic records that an e-reader keeps about its EPUB
//! books: the package metadata of a book is read out of its archive, and the
//! stored record is compared with it, field by field.
//!
//! - [`epub`] reads the metadata of a book: the archive names its package
//!   document, and the package document is read event by event.
//! - [`database`] holds a stored record against the metadata and says what
//!   has to change; [`sweep`] plans the removal of records without a book.
//! - [`xml`] and [`archive`] are where `quick_xml` and `zip` are called;
//!   [`bytes`], [`text`] and [`numeral`] are the tools of the others.
//! - [`pocketbook`] computes what the dialog of the device is started with.
//!
//! Nothing here reads a file or a database: the library takes bytes and
//! records, and gives back metadata and corrections.

pub mod archive;
pub mod bytes;
pub mod database;
pub mod epub;
pub mod error;
pub mod numeral;
pub mod pocketbook;
pub mod sweep;
pub mod text;
pub mod xml;
