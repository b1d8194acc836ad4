//! Why a book yields no metadata.

use vstd::prelude::*;

verus! {

/// The ways in which the extraction of a book's metadata fails. Each of them
/// concerns one book only: the book is passed over and the others go on.
#[derive(Clone, Copy, Debug, PartialEq, Eq, Structural)]
pub enum ExtractError {
    /// The file is no readable archive, or the archive lacks a required entry.
    ArchiveUnreadable,
    /// The container document names no package document.
    MalformedContainer,
    /// The package document is not well-formed.
    MalformedPackage,
}

} // verus!
