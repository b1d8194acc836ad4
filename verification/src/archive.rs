//! The entries of a zip archive held in memory.

use crate::error::ExtractError;
use std::io::Cursor;
use std::io::Read;
use vstd::prelude::*;
use zip::ZipArchive;

verus! {

/// The uncompressed bytes that `zip` reads from the entry called `name` of
/// an archive, or `None` where it cannot open the archive, finds no such
/// entry, wants a password for it or fails to read it.
pub uninterp spec fn archive_entry(archive: Seq<u8>, name: Seq<char>) -> Option<Seq<u8>>;

/// `ZipArchive::new` on the bytes of the archive, `ZipArchive::by_name_decrypt`
/// for the entry, and the entry read to its end; each of their errors comes
/// back as `None`.
///
/// The entry is asked for with an empty password, which `zip` sets aside for
/// an entry that is not encrypted. `by_name` is not called: it unwraps what
/// `by_name_decrypt` hands over, and would panic on an entry that carries
/// encryption data without being marked as encrypted. The reader of this
/// version of `zip` adds the offsets of an archive with checked sums, and
/// reports an archive whose offsets do not fit as invalid.
#[verifier::external_body]
fn read_entry(archive: &[u8], name: &str) -> (entry: Option<Vec<u8>>)
    ensures
        entry matches Some(bytes) ==> archive_entry(archive@, name@) == Some(bytes@),
        entry is None ==> archive_entry(archive@, name@) is None,
{
    let mut zip = ZipArchive::new(Cursor::new(archive)).ok()?;
    let mut file = zip.by_name_decrypt(name, &[]).ok()?.ok()?;
    let mut bytes = Vec::new();
    file.read_to_end(&mut bytes).ok()?;
    Some(bytes)
}

/// The result of looking an entry up, with every failure counted as an
/// unreadable archive.
pub open spec fn entry_of(archive: Seq<u8>, name: Seq<char>) -> Result<Seq<u8>, ExtractError> {
    match archive_entry(archive, name) {
        Some(bytes) => Ok(bytes),
        None => Err(ExtractError::ArchiveUnreadable),
    }
}

/// The view of a byte string or a failure.
pub open spec fn bytes_or_error(found: Result<Vec<u8>, ExtractError>) -> Result<
    Seq<u8>,
    ExtractError,
> {
    match found {
        Ok(bytes) => Ok(bytes@),
        Err(error) => Err(error),
    }
}

/// Reads one entry of an archive.
pub fn entry(archive: &[u8], name: &str) -> (found: Result<Vec<u8>, ExtractError>)
    ensures
        bytes_or_error(found) == entry_of(archive@, name@),
{
    match read_entry(archive, name) {
        Some(bytes) => Ok(bytes),
        None => Err(ExtractError::ArchiveUnreadable),
    }
}

} // verus!
