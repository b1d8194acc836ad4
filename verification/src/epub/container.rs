//! The container document, which names the package document of a book.

use crate::bytes::same;
use crate::bytes::starts_with;
use crate::epub::package::attribute;
use crate::epub::package::find_attribute;
use crate::error::ExtractError;
use crate::text::from_utf8;
use crate::xml::Attribute;
use crate::xml::AttributeView;
use crate::xml::document_events;
use crate::xml::EventView;
use crate::xml::local_name;
use crate::xml::local_part;
use crate::xml::read_events;
use crate::xml::XmlEvent;
use vstd::prelude::*;
use vstd::slice::slice_subrange;
use vstd::slice::slice_to_vec;
use vstd::string::StringSliceAdditionalSpecFns;
use vstd::utf8::decode_utf8;
use vstd::utf8::valid_utf8;

verus! {

/// The byte order mark that some producers put before a document.
pub open spec fn byte_order_mark() -> Seq<u8> {
    seq![0xEFu8, 0xBBu8, 0xBFu8]
}

/// The document without a leading byte order mark.
pub open spec fn without_mark(document: Seq<u8>) -> Seq<u8> {
    if byte_order_mark().is_prefix_of(document) {
        document.skip(3)
    } else {
        document
    }
}

/// The path that a `rootfile` element names, if it names one: `Ok(None)`
/// without a `full-path` attribute, a failure where the attributes are
/// malformed.
pub open spec fn named_path(attributes: Option<Seq<AttributeView>>) -> Result<
    Option<Seq<u8>>,
    ExtractError,
> {
    match attributes {
        None => Err(ExtractError::MalformedContainer),
        Some(attributes) => match attribute(attributes, "full-path".spec_bytes()) {
            Some(path) => Ok(Some(path.value)),
            None => Ok(None),
        },
    }
}

/// What one event of the container document says of the package document:
/// `Ok(Some(..))` is its path, `Ok(None)` nothing, a failure ends the search.
pub open spec fn rootfile_in(event: EventView) -> Result<Option<Seq<u8>>, ExtractError> {
    match event {
        EventView::Start { name, attributes } => if local_part(name) == "rootfile".spec_bytes() {
            named_path(attributes)
        } else {
            Ok(None)
        },
        EventView::Empty { name, attributes } => if local_part(name) == "rootfile".spec_bytes() {
            named_path(attributes)
        } else {
            Ok(None)
        },
        EventView::Eof => Err(ExtractError::MalformedContainer),
        EventView::Malformed => Err(ExtractError::MalformedContainer),
        _ => Ok(None),
    }
}

/// The path of the package document: the `full-path` of the first
/// `rootfile` element that has one. The search fails at the end of the
/// document, at its first error, and at a `rootfile` with malformed
/// attributes.
pub open spec fn rootfile_of(events: Seq<EventView>) -> Result<Seq<u8>, ExtractError>
    decreases events.len(),
{
    if events.len() == 0 {
        Err(ExtractError::MalformedContainer)
    } else {
        match rootfile_in(events[0]) {
            Ok(Some(path)) => Ok(path),
            Ok(None) => rootfile_of(events.skip(1)),
            Err(error) => Err(error),
        }
    }
}

/// The path of the package document as text.
pub open spec fn rootfile_path(events: Seq<EventView>) -> Result<Seq<char>, ExtractError> {
    match rootfile_of(events) {
        Ok(path) => if valid_utf8(path) {
            Ok(decode_utf8(path))
        } else {
            Err(ExtractError::MalformedContainer)
        },
        Err(error) => Err(error),
    }
}

/// The path of the package document that a container document names. The
/// document has to be valid UTF-8; a byte order mark before it is passed
/// over.
pub open spec fn container_rootfile(container: Seq<u8>) -> Result<Seq<char>, ExtractError> {
    if valid_utf8(container) {
        rootfile_path(document_events(without_mark(container)))
    } else {
        Err(ExtractError::MalformedContainer)
    }
}

/// The view of a text or a failure.
pub open spec fn text_or_error(result: Result<String, ExtractError>) -> Result<
    Seq<char>,
    ExtractError,
> {
    match result {
        Ok(text) => Ok(text@),
        Err(error) => Err(error),
    }
}

fn path_in(attributes: &Option<Vec<Attribute>>) -> (found: Result<Option<Vec<u8>>, ExtractError>)
    ensures
        match found {
            Ok(path) => Ok(crate::xml::optional_bytes(path)),
            Err(error) => Err(error),
        } == named_path(crate::xml::optional_attributes(*attributes)),
{
    match attributes {
        None => Err(ExtractError::MalformedContainer),
        Some(attributes) => match find_attribute(attributes, "full-path".as_bytes()) {
            Some(index) => Ok(Some(slice_to_vec(attributes[index].value.as_slice()))),
            None => Ok(None),
        },
    }
}

/// Finds the path of the package document among the events of a container
/// document.
pub fn find_rootfile(events: &Vec<XmlEvent>) -> (path: Result<String, ExtractError>)
    ensures
        text_or_error(path) == rootfile_path(events.deep_view()),
{
    let ghost all = events.deep_view();
    let mut i: usize = 0;
    assert(all.skip(0) =~= all);
    while i < events.len()
        invariant
            i <= events.len(),
            all == events.deep_view(),
            rootfile_of(all) == rootfile_of(all.skip(i as int)),
        decreases events.len() - i,
    {
        assert(all.skip(i as int)[0] == events[i as int]@);
        assert(all.skip(i as int).skip(1) =~= all.skip(i + 1));
        let found = match &events[i] {
            XmlEvent::Start { name, attributes } => {
                if same(local_name(name.as_slice()), "rootfile".as_bytes()) {
                    path_in(attributes)
                } else {
                    Ok(None)
                }
            },
            XmlEvent::Empty { name, attributes } => {
                if same(local_name(name.as_slice()), "rootfile".as_bytes()) {
                    path_in(attributes)
                } else {
                    Ok(None)
                }
            },
            XmlEvent::Eof => Err(ExtractError::MalformedContainer),
            XmlEvent::Malformed => Err(ExtractError::MalformedContainer),
            _ => Ok(None),
        };
        match found {
            Ok(Some(path)) => {
                return match from_utf8(path) {
                    Some(path) => Ok(path),
                    None => Err(ExtractError::MalformedContainer),
                };
            },
            Ok(None) => {},
            Err(error) => {
                return Err(error);
            },
        }
        i += 1;
    }
    Err(ExtractError::MalformedContainer)
}

/// Reads the path of the package document out of the bytes of a container
/// document.
pub fn parse_container(container: &[u8]) -> (path: Result<String, ExtractError>)
    ensures
        text_or_error(path) == container_rootfile(container@),
{
    if from_utf8(slice_to_vec(container)).is_none() {
        return Err(ExtractError::MalformedContainer);
    }
    let mark: [u8; 3] = [0xEF, 0xBB, 0xBF];
    assert(mark@ =~= byte_order_mark());
    let document = if starts_with(container, mark.as_slice()) {
        slice_subrange(container, 3, container.len())
    } else {
        container
    };
    assert(document@ =~= without_mark(container@));
    let events = read_events(document);
    find_rootfile(&events)
}

} // verus!
