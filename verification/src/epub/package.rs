//! The package document, read as a single pass over its events.
//!
//! Two generations of the format are in use. The legacy one annotates a
//! `creator` element with attributes; the current one gives it an `id`, to
//! which later `meta` elements refer. Which of the two a document follows is
//! known from its root element, and decides how every later event is read.

use crate::bytes::ends_with;
use crate::bytes::same;
use crate::bytes::starts_with;
use crate::epub::Author;
use crate::epub::AuthorView;
use crate::epub::contributors::assign_name;
use crate::epub::contributors::assign_role;
use crate::epub::contributors::assign_sort_key;
use crate::epub::contributors::clear;
use crate::epub::contributors::Contributor;
use crate::epub::contributors::ContributorView;
use crate::epub::contributors::find;
use crate::epub::contributors::index_of;
use crate::epub::contributors::reset;
use crate::epub::contributors::set_name;
use crate::epub::contributors::set_role;
use crate::epub::contributors::set_sort_key;
use crate::epub::EpubMetadata;
use crate::epub::MetadataView;
use crate::epub::Series;
use crate::epub::SeriesView;
use crate::error::ExtractError;
use crate::numeral::decimal;
use crate::numeral::parse_truncated;
use crate::numeral::push_decimal;
use crate::numeral::truncated;
use crate::text::from_utf8;
use crate::xml::Attribute;
use crate::xml::AttributeView;
use crate::xml::document_events;
use crate::xml::EventView;
use crate::xml::local_name;
use crate::xml::local_part;
use crate::xml::read_events;
use crate::xml::XmlEvent;
use vstd::prelude::*;
use vstd::slice::slice_to_vec;
use vstd::string::StringSliceAdditionalSpecFns;
use vstd::utf8::decode_utf8;
use vstd::utf8::valid_utf8;

verus! {

/// The generation of the format that a package document follows.
#[derive(Clone, Copy, Debug, PartialEq, Eq, Structural)]
pub enum Dialect {
    /// Role and sort key are attributes of the `creator` element itself.
    Legacy,
    /// Role and sort key stand in `meta` elements that refine a `creator`.
    Current,
}

/// What is known when a part of the document has been read.
pub struct ParserState {
    pub dialect: Dialect,
    /// The key of the contributor that the next captured text belongs to.
    pub current: Vec<u8>,
    /// The next text is the name of the current contributor.
    pub awaiting_name: bool,
    /// The next text is the sort key of the current contributor.
    pub awaiting_file_as: bool,
    /// The next text is the role of the current contributor.
    pub awaiting_role: bool,
    /// The next text is the genre.
    pub awaiting_genre: bool,
    /// The next text is the name of the series.
    pub awaiting_series: bool,
    /// The next text is the position in the series.
    pub awaiting_series_index: bool,
    pub contributors: Vec<Contributor>,
    pub genre: Vec<u8>,
    pub series_name: Vec<u8>,
    pub series_index: i32,
}

/// The view of a [`ParserState`].
pub struct StateView {
    pub dialect: Dialect,
    pub current: Seq<u8>,
    pub awaiting_name: bool,
    pub awaiting_file_as: bool,
    pub awaiting_role: bool,
    pub awaiting_genre: bool,
    pub awaiting_series: bool,
    pub awaiting_series_index: bool,
    pub contributors: Seq<ContributorView>,
    pub genre: Seq<u8>,
    pub series_name: Seq<u8>,
    pub series_index: i32,
}

impl View for ParserState {
    type V = StateView;

    open spec fn view(&self) -> StateView {
        StateView {
            dialect: self.dialect,
            current: self.current@,
            awaiting_name: self.awaiting_name,
            awaiting_file_as: self.awaiting_file_as,
            awaiting_role: self.awaiting_role,
            awaiting_genre: self.awaiting_genre,
            awaiting_series: self.awaiting_series,
            awaiting_series_index: self.awaiting_series_index,
            contributors: self.contributors.deep_view(),
            genre: self.genre@,
            series_name: self.series_name@,
            series_index: self.series_index,
        }
    }
}

/// The view of a state or a failure.
pub open spec fn outcome(result: Result<ParserState, ExtractError>) -> Result<
    StateView,
    ExtractError,
> {
    match result {
        Ok(state) => Ok(state@),
        Err(error) => Err(error),
    }
}

/// The state before anything is read: the legacy dialect, nothing awaited,
/// nothing known.
pub open spec fn initial_state() -> StateView {
    StateView {
        dialect: Dialect::Legacy,
        current: Seq::empty(),
        awaiting_name: false,
        awaiting_file_as: false,
        awaiting_role: false,
        awaiting_genre: false,
        awaiting_series: false,
        awaiting_series_index: false,
        contributors: Seq::empty(),
        genre: Seq::empty(),
        series_name: Seq::empty(),
        series_index: 0,
    }
}

/// The role of an author.
pub open spec fn author_role() -> Seq<u8> {
    "aut".spec_bytes()
}

/// The first attribute with the given key.
pub open spec fn attribute(attributes: Seq<AttributeView>, key: Seq<u8>) -> Option<AttributeView>
    decreases attributes.len(),
{
    if attributes.len() == 0 {
        None
    } else if attributes[0].key == key {
        Some(attributes[0])
    } else {
        attribute(attributes.skip(1), key)
    }
}

/// The first attribute whose key ends with `suffix`, whatever namespace
/// prefix it has.
pub open spec fn attribute_ending(attributes: Seq<AttributeView>, suffix: Seq<u8>) -> Option<
    AttributeView,
>
    decreases attributes.len(),
{
    if attributes.len() == 0 {
        None
    } else if suffix.is_suffix_of(attributes[0].key) {
        Some(attributes[0])
    } else {
        attribute_ending(attributes.skip(1), suffix)
    }
}

/// The value of an attribute with its escapes resolved, empty where one of
/// them is invalid.
pub open spec fn resolved(attribute: AttributeView) -> Seq<u8> {
    match attribute.unescaped {
        Some(text) => text,
        None => Seq::empty(),
    }
}

/// The attribute is there and its value, as written, ends with `suffix`.
pub open spec fn value_ends_with(found: Option<AttributeView>, suffix: Seq<u8>) -> bool {
    found matches Some(attribute) && suffix.is_suffix_of(attribute.value)
}

/// The root element declares the current dialect: its `version` begins
/// with `3`.
pub open spec fn declares_current(attributes: Seq<AttributeView>) -> bool {
    attribute(attributes, "version".spec_bytes()) matches Some(version) && "3".spec_bytes()
        .is_prefix_of(version.value)
}

/// The key of a contributor that the document itself gives none: `none` and
/// the number of contributors known so far.
pub open spec fn positional_key(count: nat) -> Seq<u8> {
    "none".spec_bytes() + decimal(count)
}

/// The key under which `meta` elements refer to the element with this `id`.
pub open spec fn reference_key(id: Seq<u8>) -> Seq<u8> {
    "#".spec_bytes() + id
}

/// The contributors after the text of a legacy `creator`: the text is the
/// name of the current contributor, who counts as an author unless the
/// element has said otherwise.
pub open spec fn credit(all: Seq<ContributorView>, key: Seq<u8>, name: Seq<u8>) -> Seq<
    ContributorView,
> {
    match index_of(all, key) {
        Some(index) => all.update(index, ContributorView { name, ..all[index] }),
        None => all.push(
            ContributorView { key, name, sort_key: Seq::empty(), role: author_role() },
        ),
    }
}

/// The state after the opening tag of a `creator`: the element becomes the
/// current contributor, and its text is awaited as the name.
///
/// In the current dialect the key is made of the `id`, and what was known
/// under this key is forgotten; without an `id` the key is made of the
/// position, and the contributor counts as an author.
///
/// In the legacy dialect every element is a contributor of its own, under
/// the key of its position. An attribute whose name ends with `file-as`
/// gives the sort key, and makes the contributor an author; without it, an
/// attribute whose name ends with `role` gives the role.
pub open spec fn start_creator(state: StateView, attributes: Seq<AttributeView>) -> StateView {
    let all = state.contributors;
    match state.dialect {
        Dialect::Current => match attribute(attributes, "id".spec_bytes()) {
            Some(id) => StateView {
                awaiting_name: true,
                current: reference_key(id.value),
                contributors: reset(all, reference_key(id.value)),
                ..state
            },
            None => StateView {
                awaiting_name: true,
                current: positional_key(all.len()),
                contributors: set_role(all, positional_key(all.len()), author_role()),
                ..state
            },
        },
        Dialect::Legacy => {
            let key = positional_key(all.len());
            match attribute_ending(attributes, "file-as".spec_bytes()) {
                Some(file_as) => StateView {
                    awaiting_name: true,
                    current: key,
                    contributors: set_role(
                        set_sort_key(all, key, resolved(file_as)),
                        key,
                        author_role(),
                    ),
                    ..state
                },
                None => match attribute_ending(attributes, "role".spec_bytes()) {
                    Some(role) => StateView {
                        awaiting_name: true,
                        current: key,
                        contributors: set_role(all, key, resolved(role)),
                        ..state
                    },
                    None => StateView { awaiting_name: true, current: key, ..state },
                },
            }
        },
    }
}

/// The state after the opening tag of a `meta` of the current dialect. The
/// end of its `property` tells what the text of the element is: with a
/// `refines`, the sort key (`file-as`) or the role (`role`) of the
/// contributor that is referred to, or the position in the series
/// (`group-position`); with or without it, the name of the series
/// (`belongs-to-collection`).
pub open spec fn start_meta(state: StateView, attributes: Seq<AttributeView>) -> StateView {
    let property = attribute(attributes, "property".spec_bytes());
    let refined = match attribute(attributes, "refines".spec_bytes()) {
        Some(target) => if value_ends_with(property, "file-as".spec_bytes()) {
            StateView { current: target.value, awaiting_file_as: true, ..state }
        } else if value_ends_with(property, "role".spec_bytes()) {
            StateView { current: target.value, awaiting_role: true, ..state }
        } else if value_ends_with(property, "group-position".spec_bytes()) {
            StateView { awaiting_series_index: true, ..state }
        } else {
            state
        },
        None => state,
    };
    if value_ends_with(property, "belongs-to-collection".spec_bytes()) {
        StateView { awaiting_series: true, ..refined }
    } else {
        refined
    }
}

/// The state after a self-closing `meta` of the legacy dialect. A `name`
/// that ends with `series` makes the `content` the name of the series, one
/// that ends with `series_index` makes it the position in the series. A
/// `name` with an invalid escape, or such a `meta` without `content`, fails
/// the document.
pub open spec fn empty_meta(state: StateView, attributes: Seq<AttributeView>) -> Result<
    StateView,
    ExtractError,
> {
    match attribute(attributes, "name".spec_bytes()) {
        None => Ok(state),
        Some(label) => match label.unescaped {
            None => Err(ExtractError::MalformedPackage),
            Some(label) => if "series".spec_bytes().is_suffix_of(label) {
                match attribute(attributes, "content".spec_bytes()) {
                    Some(content) => Ok(StateView { series_name: resolved(content), ..state }),
                    None => Err(ExtractError::MalformedPackage),
                }
            } else if "series_index".spec_bytes().is_suffix_of(label) {
                match attribute(attributes, "content".spec_bytes()) {
                    Some(content) => Ok(
                        StateView { series_index: truncated(resolved(content)) as i32, ..state },
                    ),
                    None => Err(ExtractError::MalformedPackage),
                }
            } else {
                Ok(state)
            },
        },
    }
}

/// The state after a text. The text goes to what awaits it: first a name,
/// then, in the current dialect, a sort key, role, series or position, and
/// last the genre, of which the first that is not empty stays.
pub open spec fn text(state: StateView, raw: Seq<u8>, unescaped: Option<Seq<u8>>) -> Result<
    StateView,
    ExtractError,
> {
    let all = state.contributors;
    let current = state.dialect == Dialect::Current;
    if state.awaiting_name {
        Ok(
            StateView {
                awaiting_name: false,
                contributors: if current {
                    set_name(all, state.current, raw)
                } else {
                    credit(all, state.current, raw)
                },
                ..state
            },
        )
    } else if current && state.awaiting_file_as {
        Ok(
            StateView {
                awaiting_file_as: false,
                contributors: set_sort_key(all, state.current, raw),
                ..state
            },
        )
    } else if current && state.awaiting_role {
        Ok(
            StateView {
                awaiting_role: false,
                contributors: set_role(all, state.current, raw),
                ..state
            },
        )
    } else if current && state.awaiting_series {
        Ok(StateView { awaiting_series: false, series_name: raw, ..state })
    } else if current && state.awaiting_series_index {
        Ok(StateView { awaiting_series_index: false, series_index: truncated(raw) as i32, ..state })
    } else if state.awaiting_genre {
        if state.genre.len() > 0 {
            Ok(StateView { awaiting_genre: false, ..state })
        } else {
            match unescaped {
                Some(genre) => Ok(StateView { awaiting_genre: false, genre, ..state }),
                None => Err(ExtractError::MalformedPackage),
            }
        }
    } else {
        Ok(state)
    }
}

/// The state after an opening tag. The root element `package` tells the
/// dialect, a `creator` is a contributor, a `meta` refines one in the current
/// dialect, and a `subject` makes its text awaited as the genre. Where the
/// attributes of a `package`, `creator` or `meta` are wanted and malformed,
/// the document fails.
pub open spec fn start(
    state: StateView,
    name: Seq<u8>,
    attributes: Option<Seq<AttributeView>>,
) -> Result<StateView, ExtractError> {
    let local = local_part(name);
    if local == "package".spec_bytes() {
        match attributes {
            Some(attributes) => Ok(
                if declares_current(attributes) {
                    StateView { dialect: Dialect::Current, ..state }
                } else {
                    state
                },
            ),
            None => Err(ExtractError::MalformedPackage),
        }
    } else if local == "creator".spec_bytes() {
        match attributes {
            Some(attributes) => Ok(start_creator(state, attributes)),
            None => Err(ExtractError::MalformedPackage),
        }
    } else if local == "meta".spec_bytes() && state.dialect == Dialect::Current {
        match attributes {
            Some(attributes) => Ok(start_meta(state, attributes)),
            None => Err(ExtractError::MalformedPackage),
        }
    } else if local == "subject".spec_bytes() {
        Ok(StateView { awaiting_genre: true, ..state })
    } else {
        Ok(state)
    }
}

/// The state after one event, or the failure where the event cannot be read.
pub open spec fn step(state: StateView, event: EventView) -> Result<StateView, ExtractError> {
    match event {
        EventView::Start { name, attributes } => start(state, name, attributes),
        EventView::Empty { name, attributes } => if local_part(name) == "meta".spec_bytes()
            && state.dialect == Dialect::Legacy {
            match attributes {
                Some(attributes) => empty_meta(state, attributes),
                None => Err(ExtractError::MalformedPackage),
            }
        } else {
            Ok(state)
        },
        EventView::Text { raw, unescaped } => text(state, raw, unescaped),
        _ => Ok(state),
    }
}

/// The state at the end of the document: the events are read in order up to
/// the first `Eof`. A `Malformed` before that fails the document.
pub open spec fn scan(state: StateView, events: Seq<EventView>) -> Result<StateView, ExtractError>
    decreases events.len(),
{
    if events.len() == 0 {
        Ok(state)
    } else {
        match events[0] {
            EventView::Eof => Ok(state),
            EventView::Malformed => Err(ExtractError::MalformedPackage),
            event => match step(state, event) {
                Ok(next) => scan(next, events.skip(1)),
                Err(error) => Err(error),
            },
        }
    }
}

impl ParserState {
    /// The state before anything is read.
    pub fn new() -> (state: Self)
        ensures
            state@ == initial_state(),
    {
        let state = ParserState {
            dialect: Dialect::Legacy,
            current: Vec::new(),
            awaiting_name: false,
            awaiting_file_as: false,
            awaiting_role: false,
            awaiting_genre: false,
            awaiting_series: false,
            awaiting_series_index: false,
            contributors: Vec::new(),
            genre: Vec::new(),
            series_name: Vec::new(),
            series_index: 0,
        };
        assert(state.contributors.deep_view() =~= Seq::empty());
        state
    }
}

/// The view of an attribute that may be missing.
pub open spec fn found_attribute(attributes: &Vec<Attribute>, found: Option<usize>) -> Option<
    AttributeView,
> {
    match found {
        Some(index) => Some(attributes[index as int]@),
        None => None,
    }
}

/// Looks an attribute up by its key.
pub fn find_attribute(attributes: &Vec<Attribute>, key: &[u8]) -> (found: Option<usize>)
    ensures
        found matches Some(index) ==> index < attributes.len(),
        found_attribute(attributes, found) == attribute(attributes.deep_view(), key@),
{
    let ghost all = attributes.deep_view();
    let mut i: usize = 0;
    assert(all.skip(0) =~= all);
    while i < attributes.len()
        invariant
            i <= attributes.len(),
            all == attributes.deep_view(),
            attribute(all, key@) == attribute(all.skip(i as int), key@),
        decreases attributes.len() - i,
    {
        assert(all.skip(i as int)[0] == attributes[i as int]@);
        if same(attributes[i].key.as_slice(), key) {
            return Some(i);
        }
        assert(all.skip(i as int).skip(1) =~= all.skip(i + 1));
        i += 1;
    }
    None
}

/// Looks an attribute up by the end of its key.
pub fn find_attribute_ending(attributes: &Vec<Attribute>, suffix: &[u8]) -> (found: Option<usize>)
    ensures
        found matches Some(index) ==> index < attributes.len(),
        found_attribute(attributes, found) == attribute_ending(attributes.deep_view(), suffix@),
{
    let ghost all = attributes.deep_view();
    let mut i: usize = 0;
    assert(all.skip(0) =~= all);
    while i < attributes.len()
        invariant
            i <= attributes.len(),
            all == attributes.deep_view(),
            attribute_ending(all, suffix@) == attribute_ending(all.skip(i as int), suffix@),
        decreases attributes.len() - i,
    {
        assert(all.skip(i as int)[0] == attributes[i as int]@);
        if ends_with(attributes[i].key.as_slice(), suffix) {
            return Some(i);
        }
        assert(all.skip(i as int).skip(1) =~= all.skip(i + 1));
        i += 1;
    }
    None
}

/// The value of an attribute with its escapes resolved, empty where one of
/// them is invalid.
pub fn resolved_value(attribute: &Attribute) -> (value: Vec<u8>)
    ensures
        value@ == resolved(attribute@),
{
    match &attribute.unescaped {
        Some(text) => slice_to_vec(text.as_slice()),
        None => Vec::new(),
    }
}

/// Whether the attribute is there and its value, as written, ends with
/// `suffix`.
fn value_has_suffix(attributes: &Vec<Attribute>, found: Option<usize>, suffix: &[u8]) -> (yes:
    bool)
    requires
        found matches Some(index) ==> index < attributes.len(),
    ensures
        yes == value_ends_with(found_attribute(attributes, found), suffix@),
{
    match found {
        Some(index) => ends_with(attributes[index].value.as_slice(), suffix),
        None => false,
    }
}

/// The key of a contributor that the document itself gives none.
pub fn key_for_position(count: usize) -> (key: Vec<u8>)
    ensures
        key@ == positional_key(count as nat),
{
    let mut key = slice_to_vec("none".as_bytes());
    push_decimal(&mut key, count);
    key
}

/// The key under which `meta` elements refer to the element with this `id`.
pub fn key_for_reference(id: &[u8]) -> (key: Vec<u8>)
    ensures
        key@ == reference_key(id@),
{
    let mut key = slice_to_vec("#".as_bytes());
    key.extend_from_slice(id);
    key
}

/// Records the text of a legacy `creator`.
pub fn give_credit(all: &mut Vec<Contributor>, key: &[u8], name: Vec<u8>)
    ensures
        final(all).deep_view() == credit(old(all).deep_view(), key@, name@),
{
    let ghost entries = all.deep_view();
    match find(all, key) {
        Some(index) => {
            proof {
                crate::epub::contributors::lemma_index_of(entries, key@);
            }
            all[index].name = name;
            assert(all.deep_view() =~= entries.update(
                index as int,
                ContributorView { name: name@, ..entries[index as int] },
            ));
        },
        None => {
            all.push(
                Contributor {
                    key: slice_to_vec(key),
                    name,
                    sort_key: Vec::new(),
                    role: slice_to_vec("aut".as_bytes()),
                },
            );
            assert(all.deep_view() =~= entries.push(
                ContributorView {
                    key: key@,
                    name: name@,
                    sort_key: Seq::empty(),
                    role: author_role(),
                },
            ));
        },
    }
}

/// Reads the opening tag of a `creator`.
pub fn on_creator(state: ParserState, attributes: &Vec<Attribute>) -> (next: ParserState)
    ensures
        next@ == start_creator(state@, attributes.deep_view()),
{
    let mut state = state;
    state.awaiting_name = true;
    match state.dialect {
        Dialect::Current => match find_attribute(attributes, "id".as_bytes()) {
            Some(index) => {
                let key = key_for_reference(attributes[index].value.as_slice());
                clear(&mut state.contributors, key.as_slice());
                state.current = key;
            },
            None => {
                let key = key_for_position(state.contributors.len());
                assign_role(
                    &mut state.contributors,
                    key.as_slice(),
                    slice_to_vec("aut".as_bytes()),
                );
                state.current = key;
            },
        },
        Dialect::Legacy => {
            let key = key_for_position(state.contributors.len());
            match find_attribute_ending(attributes, "file-as".as_bytes()) {
                Some(index) => {
                    let sort_key = resolved_value(&attributes[index]);
                    assign_sort_key(&mut state.contributors, key.as_slice(), sort_key);
                    assign_role(
                        &mut state.contributors,
                        key.as_slice(),
                        slice_to_vec("aut".as_bytes()),
                    );
                },
                None => match find_attribute_ending(attributes, "role".as_bytes()) {
                    Some(index) => {
                        let role = resolved_value(&attributes[index]);
                        assign_role(&mut state.contributors, key.as_slice(), role);
                    },
                    None => {},
                },
            }
            state.current = key;
        },
    }
    state
}

/// Reads the opening tag of a `meta` of the current dialect.
pub fn on_meta(state: ParserState, attributes: &Vec<Attribute>) -> (next: ParserState)
    ensures
        next@ == start_meta(state@, attributes.deep_view()),
{
    let mut state = state;
    let property = find_attribute(attributes, "property".as_bytes());
    match find_attribute(attributes, "refines".as_bytes()) {
        Some(target) => {
            if value_has_suffix(attributes, property, "file-as".as_bytes()) {
                state.current = slice_to_vec(attributes[target].value.as_slice());
                state.awaiting_file_as = true;
            } else if value_has_suffix(attributes, property, "role".as_bytes()) {
                state.current = slice_to_vec(attributes[target].value.as_slice());
                state.awaiting_role = true;
            } else if value_has_suffix(attributes, property, "group-position".as_bytes()) {
                state.awaiting_series_index = true;
            }
        },
        None => {},
    }
    if value_has_suffix(attributes, property, "belongs-to-collection".as_bytes()) {
        state.awaiting_series = true;
    }
    state
}

/// Reads a self-closing `meta` of the legacy dialect.
pub fn on_empty_meta(state: ParserState, attributes: &Vec<Attribute>) -> (next: Result<
    ParserState,
    ExtractError,
>)
    ensures
        outcome(next) == empty_meta(state@, attributes.deep_view()),
{
    let mut state = state;
    let label = match find_attribute(attributes, "name".as_bytes()) {
        Some(index) => index,
        None => {
            return Ok(state);
        },
    };
    let label = match &attributes[label].unescaped {
        Some(label) => label,
        None => {
            return Err(ExtractError::MalformedPackage);
        },
    };
    let content = find_attribute(attributes, "content".as_bytes());
    if ends_with(label.as_slice(), "series".as_bytes()) {
        match content {
            Some(content) => {
                state.series_name = resolved_value(&attributes[content]);
                Ok(state)
            },
            None => Err(ExtractError::MalformedPackage),
        }
    } else if ends_with(label.as_slice(), "series_index".as_bytes()) {
        match content {
            Some(content) => {
                let position = resolved_value(&attributes[content]);
                state.series_index = parse_truncated(position.as_slice());
                Ok(state)
            },
            None => Err(ExtractError::MalformedPackage),
        }
    } else {
        Ok(state)
    }
}

/// Reads a text.
pub fn on_text(state: ParserState, raw: &[u8], unescaped: &Option<Vec<u8>>) -> (next: Result<
    ParserState,
    ExtractError,
>)
    ensures
        outcome(next) == text(state@, raw@, crate::xml::optional_bytes(*unescaped)),
{
    let mut state = state;
    let current = match state.dialect {
        Dialect::Current => true,
        Dialect::Legacy => false,
    };
    if state.awaiting_name {
        state.awaiting_name = false;
        if current {
            assign_name(&mut state.contributors, state.current.as_slice(), slice_to_vec(raw));
        } else {
            give_credit(&mut state.contributors, state.current.as_slice(), slice_to_vec(raw));
        }
    } else if current && state.awaiting_file_as {
        state.awaiting_file_as = false;
        assign_sort_key(&mut state.contributors, state.current.as_slice(), slice_to_vec(raw));
    } else if current && state.awaiting_role {
        state.awaiting_role = false;
        assign_role(&mut state.contributors, state.current.as_slice(), slice_to_vec(raw));
    } else if current && state.awaiting_series {
        state.awaiting_series = false;
        state.series_name = slice_to_vec(raw);
    } else if current && state.awaiting_series_index {
        state.awaiting_series_index = false;
        state.series_index = parse_truncated(raw);
    } else if state.awaiting_genre {
        state.awaiting_genre = false;
        if state.genre.len() == 0 {
            match unescaped {
                Some(genre) => {
                    state.genre = slice_to_vec(genre.as_slice());
                },
                None => {
                    return Err(ExtractError::MalformedPackage);
                },
            }
        }
    }
    Ok(state)
}

/// Reads one event.
pub fn step_event(state: ParserState, event: &XmlEvent) -> (next: Result<ParserState, ExtractError>)
    ensures
        outcome(next) == step(state@, event@),
{
    let mut state = state;
    match event {
        XmlEvent::Start { name, attributes } => {
            let local = local_name(name.as_slice());
            if same(local, "package".as_bytes()) {
                match attributes {
                    Some(attributes) => {
                        let version = find_attribute(attributes, "version".as_bytes());
                        match version {
                            Some(index) => {
                                if starts_with(
                                    attributes[index].value.as_slice(),
                                    "3".as_bytes(),
                                ) {
                                    state.dialect = Dialect::Current;
                                }
                            },
                            None => {},
                        }
                        Ok(state)
                    },
                    None => Err(ExtractError::MalformedPackage),
                }
            } else if same(local, "creator".as_bytes()) {
                match attributes {
                    Some(attributes) => Ok(on_creator(state, attributes)),
                    None => Err(ExtractError::MalformedPackage),
                }
            } else if same(local, "meta".as_bytes()) && state.dialect == Dialect::Current {
                match attributes {
                    Some(attributes) => Ok(on_meta(state, attributes)),
                    None => Err(ExtractError::MalformedPackage),
                }
            } else if same(local, "subject".as_bytes()) {
                state.awaiting_genre = true;
                Ok(state)
            } else {
                Ok(state)
            }
        },
        XmlEvent::Empty { name, attributes } => {
            let local = local_name(name.as_slice());
            if same(local, "meta".as_bytes()) && state.dialect == Dialect::Legacy {
                match attributes {
                    Some(attributes) => on_empty_meta(state, attributes),
                    None => Err(ExtractError::MalformedPackage),
                }
            } else {
                Ok(state)
            }
        },
        XmlEvent::Text { raw, unescaped } => on_text(state, raw.as_slice(), unescaped),
        _ => Ok(state),
    }
}

/// Reads the events of a document up to its end.
pub fn scan_events(events: &Vec<XmlEvent>) -> (last: Result<ParserState, ExtractError>)
    ensures
        outcome(last) == scan(initial_state(), events.deep_view()),
{
    let ghost all = events.deep_view();
    let mut state = ParserState::new();
    let mut i: usize = 0;
    assert(all.skip(0) =~= all);
    while i < events.len()
        invariant
            i <= events.len(),
            all == events.deep_view(),
            scan(initial_state(), all) == scan(state@, all.skip(i as int)),
        decreases events.len() - i,
    {
        assert(all.skip(i as int)[0] == events[i as int]@);
        assert(all.skip(i as int).skip(1) =~= all.skip(i + 1));
        match &events[i] {
            XmlEvent::Eof => {
                return Ok(state);
            },
            XmlEvent::Malformed => {
                return Err(ExtractError::MalformedPackage);
            },
            event => {
                match step_event(state, event) {
                    Ok(next) => {
                        state = next;
                    },
                    Err(error) => {
                        return Err(error);
                    },
                }
            },
        }
        i += 1;
    }
    Ok(state)
}

/// A contributor that is listed as an author: the role is that of an author
/// and the name is known.
pub open spec fn is_author(contributor: ContributorView) -> bool {
    contributor.role == author_role() && contributor.name.len() > 0
}

/// The author that a contributor is listed as.
pub open spec fn author_of(contributor: ContributorView) -> AuthorView {
    AuthorView {
        name: decode_utf8(contributor.name),
        firstauthor: decode_utf8(contributor.sort_key),
    }
}

/// The authors among the contributors, in the order of the contributors.
pub open spec fn authors_of(all: Seq<ContributorView>) -> Seq<AuthorView> {
    all.filter(|contributor: ContributorView| is_author(contributor)).map_values(
        |contributor: ContributorView| author_of(contributor),
    )
}

/// All that goes into the metadata is valid UTF-8.
pub open spec fn is_text(state: StateView) -> bool {
    &&& valid_utf8(state.genre)
    &&& valid_utf8(state.series_name)
    &&& forall|i: int|
        0 <= i < state.contributors.len() && is_author(#[trigger] state.contributors[i])
            ==> valid_utf8(state.contributors[i].name) && valid_utf8(
            state.contributors[i].sort_key,
        )
}

/// The metadata that a final state amounts to.
pub open spec fn metadata_of(state: StateView) -> MetadataView {
    MetadataView {
        authors: authors_of(state.contributors),
        genre: decode_utf8(state.genre),
        series: SeriesView { name: decode_utf8(state.series_name), index: state.series_index },
    }
}

/// The metadata of a final state, or the failure where a part of it is no
/// valid UTF-8.
pub open spec fn finished(state: StateView) -> Result<MetadataView, ExtractError> {
    if is_text(state) {
        Ok(metadata_of(state))
    } else {
        Err(ExtractError::MalformedPackage)
    }
}

/// The metadata that a sequence of events holds.
pub open spec fn package_metadata(events: Seq<EventView>) -> Result<MetadataView, ExtractError> {
    match scan(initial_state(), events) {
        Ok(state) => finished(state),
        Err(error) => Err(error),
    }
}

/// The metadata of a package document: the document has to be valid UTF-8,
/// and is then read event by event.
pub open spec fn document_metadata(document: Seq<u8>) -> Result<MetadataView, ExtractError> {
    if valid_utf8(document) {
        package_metadata(document_events(document))
    } else {
        Err(ExtractError::MalformedPackage)
    }
}

/// The view of metadata or a failure.
pub open spec fn metadata_or_error(result: Result<EpubMetadata, ExtractError>) -> Result<
    MetadataView,
    ExtractError,
> {
    match result {
        Ok(metadata) => Ok(metadata@),
        Err(error) => Err(error),
    }
}

/// Every author that is listed stands for a contributor with the role of an
/// author and a name, and every such contributor is listed.
pub proof fn lemma_authors_are_credited(all: Seq<ContributorView>)
    ensures
        authors_of(all).len() <= all.len(),
        forall|i: int|
            #![trigger authors_of(all)[i]]
            0 <= i < authors_of(all).len() ==> exists|j: int|
                #![trigger all[j]]
                0 <= j < all.len() && is_author(all[j]) && authors_of(all)[i] == author_of(all[j]),
        forall|j: int|
            #![trigger all[j]]
            0 <= j < all.len() && is_author(all[j]) ==> exists|i: int|
                #![trigger authors_of(all)[i]]
                0 <= i < authors_of(all).len() && authors_of(all)[i] == author_of(all[j]),
    decreases all.len(),
{
    reveal(Seq::filter);
    let listed = |contributor: ContributorView| is_author(contributor);
    if all.len() > 0 {
        let front = all.drop_last();
        lemma_authors_are_credited(front);
        let before = authors_of(front);
        let after = authors_of(all);
        if is_author(all.last()) {
            assert(all.filter(listed) =~= front.filter(listed).push(all.last()));
            assert(after =~= before.push(author_of(all.last())));
        } else {
            assert(after =~= before);
        }
        assert forall|i: int| #![trigger after[i]] 0 <= i < after.len() implies exists|j: int|
            #![trigger all[j]]
            0 <= j < all.len() && is_author(all[j]) && after[i] == author_of(all[j]) by {
            if i < before.len() {
                let known = before[i];
                let j = choose|j: int|
                    #![trigger front[j]]
                    0 <= j < front.len() && is_author(front[j]) && known == author_of(front[j]);
                assert(all[j] == front[j]);
            } else {
                assert(after[i] == author_of(all[all.len() - 1]));
            }
        }
        assert forall|j: int| #![trigger all[j]] 0 <= j < all.len() && is_author(
            all[j],
        ) implies exists|i: int|
            #![trigger after[i]]
            0 <= i < after.len() && after[i] == author_of(all[j]) by {
            if j < front.len() {
                assert(all[j] == front[j]);
                let i = choose|i: int|
                    #![trigger before[i]]
                    0 <= i < before.len() && before[i] == author_of(front[j]);
                assert(after[i] == before[i]);
            } else {
                assert(after[after.len() - 1] == author_of(all[j]));
            }
        }
    }
}

/// Turns the final state into metadata.
pub fn finish(state: ParserState) -> (metadata: Result<EpubMetadata, ExtractError>)
    ensures
        metadata_or_error(metadata) == finished(state@),
{
    let ghost all = state.contributors.deep_view();
    let mut authors: Vec<Author> = Vec::new();
    let mut i: usize = 0;
    proof {
        reveal(Seq::filter);
        assert(all.take(0) =~= Seq::empty());
        assert(authors.deep_view() =~= authors_of(all.take(0)));
    }
    while i < state.contributors.len()
        invariant
            i <= state.contributors.len(),
            all == state.contributors.deep_view(),
            authors.deep_view() == authors_of(all.take(i as int)),
            forall|j: int|
                0 <= j < i && is_author(#[trigger] all[j]) ==> valid_utf8(all[j].name)
                    && valid_utf8(all[j].sort_key),
        decreases state.contributors.len() - i,
    {
        let contributor = &state.contributors[i];
        let ghost listed = |contributor: ContributorView| is_author(contributor);
        proof {
            reveal(Seq::filter);
            assert(all[i as int] == contributor@);
            assert(all.take(i + 1).drop_last() =~= all.take(i as int));
            assert(all.take(i + 1).last() == all[i as int]);
        }
        if same(contributor.role.as_slice(), "aut".as_bytes()) && contributor.name.len() > 0 {
            let name = from_utf8(slice_to_vec(contributor.name.as_slice()));
            let firstauthor = from_utf8(slice_to_vec(contributor.sort_key.as_slice()));
            match (name, firstauthor) {
                (Some(name), Some(firstauthor)) => {
                    let ghost before = authors.deep_view();
                    authors.push(Author { name, firstauthor });
                    proof {
                        assert(all.take(i + 1).filter(listed) =~= all.take(i as int).filter(
                            listed,
                        ).push(all[i as int]));
                        assert(authors.deep_view() =~= before.push(author_of(all[i as int])));
                        assert(authors.deep_view() =~= authors_of(all.take(i + 1)));
                    }
                },
                _ => {
                    assert(!is_text(state@));
                    return Err(ExtractError::MalformedPackage);
                },
            }
        } else {
            proof {
                assert(all.take(i + 1).filter(listed) =~= all.take(i as int).filter(listed));
            }
        }
        i += 1;
    }
    assert(all.take(i as int) =~= all);
    let genre = from_utf8(state.genre);
    let series_name = from_utf8(state.series_name);
    match (genre, series_name) {
        (Some(genre), Some(name)) => Ok(
            EpubMetadata { authors, genre, series: Series { name, index: state.series_index } },
        ),
        _ => Err(ExtractError::MalformedPackage),
    }
}

/// Reads the metadata out of the events of a package document.
pub fn parse_events(events: &Vec<XmlEvent>) -> (metadata: Result<EpubMetadata, ExtractError>)
    ensures
        metadata_or_error(metadata) == package_metadata(events.deep_view()),
{
    match scan_events(events) {
        Ok(state) => finish(state),
        Err(error) => Err(error),
    }
}

/// Reads the metadata out of the bytes of a package document.
pub fn parse_package(document: &[u8]) -> (metadata: Result<EpubMetadata, ExtractError>)
    ensures
        metadata_or_error(metadata) == document_metadata(document@),
{
    match from_utf8(slice_to_vec(document)) {
        Some(_) => {
            let events = read_events(document);
            parse_events(&events)
        },
        None => Err(ExtractError::MalformedPackage),
    }
}

} // verus!
