//! The events of an XML document.
//!
//! `quick_xml` cuts a document into tags and text, takes the attributes of a
//! tag apart and resolves escapes. What it hands back is gathered here into
//! plain values, the [`XmlEvent`]s, on which the rest of the library works.

use quick_xml::events::BytesStart;
use quick_xml::events::Event;
use quick_xml::Reader;
use vstd::prelude::*;
use vstd::slice::slice_subrange;
use vstd::slice::slice_to_vec;

verus! {

/// The byte `:` that parts a namespace prefix from a local name.
pub const COLON: u8 = 58;

/// The view of an optional byte string.
pub open spec fn optional_bytes(bytes: Option<Vec<u8>>) -> Option<Seq<u8>> {
    match bytes {
        Some(bytes) => Some(bytes@),
        None => None,
    }
}

/// One step of the reader, before the attributes of a tag are taken apart.
pub enum Token {
    /// An opening tag: its qualified name and its whole content, name included.
    Start { name: Vec<u8>, tag: Vec<u8> },
    /// A self-closing tag.
    Empty { name: Vec<u8>, tag: Vec<u8> },
    /// The text between two tags, escapes unresolved.
    Text { content: Vec<u8> },
    /// The end of the document.
    Eof,
    /// A closing tag, comment, declaration or any other markup.
    Other,
    /// The reader gave up on the document.
    Malformed,
}

/// The view of a [`Token`].
pub enum TokenView {
    Start { name: Seq<u8>, tag: Seq<u8> },
    Empty { name: Seq<u8>, tag: Seq<u8> },
    Text { content: Seq<u8> },
    Eof,
    Other,
    Malformed,
}

impl View for Token {
    type V = TokenView;

    open spec fn view(&self) -> TokenView {
        match *self {
            Token::Start { name, tag } => TokenView::Start { name: name@, tag: tag@ },
            Token::Empty { name, tag } => TokenView::Empty { name: name@, tag: tag@ },
            Token::Text { content } => TokenView::Text { content: content@ },
            Token::Eof => TokenView::Eof,
            Token::Other => TokenView::Other,
            Token::Malformed => TokenView::Malformed,
        }
    }
}

/// A pair of key and raw value, as it stands in a tag.
pub struct RawAttribute {
    pub key: Vec<u8>,
    pub value: Vec<u8>,
}

impl View for RawAttribute {
    type V = (Seq<u8>, Seq<u8>);

    open spec fn view(&self) -> (Seq<u8>, Seq<u8>) {
        (self.key@, self.value@)
    }
}

impl DeepView for RawAttribute {
    type V = (Seq<u8>, Seq<u8>);

    open spec fn deep_view(&self) -> (Seq<u8>, Seq<u8>) {
        self@
    }
}

/// An attribute of a tag.
pub struct Attribute {
    pub key: Vec<u8>,
    /// The value as written, escapes unresolved.
    pub value: Vec<u8>,
    /// The value with its escapes resolved, `None` where one of them is invalid.
    pub unescaped: Option<Vec<u8>>,
}

/// The view of an [`Attribute`].
pub struct AttributeView {
    pub key: Seq<u8>,
    pub value: Seq<u8>,
    pub unescaped: Option<Seq<u8>>,
}

impl View for Attribute {
    type V = AttributeView;

    open spec fn view(&self) -> AttributeView {
        AttributeView {
            key: self.key@,
            value: self.value@,
            unescaped: optional_bytes(self.unescaped),
        }
    }
}

impl DeepView for Attribute {
    type V = AttributeView;

    open spec fn deep_view(&self) -> AttributeView {
        self@
    }
}

/// The view of the attributes of a tag, `None` where they are malformed.
pub open spec fn optional_attributes(attributes: Option<Vec<Attribute>>) -> Option<
    Seq<AttributeView>,
> {
    match attributes {
        Some(attributes) => Some(attributes.deep_view()),
        None => None,
    }
}

/// One event of a document.
pub enum XmlEvent {
    /// An opening tag with its qualified name; `attributes` is `None` where
    /// they are malformed.
    Start { name: Vec<u8>, attributes: Option<Vec<Attribute>> },
    /// A self-closing tag.
    Empty { name: Vec<u8>, attributes: Option<Vec<Attribute>> },
    /// Text as written, and with its escapes resolved where they are valid.
    Text { raw: Vec<u8>, unescaped: Option<Vec<u8>> },
    /// The end of the document.
    Eof,
    /// A closing tag, comment, declaration or any other markup.
    Other,
    /// The document is no well-formed XML from here on.
    Malformed,
}

/// The view of an [`XmlEvent`].
pub enum EventView {
    Start { name: Seq<u8>, attributes: Option<Seq<AttributeView>> },
    Empty { name: Seq<u8>, attributes: Option<Seq<AttributeView>> },
    Text { raw: Seq<u8>, unescaped: Option<Seq<u8>> },
    Eof,
    Other,
    Malformed,
}

impl View for XmlEvent {
    type V = EventView;

    open spec fn view(&self) -> EventView {
        match *self {
            XmlEvent::Start { name, attributes } => EventView::Start {
                name: name@,
                attributes: optional_attributes(attributes),
            },
            XmlEvent::Empty { name, attributes } => EventView::Empty {
                name: name@,
                attributes: optional_attributes(attributes),
            },
            XmlEvent::Text { raw, unescaped } => EventView::Text {
                raw: raw@,
                unescaped: optional_bytes(unescaped),
            },
            XmlEvent::Eof => EventView::Eof,
            XmlEvent::Other => EventView::Other,
            XmlEvent::Malformed => EventView::Malformed,
        }
    }
}

impl DeepView for XmlEvent {
    type V = EventView;

    open spec fn deep_view(&self) -> EventView {
        self@
    }
}

/// A token after which the reader yields nothing more.
pub open spec fn is_last(token: TokenView) -> bool {
    token is Eof || token is Malformed
}

/// A stream of tokens that ends with its first `Eof` or `Malformed`.
pub open spec fn is_closed(tokens: Seq<TokenView>) -> bool {
    &&& tokens.len() > 0
    &&& is_last(tokens.last())
    &&& forall|i: int| 0 <= i < tokens.len() - 1 ==> !is_last(#[trigger] tokens[i])
}

/// The tokens that `quick_xml` reads from a document, up to and including the
/// end of the document or the first error.
pub uninterp spec fn document_tokens(xml: Seq<u8>) -> Seq<TokenView>;

/// The tokens that a reader has yet to yield.
pub uninterp spec fn pending_tokens(reader: &TokenReader) -> Seq<TokenView>;

/// The attributes that `quick_xml` finds in the content of a tag whose name
/// takes the first `name_len` bytes: the pairs of key and raw value in the
/// order of the tag, or `None` where it reports an attribute as malformed.
pub uninterp spec fn tag_attributes(tag: Seq<u8>, name_len: nat) -> Option<
    Seq<(Seq<u8>, Seq<u8>)>,
>;

/// `raw` with its character and entity references resolved as `quick_xml`
/// resolves them, or `None` where it reports one as invalid.
pub uninterp spec fn unescaped(raw: Seq<u8>) -> Option<Seq<u8>>;

/// A `quick_xml::Reader` over the bytes of a document.
#[verifier::external_body]
pub struct TokenReader<'a> {
    inner: Reader<&'a [u8]>,
}

/// `Reader::from_reader` on a slice, with the reader's settings left as they
/// are: text is not trimmed, and a closing tag has to match its opening tag.
/// The reader will yield the document's tokens; they end with `Eof` or with
/// the first error, after which `quick_xml` yields nothing but `Eof`.
#[verifier::external_body]
fn open_reader<'a>(xml: &'a [u8]) -> (reader: TokenReader<'a>)
    ensures
        pending_tokens(&reader) == document_tokens(xml@),
        is_closed(pending_tokens(&reader)),
{
    TokenReader { inner: Reader::from_reader(xml) }
}

/// `Reader::read_event`: yields the first of the pending tokens and leaves
/// the others pending. An `Err` of the reader comes back as `Malformed`.
#[verifier::external_body]
fn next_token(reader: &mut TokenReader) -> (token: Token)
    ensures
        pending_tokens(old(reader)).len() > 0 ==> token@ == pending_tokens(old(reader))[0],
        pending_tokens(old(reader)).len() > 0 ==> pending_tokens(final(reader))
            == pending_tokens(old(reader)).skip(1),
{
    let mut buffer = Vec::new();
    match reader.inner.read_event(&mut buffer) {
        Ok(Event::Start(tag)) => Token::Start { name: tag.name().to_vec(), tag: tag.to_vec() },
        Ok(Event::Empty(tag)) => Token::Empty { name: tag.name().to_vec(), tag: tag.to_vec() },
        Ok(Event::Text(text)) => Token::Text { content: text.to_vec() },
        Ok(Event::Eof) => Token::Eof,
        Ok(_) => Token::Other,
        Err(_) => Token::Malformed,
    }
}

/// `BytesStart::attributes`, run to its end with the checks that it makes by
/// default: the attributes in the order of the tag, or `None` where the
/// iterator yields an error.
#[verifier::external_body]
fn attributes(tag: &[u8], name_len: usize) -> (pairs: Option<Vec<RawAttribute>>)
    ensures
        pairs matches Some(pairs) ==> tag_attributes(tag@, name_len as nat) == Some(
            pairs.deep_view(),
        ),
        pairs is None ==> tag_attributes(tag@, name_len as nat) is None,
{
    BytesStart::borrowed(tag, name_len)
        .attributes()
        .map(|pair| pair.ok().map(|pair| RawAttribute {
            key: pair.key.to_vec(),
            value: pair.value.into_owned(),
        }))
        .collect()
}

/// `quick_xml::escape::unescape`, with its error turned into `None`.
#[verifier::external_body]
fn unescape(raw: &[u8]) -> (text: Option<Vec<u8>>)
    ensures
        optional_bytes(text) == unescaped(raw@),
{
    quick_xml::escape::unescape(raw).ok().map(|text| text.into_owned())
}

/// What follows the first `:` of `name`, if it has one.
pub open spec fn after_colon(name: Seq<u8>) -> Option<Seq<u8>>
    decreases name.len(),
{
    if name.len() == 0 {
        None
    } else if name[0] == COLON {
        Some(name.skip(1))
    } else {
        after_colon(name.skip(1))
    }
}

/// The local part of a qualified name: all that follows its first `:`, or
/// the whole name where it has none.
pub open spec fn local_part(name: Seq<u8>) -> Seq<u8> {
    match after_colon(name) {
        Some(rest) => rest,
        None => name,
    }
}

/// The local part of a qualified name.
pub fn local_name<'a>(name: &'a [u8]) -> (local: &'a [u8])
    ensures
        local@ == local_part(name@),
{
    let mut i: usize = 0;
    assert(name@.skip(0) =~= name@);
    while i < name.len()
        invariant
            i <= name.len(),
            after_colon(name@) == after_colon(name@.skip(i as int)),
        decreases name.len() - i,
    {
        if name[i] == COLON {
            let local = slice_subrange(name, i + 1, name.len());
            assert(local@ =~= name@.skip(i as int).skip(1));
            return local;
        }
        assert(name@.skip(i as int).skip(1) =~= name@.skip(i + 1));
        i += 1;
    }
    name
}

/// The attributes of a tag with their escapes resolved.
pub open spec fn attributes_of(tag: Seq<u8>, name_len: nat) -> Option<Seq<AttributeView>> {
    match tag_attributes(tag, name_len) {
        Some(pairs) => Some(
            pairs.map_values(
                |pair: (Seq<u8>, Seq<u8>)|
                    AttributeView { key: pair.0, value: pair.1, unescaped: unescaped(pair.1) },
            ),
        ),
        None => None,
    }
}

/// The event that a token stands for.
pub open spec fn event_of(token: TokenView) -> EventView {
    match token {
        TokenView::Start { name, tag } => EventView::Start {
            name,
            attributes: attributes_of(tag, name.len()),
        },
        TokenView::Empty { name, tag } => EventView::Empty {
            name,
            attributes: attributes_of(tag, name.len()),
        },
        TokenView::Text { content } => EventView::Text {
            raw: content,
            unescaped: unescaped(content),
        },
        TokenView::Eof => EventView::Eof,
        TokenView::Other => EventView::Other,
        TokenView::Malformed => EventView::Malformed,
    }
}

/// The events of a document: those of its tokens, the last of them `Eof` or
/// `Malformed`.
pub open spec fn document_events(xml: Seq<u8>) -> Seq<EventView> {
    document_tokens(xml).map_values(|token: TokenView| event_of(token))
}

fn element_attributes(tag: &[u8], name_len: usize) -> (found: Option<Vec<Attribute>>)
    ensures
        optional_attributes(found) == attributes_of(tag@, name_len as nat),
{
    match attributes(tag, name_len) {
        None => None,
        Some(pairs) => {
            let ghost model = tag_attributes(tag@, name_len as nat)->0;
            let mut found: Vec<Attribute> = Vec::new();
            let mut i: usize = 0;
            while i < pairs.len()
                invariant
                    i <= pairs.len(),
                    pairs.deep_view() == model,
                    found.len() == i,
                    forall|j: int|
                        0 <= j < i ==> (#[trigger] found[j])@ == (AttributeView {
                            key: model[j].0,
                            value: model[j].1,
                            unescaped: unescaped(model[j].1),
                        }),
                decreases pairs.len() - i,
            {
                assert(pairs.deep_view()[i as int] == pairs[i as int]@);
                let key = slice_to_vec(pairs[i].key.as_slice());
                let value = slice_to_vec(pairs[i].value.as_slice());
                let unescaped = unescape(value.as_slice());
                found.push(Attribute { key, value, unescaped });
                i += 1;
            }
            assert(found.deep_view() =~= attributes_of(tag@, name_len as nat)->0);
            Some(found)
        },
    }
}

fn event_from(token: Token) -> (event: XmlEvent)
    ensures
        event@ == event_of(token@),
{
    match token {
        Token::Start { name, tag } => {
            let attributes = element_attributes(tag.as_slice(), name.len());
            XmlEvent::Start { name, attributes }
        },
        Token::Empty { name, tag } => {
            let attributes = element_attributes(tag.as_slice(), name.len());
            XmlEvent::Empty { name, attributes }
        },
        Token::Text { content } => {
            let unescaped = unescape(content.as_slice());
            XmlEvent::Text { raw: content, unescaped }
        },
        Token::Eof => XmlEvent::Eof,
        Token::Other => XmlEvent::Other,
        Token::Malformed => XmlEvent::Malformed,
    }
}

/// Reads a document to its end or to its first error.
pub fn read_events(xml: &[u8]) -> (events: Vec<XmlEvent>)
    ensures
        events.deep_view() == document_events(xml@),
        events.len() > 0,
        events[events.len() - 1]@ is Eof || events[events.len() - 1]@ is Malformed,
{
    let ghost tokens = document_tokens(xml@);
    let mut reader = open_reader(xml);
    let mut events: Vec<XmlEvent> = Vec::new();
    let mut done = false;
    assert(tokens.skip(0) =~= tokens);
    while !done
        invariant
            tokens == document_tokens(xml@),
            is_closed(tokens),
            events.len() <= tokens.len(),
            !done ==> events.len() < tokens.len(),
            done ==> events.len() == tokens.len(),
            pending_tokens(&reader) == tokens.skip(events.len() as int),
            forall|i: int| 0 <= i < events.len() ==> (#[trigger] events[i])@ == event_of(tokens[i]),
        decreases tokens.len() - events.len(),
    {
        let ghost n = events.len() as int;
        let token = next_token(&mut reader);
        assert(token@ == tokens[n]);
        assert(tokens.skip(n).skip(1) =~= tokens.skip(n + 1));
        let last = match token {
            Token::Eof => true,
            Token::Malformed => true,
            _ => false,
        };
        let event = event_from(token);
        events.push(event);
        done = last;
    }
    assert(events.deep_view() =~= document_events(xml@));
    events
}

} // verus!
