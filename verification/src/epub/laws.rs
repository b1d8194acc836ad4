//! What holds of every package document.

use crate::epub::AuthorView;
use crate::epub::contributors::ContributorView;
use crate::epub::contributors::entry_index;
use crate::epub::contributors::has_distinct_keys;
use crate::epub::contributors::index_of;
use crate::epub::contributors::keys;
use crate::epub::contributors::lemma_changes_keep_keys;
use crate::epub::contributors::lemma_distinct_by_keys;
use crate::epub::contributors::lemma_index_of;
use crate::epub::contributors::lemma_with_entry;
use crate::epub::contributors::reset;
use crate::epub::contributors::set_role;
use crate::epub::contributors::set_sort_key;
use crate::epub::contributors::with_entry;
use crate::epub::package::attribute;
use crate::epub::package::attribute_ending;
use crate::epub::package::author_of;
use crate::epub::package::author_role;
use crate::epub::package::authors_of;
use crate::epub::package::declares_current;
use crate::epub::package::Dialect;
use crate::epub::package::initial_state;
use crate::epub::package::is_author;
use crate::epub::package::lemma_authors_are_credited;
use crate::epub::package::package_metadata;
use crate::epub::package::positional_key;
use crate::epub::package::reference_key;
use crate::epub::package::resolved;
use crate::epub::package::scan;
use crate::epub::package::start;
use crate::epub::package::start_meta;
use crate::epub::package::StateView;
use crate::epub::package::step;
use crate::epub::package::text;
use crate::epub::package::value_ends_with;
use crate::error::ExtractError;
use crate::xml::AttributeView;
use crate::xml::EventView;
use crate::xml::local_part;
use vstd::prelude::*;
use vstd::string::StringSliceAdditionalSpecFns;
use vstd::utf8::decode_utf8;

verus! {

/// The opening tag of a `creator`.
pub open spec fn opens_creator(event: EventView) -> bool {
    event matches EventView::Start { name, .. } && local_part(name) == "creator".spec_bytes()
}

/// The opening tag of a root element that declares the current dialect.
pub open spec fn opens_current_package(event: EventView) -> bool {
    event matches EventView::Start { name, attributes: Some(attributes) } && local_part(name)
        == "package".spec_bytes() && declares_current(attributes)
}

/// The end of a document, or its first error.
pub open spec fn ends_document(event: EventView) -> bool {
    event is Eof || event is Malformed
}

/// The contributors that a document ends with.
pub open spec fn final_contributors(events: Seq<EventView>) -> Seq<ContributorView> {
    match scan(initial_state(), events) {
        Ok(state) => state.contributors,
        Err(_) => Seq::empty(),
    }
}

/// Whoever is listed as an author of a document is a contributor of the
/// document with the role of an author and a name; a contributor with
/// another role is never listed.
pub proof fn lemma_only_authors_are_listed(events: Seq<EventView>, i: int)
    requires
        package_metadata(events) matches Ok(metadata) && 0 <= i < metadata.authors.len(),
    ensures
        exists|j: int|
            #![trigger final_contributors(events)[j]]
            0 <= j < final_contributors(events).len() && final_contributors(events)[j].role
                == author_role() && final_contributors(events)[j].name.len() > 0
                && package_metadata(events)->Ok_0.authors[i] == author_of(
                final_contributors(events)[j],
            ),
{
    let contributors = final_contributors(events);
    lemma_authors_are_credited(contributors);
    let listed = authors_of(contributors)[i];
    let j = choose|j: int|
        #![trigger contributors[j]]
        0 <= j < contributors.len() && is_author(contributors[j]) && listed == author_of(
            contributors[j],
        );
    assert(final_contributors(events)[j].role == author_role());
}

/// One event adds contributors at the end, if it adds any: those known
/// before keep their places and their keys, and the keys stay distinct.
pub proof fn lemma_step_keeps_places(state: StateView, event: EventView)
    requires
        step(state, event) is Ok,
    ensures
        keys(state.contributors).is_prefix_of(keys(step(state, event)->Ok_0.contributors)),
        has_distinct_keys(state.contributors) ==> has_distinct_keys(
            step(state, event)->Ok_0.contributors,
        ),
{
    let all = state.contributors;
    let next = step(state, event)->Ok_0.contributors;
    assert(keys(all) =~= keys(all).subrange(0, all.len() as int));
    if next != all {
        match event {
            EventView::Start { name, attributes } => {
                let attributes = attributes->0;
                let numbered = positional_key(all.len());
                match state.dialect {
                    Dialect::Current => match attribute(attributes, "id".spec_bytes()) {
                        Some(id) => {
                            lemma_with_entry(all, reference_key(id.value));
                            lemma_changes_keep_keys(all, reference_key(id.value), Seq::empty());
                            lemma_distinct_by_keys(next, with_entry(all, reference_key(id.value)));
                        },
                        None => {
                            lemma_with_entry(all, numbered);
                            lemma_changes_keep_keys(all, numbered, author_role());
                            lemma_distinct_by_keys(next, with_entry(all, numbered));
                        },
                    },
                    Dialect::Legacy => {
                        match attribute_ending(attributes, "file-as".spec_bytes()) {
                            Some(file_as) => {
                                let sorted = set_sort_key(all, numbered, resolved(file_as));
                                lemma_with_entry(all, numbered);
                                lemma_changes_keep_keys(all, numbered, resolved(file_as));
                                lemma_distinct_by_keys(sorted, with_entry(all, numbered));
                                lemma_with_entry(sorted, numbered);
                                lemma_changes_keep_keys(sorted, numbered, author_role());
                                lemma_distinct_by_keys(next, with_entry(sorted, numbered));
                                lemma_prefix_of_prefix(
                                    keys(all),
                                    keys(sorted),
                                    keys(with_entry(sorted, numbered)),
                                );
                            },
                            None => {
                                let role = attribute_ending(attributes, "role".spec_bytes())->0;
                                lemma_with_entry(all, numbered);
                                lemma_changes_keep_keys(all, numbered, resolved(role));
                                lemma_distinct_by_keys(next, with_entry(all, numbered));
                            },
                        }
                    },
                }
            },
            EventView::Text { raw, unescaped } => {
                lemma_with_entry(all, state.current);
                lemma_changes_keep_keys(all, state.current, raw);
                if state.awaiting_name && state.dialect == Dialect::Legacy {
                    lemma_index_of(all, state.current);
                    match index_of(all, state.current) {
                        Some(index) => {
                            assert(keys(next) =~= keys(all));
                            lemma_distinct_by_keys(next, all);
                        },
                        None => {
                            assert(keys(next) =~= keys(with_entry(all, state.current)));
                            lemma_distinct_by_keys(next, with_entry(all, state.current));
                        },
                    }
                } else {
                    lemma_distinct_by_keys(next, with_entry(all, state.current));
                }
            },
            _ => {},
        }
    }
}

/// A beginning of a beginning is a beginning.
proof fn lemma_prefix_of_prefix(a: Seq<Seq<u8>>, b: Seq<Seq<u8>>, c: Seq<Seq<u8>>)
    requires
        a.is_prefix_of(b),
        b.is_prefix_of(c),
    ensures
        a.is_prefix_of(c),
{
    assert(a =~= c.subrange(0, a.len() as int));
}

/// The contributors are kept in the order in which the document first
/// mentions them: reading on adds contributors at the end, if it adds any,
/// and no two of them ever have the same key.
pub proof fn lemma_scan_keeps_places(state: StateView, events: Seq<EventView>)
    requires
        scan(state, events) is Ok,
    ensures
        keys(state.contributors).is_prefix_of(keys(scan(state, events)->Ok_0.contributors)),
        has_distinct_keys(state.contributors) ==> has_distinct_keys(
            scan(state, events)->Ok_0.contributors,
        ),
    decreases events.len(),
{
    let all = state.contributors;
    assert(keys(all) =~= keys(all).subrange(0, all.len() as int));
    if events.len() > 0 && !ends_document(events[0]) {
        let next = step(state, events[0])->Ok_0;
        lemma_step_keeps_places(state, events[0]);
        lemma_scan_keeps_places(next, events.skip(1));
        lemma_prefix_of_prefix(
            keys(all),
            keys(next.contributors),
            keys(scan(state, events)->Ok_0.contributors),
        );
    }
}

/// No two contributors of a document have the same key.
pub proof fn lemma_keys_are_distinct(events: Seq<EventView>)
    ensures
        has_distinct_keys(final_contributors(events)),
{
    if scan(initial_state(), events) is Ok {
        lemma_scan_keeps_places(initial_state(), events);
    }
}

/// In a legacy document, events other than the opening tag of a `creator`
/// leave the contributors as they are, once no name is awaited.
proof fn lemma_legacy_rest(state: StateView, events: Seq<EventView>)
    requires
        state.dialect == Dialect::Legacy,
        !state.awaiting_name,
        forall|i: int|
            0 <= i < events.len() ==> !opens_creator(#[trigger] events[i])
                && !opens_current_package(events[i]),
    ensures
        scan(state, events) matches Ok(last) ==> last.contributors == state.contributors,
    decreases events.len(),
{
    if events.len() > 0 && !ends_document(events[0]) {
        assert(!opens_creator(events[0]) && !opens_current_package(events[0]));
        match step(state, events[0]) {
            Ok(next) => {
                assert(next.dialect == Dialect::Legacy);
                assert(!next.awaiting_name);
                assert(next.contributors == state.contributors);
                let rest = events.skip(1);
                assert forall|i: int| 0 <= i < rest.len() implies !opens_creator(
                    #[trigger] rest[i],
                ) && !opens_current_package(rest[i]) by {
                    assert(rest[i] == events[i + 1]);
                }
                lemma_legacy_rest(next, rest);
            },
            Err(_) => {},
        }
    }
}

/// The contributors of a legacy document with a single `creator`, read from
/// a state in which nobody is known yet.
proof fn lemma_single_creator(
    state: StateView,
    events: Seq<EventView>,
    at: int,
    attributes: Seq<AttributeView>,
    name: Seq<u8>,
)
    requires
        state.dialect == Dialect::Legacy,
        !state.awaiting_name,
        state.contributors.len() == 0,
        0 <= at,
        at + 1 < events.len(),
        opens_creator(events[at]),
        events[at] matches EventView::Start { attributes: Some(found), .. } && found == attributes,
        attribute_ending(attributes, "file-as".spec_bytes()) is Some,
        events[at + 1] matches EventView::Text { raw, .. } && raw == name,
        forall|i: int|
            0 <= i < events.len() && i != at ==> !opens_creator(#[trigger] events[i]),
        forall|i: int| 0 <= i < events.len() ==> !opens_current_package(#[trigger] events[i]),
        forall|i: int| 0 <= i < at ==> !ends_document(#[trigger] events[i]),
    ensures
        scan(state, events) matches Ok(last) ==> last.contributors == seq![
            ContributorView {
                key: positional_key(0),
                name,
                sort_key: resolved(attribute_ending(attributes, "file-as".spec_bytes())->0),
                role: author_role(),
            },
        ],
    decreases at,
{
    let rest = events.skip(1);
    lemma_word_differs();
    if at == 0 {
        let key = positional_key(0);
        let opened = step(state, events[0])->Ok_0;
        assert(state.contributors =~= Seq::empty());
        assert(opened.contributors =~= seq![
            ContributorView {
                key,
                name: Seq::empty(),
                sort_key: resolved(attribute_ending(attributes, "file-as".spec_bytes())->0),
                role: author_role(),
            },
        ]);
        assert(opened.current == key);
        assert(opened.awaiting_name);
        assert(rest[0] == events[1]);
        let named = step(opened, events[1])->Ok_0;
        assert(index_of(opened.contributors, key) == Some(0int));
        assert(named.contributors =~= seq![
            ContributorView {
                key,
                name,
                sort_key: resolved(attribute_ending(attributes, "file-as".spec_bytes())->0),
                role: author_role(),
            },
        ]);
        let after = rest.skip(1);
        assert forall|i: int| 0 <= i < after.len() implies !opens_creator(#[trigger] after[i])
            && !opens_current_package(after[i]) by {
            assert(after[i] == events[i + 2]);
        }
        lemma_legacy_rest(named, after);
    } else {
        assert(!ends_document(events[0]));
        assert(!opens_creator(events[0]) && !opens_current_package(events[0]));
        match step(state, events[0]) {
            Ok(next) => {
                assert(next.contributors == state.contributors);
                assert(rest[at - 1] == events[at]);
                assert(rest[at] == events[at + 1]);
                assert forall|i: int| 0 <= i < rest.len() && i != at - 1 implies !opens_creator(
                    #[trigger] rest[i],
                ) by {
                    assert(rest[i] == events[i + 1]);
                }
                assert forall|i: int| 0 <= i < rest.len() implies !opens_current_package(
                    #[trigger] rest[i],
                ) by {
                    assert(rest[i] == events[i + 1]);
                }
                assert forall|i: int| 0 <= i < at - 1 implies !ends_document(
                    #[trigger] rest[i],
                ) by {
                    assert(rest[i] == events[i + 1]);
                }
                lemma_single_creator(next, rest, at - 1, attributes, name);
            },
            Err(_) => {},
        }
    }
}

/// A legacy document with a single `creator` that has a sort key has
/// exactly one author: the name is the text of the element, the sort key
/// the value of its `file-as`, whatever the element gives as its role.
pub proof fn lemma_legacy_creator_is_the_author(
    events: Seq<EventView>,
    at: int,
    attributes: Seq<AttributeView>,
    name: Seq<u8>,
)
    requires
        0 <= at,
        at + 1 < events.len(),
        opens_creator(events[at]),
        events[at] matches EventView::Start { attributes: Some(found), .. } && found == attributes,
        attribute_ending(attributes, "file-as".spec_bytes()) is Some,
        events[at + 1] matches EventView::Text { raw, .. } && raw == name,
        name.len() > 0,
        forall|i: int|
            0 <= i < events.len() && i != at ==> !opens_creator(#[trigger] events[i]),
        forall|i: int| 0 <= i < events.len() ==> !opens_current_package(#[trigger] events[i]),
        forall|i: int| 0 <= i < at ==> !ends_document(#[trigger] events[i]),
        package_metadata(events) is Ok,
    ensures
        package_metadata(events)->Ok_0.authors == seq![
            AuthorView {
                name: decode_utf8(name),
                firstauthor: decode_utf8(
                    resolved(attribute_ending(attributes, "file-as".spec_bytes())->0),
                ),
            },
        ],
{
    lemma_single_creator(initial_state(), events, at, attributes, name);
    let author = ContributorView {
        key: positional_key(0),
        name,
        sort_key: resolved(attribute_ending(attributes, "file-as".spec_bytes())->0),
        role: author_role(),
    };
    let listed = |contributor: ContributorView| is_author(contributor);
    reveal_with_fuel(Seq::filter, 2);
    assert(seq![author].drop_last() =~= Seq::empty());
    assert(seq![author].filter(listed) =~= seq![author]);
    assert(authors_of(seq![author]) =~= seq![author_of(author)]);
}

/// In the current dialect, the sort key that a `meta` gives goes to the
/// contributor that the `meta` refines, wherever this contributor stands,
/// and every other contributor stays as it is.
pub proof fn lemma_sort_key_reaches_its_contributor(
    state: StateView,
    name: Seq<u8>,
    attributes: Seq<AttributeView>,
    raw: Seq<u8>,
    unescaped: Option<Seq<u8>>,
    at: int,
)
    requires
        state.dialect == Dialect::Current,
        !state.awaiting_name,
        local_part(name) == "meta".spec_bytes(),
        attribute(attributes, "refines".spec_bytes()) matches Some(target) && index_of(
            state.contributors,
            target.value,
        ) == Some(at),
        value_ends_with(attribute(attributes, "property".spec_bytes()), "file-as".spec_bytes()),
    ensures
        start(state, name, Some(attributes)) matches Ok(opened) && text(opened, raw, unescaped)
            matches Ok(after) && after.contributors == state.contributors.update(
            at,
            ContributorView { sort_key: raw, ..state.contributors[at] },
        ),
{
    lemma_word_differs();
}

/// In the current dialect, the role that a `meta` gives goes to the
/// contributor that the `meta` refines, wherever this contributor stands,
/// and every other contributor stays as it is.
pub proof fn lemma_role_reaches_its_contributor(
    state: StateView,
    name: Seq<u8>,
    attributes: Seq<AttributeView>,
    raw: Seq<u8>,
    unescaped: Option<Seq<u8>>,
    at: int,
)
    requires
        state.dialect == Dialect::Current,
        !state.awaiting_name,
        !state.awaiting_file_as,
        local_part(name) == "meta".spec_bytes(),
        attribute(attributes, "refines".spec_bytes()) matches Some(target) && index_of(
            state.contributors,
            target.value,
        ) == Some(at),
        value_ends_with(attribute(attributes, "property".spec_bytes()), "role".spec_bytes()),
    ensures
        start(state, name, Some(attributes)) matches Ok(opened) && text(opened, raw, unescaped)
            matches Ok(after) && after.contributors == state.contributors.update(
            at,
            ContributorView { role: raw, ..state.contributors[at] },
        ),
{
    lemma_word_differs();
    let property = attribute(attributes, "property".spec_bytes())->0.value;
    let role = "role".spec_bytes();
    let file_as = "file-as".spec_bytes();
    if file_as.is_suffix_of(property) {
        assert(property.subrange(property.len() - role.len(), property.len() as int)[3]
            == property.subrange(property.len() - file_as.len(), property.len() as int)[6]);
    }
}

/// The names of the elements are different words.
proof fn lemma_word_differs()
    ensures
        "meta".spec_bytes() != "package".spec_bytes(),
        "meta".spec_bytes() != "creator".spec_bytes(),
        "creator".spec_bytes() != "package".spec_bytes(),
        "role".spec_bytes().len() == 4,
        "file-as".spec_bytes().len() == 7,
        "role".spec_bytes()[3] != "file-as".spec_bytes()[6],
{
    reveal_strlit("meta");
    reveal_strlit("package");
    reveal_strlit("creator");
    reveal_strlit("role");
    reveal_strlit("file-as");
    vstd::utf8::is_ascii_chars_encode_utf8("meta"@);
    vstd::utf8::is_ascii_chars_encode_utf8("package"@);
    vstd::utf8::is_ascii_chars_encode_utf8("creator"@);
    vstd::utf8::is_ascii_chars_encode_utf8("role"@);
    vstd::utf8::is_ascii_chars_encode_utf8("file-as"@);
    assert("creator"@[0] != "package"@[0]);
    assert("role"@[3] != "file-as"@[6]);
}

/// What a document of the current dialect can give a contributor: the name
/// is the text of the `creator` itself, the sort key and the role are the
/// texts of `meta` elements that refine it.
pub enum Refinement {
    Name,
    SortKey,
    Role,
}

/// The field of a contributor that a refinement gives.
pub open spec fn refined_field(contributor: ContributorView, what: Refinement) -> Seq<u8> {
    match what {
        Refinement::Name => contributor.name,
        Refinement::SortKey => contributor.sort_key,
        Refinement::Role => contributor.role,
    }
}

/// The next text is awaited as this refinement.
pub open spec fn awaits(state: StateView, what: Refinement) -> bool {
    match what {
        Refinement::Name => state.awaiting_name,
        Refinement::SortKey => state.awaiting_file_as,
        Refinement::Role => state.awaiting_role,
    }
}

/// No text is awaited for a contributor.
pub open spec fn is_settled(state: StateView) -> bool {
    !state.awaiting_name && !state.awaiting_file_as && !state.awaiting_role
}

/// The next text is awaited for one thing about a contributor at most.
pub open spec fn awaits_one_at_most(state: StateView) -> bool {
    &&& !(state.awaiting_name && state.awaiting_file_as)
    &&& !(state.awaiting_name && state.awaiting_role)
    &&& !(state.awaiting_file_as && state.awaiting_role)
}

/// The opening tag of a `creator` whose `id` makes `key`.
pub open spec fn declares(event: EventView, key: Seq<u8>) -> bool {
    &&& opens_creator(event)
    &&& event matches EventView::Start { attributes: Some(attributes), .. }
    &&& attribute(attributes, "id".spec_bytes()) matches Some(id)
    &&& reference_key(id.value) == key
}

/// The property of a `meta` tells that the element gives a sort key, or
/// else a role.
pub open spec fn tells(property: Option<AttributeView>, what: Refinement) -> bool {
    match what {
        Refinement::Name => false,
        Refinement::SortKey => value_ends_with(property, "file-as".spec_bytes()),
        Refinement::Role => !value_ends_with(property, "file-as".spec_bytes()) && value_ends_with(
            property,
            "role".spec_bytes(),
        ),
    }
}

/// The opening tag of a `meta` that refines the contributor `key` with a
/// sort key or a role.
pub open spec fn refines_by_meta(event: EventView, key: Seq<u8>, what: Refinement) -> bool {
    &&& event matches EventView::Start { name, attributes: Some(attributes) }
    &&& local_part(name) == "meta".spec_bytes()
    &&& attribute(attributes, "refines".spec_bytes()) matches Some(target)
    &&& target.value == key
    &&& tells(attribute(attributes, "property".spec_bytes()), what)
}

/// The opening tag whose text is what the contributor `key` is given: the
/// `creator` itself for the name, a `meta` that refines it for the sort key
/// and the role.
pub open spec fn refines(event: EventView, key: Seq<u8>, what: Refinement) -> bool {
    match what {
        Refinement::Name => declares(event, key),
        _ => refines_by_meta(event, key, what),
    }
}

/// The events of a document before its end: none of them ends the document,
/// and every opening tag is followed by a text, as it is where text is read
/// untrimmed.
pub open spec fn is_markup(events: Seq<EventView>) -> bool {
    &&& forall|i: int| 0 <= i < events.len() ==> !ends_document(#[trigger] events[i])
    &&& forall|i: int|
        0 <= i < events.len() && (#[trigger] events[i]) is Start ==> i + 1 < events.len()
            && events[i + 1] is Text
}

/// Contributors that are added later do not change where a key is found.
proof fn lemma_index_of_later(
    all: Seq<ContributorView>,
    later: Seq<ContributorView>,
    key: Seq<u8>,
)
    requires
        keys(all).is_prefix_of(keys(later)),
        index_of(all, key) is Some,
    ensures
        index_of(later, key) == index_of(all, key),
{
    lemma_index_of(all, key);
    lemma_index_of(later, key);
    let at = index_of(all, key)->0;
    assert(all.len() == keys(all).len());
    assert(later.len() == keys(later).len());
    assert forall|j: int| 0 <= j < all.len() implies later[j].key == all[j].key by {
        assert(keys(later).subrange(0, all.len() as int)[j] == keys(all)[j]);
        assert(keys(later)[j] == later[j].key);
        assert(keys(all)[j] == all[j].key);
    }
    assert(later[at].key == key);
}

/// The key of a reference is never the key of a position.
proof fn lemma_reference_is_no_position(id: Seq<u8>, count: nat)
    ensures
        reference_key(id) != positional_key(count),
{
    reveal_strlit("#");
    reveal_strlit("none");
    vstd::utf8::is_ascii_chars_encode_utf8("#"@);
    vstd::utf8::is_ascii_chars_encode_utf8("none"@);
    assert(reference_key(id)[0] == "#".spec_bytes()[0]);
    assert(positional_key(count)[0] == "none".spec_bytes()[0]);
}

/// What one event of a current-dialect document does to what is awaited.
proof fn lemma_step_awaits(
    state: StateView,
    event: EventView,
    key: Seq<u8>,
    id: Seq<u8>,
    what: Refinement,
)
    requires
        state.dialect == Dialect::Current,
        awaits_one_at_most(state),
        is_settled(state) || event is Text,
        key == reference_key(id),
        step(state, event) is Ok,
    ensures
        step(state, event)->Ok_0.dialect == Dialect::Current,
        awaits_one_at_most(step(state, event)->Ok_0),
        event is Text ==> is_settled(step(state, event)->Ok_0),
        !(event is Start) && is_settled(state) ==> is_settled(step(state, event)->Ok_0),
        !refines(event, key, what) && !(awaits(state, what) && state.current == key) ==> !(awaits(
            step(state, event)->Ok_0,
            what,
        ) && step(state, event)->Ok_0.current == key),
{
    lemma_word_differs();
    lemma_reference_is_no_position(id, state.contributors.len());
    match event {
        EventView::Start { name, attributes } => {
            if local_part(name) == "meta".spec_bytes() {
                let attributes = attributes->0;
                let property = attribute(attributes, "property".spec_bytes());
                let next = start_meta(state, attributes);
                assert(step(state, event) == Ok::<StateView, ExtractError>(next));
                match attribute(attributes, "refines".spec_bytes()) {
                    Some(target) => {
                        if awaits(next, what) && next.current == key {
                            assert(tells(property, what));
                            assert(refines(event, key, what));
                        }
                    },
                    None => {},
                }
            }
        },
        _ => {},
    }
}

/// One event of a current-dialect document leaves a contributor where it
/// is, and the opening tag of a `creator` with an `id` makes sure that there
/// is a contributor for its key.
proof fn lemma_step_keeps_entry(state: StateView, event: EventView, key: Seq<u8>)
    requires
        state.dialect == Dialect::Current,
        step(state, event) is Ok,
    ensures
        index_of(state.contributors, key) is Some ==> index_of(
            step(state, event)->Ok_0.contributors,
            key,
        ) == index_of(state.contributors, key),
        declares(event, key) ==> index_of(step(state, event)->Ok_0.contributors, key) is Some,
{
    let all = state.contributors;
    let next = step(state, event)->Ok_0;
    lemma_step_keeps_places(state, event);
    if index_of(all, key) is Some {
        lemma_index_of_later(all, next.contributors, key);
    }
    if declares(event, key) {
        lemma_word_differs();
        lemma_with_entry(all, key);
        assert(next.contributors == reset(all, key));
        assert(next.contributors[entry_index(all, key)].key == key);
        lemma_index_of(next.contributors, key);
    }
}

/// One event of a current-dialect document leaves the sort key and the role
/// of a contributor as they are, unless it declares the contributor anew or
/// is the text that is awaited for this contributor.
proof fn lemma_step_keeps_field(
    state: StateView,
    event: EventView,
    key: Seq<u8>,
    id: Seq<u8>,
    what: Refinement,
)
    requires
        state.dialect == Dialect::Current,
        awaits_one_at_most(state),
        key == reference_key(id),
        step(state, event) is Ok,
        index_of(state.contributors, key) is Some,
        !declares(event, key),
        !(awaits(state, what) && state.current == key),
    ensures
        index_of(state.contributors, key)->0 < step(state, event)->Ok_0.contributors.len(),
        refined_field(
            step(state, event)->Ok_0.contributors[index_of(state.contributors, key)->0],
            what,
        ) == refined_field(state.contributors[index_of(state.contributors, key)->0], what),
{
    let all = state.contributors;
    let next = step(state, event)->Ok_0.contributors;
    let at = index_of(all, key)->0;
    lemma_index_of(all, key);
    lemma_word_differs();
    lemma_step_keeps_places(state, event);
    assert(all.len() == keys(all).len());
    assert(next.len() == keys(next).len());
    if next != all {
        match event {
            EventView::Start { name, attributes } => {
                let attributes = attributes->0;
                assert(local_part(name) == "creator".spec_bytes());
                match attribute(attributes, "id".spec_bytes()) {
                    Some(found) => {
                        let other = reference_key(found.value);
                        lemma_with_entry(all, other);
                        assert(with_entry(all, other)[at] == all[at]);
                        assert(entry_index(all, other) != at);
                        assert(next == reset(all, other));
                    },
                    None => {
                        let other = positional_key(all.len());
                        lemma_reference_is_no_position(id, all.len());
                        lemma_with_entry(all, other);
                        assert(with_entry(all, other)[at] == all[at]);
                        assert(entry_index(all, other) != at);
                        assert(next == set_role(all, other, author_role()));
                    },
                }
            },
            EventView::Text { raw, unescaped } => {
                let other = state.current;
                lemma_with_entry(all, other);
                assert(with_entry(all, other)[at] == all[at]);
                if other != key {
                    assert(entry_index(all, other) != at);
                }
            },
            _ => {},
        }
    }
}

/// The text that is awaited for a contributor goes to this contributor.
proof fn lemma_text_is_taken(
    state: StateView,
    event: EventView,
    key: Seq<u8>,
    what: Refinement,
    value: Seq<u8>,
)
    requires
        state.dialect == Dialect::Current,
        awaits_one_at_most(state),
        awaits(state, what),
        state.current == key,
        index_of(state.contributors, key) is Some,
        event is Text,
        event->raw == value,
    ensures
        step(state, event) is Ok,
        index_of(state.contributors, key)->0 < step(state, event)->Ok_0.contributors.len(),
        refined_field(
            step(state, event)->Ok_0.contributors[index_of(state.contributors, key)->0],
            what,
        ) == value,
{
    lemma_index_of(state.contributors, key);
    lemma_with_entry(state.contributors, key);
}

/// What is left of the events of a document when the first is read.
proof fn lemma_markup_rest(events: Seq<EventView>)
    requires
        is_markup(events),
        events.len() > 0,
    ensures
        is_markup(events.skip(1)),
        !ends_document(events[0]),
        events[0] is Start ==> events.len() > 1 && events.skip(1)[0] is Text,
{
    let rest = events.skip(1);
    assert forall|i: int| 0 <= i < rest.len() implies !ends_document(#[trigger] rest[i]) by {
        assert(rest[i] == events[i + 1]);
    }
    assert forall|i: int| 0 <= i < rest.len() && (#[trigger] rest[i]) is Start implies i + 1
        < rest.len() && rest[i + 1] is Text by {
        assert(rest[i] == events[i + 1]);
        assert(events[i + 1] is Start);
        assert(rest[i + 1] == events[i + 2]);
    }
    if events[0] is Start {
        assert(rest[0] == events[1]);
    }
}

/// Where a current-dialect document stands with a contributor: the events
/// are those yet to be read. The contributor is declared at `declared`,
/// refined at `refined`, and neither declared nor refined in this way again;
/// an index below 0 tells that the event has been read already.
pub open spec fn is_on_the_way(
    state: StateView,
    events: Seq<EventView>,
    declared: int,
    refined: int,
    key: Seq<u8>,
    what: Refinement,
    value: Seq<u8>,
) -> bool {
    &&& state.dialect == Dialect::Current
    &&& awaits_one_at_most(state)
    &&& is_settled(state) || (events.len() > 0 && events[0] is Text)
    &&& is_markup(events)
    &&& declared <= refined
    &&& refined + 1 < events.len()
    &&& declared >= 0 ==> declares(events[declared], key)
    &&& declared < 0 ==> index_of(state.contributors, key) is Some
    &&& refined >= 0 ==> refines(events[refined], key, what)
    &&& refined >= -1 ==> events[refined + 1] is Text && events[refined + 1]->raw == value
    &&& refined == -1 ==> awaits(state, what) && state.current == key
    &&& refined < -1 ==> !(awaits(state, what) && state.current == key)
    &&& refined < -1 ==> refined_field(
        state.contributors[index_of(state.contributors, key)->0],
        what,
    ) == value
    &&& forall|i: int|
        refined + 1 < i < events.len() && 0 <= i ==> !declares(#[trigger] events[i], key)
            && !refines(events[i], key, what)
}

/// Reading one event leaves the document on its way with a contributor.
proof fn lemma_one_event_on_the_way(
    state: StateView,
    events: Seq<EventView>,
    declared: int,
    refined: int,
    key: Seq<u8>,
    id: Seq<u8>,
    what: Refinement,
    value: Seq<u8>,
)
    requires
        is_on_the_way(state, events, declared, refined, key, what, value),
        key == reference_key(id),
        events.len() > 0,
        step(state, events[0]) is Ok,
    ensures
        is_on_the_way(
            step(state, events[0])->Ok_0,
            events.skip(1),
            declared - 1,
            refined - 1,
            key,
            what,
            value,
        ),
{
    let event = events[0];
    let rest = events.skip(1);
    let next = step(state, event)->Ok_0;
    lemma_markup_rest(events);
    lemma_step_awaits(state, event, key, id, what);
    lemma_step_keeps_entry(state, event, key);
    assert(declared - 1 < 0 ==> index_of(next.contributors, key) is Some);
    assert(refined - 1 >= 0 ==> refines(rest[refined - 1], key, what)) by {
        if refined - 1 >= 0 {
            assert(rest[refined - 1] == events[refined]);
        }
    }
    assert(declared - 1 >= 0 ==> declares(rest[declared - 1], key)) by {
        if declared - 1 >= 0 {
            assert(rest[declared - 1] == events[declared]);
        }
    }
    assert(refined - 1 >= -1 ==> rest[refined] is Text && rest[refined]->raw == value) by {
        if refined - 1 >= -1 {
            assert(rest[refined] == events[refined + 1]);
        }
    }
    assert forall|i: int| refined < i < rest.len() && 0 <= i implies !declares(
        #[trigger] rest[i],
        key,
    ) && !refines(rest[i], key, what) by {
        assert(rest[i] == events[i + 1]);
    }
    assert(refined - 1 == -1 ==> awaits(next, what) && next.current == key) by {
        if refined == 0 {
            lemma_meta_awaits(state, event, key, what);
        }
    }
    assert(refined - 1 < -1 ==> !(awaits(next, what) && next.current == key)) by {
        if refined < -1 {
            assert(!refines(event, key, what));
        }
    }
    assert(refined - 1 < -1 ==> refined_field(
        next.contributors[index_of(next.contributors, key)->0],
        what,
    ) == value) by {
        if refined == -1 {
            lemma_text_is_taken(state, event, key, what, value);
        } else if refined < -1 {
            assert(!declares(event, key));
            lemma_step_keeps_field(state, event, key, id, what);
        }
    }
}

/// A document that is on its way with a contributor ends with the
/// contributor as it was refined.
proof fn lemma_refinement_stays(
    state: StateView,
    events: Seq<EventView>,
    declared: int,
    refined: int,
    key: Seq<u8>,
    id: Seq<u8>,
    what: Refinement,
    value: Seq<u8>,
)
    requires
        is_on_the_way(state, events, declared, refined, key, what, value),
        key == reference_key(id),
        scan(state, events) is Ok,
    ensures
        index_of(scan(state, events)->Ok_0.contributors, key) is Some,
        refined_field(
            scan(state, events)->Ok_0.contributors[index_of(
                scan(state, events)->Ok_0.contributors,
                key,
            )->0],
            what,
        ) == value,
    decreases events.len(),
{
    if events.len() > 0 {
        lemma_markup_rest(events);
        lemma_one_event_on_the_way(state, events, declared, refined, key, id, what, value);
        lemma_refinement_stays(
            step(state, events[0])->Ok_0,
            events.skip(1),
            declared - 1,
            refined - 1,
            key,
            id,
            what,
            value,
        );
    }
}

/// The opening tag of a `meta` that refines a contributor makes the next
/// text awaited for this contributor.
proof fn lemma_meta_awaits(state: StateView, event: EventView, key: Seq<u8>, what: Refinement)
    requires
        state.dialect == Dialect::Current,
        is_settled(state),
        refines(event, key, what),
    ensures
        step(state, event) is Ok,
        awaits(step(state, event)->Ok_0, what),
        step(state, event)->Ok_0.current == key,
{
    lemma_word_differs();
}

/// An opening tag that refines a contributor is followed by further events.
proof fn lemma_refines_is_no_text(
    events: Seq<EventView>,
    at: int,
    key: Seq<u8>,
    what: Refinement,
)
    requires
        0 <= at < events.len(),
        is_markup(events),
    ensures
        refines(events[at], key, what) ==> at + 1 < events.len() && events[at + 1] is Text,
{
}

/// From a state of the current dialect in which nothing is awaited for a
/// contributor, what a `meta` gives the contributor that it refines is what
/// this contributor ends with.
pub proof fn lemma_refinement_reaches_its_contributor(
    state: StateView,
    events: Seq<EventView>,
    declared: int,
    refined: int,
    key: Seq<u8>,
    what: Refinement,
    value: Seq<u8>,
)
    requires
        state.dialect == Dialect::Current,
        is_settled(state),
        is_markup(events),
        0 <= declared <= refined,
        refined + 1 < events.len(),
        declares(events[declared], key),
        refines(events[refined], key, what),
        events[refined + 1] matches EventView::Text { raw, .. } && raw == value,
        forall|i: int|
            refined + 1 < i < events.len() ==> !declares(#[trigger] events[i], key) && !refines(
                events[i],
                key,
                what,
            ),
        scan(state, events) is Ok,
    ensures
        index_of(scan(state, events)->Ok_0.contributors, key) matches Some(at) && refined_field(
            scan(state, events)->Ok_0.contributors[at],
            what,
        ) == value,
{
    assert(events[refined + 1]->raw == value);
    lemma_refines_is_no_text(events, 0, key, what);
    let id = events[declared]->Start_attributes->0;
    let id = attribute(id, "id".spec_bytes())->0.value;
    lemma_refinement_stays(state, events, declared, refined, key, id, what, value);
}

/// In the legacy dialect only the name of a contributor is ever awaited.
pub open spec fn awaits_as_its_dialect_does(state: StateView) -> bool {
    state.dialect == Dialect::Legacy ==> !state.awaiting_file_as && !state.awaiting_role
}

/// What one event of a document of either dialect does to what is awaited
/// for a contributor.
proof fn lemma_step_settles(state: StateView, event: EventView)
    requires
        awaits_one_at_most(state),
        awaits_as_its_dialect_does(state),
        is_settled(state) || event is Text,
        step(state, event) is Ok,
    ensures
        awaits_one_at_most(step(state, event)->Ok_0),
        awaits_as_its_dialect_does(step(state, event)->Ok_0),
        event is Text ==> is_settled(step(state, event)->Ok_0),
        !(event is Start) && is_settled(state) ==> is_settled(step(state, event)->Ok_0),
        state.dialect == Dialect::Current ==> step(state, event)->Ok_0.dialect
            == Dialect::Current,
        opens_current_package(event) ==> step(state, event)->Ok_0.dialect == Dialect::Current,
{
}

/// Reading a document is reading a beginning of it and then the rest.
proof fn lemma_scan_in_two(state: StateView, events: Seq<EventView>, n: int)
    requires
        0 <= n <= events.len(),
        forall|i: int| 0 <= i < n ==> !ends_document(#[trigger] events[i]),
    ensures
        scan(state, events) == match scan(state, events.take(n)) {
            Ok(reached) => scan(reached, events.skip(n)),
            Err(error) => Err(error),
        },
    decreases n,
{
    if n == 0 {
        assert(events.take(0).len() == 0);
        assert(events.skip(0) =~= events);
    } else {
        let front = events.take(n);
        assert(front[0] == events[0]);
        assert(!ends_document(events[0]));
        match step(state, events[0]) {
            Ok(next) => {
                let rest = events.skip(1);
                assert forall|i: int| 0 <= i < n - 1 implies !ends_document(
                    #[trigger] rest[i],
                ) by {
                    assert(rest[i] == events[i + 1]);
                }
                lemma_scan_in_two(next, rest, n - 1);
                assert(front.skip(1) =~= rest.take(n - 1));
                assert(rest.skip(n - 1) =~= events.skip(n));
            },
            Err(_) => {},
        }
    }
}

/// Between the elements of a document nothing is awaited for a contributor:
/// what an opening tag makes awaited, the text that follows it takes.
proof fn lemma_settled_between_elements(state: StateView, events: Seq<EventView>, n: int)
    requires
        awaits_one_at_most(state),
        awaits_as_its_dialect_does(state),
        is_settled(state) || (events.len() > 0 && events[0] is Text),
        is_markup(events),
        0 <= n < events.len(),
        scan(state, events.take(n)) is Ok,
    ensures
        awaits_one_at_most(scan(state, events.take(n))->Ok_0),
        is_settled(scan(state, events.take(n))->Ok_0) || events[n] is Text,
        state.dialect == Dialect::Current ==> scan(state, events.take(n))->Ok_0.dialect
            == Dialect::Current,
    decreases n,
{
    let front = events.take(n);
    if n == 0 {
        assert(front.len() == 0);
    } else {
        let rest = events.skip(1);
        lemma_markup_rest(events);
        assert(front[0] == events[0]);
        assert(front.skip(1) =~= rest.take(n - 1));
        assert(step(state, events[0]) is Ok);
        let next = step(state, events[0])->Ok_0;
        lemma_step_settles(state, events[0]);
        assert(scan(state, front) == scan(next, rest.take(n - 1)));
        assert(rest[n - 1] == events[n]);
        lemma_settled_between_elements(next, rest, n - 1);
    }
}

/// The root element of a document of the current dialect turns the state to
/// this dialect, and awaits nothing.
proof fn lemma_root_turns_current(state: StateView, event: EventView)
    requires
        opens_current_package(event),
    ensures
        step(state, event) == Ok::<StateView, ExtractError>(
            StateView { dialect: Dialect::Current, ..state },
        ),
{
}

/// In a document of the current dialect, what a `meta` gives the contributor
/// that it refines is what this contributor ends with: the sort key or the
/// role goes to the contributor whose `id` the `meta` names, however the
/// `creator` and `meta` elements of contributors are interleaved, as long as
/// the `meta` follows the `creator` that it refines and nothing later
/// declares or refines the contributor in this way again.
pub proof fn lemma_refinement_in_document(
    events: Seq<EventView>,
    root: int,
    declared: int,
    refined: int,
    key: Seq<u8>,
    what: Refinement,
    value: Seq<u8>,
)
    requires
        is_markup(events),
        0 <= root < declared <= refined,
        refined + 1 < events.len(),
        opens_current_package(events[root]),
        declares(events[declared], key),
        refines(events[refined], key, what),
        events[refined + 1] matches EventView::Text { raw, .. } && raw == value,
        forall|i: int|
            refined + 1 < i < events.len() ==> !declares(#[trigger] events[i], key) && !refines(
                events[i],
                key,
                what,
            ),
        package_metadata(events) is Ok,
    ensures
        index_of(final_contributors(events), key) matches Some(at) && refined_field(
            final_contributors(events)[at],
            what,
        ) == value,
{
    lemma_scan_in_two(initial_state(), events, root);
    let before = scan(initial_state(), events.take(root))->Ok_0;
    lemma_settled_between_elements(initial_state(), events, root);
    lemma_root_turns_current(before, events[root]);
    let after = StateView { dialect: Dialect::Current, ..before };
    let rest = events.skip(root + 1);
    assert(scan(before, events.skip(root)) == scan(after, rest)) by {
        assert(events.skip(root)[0] == events[root]);
        assert(events.skip(root).skip(1) =~= rest);
        assert(!ends_document(events[root]));
    }
    assert(is_markup(rest)) by {
        assert forall|i: int| 0 <= i < rest.len() implies !ends_document(#[trigger] rest[i]) by {
            assert(rest[i] == events[i + root + 1]);
        }
        assert forall|i: int| 0 <= i < rest.len() && (#[trigger] rest[i]) is Start implies i + 1
            < rest.len() && rest[i + 1] is Text by {
            assert(rest[i] == events[i + root + 1]);
            assert(events[i + root + 1] is Start);
            assert(rest[i + 1] == events[i + root + 2]);
        }
    }
    assert(rest[declared - root - 1] == events[declared]);
    assert(rest[refined - root - 1] == events[refined]);
    assert(rest[refined - root] == events[refined + 1]);
    assert forall|i: int| refined - root < i < rest.len() implies !declares(
        #[trigger] rest[i],
        key,
    ) && !refines(rest[i], key, what) by {
        assert(rest[i] == events[i + root + 1]);
    }
    lemma_refinement_reaches_its_contributor(
        after,
        rest,
        declared - root - 1,
        refined - root - 1,
        key,
        what,
        value,
    );
}

/// The events of a document that is read to its end: markup, and the end of
/// the document last.
pub open spec fn is_read_to_its_end(events: Seq<EventView>) -> bool {
    &&& events.len() > 0
    &&& events.last() is Eof
    &&& is_markup(events.drop_last())
}

/// The end of a document adds nothing to what was read before it.
pub proof fn lemma_end_adds_nothing(state: StateView, events: Seq<EventView>)
    requires
        is_read_to_its_end(events),
    ensures
        scan(state, events) == scan(state, events.drop_last()),
{
    let body = events.drop_last();
    let n = body.len() as int;
    assert forall|i: int| 0 <= i < n implies !ends_document(#[trigger] events[i]) by {
        assert(events[i] == body[i]);
    }
    lemma_scan_in_two(state, events, n);
    assert(events.take(n) =~= body);
    assert(events.skip(n)[0] == events.last());
    lemma_scan_in_two(state, body, n);
    assert(body.take(n) =~= body);
    assert(body.skip(n).len() == 0);
}

/// In a document of the current dialect that is read to its end, what a
/// `meta` gives the contributor that it refines is what this contributor
/// ends with: the sort key or the role goes to the contributor whose `id`
/// the `meta` names, however the `creator` and `meta` elements of
/// contributors are interleaved, as long as the `meta` follows the `creator`
/// that it refines and nothing later declares or refines the contributor in
/// this way again.
pub proof fn lemma_refinement_in_whole_document(
    events: Seq<EventView>,
    root: int,
    declared: int,
    refined: int,
    key: Seq<u8>,
    what: Refinement,
    value: Seq<u8>,
)
    requires
        is_read_to_its_end(events),
        0 <= root < declared <= refined,
        refined + 1 < events.len(),
        opens_current_package(events[root]),
        declares(events[declared], key),
        refines(events[refined], key, what),
        events[refined + 1] matches EventView::Text { raw, .. } && raw == value,
        forall|i: int|
            refined + 1 < i < events.len() ==> !declares(#[trigger] events[i], key) && !refines(
                events[i],
                key,
                what,
            ),
        package_metadata(events) is Ok,
    ensures
        index_of(final_contributors(events), key) matches Some(at) && refined_field(
            final_contributors(events)[at],
            what,
        ) == value,
{
    let body = events.drop_last();
    lemma_end_adds_nothing(initial_state(), events);
    assert(body[root] == events[root]);
    assert(body[declared] == events[declared]);
    assert(body[refined] == events[refined]);
    assert(body[refined + 1] == events[refined + 1]);
    assert forall|i: int| refined + 1 < i < body.len() implies !declares(
        #[trigger] body[i],
        key,
    ) && !refines(body[i], key, what) by {
        assert(body[i] == events[i]);
    }
    lemma_refinement_in_document(body, root, declared, refined, key, what, value);
}

/// What a document of the current dialect says of one of its authors.
pub struct Credit {
    /// Where the `creator` opens.
    pub declared: int,
    /// The key that its `id` makes.
    pub key: Seq<u8>,
    /// The text of the `creator`.
    pub name: Seq<u8>,
    /// Where the `meta` opens that gives the role.
    pub role_given: int,
    /// Where the `meta` opens that gives the sort key, if there is one.
    pub sort_key_given: Option<int>,
    /// The text of that `meta`, empty without one.
    pub sort_key: Seq<u8>,
}

/// The keys of the credits, in their order.
pub open spec fn credit_keys(credits: Seq<Credit>) -> Seq<Seq<u8>> {
    credits.map_values(|credit: Credit| credit.key)
}

/// The contributor that a credit amounts to.
pub open spec fn credited(credit: Credit) -> ContributorView {
    ContributorView {
        key: credit.key,
        name: credit.name,
        sort_key: credit.sort_key,
        role: author_role(),
    }
}

/// The event opens a tag whose text is the given one.
pub open spec fn is_followed_by(events: Seq<EventView>, at: int, text: Seq<u8>) -> bool {
    &&& 0 <= at
    &&& at + 1 < events.len()
    &&& events[at + 1] is Text
    &&& events[at + 1]->raw == text
}

/// The events give this credit: a `creator` with an `id` and a name, after
/// it a `meta` that makes it an author, and a `meta` with the sort key where
/// the credit has one.
pub open spec fn gives_credit(events: Seq<EventView>, credit: Credit) -> bool {
    &&& is_followed_by(events, credit.declared, credit.name)
    &&& declares(events[credit.declared], credit.key)
    &&& credit.name.len() > 0
    &&& credit.declared < credit.role_given
    &&& is_followed_by(events, credit.role_given, author_role())
    &&& refines_by_meta(events[credit.role_given], credit.key, Refinement::Role)
    &&& match credit.sort_key_given {
        Some(at) => credit.declared < at && is_followed_by(events, at, credit.sort_key)
            && refines_by_meta(events[at], credit.key, Refinement::SortKey),
        None => credit.sort_key.len() == 0,
    }
}

/// The credits tell all that the events say of contributors: the events
/// are those of a document of the current dialect before its end, every
/// `creator` is that of a credit, the credits stand in the order of the
/// document under keys of their own, and every `meta` that gives a sort key
/// or a role is that of a credit and refines the credit's own `creator`.
pub open spec fn tells_all(events: Seq<EventView>, root: int, credits: Seq<Credit>) -> bool {
    &&& is_markup(events)
    &&& 0 <= root < events.len()
    &&& opens_current_package(events[root])
    &&& forall|k: int| 0 <= k < credits.len() ==> gives_credit(events, #[trigger] credits[k])
    &&& forall|k: int| 0 <= k < credits.len() ==> root < (#[trigger] credits[k]).declared
    &&& forall|j: int, k: int|
        0 <= j < k < credits.len() ==> (#[trigger] credits[j]).declared < (
        #[trigger] credits[k]).declared && credits[j].key != credits[k].key
    &&& forall|i: int|
        0 <= i < events.len() && opens_creator(#[trigger] events[i]) ==> exists|k: int|
            0 <= k < credits.len() && (#[trigger] credits[k]).declared == i
    &&& forall|i: int, key: Seq<u8>|
        0 <= i < events.len() && #[trigger] refines_by_meta(events[i], key, Refinement::Role)
            ==> exists|k: int|
            0 <= k < credits.len() && (#[trigger] credits[k]).key == key && credits[k].role_given
                == i
    &&& forall|i: int, key: Seq<u8>|
        0 <= i < events.len() && #[trigger] refines_by_meta(events[i], key, Refinement::SortKey)
            ==> exists|k: int|
            0 <= k < credits.len() && (#[trigger] credits[k]).key == key
                && credits[k].sort_key_given == Some(i)
}

/// The number of credits whose `creator` opens before the event `n`.
pub open spec fn seen(credits: Seq<Credit>, n: int) -> int
    decreases credits.len(),
{
    if credits.len() == 0 {
        0
    } else if credits.last().declared < n {
        credits.len() as int
    } else {
        seen(credits.drop_last(), n)
    }
}

/// The credits in the order of the document are seen one after the other.
proof fn lemma_seen(credits: Seq<Credit>, n: int)
    requires
        forall|j: int, k: int|
            0 <= j < k < credits.len() ==> (#[trigger] credits[j]).declared < (
            #[trigger] credits[k]).declared,
    ensures
        0 <= seen(credits, n) <= credits.len(),
        forall|k: int| 0 <= k < seen(credits, n) ==> (#[trigger] credits[k]).declared < n,
        forall|k: int|
            seen(credits, n) <= k < credits.len() ==> (#[trigger] credits[k]).declared >= n,
    decreases credits.len(),
{
    if credits.len() > 0 {
        let front = credits.drop_last();
        assert forall|j: int, k: int| 0 <= j < k < front.len() implies (
        #[trigger] front[j]).declared < (#[trigger] front[k]).declared by {
            assert(front[j] == credits[j] && front[k] == credits[k]);
        }
        lemma_seen(front, n);
        if credits.last().declared < n {
            assert forall|k: int| 0 <= k < credits.len() implies (
            #[trigger] credits[k]).declared < n by {
                if k < credits.len() - 1 {
                    assert(credits[k].declared < credits[credits.len() - 1].declared);
                }
            }
        } else {
            assert forall|k: int| 0 <= k < seen(credits, n) implies (
            #[trigger] credits[k]).declared < n by {
                assert(front[k] == credits[k]);
            }
            assert forall|k: int| seen(credits, n) <= k < credits.len() implies (
            #[trigger] credits[k]).declared >= n by {
                if k < front.len() {
                    assert(front[k] == credits[k]);
                }
            }
        }
    }
}

/// The number of credits seen is known by what is before and what is not.
proof fn lemma_seen_is(credits: Seq<Credit>, n: int, m: int)
    requires
        forall|j: int, k: int|
            0 <= j < k < credits.len() ==> (#[trigger] credits[j]).declared < (
            #[trigger] credits[k]).declared,
        0 <= m <= credits.len(),
        forall|k: int| 0 <= k < m ==> (#[trigger] credits[k]).declared < n,
        forall|k: int| m <= k < credits.len() ==> (#[trigger] credits[k]).declared >= n,
    ensures
        seen(credits, n) == m,
{
    lemma_seen(credits, n);
    let found = seen(credits, n);
    if found < m {
        assert(credits[found].declared < n);
        assert(credits[found].declared >= n);
    }
    if m < found {
        assert(credits[m].declared < n);
        assert(credits[m].declared >= n);
    }
}

/// A key among the keys of the contributors is the key of a contributor.
proof fn lemma_key_is_found(all: Seq<ContributorView>, key: Seq<u8>, at: int)
    requires
        0 <= at < all.len(),
        all[at].key == key,
    ensures
        index_of(all, key) is Some,
{
    lemma_index_of(all, key);
}

/// In the current dialect the opening tag of a `creator` with a new `id`
/// adds a contributor under its key at the end, and awaits the name.
proof fn lemma_step_adds_key(state: StateView, event: EventView, key: Seq<u8>)
    requires
        state.dialect == Dialect::Current,
        is_settled(state),
        declares(event, key),
        index_of(state.contributors, key) is None,
    ensures
        step(state, event) is Ok,
        keys(step(state, event)->Ok_0.contributors) == keys(state.contributors).push(key),
        step(state, event)->Ok_0.current == key,
        step(state, event)->Ok_0.awaiting_name,
        awaits_one_at_most(step(state, event)->Ok_0),
        step(state, event)->Ok_0.dialect == Dialect::Current,
        index_of(step(state, event)->Ok_0.contributors, key) is Some,
{
    lemma_word_differs();
    let all = state.contributors;
    let next = step(state, event)->Ok_0;
    assert(next.contributors == reset(all, key));
    assert(keys(next.contributors) =~= keys(all).push(key));
    lemma_key_is_found(next.contributors, key, all.len() as int);
}

/// An event other than the opening tag of a `creator` adds no contributor,
/// as long as what a text is awaited for, and what a `meta` refines, is a
/// contributor that is known.
proof fn lemma_step_keeps_keys(state: StateView, event: EventView)
    requires
        step(state, event) is Ok,
        !opens_creator(event),
        awaits_one_at_most(state),
        is_settled(state) || event is Text,
        state.dialect == Dialect::Legacy ==> is_settled(state),
        !is_settled(state) ==> index_of(state.contributors, state.current) is Some,
        forall|key: Seq<u8>|
            #[trigger] refines_by_meta(event, key, Refinement::Role) ==> index_of(
                state.contributors,
                key,
            ) is Some,
        forall|key: Seq<u8>|
            #[trigger] refines_by_meta(event, key, Refinement::SortKey) ==> index_of(
                state.contributors,
                key,
            ) is Some,
    ensures
        keys(step(state, event)->Ok_0.contributors) == keys(state.contributors),
        !is_settled(step(state, event)->Ok_0) ==> index_of(
            step(state, event)->Ok_0.contributors,
            step(state, event)->Ok_0.current,
        ) is Some,
        step(state, event)->Ok_0.dialect == Dialect::Legacy ==> is_settled(
            step(state, event)->Ok_0,
        ),
{
    lemma_word_differs();
    let all = state.contributors;
    let next = step(state, event)->Ok_0;
    match event {
        EventView::Start { name, attributes } => {
            if local_part(name) == "meta".spec_bytes() && state.dialect == Dialect::Current {
                let attributes = attributes->0;
                let property = attribute(attributes, "property".spec_bytes());
                assert(next == start_meta(state, attributes));
                match attribute(attributes, "refines".spec_bytes()) {
                    Some(target) => {
                        if tells(property, Refinement::SortKey) {
                            assert(refines_by_meta(event, target.value, Refinement::SortKey));
                        } else if tells(property, Refinement::Role) {
                            assert(refines_by_meta(event, target.value, Refinement::Role));
                        }
                    },
                    None => {},
                }
            }
        },
        EventView::Text { raw, unescaped } => {
            if !is_settled(state) {
                lemma_changes_keep_keys(all, state.current, raw);
                assert(with_entry(all, state.current) == all);
            }
        },
        _ => {},
    }
}

/// Reading one event more is one step more.
proof fn lemma_scan_one_more(state: StateView, events: Seq<EventView>, n: int)
    requires
        0 <= n < events.len(),
        forall|i: int| 0 <= i <= n ==> !ends_document(#[trigger] events[i]),
    ensures
        scan(state, events.take(n + 1)) == match scan(state, events.take(n)) {
            Ok(reached) => step(reached, events[n]),
            Err(error) => Err(error),
        },
{
    let front = events.take(n + 1);
    assert forall|i: int| 0 <= i < n implies !ends_document(#[trigger] front[i]) by {
        assert(front[i] == events[i]);
    }
    lemma_scan_in_two(state, front, n);
    assert(front.take(n) =~= events.take(n));
    let tail = front.skip(n);
    assert(tail.len() == 1);
    assert(tail[0] == events[n]);
    assert(!ends_document(events[n]));
    match scan(state, events.take(n)) {
        Ok(reached) => {
            match step(reached, events[n]) {
                Ok(next) => {
                    assert(tail.skip(1).len() == 0);
                    assert(scan(next, tail.skip(1)) == Ok::<StateView, ExtractError>(next));
                    assert(scan(reached, tail) == Ok::<StateView, ExtractError>(next));
                },
                Err(_) => {},
            }
        },
        Err(_) => {},
    }
}

/// What holds of the state before the event `n` of a document whose credits
/// tell all: the contributors are the credits seen so far, in their order.
pub open spec fn follows_credits(
    events: Seq<EventView>,
    root: int,
    credits: Seq<Credit>,
    n: int,
    state: StateView,
) -> bool {
    &&& awaits_one_at_most(state)
    &&& awaits_as_its_dialect_does(state)
    &&& is_settled(state) || (n < events.len() && events[n] is Text)
    &&& n > root ==> state.dialect == Dialect::Current
    &&& state.dialect == Dialect::Legacy ==> is_settled(state)
    &&& !is_settled(state) ==> index_of(state.contributors, state.current) is Some
    &&& keys(state.contributors) == credit_keys(credits.take(seen(credits, n)))
}

/// The opening tag of a `creator` is that of the next credit.
proof fn lemma_credit_opens(
    events: Seq<EventView>,
    root: int,
    credits: Seq<Credit>,
    m: int,
    before: StateView,
)
    requires
        tells_all(events, root, credits),
        0 <= m < events.len(),
        follows_credits(events, root, credits, m, before),
        opens_creator(events[m]),
    ensures
        step(before, events[m]) is Ok,
        follows_credits(events, root, credits, m + 1, step(before, events[m])->Ok_0),
{
    let n = m + 1;
    let event = events[m];
    let k = choose|k: int| 0 <= k < credits.len() && (#[trigger] credits[k]).declared == m;
    assert(gives_credit(events, credits[k]));
    assert(root < credits[k].declared);
    assert(events[m + 1] is Text);
    assert forall|j: int| 0 <= j < k implies (#[trigger] credits[j]).declared < m by {
        assert(credits[j].declared < credits[k].declared);
    }
    assert forall|j: int| k <= j < credits.len() implies (#[trigger] credits[j]).declared >= m by {
        if k < j {
            assert(credits[k].declared < credits[j].declared);
        }
    }
    lemma_seen_is(credits, m, k);
    assert forall|j: int| 0 <= j < k + 1 implies (#[trigger] credits[j]).declared < n by {
        if j < k {
            assert(credits[j].declared < credits[k].declared);
        }
    }
    assert forall|j: int| k + 1 <= j < credits.len() implies (#[trigger] credits[j]).declared
        >= n by {
        assert(credits[k].declared < credits[j].declared);
    }
    lemma_seen_is(credits, n, k + 1);
    let key = credits[k].key;
    lemma_index_of(before.contributors, key);
    assert(before.contributors.len() == keys(before.contributors).len());
    if index_of(before.contributors, key) is Some {
        let at = index_of(before.contributors, key)->0;
        assert(keys(before.contributors)[at] == key);
        assert(credit_keys(credits.take(k))[at] == credits[at].key);
        assert(credits[at].key != credits[k].key);
    }
    assert(is_settled(before));
    lemma_step_adds_key(before, event, key);
    assert(credit_keys(credits.take(k + 1)) =~= credit_keys(credits.take(k)).push(key));
}

/// An event other than the opening tag of a `creator` leaves the
/// contributors those of the credits seen so far.
proof fn lemma_no_credit_opens(
    events: Seq<EventView>,
    root: int,
    credits: Seq<Credit>,
    m: int,
    before: StateView,
)
    requires
        tells_all(events, root, credits),
        0 <= m < events.len(),
        follows_credits(events, root, credits, m, before),
        !opens_creator(events[m]),
        step(before, events[m]) is Ok,
    ensures
        follows_credits(events, root, credits, m + 1, step(before, events[m])->Ok_0),
{
    let n = m + 1;
    let event = events[m];
    let known = seen(credits, m);
    lemma_seen(credits, m);
    lemma_step_settles(before, event);
    if event is Start {
        assert(events[m + 1] is Text);
    }
    assert forall|j: int| 0 <= j < known implies (#[trigger] credits[j]).declared < n by {
    }
    assert forall|j: int| known <= j < credits.len() implies (#[trigger] credits[j]).declared
        >= n by {
        assert(gives_credit(events, credits[j]));
        assert(declares(events[credits[j].declared], credits[j].key));
        assert(credits[j].declared != m);
    }
    lemma_seen_is(credits, n, known);
    assert(before.contributors.len() == keys(before.contributors).len());
    assert forall|key: Seq<u8>| #[trigger]
        refines_by_meta(event, key, Refinement::Role) implies index_of(
        before.contributors,
        key,
    ) is Some by {
        let k = choose|k: int|
            0 <= k < credits.len() && (#[trigger] credits[k]).key == key && credits[k].role_given
                == m;
        assert(gives_credit(events, credits[k]));
        assert(k < known);
        assert(credit_keys(credits.take(known))[k] == key);
        assert(keys(before.contributors)[k] == before.contributors[k].key);
        lemma_key_is_found(before.contributors, key, k);
    }
    assert forall|key: Seq<u8>| #[trigger]
        refines_by_meta(event, key, Refinement::SortKey) implies index_of(
        before.contributors,
        key,
    ) is Some by {
        let k = choose|k: int|
            0 <= k < credits.len() && (#[trigger] credits[k]).key == key
                && credits[k].sort_key_given == Some(m);
        assert(gives_credit(events, credits[k]));
        assert(k < known);
        assert(credit_keys(credits.take(known))[k] == key);
        assert(keys(before.contributors)[k] == before.contributors[k].key);
        lemma_key_is_found(before.contributors, key, k);
    }
    lemma_step_keeps_keys(before, event);
    if m == root {
        lemma_root_turns_current(before, event);
    }
}

/// The contributors before each event of a document whose credits tell all
/// are the credits seen so far.
proof fn lemma_follows_credits(
    events: Seq<EventView>,
    root: int,
    credits: Seq<Credit>,
    n: int,
)
    requires
        tells_all(events, root, credits),
        0 <= n <= events.len(),
        scan(initial_state(), events) is Ok,
    ensures
        scan(initial_state(), events.take(n)) is Ok,
        follows_credits(events, root, credits, n, scan(initial_state(), events.take(n))->Ok_0),
    decreases n,
{
    lemma_scan_in_two(initial_state(), events, n);
    if n == 0 {
        assert(events.take(0).len() == 0);
        assert forall|k: int| 0 <= k < credits.len() implies (#[trigger] credits[k]).declared
            >= 0 by {
            assert(gives_credit(events, credits[k]));
        }
        lemma_seen_is(credits, 0, 0);
        assert(credits.take(0).len() == 0);
        assert(keys(initial_state().contributors) =~= credit_keys(credits.take(0)));
    } else {
        let m = n - 1;
        lemma_follows_credits(events, root, credits, m);
        lemma_scan_one_more(initial_state(), events, m);
        let before = scan(initial_state(), events.take(m))->Ok_0;
        if opens_creator(events[m]) {
            lemma_credit_opens(events, root, credits, m, before);
        } else {
            lemma_no_credit_opens(events, root, credits, m, before);
        }
    }
}

/// In the current dialect the opening tag of a `creator` with an `id` leaves
/// the contributor of its key without sort key and role.
proof fn lemma_blank_after_declaration(
    state: StateView,
    event: EventView,
    key: Seq<u8>,
    what: Refinement,
)
    requires
        state.dialect == Dialect::Current,
        is_settled(state),
        declares(event, key),
        !(what is Name),
    ensures
        step(state, event) is Ok,
        step(state, event)->Ok_0.dialect == Dialect::Current,
        awaits_one_at_most(step(state, event)->Ok_0),
        !awaits(step(state, event)->Ok_0, what),
        index_of(step(state, event)->Ok_0.contributors, key) is Some,
        refined_field(
            step(state, event)->Ok_0.contributors[index_of(
                step(state, event)->Ok_0.contributors,
                key,
            )->0],
            what,
        ).len() == 0,
{
    lemma_word_differs();
    let all = state.contributors;
    let next = step(state, event)->Ok_0;
    lemma_with_entry(all, key);
    assert(next.contributors == reset(all, key));
    lemma_index_of(next.contributors, key);
    lemma_index_of(all, key);
    let at = entry_index(all, key);
    assert(next.contributors[at].key == key);
    let found = index_of(next.contributors, key)->0;
    if found != at {
        assert(next.contributors[found] == with_entry(all, key)[found]);
        if index_of(all, key) is Some {
            assert(all[found].key == key);
        } else {
            assert(found < all.len());
            assert(all[found].key == key);
        }
    }
}

/// In a document of the current dialect, a contributor that no `meta`
/// refines with a sort key, or with a role, ends without one.
pub proof fn lemma_unrefined_in_document(
    events: Seq<EventView>,
    root: int,
    declared: int,
    key: Seq<u8>,
    what: Refinement,
)
    requires
        is_markup(events),
        0 <= root < declared < events.len(),
        opens_current_package(events[root]),
        declares(events[declared], key),
        !(what is Name),
        forall|i: int|
            declared < i < events.len() ==> !declares(#[trigger] events[i], key) && !refines(
                events[i],
                key,
                what,
            ),
        package_metadata(events) is Ok,
    ensures
        index_of(final_contributors(events), key) matches Some(at) && refined_field(
            final_contributors(events)[at],
            what,
        ).len() == 0,
{
    let id = attribute(events[declared]->Start_attributes->0, "id".spec_bytes())->0.value;
    lemma_scan_in_two(initial_state(), events, root);
    let before_root = scan(initial_state(), events.take(root))->Ok_0;
    lemma_settled_between_elements(initial_state(), events, root);
    lemma_root_turns_current(before_root, events[root]);
    let after_root = StateView { dialect: Dialect::Current, ..before_root };
    let rest = events.skip(root + 1);
    assert(scan(before_root, events.skip(root)) == scan(after_root, rest)) by {
        assert(events.skip(root)[0] == events[root]);
        assert(events.skip(root).skip(1) =~= rest);
        assert(!ends_document(events[root]));
    }
    assert(is_markup(rest)) by {
        assert forall|i: int| 0 <= i < rest.len() implies !ends_document(#[trigger] rest[i]) by {
            assert(rest[i] == events[i + root + 1]);
        }
        assert forall|i: int| 0 <= i < rest.len() && (#[trigger] rest[i]) is Start implies i + 1
            < rest.len() && rest[i + 1] is Text by {
            assert(rest[i] == events[i + root + 1]);
            assert(events[i + root + 1] is Start);
            assert(rest[i + 1] == events[i + root + 2]);
        }
    }
    let at = declared - root - 1;
    assert(rest[at] == events[declared]);
    lemma_scan_in_two(after_root, rest, at);
    lemma_settled_between_elements(after_root, rest, at);
    let before = scan(after_root, rest.take(at))->Ok_0;
    lemma_blank_after_declaration(before, rest[at], key, what);
    let opened = step(before, rest[at])->Ok_0;
    let tail = rest.skip(at + 1);
    assert(scan(before, rest.skip(at)) == scan(opened, tail)) by {
        assert(rest.skip(at)[0] == rest[at]);
        assert(rest.skip(at).skip(1) =~= tail);
        assert(!ends_document(rest[at]));
    }
    assert(is_markup(tail)) by {
        assert forall|i: int| 0 <= i < tail.len() implies !ends_document(#[trigger] tail[i]) by {
            assert(tail[i] == rest[i + at + 1]);
        }
        assert forall|i: int| 0 <= i < tail.len() && (#[trigger] tail[i]) is Start implies i + 1
            < tail.len() && tail[i + 1] is Text by {
            assert(tail[i] == rest[i + at + 1]);
            assert(rest[i + at + 1] is Start);
            assert(tail[i + 1] == rest[i + at + 2]);
        }
    }
    assert(rest[at + 1] is Text);
    assert(tail[0] == rest[at + 1]);
    assert forall|i: int| 0 <= i < tail.len() implies !declares(#[trigger] tail[i], key)
        && !refines(tail[i], key, what) by {
        assert(tail[i] == events[i + declared + 1]);
    }
    let empty = refined_field(opened.contributors[index_of(opened.contributors, key)->0], what);
    assert(empty =~= Seq::<u8>::empty());
    assert(is_on_the_way(opened, tail, -3, -2, key, what, empty));
    lemma_refinement_stays(opened, tail, -3, -2, key, id, what, empty);
}

/// A `creator` that declares a key is the `creator` of the credit with this
/// key.
proof fn lemma_declared_once(
    events: Seq<EventView>,
    root: int,
    credits: Seq<Credit>,
    k: int,
    i: int,
)
    requires
        tells_all(events, root, credits),
        0 <= k < credits.len(),
        0 <= i < events.len(),
        declares(events[i], credits[k].key),
    ensures
        i == credits[k].declared,
{
    let j = choose|j: int| 0 <= j < credits.len() && (#[trigger] credits[j]).declared == i;
    assert(gives_credit(events, credits[j]));
    assert(gives_credit(events, credits[k]));
    if j < k {
        assert(credits[j].key != credits[k].key);
    }
    if k < j {
        assert(credits[k].key != credits[j].key);
    }
}

/// A `meta` that refines the contributor of a credit is that of the credit.
proof fn lemma_refined_once(
    events: Seq<EventView>,
    root: int,
    credits: Seq<Credit>,
    k: int,
    i: int,
    what: Refinement,
)
    requires
        tells_all(events, root, credits),
        0 <= k < credits.len(),
        0 <= i < events.len(),
        !(what is Name),
        refines(events[i], credits[k].key, what),
    ensures
        what is Role ==> i == credits[k].role_given,
        what is SortKey ==> credits[k].sort_key_given == Some(i),
{
    let key = credits[k].key;
    assert(refines_by_meta(events[i], key, what));
    if what is Role {
        assert(refines_by_meta(events[i], key, Refinement::Role));
        let j = choose|j: int|
            0 <= j < credits.len() && (#[trigger] credits[j]).key == key && credits[j].role_given
                == i;
        if j < k {
            assert(credits[j].key != credits[k].key);
        }
        if k < j {
            assert(credits[k].key != credits[j].key);
        }
    } else {
        assert(refines_by_meta(events[i], key, Refinement::SortKey));
        let j = choose|j: int|
            0 <= j < credits.len() && (#[trigger] credits[j]).key == key
                && credits[j].sort_key_given == Some(i);
        if j < k {
            assert(credits[j].key != credits[k].key);
        }
        if k < j {
            assert(credits[k].key != credits[j].key);
        }
    }
}

/// The contributor of a credit ends as the credit tells.
proof fn lemma_credit_is_kept(
    events: Seq<EventView>,
    root: int,
    credits: Seq<Credit>,
    k: int,
)
    requires
        tells_all(events, root, credits),
        0 <= k < credits.len(),
        package_metadata(events) is Ok,
    ensures
        index_of(final_contributors(events), credits[k].key) is Some,
        final_contributors(events)[index_of(final_contributors(events), credits[k].key)->0]
            == credited(credits[k]),
{
    let credit = credits[k];
    let key = credit.key;
    let all = final_contributors(events);
    assert(gives_credit(events, credit));
    assert(root < credit.declared);
    assert forall|i: int| 0 <= i < events.len() && i != credit.declared implies !declares(
        #[trigger] events[i],
        key,
    ) by {
        if declares(events[i], key) {
            lemma_declared_once(events, root, credits, k, i);
        }
    }
    assert forall|i: int| 0 <= i < events.len() && i != credit.role_given implies !refines(
        #[trigger] events[i],
        key,
        Refinement::Role,
    ) by {
        if refines(events[i], key, Refinement::Role) {
            lemma_refined_once(events, root, credits, k, i, Refinement::Role);
        }
    }
    assert forall|i: int|
        0 <= i < events.len() && credit.sort_key_given != Some(i) implies !refines(
        #[trigger] events[i],
        key,
        Refinement::SortKey,
    ) by {
        if refines(events[i], key, Refinement::SortKey) {
            lemma_refined_once(events, root, credits, k, i, Refinement::SortKey);
        }
    }
    lemma_refinement_in_document(
        events,
        root,
        credit.declared,
        credit.declared,
        key,
        Refinement::Name,
        credit.name,
    );
    lemma_refinement_in_document(
        events,
        root,
        credit.declared,
        credit.role_given,
        key,
        Refinement::Role,
        author_role(),
    );
    match credit.sort_key_given {
        Some(at) => {
            lemma_refinement_in_document(
                events,
                root,
                credit.declared,
                at,
                key,
                Refinement::SortKey,
                credit.sort_key,
            );
        },
        None => {
            lemma_unrefined_in_document(events, root, credit.declared, key, Refinement::SortKey);
            assert(credit.sort_key =~= Seq::<u8>::empty());
            let at = index_of(all, key)->0;
            assert(all[at].sort_key =~= Seq::<u8>::empty());
        },
    }
    lemma_index_of(all, key);
}

/// Where every contributor is listed as an author, the authors are the
/// contributors, one for one.
proof fn lemma_all_are_listed(all: Seq<ContributorView>)
    requires
        forall|i: int| 0 <= i < all.len() ==> is_author(#[trigger] all[i]),
    ensures
        all.filter(|contributor: ContributorView| is_author(contributor)) == all,
        authors_of(all) == all.map_values(|contributor: ContributorView| author_of(contributor)),
    decreases all.len(),
{
    reveal(Seq::filter);
    let listed = |contributor: ContributorView| is_author(contributor);
    if all.len() == 0 {
        assert(all.filter(listed) =~= all);
    } else {
        let front = all.drop_last();
        assert forall|i: int| 0 <= i < front.len() implies is_author(#[trigger] front[i]) by {
            assert(front[i] == all[i]);
        }
        lemma_all_are_listed(front);
        assert(is_author(all[all.len() - 1]));
        assert(all.filter(listed) =~= front.filter(listed).push(all.last()));
        assert(front.push(all.last()) =~= all);
        assert(all.filter(listed) =~= all);
    }
}

/// The authors of a document of the current dialect are those that it
/// credits, one for one and in the order of the document: each `creator`
/// with an `id` of its own and a name, which a `meta` makes an author, is
/// listed once, under its own name and with the sort key that a `meta` gives
/// it, or without one. The `meta` elements may stand anywhere after the
/// `creator` that they refine, among other `creator` and `meta` elements:
/// no sort key and no role goes to another contributor.
pub proof fn lemma_credits_are_the_authors(
    events: Seq<EventView>,
    root: int,
    credits: Seq<Credit>,
)
    requires
        events.len() > 0,
        events.last() is Eof,
        tells_all(events.drop_last(), root, credits),
        package_metadata(events) is Ok,
    ensures
        final_contributors(events) == credits.map_values(|credit: Credit| credited(credit)),
        package_metadata(events)->Ok_0.authors == credits.map_values(
            |credit: Credit| author_of(credited(credit)),
        ),
{
    let body = events.drop_last();
    lemma_end_adds_nothing(initial_state(), events);
    let all = final_contributors(events);
    assert(all == final_contributors(body));
    assert(package_metadata(body) is Ok);
    lemma_follows_credits(body, root, credits, body.len() as int);
    assert(body.take(body.len() as int) =~= body);
    assert forall|k: int| 0 <= k < credits.len() implies (#[trigger] credits[k]).declared
        < body.len() by {
        assert(gives_credit(body, credits[k]));
    }
    lemma_seen_is(credits, body.len() as int, credits.len() as int);
    assert(credits.take(credits.len() as int) =~= credits);
    assert(keys(all) == credit_keys(credits));
    assert(all.len() == keys(all).len());
    lemma_keys_are_distinct(body);
    let expected = credits.map_values(|credit: Credit| credited(credit));
    assert forall|k: int| 0 <= k < all.len() implies all[k] == expected[k] by {
        lemma_credit_is_kept(body, root, credits, k);
        let key = credits[k].key;
        let at = index_of(all, key)->0;
        lemma_index_of(all, key);
        assert(keys(all)[k] == all[k].key);
        assert(credit_keys(credits)[k] == key);
        if at < k {
            assert(all[at].key != all[k].key);
        }
    }
    assert(all =~= expected);
    assert forall|k: int| 0 <= k < all.len() implies is_author(#[trigger] all[k]) by {
        assert(all[k] == credited(credits[k]));
        assert(gives_credit(body, credits[k]));
    }
    lemma_all_are_listed(all);
    assert(package_metadata(events)->Ok_0.authors == authors_of(all));
    assert(all.map_values(|contributor: ContributorView| author_of(contributor))
        =~= credits.map_values(|credit: Credit| author_of(credited(credit))));
}

} // verus!
