//! The people that a package document credits, in the order in which the
//! document first mentions them.

use crate::bytes::same;
use vstd::prelude::*;
use vstd::slice::slice_to_vec;

verus! {

/// A person credited in a package document, under the key by which the
/// document refers to them.
pub struct Contributor {
    pub key: Vec<u8>,
    pub name: Vec<u8>,
    pub sort_key: Vec<u8>,
    pub role: Vec<u8>,
}

/// The view of a [`Contributor`].
pub struct ContributorView {
    pub key: Seq<u8>,
    pub name: Seq<u8>,
    pub sort_key: Seq<u8>,
    pub role: Seq<u8>,
}

impl View for Contributor {
    type V = ContributorView;

    open spec fn view(&self) -> ContributorView {
        ContributorView {
            key: self.key@,
            name: self.name@,
            sort_key: self.sort_key@,
            role: self.role@,
        }
    }
}

impl DeepView for Contributor {
    type V = ContributorView;

    open spec fn deep_view(&self) -> ContributorView {
        self@
    }
}

/// A contributor of whom only the key is known.
pub open spec fn blank(key: Seq<u8>) -> ContributorView {
    ContributorView { key, name: Seq::empty(), sort_key: Seq::empty(), role: Seq::empty() }
}

/// An index moved `by` places to the right.
pub open spec fn shifted(found: Option<int>, by: int) -> Option<int> {
    match found {
        Some(index) => Some(index + by),
        None => None,
    }
}

/// The place of the first contributor with the given key.
pub open spec fn index_of(all: Seq<ContributorView>, key: Seq<u8>) -> Option<int>
    decreases all.len(),
{
    if all.len() == 0 {
        None
    } else if all[0].key == key {
        Some(0)
    } else {
        shifted(index_of(all.skip(1), key), 1)
    }
}

/// The contributors with an entry for `key`: a blank one is added at the end
/// where the key is new.
pub open spec fn with_entry(all: Seq<ContributorView>, key: Seq<u8>) -> Seq<ContributorView> {
    if index_of(all, key) is Some {
        all
    } else {
        all.push(blank(key))
    }
}

/// The place of the entry for `key` in `with_entry(all, key)`.
pub open spec fn entry_index(all: Seq<ContributorView>, key: Seq<u8>) -> int {
    match index_of(all, key) {
        Some(index) => index,
        None => all.len() as int,
    }
}

/// The contributors with a blank entry for `key`, in the place of the old
/// one where there was one.
pub open spec fn reset(all: Seq<ContributorView>, key: Seq<u8>) -> Seq<ContributorView> {
    with_entry(all, key).update(entry_index(all, key), blank(key))
}

/// The contributors with `name` as the name of the entry for `key`.
pub open spec fn set_name(all: Seq<ContributorView>, key: Seq<u8>, name: Seq<u8>) -> Seq<
    ContributorView,
> {
    let entries = with_entry(all, key);
    let index = entry_index(all, key);
    entries.update(index, ContributorView { name, ..entries[index] })
}

/// The contributors with `sort_key` as the sort key of the entry for `key`.
pub open spec fn set_sort_key(all: Seq<ContributorView>, key: Seq<u8>, sort_key: Seq<u8>) -> Seq<
    ContributorView,
> {
    let entries = with_entry(all, key);
    let index = entry_index(all, key);
    entries.update(index, ContributorView { sort_key, ..entries[index] })
}

/// The contributors with `role` as the role of the entry for `key`.
pub open spec fn set_role(all: Seq<ContributorView>, key: Seq<u8>, role: Seq<u8>) -> Seq<
    ContributorView,
> {
    let entries = with_entry(all, key);
    let index = entry_index(all, key);
    entries.update(index, ContributorView { role, ..entries[index] })
}

/// The place of a key reaches into the contributors, and no earlier entry
/// has the key.
pub proof fn lemma_index_of(all: Seq<ContributorView>, key: Seq<u8>)
    ensures
        index_of(all, key) matches Some(index) ==> 0 <= index < all.len() && all[index].key == key
            && forall|j: int| 0 <= j < index ==> all[j].key != key,
        index_of(all, key) is None ==> forall|j: int| 0 <= j < all.len() ==> all[j].key != key,
    decreases all.len(),
{
    if all.len() > 0 && all[0].key != key {
        lemma_index_of(all.skip(1), key);
        let rest = all.skip(1);
        match index_of(rest, key) {
            Some(index) => {
                assert forall|j: int| 0 <= j < index + 1 implies all[j].key != key by {
                    if j > 0 {
                        assert(rest[j - 1].key != key);
                    }
                }
            },
            None => {
                assert forall|j: int| 0 <= j < all.len() implies all[j].key != key by {
                    if j > 0 {
                        assert(rest[j - 1].key != key);
                    }
                }
            },
        }
    }
}

/// The keys of the contributors, in the order of the contributors.
pub open spec fn keys(all: Seq<ContributorView>) -> Seq<Seq<u8>> {
    all.map_values(|contributor: ContributorView| contributor.key)
}

/// No two contributors have the same key.
pub open spec fn has_distinct_keys(all: Seq<ContributorView>) -> bool {
    forall|i: int, j: int| 0 <= i < j < all.len() ==> all[i].key != all[j].key
}

/// An entry for a key is the entry that is there, or a new one at the end:
/// the contributors known before keep their places, and their keys stay
/// distinct.
pub proof fn lemma_with_entry(all: Seq<ContributorView>, key: Seq<u8>)
    ensures
        0 <= entry_index(all, key) < with_entry(all, key).len(),
        with_entry(all, key)[entry_index(all, key)].key == key,
        keys(all).is_prefix_of(keys(with_entry(all, key))),
        has_distinct_keys(all) ==> has_distinct_keys(with_entry(all, key)),
{
    lemma_index_of(all, key);
    let entries = with_entry(all, key);
    assert(keys(all) =~= keys(entries).subrange(0, all.len() as int));
    if has_distinct_keys(all) {
        assert forall|i: int, j: int| 0 <= i < j < entries.len() implies entries[i].key
            != entries[j].key by {
            if j < all.len() {
                assert(all[i].key != all[j].key);
            }
        }
    }
}

/// A change to the entry for a key changes no key and no place.
pub proof fn lemma_changes_keep_keys(all: Seq<ContributorView>, key: Seq<u8>, value: Seq<u8>)
    ensures
        keys(set_name(all, key, value)) == keys(with_entry(all, key)),
        keys(set_sort_key(all, key, value)) == keys(with_entry(all, key)),
        keys(set_role(all, key, value)) == keys(with_entry(all, key)),
        keys(reset(all, key)) == keys(with_entry(all, key)),
{
    lemma_with_entry(all, key);
    assert(keys(set_name(all, key, value)) =~= keys(with_entry(all, key)));
    assert(keys(set_sort_key(all, key, value)) =~= keys(with_entry(all, key)));
    assert(keys(set_role(all, key, value)) =~= keys(with_entry(all, key)));
    assert(keys(reset(all, key)) =~= keys(with_entry(all, key)));
}

/// Contributors with the same keys in the same places have distinct keys
/// alike.
pub proof fn lemma_distinct_by_keys(all: Seq<ContributorView>, other: Seq<ContributorView>)
    requires
        keys(all) == keys(other),
    ensures
        has_distinct_keys(all) == has_distinct_keys(other),
{
    assert(all.len() == keys(all).len());
    assert(other.len() == keys(other).len());
    if has_distinct_keys(all) {
        assert forall|i: int, j: int| 0 <= i < j < other.len() implies other[i].key
            != other[j].key by {
            assert(keys(other)[i] == keys(all)[i] && keys(other)[j] == keys(all)[j]);
            assert(all[i].key != all[j].key);
        }
    }
    if has_distinct_keys(other) {
        assert forall|i: int, j: int| 0 <= i < j < all.len() implies all[i].key
            != all[j].key by {
            assert(keys(other)[i] == keys(all)[i] && keys(other)[j] == keys(all)[j]);
            assert(other[i].key != other[j].key);
        }
    }
}

/// Looks a contributor up by key.
pub fn find(all: &Vec<Contributor>, key: &[u8]) -> (found: Option<usize>)
    ensures
        found matches Some(index) ==> index_of(all.deep_view(), key@) == Some(index as int),
        found is None ==> index_of(all.deep_view(), key@) is None,
{
    let ghost entries = all.deep_view();
    let mut i: usize = 0;
    assert(entries.skip(0) =~= entries);
    while i < all.len()
        invariant
            i <= all.len(),
            entries == all.deep_view(),
            index_of(entries, key@) == shifted(index_of(entries.skip(i as int), key@), i as int),
        decreases all.len() - i,
    {
        assert(entries.skip(i as int)[0] == all[i as int]@);
        if same(all[i].key.as_slice(), key) {
            return Some(i);
        }
        assert(entries.skip(i as int).skip(1) =~= entries.skip(i + 1));
        i += 1;
    }
    None
}

/// Finds the entry for `key`, or adds a blank one at the end.
pub fn entry(all: &mut Vec<Contributor>, key: &[u8]) -> (index: usize)
    ensures
        final(all).deep_view() == with_entry(old(all).deep_view(), key@),
        index == entry_index(old(all).deep_view(), key@),
        index < final(all).len(),
{
    proof {
        lemma_index_of(all.deep_view(), key@);
    }
    match find(all, key) {
        Some(index) => index,
        None => {
            let index = all.len();
            all.push(
                Contributor {
                    key: slice_to_vec(key),
                    name: Vec::new(),
                    sort_key: Vec::new(),
                    role: Vec::new(),
                },
            );
            assert(all.deep_view() =~= old(all).deep_view().push(blank(key@)));
            index
        },
    }
}

/// Records `name` as the name of the contributor with the given key.
pub fn assign_name(all: &mut Vec<Contributor>, key: &[u8], name: Vec<u8>)
    ensures
        final(all).deep_view() == set_name(old(all).deep_view(), key@, name@),
{
    let index = entry(all, key);
    let ghost entries = all.deep_view();
    all[index].name = name;
    assert(all.deep_view() =~= entries.update(
        index as int,
        ContributorView { name: name@, ..entries[index as int] },
    ));
}

/// Records `sort_key` as the sort key of the contributor with the given key.
pub fn assign_sort_key(all: &mut Vec<Contributor>, key: &[u8], sort_key: Vec<u8>)
    ensures
        final(all).deep_view() == set_sort_key(old(all).deep_view(), key@, sort_key@),
{
    let index = entry(all, key);
    let ghost entries = all.deep_view();
    all[index].sort_key = sort_key;
    assert(all.deep_view() =~= entries.update(
        index as int,
        ContributorView { sort_key: sort_key@, ..entries[index as int] },
    ));
}

/// Records `role` as the role of the contributor with the given key.
pub fn assign_role(all: &mut Vec<Contributor>, key: &[u8], role: Vec<u8>)
    ensures
        final(all).deep_view() == set_role(old(all).deep_view(), key@, role@),
{
    let index = entry(all, key);
    let ghost entries = all.deep_view();
    all[index].role = role;
    assert(all.deep_view() =~= entries.update(
        index as int,
        ContributorView { role: role@, ..entries[index as int] },
    ));
}

/// Forgets what is known of the contributor with the given key, or adds a
/// blank entry for the key.
pub fn clear(all: &mut Vec<Contributor>, key: &[u8])
    ensures
        final(all).deep_view() == reset(old(all).deep_view(), key@),
{
    let index = entry(all, key);
    let ghost entries = all.deep_view();
    proof {
        lemma_index_of(old(all).deep_view(), key@);
        assert(entries[index as int] == all[index as int]@);
        assert(entries[index as int].key == key@);
    }
    all[index].name = Vec::new();
    all[index].sort_key = Vec::new();
    all[index].role = Vec::new();
    assert(all[index as int]@ == blank(key@));
    assert(all.deep_view() =~= entries.update(index as int, blank(key@)));
}

} // verus!
