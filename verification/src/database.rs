//! The stored record of a book, and what has to change in it.
//!
//! A record is held against the metadata of its book rule by rule: the sort
//! string, its first letter, the display string, the genre and the series.
//! What is stale is corrected; what the record holds already is left alone.

use crate::bytes::same;
use crate::bytes::starts_with;
use crate::epub::Author;
use crate::epub::AuthorView;
use crate::epub::EpubMetadata;
use crate::epub::MetadataView;
use crate::epub::Series;
use crate::epub::SeriesView;
use crate::text::held_in;
use crate::text::holds;
use crate::text::join;
use crate::text::joined;
use crate::text::lemma_encode_injective;
use crate::text::lemma_increasing_unique;
use crate::text::lemma_joined_holds;
use crate::text::lemma_ordered;
use crate::text::ordered;
use crate::text::sort_distinct;
use crate::text::to_uppercase;
use crate::text::uppercase;
use vstd::prelude::*;
use vstd::string::StringExecFns;
use vstd::string::StrSliceExecFns;
use vstd::utf8::encode_utf8;

verus! {

/// The record that the device keeps of a book.
pub struct BookEntry {
    pub id: i32,
    pub filepath: String,
    /// The authors as they are displayed.
    pub author: String,
    /// The authors as they are sorted.
    pub firstauthor: String,
    pub genre: String,
    /// The letter under which the book is filed.
    pub first_author_letter: String,
    pub series: String,
}

/// The view of a [`BookEntry`].
pub struct EntryView {
    pub id: i32,
    pub filepath: Seq<char>,
    pub author: Seq<char>,
    pub firstauthor: Seq<char>,
    pub genre: Seq<char>,
    pub first_author_letter: Seq<char>,
    pub series: Seq<char>,
}

impl View for BookEntry {
    type V = EntryView;

    open spec fn view(&self) -> EntryView {
        EntryView {
            id: self.id,
            filepath: self.filepath@,
            author: self.author@,
            firstauthor: self.firstauthor@,
            genre: self.genre@,
            first_author_letter: self.first_author_letter@,
            series: self.series@,
        }
    }
}

/// The text of a field that may be missing in the database: empty where it
/// is.
pub open spec fn text_or_empty(text: Option<String>) -> Seq<char> {
    match text {
        Some(text) => text@,
        None => Seq::empty(),
    }
}

/// The path of a file: the folder, a slash, and the name of the file.
pub open spec fn file_path(folder: Seq<char>, filename: Seq<char>) -> Seq<char> {
    folder + "/"@ + filename
}

fn or_empty(text: Option<String>) -> (found: String)
    ensures
        found@ == text_or_empty(text),
{
    match text {
        Some(text) => text,
        None => String::new(),
    }
}

impl BookEntry {
    /// The record that a row of the database stands for: the file lies in
    /// its folder, and a field that the row lacks is empty.
    pub fn from_row(
        id: i32,
        folder: &str,
        filename: &str,
        firstauthor: Option<String>,
        author: Option<String>,
        genre: Option<String>,
        first_author_letter: Option<String>,
        series: Option<String>,
    ) -> (entry: Self)
        ensures
            entry@ == (EntryView {
                id,
                filepath: file_path(folder@, filename@),
                author: text_or_empty(author),
                firstauthor: text_or_empty(firstauthor),
                genre: text_or_empty(genre),
                first_author_letter: text_or_empty(first_author_letter),
                series: text_or_empty(series),
            }),
    {
        let mut filepath = String::from_str(folder);
        filepath.append("/");
        filepath.append(filename);
        BookEntry {
            id,
            filepath,
            author: or_empty(author),
            firstauthor: or_empty(firstauthor),
            genre: or_empty(genre),
            first_author_letter: or_empty(first_author_letter),
            series: or_empty(series),
        }
    }
}

/// What has to change in the record of one book; `None` leaves a field as
/// it is.
pub struct Corrections {
    /// The identifier of the record.
    pub book: i32,
    /// The new sort string.
    pub firstauthor: Option<String>,
    /// The new first letter.
    pub first_author_letter: Option<String>,
    /// The new display string.
    pub author: Option<String>,
    /// The genre to enter and to link to the book.
    pub genre: Option<String>,
    /// The series and the position in it.
    pub series: Option<Series>,
}

/// The view of [`Corrections`].
pub struct CorrectionsView {
    pub book: i32,
    pub firstauthor: Option<Seq<char>>,
    pub first_author_letter: Option<Seq<char>>,
    pub author: Option<Seq<char>>,
    pub genre: Option<Seq<char>>,
    pub series: Option<SeriesView>,
}

/// The view of a text that may be missing.
pub open spec fn optional_text(text: Option<String>) -> Option<Seq<char>> {
    match text {
        Some(text) => Some(text@),
        None => None,
    }
}

/// The view of a series that may be missing.
pub open spec fn optional_series(series: Option<Series>) -> Option<SeriesView> {
    match series {
        Some(series) => Some(series@),
        None => None,
    }
}

impl View for Corrections {
    type V = CorrectionsView;

    open spec fn view(&self) -> CorrectionsView {
        CorrectionsView {
            book: self.book,
            firstauthor: optional_text(self.firstauthor),
            first_author_letter: optional_text(self.first_author_letter),
            author: optional_text(self.author),
            genre: optional_text(self.genre),
            series: optional_series(self.series),
        }
    }
}

impl DeepView for Corrections {
    type V = CorrectionsView;

    open spec fn deep_view(&self) -> CorrectionsView {
        self@
    }
}

/// The separator of the sort string.
pub open spec fn sort_separator() -> Seq<char> {
    " & "@
}

/// The separator of the display string.
pub open spec fn display_separator() -> Seq<char> {
    ", "@
}

/// The letter that stands for no letter at all.
pub open spec fn null_letter() -> Seq<char> {
    seq!['\0']
}

/// The sort keys of the authors that have one, in the order of the authors.
pub open spec fn sort_keys(authors: Seq<AuthorView>) -> Seq<Seq<char>> {
    authors.filter(|author: AuthorView| author.firstauthor.len() > 0).map_values(
        |author: AuthorView| author.firstauthor,
    )
}

/// The names of the authors, in the order of the authors.
pub open spec fn names(authors: Seq<AuthorView>) -> Seq<Seq<char>> {
    authors.map_values(|author: AuthorView| author.name)
}

/// The sort string that the authors call for: their sort keys in increasing
/// order, each of them once.
pub open spec fn candidate_sort(authors: Seq<AuthorView>) -> Seq<char> {
    joined(ordered(sort_keys(authors)), sort_separator())
}

/// The first letter that the authors call for: the first character of the
/// sort string in upper case, empty for an empty sort string.
pub open spec fn candidate_letter(authors: Seq<AuthorView>) -> Seq<char> {
    if candidate_sort(authors).len() == 0 {
        Seq::empty()
    } else {
        uppercase(candidate_sort(authors).take(1))
    }
}

/// The display string that the authors call for: their names in the order
/// of the document.
pub open spec fn candidate_display(authors: Seq<AuthorView>) -> Seq<char> {
    joined(names(authors), display_separator())
}

/// Each of the parts is held in `whole`.
pub open spec fn holds_all(whole: Seq<char>, parts: Seq<Seq<char>>) -> bool {
    forall|i: int| 0 <= i < parts.len() ==> held_in(whole, #[trigger] parts[i])
}

/// The stored sort string lacks a sort key.
pub open spec fn sort_is_stale(entry: EntryView, authors: Seq<AuthorView>) -> bool {
    !holds_all(entry.firstauthor, sort_keys(authors))
}

/// There is a first letter to file the book under, and the stored one is
/// another.
pub open spec fn letter_is_stale(entry: EntryView, authors: Seq<AuthorView>) -> bool {
    let letter = candidate_letter(authors);
    letter.len() > 0 && letter != null_letter() && letter != entry.first_author_letter
}

/// The stored display string lacks a name, or is not as long as the names
/// in a row: that a string holds every name does not make it the right one.
pub open spec fn display_is_stale(entry: EntryView, authors: Seq<AuthorView>) -> bool {
    !holds_all(entry.author, names(authors)) || encode_utf8(candidate_display(authors)).len()
        != encode_utf8(entry.author).len()
}

/// The record has no genre, and the book has one.
pub open spec fn genre_is_missing(entry: EntryView, metadata: MetadataView) -> bool {
    entry.genre.len() == 0 && metadata.genre.len() > 0
}

/// The record has no series, and the book has one.
pub open spec fn series_is_missing(entry: EntryView, metadata: MetadataView) -> bool {
    entry.series.len() == 0 && metadata.series.name.len() > 0
}

/// What has to change in a record, given the metadata of its book.
pub open spec fn corrections(entry: EntryView, metadata: MetadataView) -> CorrectionsView {
    CorrectionsView {
        book: entry.id,
        firstauthor: if sort_is_stale(entry, metadata.authors) {
            Some(candidate_sort(metadata.authors))
        } else {
            None
        },
        first_author_letter: if letter_is_stale(entry, metadata.authors) {
            Some(candidate_letter(metadata.authors))
        } else {
            None
        },
        author: if display_is_stale(entry, metadata.authors) {
            Some(candidate_display(metadata.authors))
        } else {
            None
        },
        genre: if genre_is_missing(entry, metadata) {
            Some(metadata.genre)
        } else {
            None
        },
        series: if series_is_missing(entry, metadata) {
            Some(metadata.series)
        } else {
            None
        },
    }
}

/// Nothing has to change.
pub open spec fn no_corrections(book: i32) -> CorrectionsView {
    CorrectionsView {
        book,
        firstauthor: None,
        first_author_letter: None,
        author: None,
        genre: None,
        series: None,
    }
}

/// The record with the corrections made.
pub open spec fn corrected(entry: EntryView, changes: CorrectionsView) -> EntryView {
    EntryView {
        id: entry.id,
        filepath: entry.filepath,
        author: match changes.author {
            Some(author) => author,
            None => entry.author,
        },
        firstauthor: match changes.firstauthor {
            Some(firstauthor) => firstauthor,
            None => entry.firstauthor,
        },
        genre: match changes.genre {
            Some(genre) => genre,
            None => entry.genre,
        },
        first_author_letter: match changes.first_author_letter {
            Some(letter) => letter,
            None => entry.first_author_letter,
        },
        series: match changes.series {
            Some(series) => series.name,
            None => entry.series,
        },
    }
}

/// Collects the sort keys of the authors that have one.
pub fn collect_sort_keys(authors: &Vec<Author>) -> (keys: Vec<String>)
    ensures
        keys.deep_view() == sort_keys(authors.deep_view()),
{
    let ghost all = authors.deep_view();
    let ghost keyed = |author: AuthorView| author.firstauthor.len() > 0;
    let mut keys: Vec<String> = Vec::new();
    let mut i: usize = 0;
    proof {
        reveal(Seq::filter);
        assert(all.take(0) =~= Seq::empty());
        assert(keys.deep_view() =~= sort_keys(all.take(0)));
    }
    while i < authors.len()
        invariant
            i <= authors.len(),
            all == authors.deep_view(),
            keyed == |author: AuthorView| author.firstauthor.len() > 0,
            keys.deep_view() == sort_keys(all.take(i as int)),
        decreases authors.len() - i,
    {
        let ghost before = keys.deep_view();
        proof {
            reveal(Seq::filter);
            assert(all[i as int] == authors[i as int]@);
            assert(all.take(i + 1).drop_last() =~= all.take(i as int));
            assert(all.take(i + 1).last() == all[i as int]);
        }
        if !authors[i].firstauthor.as_str().is_empty() {
            keys.push(authors[i].firstauthor.clone());
            proof {
                assert(all.take(i + 1).filter(keyed) =~= all.take(i as int).filter(keyed).push(
                    all[i as int],
                ));
                assert(keys.deep_view() =~= before.push(all[i as int].firstauthor));
                assert(keys.deep_view() =~= sort_keys(all.take(i + 1)));
            }
        } else {
            proof {
                assert(all.take(i + 1).filter(keyed) =~= all.take(i as int).filter(keyed));
            }
        }
        i += 1;
    }
    assert(all.take(i as int) =~= all);
    keys
}

/// Collects the names of the authors.
pub fn collect_names(authors: &Vec<Author>) -> (found: Vec<String>)
    ensures
        found.deep_view() == names(authors.deep_view()),
{
    let mut found: Vec<String> = Vec::new();
    let mut i: usize = 0;
    while i < authors.len()
        invariant
            i <= authors.len(),
            found.len() == i,
            forall|j: int| 0 <= j < i ==> (#[trigger] found[j])@ == authors[j].name@,
        decreases authors.len() - i,
    {
        found.push(authors[i].name.clone());
        i += 1;
    }
    assert(found.deep_view() =~= names(authors.deep_view()));
    found
}

/// Whether `whole` holds each of the parts.
pub fn holds_each(whole: &str, parts: &Vec<String>) -> (yes: bool)
    ensures
        yes == holds_all(whole@, parts.deep_view()),
{
    let mut i: usize = 0;
    while i < parts.len()
        invariant
            i <= parts.len(),
            forall|j: int| 0 <= j < i ==> held_in(whole@, #[trigger] parts.deep_view()[j]),
        decreases parts.len() - i,
    {
        assert(parts.deep_view()[i as int] == parts[i as int]@);
        if !holds(whole, parts[i].as_str()) {
            return false;
        }
        i += 1;
    }
    true
}

/// Makes the corrections in a record.
pub fn apply(entry: &mut BookEntry, changes: &Corrections)
    ensures
        final(entry)@ == corrected(old(entry)@, changes@),
{
    match &changes.firstauthor {
        Some(firstauthor) => {
            entry.firstauthor = firstauthor.clone();
        },
        None => {},
    }
    match &changes.first_author_letter {
        Some(letter) => {
            entry.first_author_letter = letter.clone();
        },
        None => {},
    }
    match &changes.author {
        Some(author) => {
            entry.author = author.clone();
        },
        None => {},
    }
    match &changes.genre {
        Some(genre) => {
            entry.genre = genre.clone();
        },
        None => {},
    }
    match &changes.series {
        Some(series) => {
            entry.series = series.name.clone();
        },
        None => {},
    }
}

/// The first letter to file a book under, where the stored one has to give
/// way: `letter` is the upper-case start of the sort string. It replaces the
/// stored letter unless it is empty, is the null character that stands for
/// no letter, or is the stored letter already.
pub fn letter_correction(letter: String, stored: &str) -> (fix: Option<String>)
    ensures
        optional_text(fix) == if letter@.len() > 0 && letter@ != null_letter() && letter@
            != stored@ {
            Some(letter@)
        } else {
            None
        },
{
    let null = letter.as_str().unicode_len() == 1 && letter.as_str().get_char(0) == '\0';
    assert(null == (letter@ == null_letter())) by {
        if null {
            assert(letter@ =~= null_letter());
        }
    }
    let kept = same(letter.as_str().as_bytes(), stored.as_bytes());
    proof {
        if kept {
            lemma_encode_injective(letter@, stored@);
        }
    }
    if !letter.as_str().is_empty() && !null && !kept {
        Some(letter)
    } else {
        None
    }
}

/// Holds the record of a book against the metadata of the book, and says
/// what has to change in the record.
pub fn reconcile(entry: &BookEntry, metadata: &EpubMetadata) -> (changes: Corrections)
    ensures
        changes@ == corrections(entry@, metadata@),
{
    let keys = collect_sort_keys(&metadata.authors);
    let sorted = sort_distinct(&keys);
    let sort = join(&sorted, " & ");
    let letter = if sort.as_str().is_empty() {
        String::new()
    } else {
        let first = sort.as_str().substring_char(0, 1);
        assert(first@ =~= sort@.take(1));
        to_uppercase(first)
    };
    let firstauthor = if holds_each(entry.firstauthor.as_str(), &keys) {
        None
    } else {
        Some(sort)
    };
    let first_author_letter = letter_correction(letter, entry.first_author_letter.as_str());
    let names = collect_names(&metadata.authors);
    let display = join(&names, ", ");
    let author = if !holds_each(entry.author.as_str(), &names) || display.as_str().as_bytes().len()
        != entry.author.as_str().as_bytes().len() {
        Some(display)
    } else {
        None
    };
    let genre = if entry.genre.as_str().is_empty() && !metadata.genre.as_str().is_empty() {
        Some(metadata.genre.clone())
    } else {
        None
    };
    let series = if entry.series.as_str().is_empty() && !metadata.series.name.as_str().is_empty() {
        Some(Series { name: metadata.series.name.clone(), index: metadata.series.index })
    } else {
        None
    };
    Corrections { book: entry.id, firstauthor, first_author_letter, author, genre, series }
}

/// The sort keys are the sort keys of the authors that are not empty.
pub proof fn lemma_sort_keys(authors: Seq<AuthorView>, key: Seq<char>)
    ensures
        sort_keys(authors).contains(key) <==> key.len() > 0 && exists|i: int|
            0 <= i < authors.len() && (#[trigger] authors[i]).firstauthor == key,
{
    let keyed = |author: AuthorView| author.firstauthor.len() > 0;
    let kept = authors.filter(keyed);
    if sort_keys(authors).contains(key) {
        let j = choose|j: int| 0 <= j < sort_keys(authors).len() && sort_keys(authors)[j] == key;
        authors.lemma_filter_pred(keyed, j);
        assert(kept.contains(kept[j]));
        authors.lemma_filter_contains_rev(keyed, kept[j]);
        let i = choose|i: int| 0 <= i < authors.len() && authors[i] == kept[j];
        assert(authors[i].firstauthor == key);
    }
    if key.len() > 0 && exists|i: int|
        0 <= i < authors.len() && (#[trigger] authors[i]).firstauthor == key {
        let i = choose|i: int| 0 <= i < authors.len() && (#[trigger] authors[i]).firstauthor == key;
        authors.lemma_filter_contains(keyed, i);
        let j = choose|j: int| 0 <= j < kept.len() && kept[j] == authors[i];
        assert(sort_keys(authors)[j] == key);
    }
}

/// The sort string is the same for every order in which a document credits
/// its authors.
pub proof fn lemma_sort_ignores_document_order(first: Seq<AuthorView>, second: Seq<AuthorView>)
    requires
        first.to_multiset() == second.to_multiset(),
    ensures
        candidate_sort(first) == candidate_sort(second),
{
    let first_keys = sort_keys(first);
    let second_keys = sort_keys(second);
    assert forall|key: Seq<char>| first_keys.contains(key) <==> second_keys.contains(key) by {
        lemma_sort_keys(first, key);
        lemma_sort_keys(second, key);
        if first_keys.contains(key) {
            let i = choose|i: int| 0 <= i < first.len() && (#[trigger] first[i]).firstauthor == key;
            assert(first.contains(first[i]));
            vstd::seq_lib::to_multiset_contains(first, first[i]);
            vstd::seq_lib::to_multiset_contains(second, first[i]);
            let j = choose|j: int| 0 <= j < second.len() && second[j] == first[i];
            assert(second[j].firstauthor == key);
        }
        if second_keys.contains(key) {
            let i = choose|i: int|
                0 <= i < second.len() && (#[trigger] second[i]).firstauthor == key;
            assert(second.contains(second[i]));
            vstd::seq_lib::to_multiset_contains(first, second[i]);
            vstd::seq_lib::to_multiset_contains(second, second[i]);
            let j = choose|j: int| 0 <= j < first.len() && first[j] == second[i];
            assert(first[j].firstauthor == key);
        }
    }
    lemma_ordered(first_keys);
    lemma_ordered(second_keys);
    assert forall|key: Seq<char>| ordered(first_keys).contains(key) <==> ordered(
        second_keys,
    ).contains(key) by {
        assert(ordered(first_keys).contains(key) <==> first_keys.contains(key));
        assert(ordered(second_keys).contains(key) <==> second_keys.contains(key));
    }
    lemma_increasing_unique(ordered(first_keys), ordered(second_keys));
}

/// The display string keeps the order of the document: of two authors the
/// first is named first.
pub proof fn lemma_display_keeps_document_order(first: AuthorView, second: AuthorView)
    ensures
        candidate_display(seq![first, second]) == first.name + display_separator() + second.name,
{
    let both = names(seq![first, second]);
    assert(both.drop_last() =~= seq![first.name]);
    assert(joined(both.drop_last(), display_separator()) == first.name);
}

/// A display string of another length than the names in a row is corrected,
/// whether or not it holds every name.
pub proof fn lemma_length_tells_display_stale(entry: EntryView, metadata: MetadataView)
    requires
        encode_utf8(candidate_display(metadata.authors)).len() != encode_utf8(entry.author).len(),
    ensures
        corrections(entry, metadata).author == Some(candidate_display(metadata.authors)),
{
}

/// A genre or a series that the record holds is never replaced.
pub proof fn lemma_stored_genre_and_series_stay(entry: EntryView, metadata: MetadataView)
    ensures
        entry.genre.len() > 0 ==> corrections(entry, metadata).genre is None && corrected(
            entry,
            corrections(entry, metadata),
        ).genre == entry.genre,
        entry.series.len() > 0 ==> corrections(entry, metadata).series is None && corrected(
            entry,
            corrections(entry, metadata),
        ).series == entry.series,
{
}

/// Once the corrections are made, the same metadata calls for none, and a
/// second pass counts nothing.
pub proof fn lemma_second_pass_corrects_nothing(entry: EntryView, metadata: MetadataView)
    ensures
        corrections(corrected(entry, corrections(entry, metadata)), metadata) == no_corrections(
            entry.id,
        ),
        author_fixes(corrections(corrected(entry, corrections(entry, metadata)), metadata)) == 0,
        letter_fixes(corrections(corrected(entry, corrections(entry, metadata)), metadata)) == 0,
        genre_fixes(corrections(corrected(entry, corrections(entry, metadata)), metadata)) == 0,
        series_fixes(corrections(corrected(entry, corrections(entry, metadata)), metadata)) == 0,
{
    let authors = metadata.authors;
    let after = corrected(entry, corrections(entry, metadata));
    let keys = sort_keys(authors);
    if sort_is_stale(entry, authors) {
        lemma_ordered(keys);
        assert forall|i: int| 0 <= i < keys.len() implies held_in(
            candidate_sort(authors),
            #[trigger] keys[i],
        ) by {
            assert(keys.contains(keys[i]));
            assert(ordered(keys).contains(keys[i]));
            let j = choose|j: int| 0 <= j < ordered(keys).len() && ordered(keys)[j] == keys[i];
            lemma_joined_holds(ordered(keys), sort_separator(), j);
        }
    }
    assert(!sort_is_stale(after, authors));
    if display_is_stale(entry, authors) {
        assert forall|i: int| 0 <= i < names(authors).len() implies held_in(
            candidate_display(authors),
            #[trigger] names(authors)[i],
        ) by {
            lemma_joined_holds(names(authors), display_separator(), i);
        }
    }
    assert(!display_is_stale(after, authors));
}

/// What a pass over the records has done.
pub struct Statistics {
    /// The sort strings and display strings corrected.
    pub authors_fixed: i32,
    /// The records removed because their book is gone.
    pub ghost_books_cleaned: usize,
    pub genres_fixed: usize,
    /// The first letters corrected.
    pub sorting_fixed: usize,
    pub series_fixed: usize,
    /// The books passed over because they lie in the vault of protected
    /// books.
    pub drm_skipped: usize,
}

impl Statistics {
    /// The statistics of a pass that has done nothing yet.
    pub fn new() -> (statistics: Self)
        ensures
            statistics.authors_fixed == 0,
            statistics.ghost_books_cleaned == 0,
            statistics.genres_fixed == 0,
            statistics.sorting_fixed == 0,
            statistics.series_fixed == 0,
            statistics.drm_skipped == 0,
    {
        Statistics {
            authors_fixed: 0,
            ghost_books_cleaned: 0,
            genres_fixed: 0,
            sorting_fixed: 0,
            series_fixed: 0,
            drm_skipped: 0,
        }
    }

    /// Whether the pass has changed anything. A book that was passed over
    /// is no change.
    pub fn anything_fixed(&self) -> (fixed: bool)
        ensures
            fixed == (self.authors_fixed > 0 || self.genres_fixed > 0 || self.ghost_books_cleaned
                > 0 || self.sorting_fixed > 0 || self.series_fixed > 0),
    {
        self.authors_fixed > 0 || self.genres_fixed > 0 || self.ghost_books_cleaned > 0
            || self.sorting_fixed > 0 || self.series_fixed > 0
    }

    /// Counts the corrections of one book.
    pub fn record(&mut self, changes: &Corrections)
        requires
            old(self).authors_fixed + 2 <= i32::MAX,
            old(self).sorting_fixed < usize::MAX,
            old(self).genres_fixed < usize::MAX,
            old(self).series_fixed < usize::MAX,
        ensures
            final(self).authors_fixed == old(self).authors_fixed + author_fixes(changes@),
            final(self).sorting_fixed == old(self).sorting_fixed + letter_fixes(changes@),
            final(self).genres_fixed == old(self).genres_fixed + genre_fixes(changes@),
            final(self).series_fixed == old(self).series_fixed + series_fixes(changes@),
            final(self).ghost_books_cleaned == old(self).ghost_books_cleaned,
            final(self).drm_skipped == old(self).drm_skipped,
    {
        if changes.firstauthor.is_some() {
            self.authors_fixed = self.authors_fixed + 1;
        }
        if changes.first_author_letter.is_some() {
            self.sorting_fixed = self.sorting_fixed + 1;
        }
        if changes.author.is_some() {
            self.authors_fixed = self.authors_fixed + 1;
        }
        if changes.genre.is_some() {
            self.genres_fixed = self.genres_fixed + 1;
        }
        if changes.series.is_some() {
            self.series_fixed = self.series_fixed + 1;
        }
    }
}

/// The sort strings and display strings that the corrections replace.
pub open spec fn author_fixes(changes: CorrectionsView) -> int {
    (if changes.firstauthor is Some {
        1int
    } else {
        0int
    }) + (if changes.author is Some {
        1int
    } else {
        0int
    })
}

/// The first letters that the corrections replace.
pub open spec fn letter_fixes(changes: CorrectionsView) -> int {
    if changes.first_author_letter is Some {
        1
    } else {
        0
    }
}

/// The genres that the corrections enter.
pub open spec fn genre_fixes(changes: CorrectionsView) -> int {
    if changes.genre is Some {
        1
    } else {
        0
    }
}

/// The series that the corrections enter.
pub open spec fn series_fixes(changes: CorrectionsView) -> int {
    if changes.series is Some {
        1
    } else {
        0
    }
}

/// A record together with the metadata of its book, `None` where the book
/// yields none.
pub struct Book {
    pub entry: BookEntry,
    pub metadata: Option<EpubMetadata>,
}

/// The view of a [`Book`].
pub struct BookView {
    pub entry: EntryView,
    pub metadata: Option<MetadataView>,
}

impl View for Book {
    type V = BookView;

    open spec fn view(&self) -> BookView {
        BookView { entry: self.entry@, metadata: crate::epub::optional_metadata(self.metadata) }
    }
}

impl DeepView for Book {
    type V = BookView;

    open spec fn deep_view(&self) -> BookView {
        self@
    }
}

/// The book lies in the vault of protected books: its path begins with the
/// path of the vault. Without a vault no book is protected.
pub open spec fn is_protected(filepath: Seq<char>, vault: Option<Seq<char>>) -> bool {
    vault matches Some(vault) && encode_utf8(vault).is_prefix_of(encode_utf8(filepath))
}

/// The corrections that one book calls for: none for a protected book and
/// none for a book without metadata.
pub open spec fn planned_for(book: BookView, vault: Option<Seq<char>>) -> Option<CorrectionsView> {
    if is_protected(book.entry.filepath, vault) {
        None
    } else {
        match book.metadata {
            Some(metadata) => Some(corrections(book.entry, metadata)),
            None => None,
        }
    }
}

/// The corrections that the books call for, in the order of the books.
pub open spec fn planned(books: Seq<BookView>, vault: Option<Seq<char>>) -> Seq<CorrectionsView>
    decreases books.len(),
{
    if books.len() == 0 {
        Seq::empty()
    } else {
        match planned_for(books.last(), vault) {
            Some(changes) => planned(books.drop_last(), vault).push(changes),
            None => planned(books.drop_last(), vault),
        }
    }
}

/// The number of protected books.
pub open spec fn protected_books(books: Seq<BookView>, vault: Option<Seq<char>>) -> int
    decreases books.len(),
{
    if books.len() == 0 {
        0
    } else {
        protected_books(books.drop_last(), vault) + if is_protected(
            books.last().entry.filepath,
            vault,
        ) {
            1int
        } else {
            0int
        }
    }
}

/// The sum of a count over the corrections of all books.
pub open spec fn total(plans: Seq<CorrectionsView>, count: spec_fn(CorrectionsView) -> int) -> int
    decreases plans.len(),
{
    if plans.len() == 0 {
        0
    } else {
        total(plans.drop_last(), count) + count(plans.last())
    }
}

/// The outcome of a pass: what to change in which record, and the counts.
pub struct Repair {
    pub statistics: Statistics,
    pub corrections: Vec<Corrections>,
}

/// The view of a text that may be missing.
pub open spec fn optional_str(text: Option<&str>) -> Option<Seq<char>> {
    match text {
        Some(text) => Some(text@),
        None => None,
    }
}

/// Whether a book lies in the vault of protected books.
pub fn is_drm_protected(filepath: &str, vault: Option<&str>) -> (protected: bool)
    ensures
        protected == is_protected(filepath@, optional_str(vault)),
{
    match vault {
        Some(vault) => starts_with(filepath.as_bytes(), vault.as_bytes()),
        None => false,
    }
}

/// Goes through the records once: each record of a book that has metadata,
/// and does not lie in the vault of protected books, is held against the
/// metadata. The corrections are counted rule by rule; a book without
/// metadata counts nowhere.
pub fn fix_db_entries(books: &Vec<Book>, vault: Option<&str>) -> (repair: Repair)
    requires
        2 * books.len() <= i32::MAX,
    ensures
        repair.corrections.deep_view() == planned(books.deep_view(), optional_str(vault)),
        repair.statistics.authors_fixed == total(
            repair.corrections.deep_view(),
            |changes: CorrectionsView| author_fixes(changes),
        ),
        repair.statistics.sorting_fixed == total(
            repair.corrections.deep_view(),
            |changes: CorrectionsView| letter_fixes(changes),
        ),
        repair.statistics.genres_fixed == total(
            repair.corrections.deep_view(),
            |changes: CorrectionsView| genre_fixes(changes),
        ),
        repair.statistics.series_fixed == total(
            repair.corrections.deep_view(),
            |changes: CorrectionsView| series_fixes(changes),
        ),
        repair.statistics.drm_skipped == protected_books(books.deep_view(), optional_str(vault)),
        repair.statistics.ghost_books_cleaned == 0,
{
    let ghost all = books.deep_view();
    let ghost limit = optional_str(vault);
    let mut statistics = Statistics::new();
    let mut plans: Vec<Corrections> = Vec::new();
    let mut i: usize = 0;
    proof {
        assert(all.take(0) =~= Seq::empty());
        assert(plans.deep_view() =~= Seq::empty());
    }
    while i < books.len()
        invariant
            i <= books.len(),
            2 * books.len() <= i32::MAX,
            all == books.deep_view(),
            limit == optional_str(vault),
            plans.deep_view() == planned(all.take(i as int), limit),
            statistics.authors_fixed == total(
                plans.deep_view(),
                |changes: CorrectionsView| author_fixes(changes),
            ),
            statistics.sorting_fixed == total(
                plans.deep_view(),
                |changes: CorrectionsView| letter_fixes(changes),
            ),
            statistics.genres_fixed == total(
                plans.deep_view(),
                |changes: CorrectionsView| genre_fixes(changes),
            ),
            statistics.series_fixed == total(
                plans.deep_view(),
                |changes: CorrectionsView| series_fixes(changes),
            ),
            statistics.drm_skipped == protected_books(all.take(i as int), limit),
            statistics.ghost_books_cleaned == 0,
            0 <= statistics.authors_fixed <= 2 * i,
            statistics.sorting_fixed <= i,
            statistics.genres_fixed <= i,
            statistics.series_fixed <= i,
            statistics.drm_skipped <= i,
        decreases books.len() - i,
    {
        let book = &books[i];
        proof {
            assert(all.take(i + 1).drop_last() =~= all.take(i as int));
            assert(all.take(i + 1).last() == book@);
        }
        if is_drm_protected(book.entry.filepath.as_str(), vault) {
            statistics.drm_skipped = statistics.drm_skipped + 1;
        } else {
            match &book.metadata {
                Some(metadata) => {
                    let changes = reconcile(&book.entry, metadata);
                    statistics.record(&changes);
                    let ghost before = plans.deep_view();
                    plans.push(changes);
                    proof {
                        assert(plans.deep_view() =~= before.push(changes@));
                        assert(plans.deep_view().drop_last() =~= before);
                    }
                },
                None => {},
            }
        }
        i += 1;
    }
    assert(all.take(i as int) =~= all);
    Repair { statistics, corrections: plans }
}

/// A book with the corrections made that a pass plans for it.
pub open spec fn corrected_book(book: BookView, vault: Option<Seq<char>>) -> BookView {
    match planned_for(book, vault) {
        Some(changes) => BookView { entry: corrected(book.entry, changes), ..book },
        None => book,
    }
}

/// Whatever a pass plans, it plans for one of its books.
pub proof fn lemma_planned_for_a_book(books: Seq<BookView>, vault: Option<Seq<char>>, i: int)
    requires
        0 <= i < planned(books, vault).len(),
    ensures
        exists|j: int|
            #![trigger books[j]]
            0 <= j < books.len() && planned_for(books[j], vault) == Some(planned(books, vault)[i]),
    decreases books.len(),
{
    if books.len() > 0 {
        let front = books.drop_last();
        let before = planned(front, vault);
        if i < before.len() {
            lemma_planned_for_a_book(front, vault, i);
            let j = choose|j: int|
                #![trigger front[j]]
                0 <= j < front.len() && planned_for(front[j], vault) == Some(before[i]);
            assert(books[j] == front[j]);
        } else {
            assert(planned_for(books[books.len() - 1], vault) == Some(planned(books, vault)[i]));
        }
    }
}

/// Whether a stored text holds every sort key does not depend on the order
/// of the authors.
proof fn lemma_keys_held_in_any_order(
    stored: Seq<char>,
    first: Seq<AuthorView>,
    second: Seq<AuthorView>,
)
    requires
        first.to_multiset() == second.to_multiset(),
        holds_all(stored, sort_keys(first)),
    ensures
        holds_all(stored, sort_keys(second)),
{
    let keys = sort_keys(second);
    assert forall|i: int| 0 <= i < keys.len() implies held_in(stored, #[trigger] keys[i]) by {
        let key = keys[i];
        assert(keys.contains(key));
        lemma_sort_keys(second, key);
        let at = choose|at: int| 0 <= at < second.len() && (#[trigger] second[at]).firstauthor == key;
        assert(second.contains(second[at]));
        vstd::seq_lib::to_multiset_contains(first, second[at]);
        vstd::seq_lib::to_multiset_contains(second, second[at]);
        let back = choose|back: int| 0 <= back < first.len() && first[back] == second[at];
        assert(first[back].firstauthor == key);
        lemma_sort_keys(first, key);
        assert(sort_keys(first).contains(key));
        let j = choose|j: int| 0 <= j < sort_keys(first).len() && sort_keys(first)[j] == key;
        assert(held_in(stored, sort_keys(first)[j]));
    }
}

/// A pass plans the same sort string and the same first letter for a record
/// in whatever order the document credits its authors: both are corrected
/// or left alone alike, and corrected to the same value.
pub proof fn lemma_pass_ignores_document_order(
    first: BookView,
    second: BookView,
    vault: Option<Seq<char>>,
)
    requires
        first.entry == second.entry,
        first.metadata matches Some(one) && second.metadata matches Some(other)
            && one.authors.to_multiset() == other.authors.to_multiset(),
    ensures
        planned_for(first, vault) is Some == planned_for(second, vault) is Some,
        planned_for(first, vault) matches Some(changes) ==> changes.firstauthor == planned_for(
            second,
            vault,
        )->0.firstauthor && changes.first_author_letter == planned_for(
            second,
            vault,
        )->0.first_author_letter,
{
    let one = first.metadata->0.authors;
    let other = second.metadata->0.authors;
    lemma_sort_ignores_document_order(one, other);
    if holds_all(first.entry.firstauthor, sort_keys(one)) {
        lemma_keys_held_in_any_order(first.entry.firstauthor, one, other);
    }
    if holds_all(first.entry.firstauthor, sort_keys(other)) {
        lemma_keys_held_in_any_order(first.entry.firstauthor, other, one);
    }
}

/// Where a pass corrects the display string of a record, it writes the names
/// of the authors in the order of the document, with a comma and a blank
/// between them; of two authors the first is named first.
pub proof fn lemma_pass_displays_in_document_order(book: BookView, vault: Option<Seq<char>>)
    requires
        planned_for(book, vault) matches Some(changes) && changes.author is Some,
    ensures
        planned_for(book, vault)->0.author == Some(
            joined(names(book.metadata->0.authors), display_separator()),
        ),
{
}

/// A pass replaces a display string of another length than the names in a
/// row, whether or not it holds every name, and counts the record among the
/// authors fixed.
pub proof fn lemma_pass_guards_length(book: BookView, vault: Option<Seq<char>>)
    requires
        planned_for(book, vault) is Some,
        encode_utf8(candidate_display(book.metadata->0.authors)).len() != encode_utf8(
            book.entry.author,
        ).len(),
    ensures
        planned_for(book, vault)->0.author == Some(candidate_display(book.metadata->0.authors)),
        author_fixes(planned_for(book, vault)->0) >= 1,
{
}

/// A pass enters a genre or a series only where the record has none and the
/// book has one, and then as the book has it; a genre or a series that the
/// record holds is not replaced and not counted.
pub proof fn lemma_pass_keeps_stored_genre_and_series(book: BookView, vault: Option<Seq<char>>)
    requires
        planned_for(book, vault) is Some,
    ensures
        ({
            let changes = planned_for(book, vault)->0;
            let metadata = book.metadata->0;
            &&& changes.genre is Some <==> book.entry.genre.len() == 0 && metadata.genre.len() > 0
            &&& changes.genre is Some ==> changes.genre == Some(metadata.genre)
            &&& changes.series is Some <==> book.entry.series.len() == 0
                && metadata.series.name.len() > 0
            &&& changes.series is Some ==> changes.series == Some(metadata.series)
            &&& book.entry.genre.len() > 0 ==> genre_fixes(changes) == 0 && corrected(
                book.entry,
                changes,
            ).genre == book.entry.genre
            &&& book.entry.series.len() > 0 ==> series_fixes(changes) == 0 && corrected(
                book.entry,
                changes,
            ).series == book.entry.series
        }),
{
}

/// A second pass over the records, with the corrections of the first made in
/// them and the books as they were, plans no change and counts nothing.
pub proof fn lemma_second_pass_plans_nothing(books: Seq<BookView>, vault: Option<Seq<char>>)
    ensures
        ({
            let again = planned(
                books.map_values(|book: BookView| corrected_book(book, vault)),
                vault,
            );
            &&& forall|i: int|
                0 <= i < again.len() ==> #[trigger] again[i] == no_corrections(again[i].book)
            &&& total(again, |changes: CorrectionsView| author_fixes(changes)) == 0
            &&& total(again, |changes: CorrectionsView| letter_fixes(changes)) == 0
            &&& total(again, |changes: CorrectionsView| genre_fixes(changes)) == 0
            &&& total(again, |changes: CorrectionsView| series_fixes(changes)) == 0
        }),
    decreases books.len(),
{
    let after = books.map_values(|book: BookView| corrected_book(book, vault));
    if books.len() > 0 {
        let front = books.drop_last();
        lemma_second_pass_plans_nothing(front, vault);
        assert(after.drop_last() =~= front.map_values(
            |book: BookView| corrected_book(book, vault),
        ));
        let book = books.last();
        assert(after.last() == corrected_book(book, vault));
        match book.metadata {
            Some(metadata) => {
                lemma_second_pass_corrects_nothing(book.entry, metadata);
            },
            None => {},
        }
        let again = planned(after, vault);
        let before = planned(after.drop_last(), vault);
        assert forall|i: int| 0 <= i < again.len() implies #[trigger] again[i] == no_corrections(
            again[i].book,
        ) by {
            if i < before.len() {
                assert(again[i] == before[i]);
            }
        }
        if again.len() > before.len() {
            assert(again.drop_last() =~= before);
        }
    }
}

} // verus!
