//! Text and its UTF-8 encoding.

use crate::bytes::contains;
use crate::bytes::is_before;
use crate::bytes::lemma_occurs_in_itself;
use crate::bytes::lemma_occurs_in_wider;
use crate::bytes::lemma_precedes_irreflexive;
use crate::bytes::lemma_precedes_total;
use crate::bytes::lemma_precedes_transitive;
use crate::bytes::occurs_in;
use crate::bytes::precedes;
use vstd::prelude::*;
use vstd::string::StringExecFns;
use vstd::utf8::decode_utf8;
use vstd::utf8::encode_utf8;
use vstd::utf8::valid_utf8;

verus! {

/// The upper-case form that `std` gives a text.
pub uninterp spec fn uppercase(text: Seq<char>) -> Seq<char>;

/// `str::to_uppercase`.
#[verifier::external_body]
pub(crate) fn to_uppercase(text: &str) -> (upper: String)
    ensures
        upper@ == uppercase(text@),
{
    text.to_uppercase()
}

/// `String::from_utf8`, with its error turned into `None`: the text that
/// the bytes encode, if they are valid UTF-8.
#[verifier::external_body]
pub(crate) fn from_utf8(bytes: Vec<u8>) -> (text: Option<String>)
    ensures
        text is Some == valid_utf8(bytes@),
        text matches Some(text) ==> text@ == decode_utf8(bytes@),
{
    String::from_utf8(bytes).ok()
}

/// The encoding of a text made of two parts is made of their encodings.
pub proof fn lemma_encode_concat(a: Seq<char>, b: Seq<char>)
    ensures
        encode_utf8(a + b) == encode_utf8(a) + encode_utf8(b),
    decreases a.len(),
{
    if a.len() == 0 {
        assert(a + b =~= b);
        assert(encode_utf8(a) + encode_utf8(b) =~= encode_utf8(b));
    } else {
        lemma_encode_concat(a.drop_first(), b);
        assert((a + b).drop_first() =~= a.drop_first() + b);
        assert(encode_utf8(a + b) =~= encode_utf8(a) + encode_utf8(b));
    }
}

/// Two texts with the same encoding are the same.
pub proof fn lemma_encode_injective(a: Seq<char>, b: Seq<char>)
    requires
        encode_utf8(a) == encode_utf8(b),
    ensures
        a == b,
{
    vstd::utf8::encode_utf8_decode_utf8(a);
    vstd::utf8::encode_utf8_decode_utf8(b);
}

/// `part` is a contiguous part of `whole`, byte by byte.
pub open spec fn held_in(whole: Seq<char>, part: Seq<char>) -> bool {
    occurs_in(encode_utf8(whole), encode_utf8(part))
}

/// `a` is sorted before `b`: the order of their bytes.
pub open spec fn comes_before(a: Seq<char>, b: Seq<char>) -> bool {
    precedes(encode_utf8(a), encode_utf8(b))
}

/// Each text is sorted before all that follow it.
pub open spec fn is_increasing(texts: Seq<Seq<char>>) -> bool {
    forall|i: int, j: int| 0 <= i < j < texts.len() ==> comes_before(texts[i], texts[j])
}

/// The parts in a row, with the separator between each two of them.
pub open spec fn joined(parts: Seq<Seq<char>>, separator: Seq<char>) -> Seq<char>
    decreases parts.len(),
{
    if parts.len() == 0 {
        Seq::empty()
    } else if parts.len() == 1 {
        parts[0]
    } else {
        joined(parts.drop_last(), separator) + separator + parts.last()
    }
}

/// An increasing sequence with `text` put in its place, unless it is there
/// already.
pub open spec fn inserted(sorted: Seq<Seq<char>>, text: Seq<char>) -> Seq<Seq<char>>
    decreases sorted.len(),
{
    if sorted.len() == 0 {
        seq![text]
    } else if comes_before(sorted[0], text) {
        seq![sorted[0]] + inserted(sorted.skip(1), text)
    } else if sorted[0] == text {
        sorted
    } else {
        seq![text] + sorted
    }
}

/// The texts in increasing order, each of them once.
pub open spec fn ordered(texts: Seq<Seq<char>>) -> Seq<Seq<char>>
    decreases texts.len(),
{
    if texts.len() == 0 {
        Seq::empty()
    } else {
        inserted(ordered(texts.drop_last()), texts.last())
    }
}

/// Of two different texts one is sorted before the other, and never both.
pub proof fn lemma_comes_before(a: Seq<char>, b: Seq<char>)
    ensures
        a == b || comes_before(a, b) || comes_before(b, a),
        !(comes_before(a, b) && comes_before(b, a)),
        !comes_before(a, a),
{
    lemma_precedes_total(encode_utf8(a), encode_utf8(b));
    if encode_utf8(a) == encode_utf8(b) {
        lemma_encode_injective(a, b);
    }
    lemma_precedes_irreflexive(encode_utf8(a));
    if comes_before(a, b) && comes_before(b, a) {
        lemma_precedes_transitive(encode_utf8(a), encode_utf8(b), encode_utf8(a));
    }
}

/// Putting a text in its place keeps the order, and adds the text and
/// nothing else.
pub proof fn lemma_inserted(sorted: Seq<Seq<char>>, text: Seq<char>)
    requires
        is_increasing(sorted),
    ensures
        is_increasing(inserted(sorted, text)),
        forall|other: Seq<char>|
            #![trigger inserted(sorted, text).contains(other)]
            #![trigger sorted.contains(other)]
            inserted(sorted, text).contains(other) <==> sorted.contains(other) || other == text,
    decreases sorted.len(),
{
    let result = inserted(sorted, text);
    if sorted.len() == 0 {
        assert(result[0] == text);
    } else if comes_before(sorted[0], text) {
        let rest = sorted.skip(1);
        assert forall|i: int, j: int| 0 <= i < j < rest.len() implies comes_before(
            rest[i],
            rest[j],
        ) by {
            assert(comes_before(sorted[i + 1], sorted[j + 1]));
        }
        lemma_inserted(rest, text);
        let tail = inserted(rest, text);
        assert forall|i: int, j: int| 0 <= i < j < result.len() implies comes_before(
            result[i],
            result[j],
        ) by {
            if i == 0 {
                assert(tail.contains(tail[j - 1]));
                if rest.contains(tail[j - 1]) {
                    let k = choose|k: int| 0 <= k < rest.len() && rest[k] == tail[j - 1];
                    assert(comes_before(sorted[0], sorted[k + 1]));
                }
            } else {
                assert(comes_before(tail[i - 1], tail[j - 1]));
            }
        }
        assert forall|other: Seq<char>| result.contains(other) <==> sorted.contains(other)
            || other == text by {
            if result.contains(other) {
                let k = choose|k: int| 0 <= k < result.len() && result[k] == other;
                if k == 0 {
                    assert(sorted[0] == other);
                } else {
                    assert(tail[k - 1] == other);
                    assert(tail.contains(other));
                    if rest.contains(other) {
                        let m = choose|m: int| 0 <= m < rest.len() && rest[m] == other;
                        assert(sorted[m + 1] == other);
                    }
                }
            }
            if sorted.contains(other) {
                let k = choose|k: int| 0 <= k < sorted.len() && sorted[k] == other;
                if k == 0 {
                    assert(result[0] == other);
                } else {
                    assert(rest[k - 1] == other);
                    assert(rest.contains(other));
                    let m = choose|m: int| 0 <= m < tail.len() && tail[m] == other;
                    assert(result[m + 1] == other);
                }
            }
            if other == text {
                assert(tail.contains(text));
                let m = choose|m: int| 0 <= m < tail.len() && tail[m] == other;
                assert(result[m + 1] == other);
            }
        }
    } else if sorted[0] == text {
        assert(sorted.contains(text));
    } else {
        lemma_comes_before(sorted[0], text);
        assert forall|i: int, j: int| 0 <= i < j < result.len() implies comes_before(
            result[i],
            result[j],
        ) by {
            if i == 0 {
                if j > 1 {
                    assert(comes_before(sorted[0], sorted[j - 1]));
                    lemma_precedes_transitive(
                        encode_utf8(text),
                        encode_utf8(sorted[0]),
                        encode_utf8(sorted[j - 1]),
                    );
                }
            } else {
                assert(comes_before(sorted[i - 1], sorted[j - 1]));
            }
        }
        assert forall|other: Seq<char>| result.contains(other) <==> sorted.contains(other)
            || other == text by {
            if result.contains(other) {
                let k = choose|k: int| 0 <= k < result.len() && result[k] == other;
                if k > 0 {
                    assert(sorted[k - 1] == other);
                }
            }
            if sorted.contains(other) {
                let k = choose|k: int| 0 <= k < sorted.len() && sorted[k] == other;
                assert(result[k + 1] == other);
            }
            if other == text {
                assert(result[0] == other);
            }
        }
    }
}

/// The ordered texts are increasing, and they are the texts that were given.
pub proof fn lemma_ordered(texts: Seq<Seq<char>>)
    ensures
        is_increasing(ordered(texts)),
        forall|other: Seq<char>|
            #![trigger ordered(texts).contains(other)]
            #![trigger texts.contains(other)]
            ordered(texts).contains(other) <==> texts.contains(other),
    decreases texts.len(),
{
    if texts.len() > 0 {
        let front = texts.drop_last();
        lemma_ordered(front);
        lemma_inserted(ordered(front), texts.last());
        assert forall|other: Seq<char>| ordered(texts).contains(other) <==> texts.contains(
            other,
        ) by {
            if texts.contains(other) {
                let k = choose|k: int| 0 <= k < texts.len() && texts[k] == other;
                if k < front.len() {
                    assert(front[k] == other);
                    assert(front.contains(other));
                }
            }
            if front.contains(other) {
                let k = choose|k: int| 0 <= k < front.len() && front[k] == other;
                assert(texts[k] == other);
            }
            if other == texts.last() {
                assert(texts[texts.len() - 1] == other);
            }
        }
    }
}

/// An increasing sequence is known by the texts that it holds.
pub proof fn lemma_increasing_unique(a: Seq<Seq<char>>, b: Seq<Seq<char>>)
    requires
        is_increasing(a),
        is_increasing(b),
        forall|other: Seq<char>| a.contains(other) <==> b.contains(other),
    ensures
        a == b,
    decreases a.len(),
{
    if a.len() == 0 {
        if b.len() > 0 {
            assert(b.contains(b[0]));
        }
        assert(a =~= b);
    } else {
        assert(a.contains(a[0]));
        let at = choose|k: int| 0 <= k < b.len() && b[k] == a[0];
        assert(b.contains(b[0]));
        let back = choose|k: int| 0 <= k < a.len() && a[k] == b[0];
        lemma_comes_before(a[0], b[0]);
        if at > 0 {
            assert(comes_before(b[0], b[at]));
        }
        if back > 0 {
            assert(comes_before(a[0], a[back]));
        }
        assert(a[0] == b[0]);
        let a_rest = a.skip(1);
        let b_rest = b.skip(1);
        assert forall|other: Seq<char>| a_rest.contains(other) <==> b_rest.contains(other) by {
            lemma_comes_before(a[0], other);
            if a_rest.contains(other) {
                let k = choose|k: int| 0 <= k < a_rest.len() && a_rest[k] == other;
                assert(comes_before(a[0], a[k + 1]));
                assert(a.contains(a[k + 1]));
                let m = choose|m: int| 0 <= m < b.len() && b[m] == other;
                assert(b_rest[m - 1] == other);
            }
            if b_rest.contains(other) {
                let k = choose|k: int| 0 <= k < b_rest.len() && b_rest[k] == other;
                assert(comes_before(b[0], b[k + 1]));
                assert(b.contains(b[k + 1]));
                let m = choose|m: int| 0 <= m < a.len() && a[m] == other;
                assert(a_rest[m - 1] == other);
            }
        }
        assert forall|i: int, j: int| 0 <= i < j < a_rest.len() implies comes_before(
            a_rest[i],
            a_rest[j],
        ) by {
            assert(comes_before(a[i + 1], a[j + 1]));
        }
        assert forall|i: int, j: int| 0 <= i < j < b_rest.len() implies comes_before(
            b_rest[i],
            b_rest[j],
        ) by {
            assert(comes_before(b[i + 1], b[j + 1]));
        }
        lemma_increasing_unique(a_rest, b_rest);
        assert(a =~= seq![a[0]] + a_rest);
        assert(b =~= seq![b[0]] + b_rest);
    }
}

/// Every part is held in the joined text.
pub proof fn lemma_joined_holds(parts: Seq<Seq<char>>, separator: Seq<char>, i: int)
    requires
        0 <= i < parts.len(),
    ensures
        held_in(joined(parts, separator), parts[i]),
    decreases parts.len(),
{
    if parts.len() == 1 {
        lemma_occurs_in_itself(encode_utf8(parts[0]));
    } else {
        let front = joined(parts.drop_last(), separator);
        lemma_encode_concat(front + separator, parts.last());
        lemma_encode_concat(front, separator);
        let whole = encode_utf8(joined(parts, separator));
        if i == parts.len() - 1 {
            lemma_occurs_in_itself(encode_utf8(parts.last()));
            lemma_occurs_in_wider(
                encode_utf8(parts.last()),
                encode_utf8(front) + encode_utf8(separator),
                Seq::empty(),
                encode_utf8(parts.last()),
            );
            assert(whole =~= encode_utf8(front) + encode_utf8(separator) + encode_utf8(
                parts.last(),
            ) + Seq::empty());
        } else {
            lemma_joined_holds(parts.drop_last(), separator, i);
            lemma_occurs_in_wider(
                encode_utf8(front),
                Seq::empty(),
                encode_utf8(separator) + encode_utf8(parts.last()),
                encode_utf8(parts[i]),
            );
            assert(whole =~= Seq::empty() + encode_utf8(front) + (encode_utf8(separator)
                + encode_utf8(parts.last())));
        }
    }
}

/// Whether `part` is a contiguous part of `whole`, byte by byte.
pub fn holds(whole: &str, part: &str) -> (found: bool)
    ensures
        found == held_in(whole@, part@),
{
    contains(whole.as_bytes(), part.as_bytes())
}

/// Writes the parts in a row, with the separator between each two of them.
pub fn join(parts: &Vec<String>, separator: &str) -> (text: String)
    ensures
        text@ == joined(parts.deep_view(), separator@),
{
    let ghost all = parts.deep_view();
    let mut text = String::new();
    let mut i: usize = 0;
    assert(all.take(0) =~= Seq::empty());
    while i < parts.len()
        invariant
            i <= parts.len(),
            all == parts.deep_view(),
            text@ == joined(all.take(i as int), separator@),
        decreases parts.len() - i,
    {
        if i > 0 {
            text.append(separator);
        }
        text.append(parts[i].as_str());
        proof {
            assert(all.take(i + 1).drop_last() =~= all.take(i as int));
            assert(all.take(i + 1).last() == parts[i as int]@);
            if i == 0 {
                assert(text@ =~= parts[i as int]@);
            }
        }
        i += 1;
    }
    assert(all.take(i as int) =~= all);
    text
}

/// Puts a text in its place in an increasing sequence, unless it is there
/// already.
pub fn insert_ordered(sorted: &mut Vec<String>, text: String)
    ensures
        final(sorted).deep_view() == inserted(old(sorted).deep_view(), text@),
{
    let ghost all = sorted.deep_view();
    let mut i: usize = 0;
    proof {
        assert(all.skip(0) =~= all);
        assert(all.take(0) + inserted(all, text@) =~= inserted(all, text@));
    }
    while i < sorted.len() && is_before(sorted[i].as_str().as_bytes(), text.as_str().as_bytes())
        invariant
            i <= sorted.len(),
            all == sorted.deep_view(),
            *sorted == *old(sorted),
            inserted(all, text@) == all.take(i as int) + inserted(all.skip(i as int), text@),
        decreases sorted.len() - i,
    {
        proof {
            assert(all.skip(i as int)[0] == sorted[i as int]@);
            assert(all.skip(i as int).skip(1) =~= all.skip(i + 1));
            assert(all.take(i as int) + (seq![all[i as int]] + inserted(all.skip(i + 1), text@))
                =~= all.take(i + 1) + inserted(all.skip(i + 1), text@));
        }
        i += 1;
    }
    if i < sorted.len() {
        assert(all.skip(i as int)[0] == sorted[i as int]@);
        if sorted[i] == text {
            assert(all.take(i as int) + all.skip(i as int) =~= all);
            return ;
        }
    }
    sorted.insert(i, text);
    proof {
        assert(sorted.deep_view() =~= all.insert(i as int, text@));
        assert(all.insert(i as int, text@) =~= all.take(i as int) + (seq![text@] + all.skip(
            i as int,
        )));
    }
}

/// The texts in increasing order, each of them once.
pub fn sort_distinct(texts: &Vec<String>) -> (sorted: Vec<String>)
    ensures
        sorted.deep_view() == ordered(texts.deep_view()),
{
    let ghost all = texts.deep_view();
    let mut sorted: Vec<String> = Vec::new();
    let mut i: usize = 0;
    proof {
        assert(all.take(0) =~= Seq::empty());
        assert(sorted.deep_view() =~= ordered(all.take(0)));
    }
    while i < texts.len()
        invariant
            i <= texts.len(),
            all == texts.deep_view(),
            sorted.deep_view() == ordered(all.take(i as int)),
        decreases texts.len() - i,
    {
        proof {
            assert(all.take(i + 1).drop_last() =~= all.take(i as int));
            assert(all.take(i + 1).last() == texts[i as int]@);
        }
        insert_ordered(&mut sorted, texts[i].clone());
        i += 1;
    }
    assert(all.take(i as int) =~= all);
    sorted
}

} // verus!
