//! Lexicographic order on byte strings and on texts.
//!
//! Texts are ordered by their UTF-8 bytes, as `str` orders them. Identifiers
//! are reported in this order, so that what is reported depends on the device
//! tables alone and not on the order in which the server listed the devices.

use vstd::prelude::*;
use vstd::utf8::{encode_utf8, encode_utf8_decode_utf8};

verus! {

/// `a` comes strictly before `b`: at the first position where they differ
/// `a` has the smaller byte, or `a` ends there and `b` goes on.
pub open spec fn precedes(a: Seq<u8>, b: Seq<u8>) -> bool
    decreases a.len(),
{
    if b.len() == 0 {
        false
    } else if a.len() == 0 {
        true
    } else if a[0] != b[0] {
        a[0] < b[0]
    } else {
        precedes(a.drop_first(), b.drop_first())
    }
}

/// `a` comes strictly before `b` in the order of their UTF-8 bytes.
pub open spec fn text_precedes(a: Seq<char>, b: Seq<char>) -> bool {
    precedes(encode_utf8(a), encode_utf8(b))
}

/// Each text of `texts` comes strictly before all that follow it.
pub open spec fn ascending(texts: Seq<Seq<char>>) -> bool {
    forall|i: int, j: int| 0 <= i < j < texts.len() ==> text_precedes(texts[i], texts[j])
}

/// The members of a finite set of texts, listed in ascending order.
pub open spec fn ascending_list(texts: Set<Seq<char>>) -> Seq<Seq<char>> {
    choose|list: Seq<Seq<char>>| lists_ascending(list, texts)
}

/// `list` holds the members of `texts`, each once, in ascending order.
pub open spec fn lists_ascending(list: Seq<Seq<char>>, texts: Set<Seq<char>>) -> bool {
    &&& ascending(list)
    &&& forall|text: Seq<char>| list.contains(text) <==> texts.contains(text)
}

/// No byte string comes before itself.
pub proof fn lemma_precedes_irreflexive(a: Seq<u8>)
    ensures
        !precedes(a, a),
    decreases a.len(),
{
    if a.len() > 0 {
        lemma_precedes_irreflexive(a.drop_first());
    }
}

/// The order is transitive.
pub proof fn lemma_precedes_transitive(a: Seq<u8>, b: Seq<u8>, c: Seq<u8>)
    requires
        precedes(a, b),
        precedes(b, c),
    ensures
        precedes(a, c),
    decreases a.len(),
{
    if a.len() > 0 && a[0] == b[0] && b[0] == c[0] {
        lemma_precedes_transitive(a.drop_first(), b.drop_first(), c.drop_first());
    }
}

/// Of two different byte strings one comes before the other.
pub proof fn lemma_precedes_total(a: Seq<u8>, b: Seq<u8>)
    ensures
        a == b || precedes(a, b) || precedes(b, a),
    decreases a.len(),
{
    if a.len() == 0 || b.len() == 0 {
        if a.len() == 0 && b.len() == 0 {
            assert(a =~= b);
        }
    } else if a[0] == b[0] {
        lemma_precedes_total(a.drop_first(), b.drop_first());
        if a.drop_first() == b.drop_first() {
            assert(a =~= seq![a[0]] + a.drop_first());
            assert(b =~= seq![b[0]] + b.drop_first());
        }
    }
}

/// No text comes before itself.
pub proof fn lemma_text_precedes_irreflexive(a: Seq<char>)
    ensures
        !text_precedes(a, a),
{
    lemma_precedes_irreflexive(encode_utf8(a));
}

/// The order on texts is transitive.
pub proof fn lemma_text_precedes_transitive(a: Seq<char>, b: Seq<char>, c: Seq<char>)
    requires
        text_precedes(a, b),
        text_precedes(b, c),
    ensures
        text_precedes(a, c),
{
    lemma_precedes_transitive(encode_utf8(a), encode_utf8(b), encode_utf8(c));
}

/// Of two texts at most one comes before the other.
pub proof fn lemma_text_precedes_asymmetric(a: Seq<char>, b: Seq<char>)
    requires
        text_precedes(a, b),
    ensures
        !text_precedes(b, a),
        a != b,
{
    if text_precedes(b, a) {
        lemma_text_precedes_transitive(a, b, a);
    }
    lemma_text_precedes_irreflexive(a);
}

/// Of two different texts one comes before the other.
pub proof fn lemma_text_precedes_total(a: Seq<char>, b: Seq<char>)
    ensures
        a == b || text_precedes(a, b) || text_precedes(b, a),
{
    lemma_precedes_total(encode_utf8(a), encode_utf8(b));
    if encode_utf8(a) == encode_utf8(b) {
        encode_utf8_decode_utf8(a);
        encode_utf8_decode_utf8(b);
    }
}

/// A set of texts has at most one ascending listing.
pub proof fn lemma_ascending_listing_unique(
    first: Seq<Seq<char>>,
    second: Seq<Seq<char>>,
    texts: Set<Seq<char>>,
)
    requires
        lists_ascending(first, texts),
        lists_ascending(second, texts),
    ensures
        first == second,
    decreases first.len(),
{
    if first.len() == 0 || second.len() == 0 {
        if first.len() > 0 {
            assert(first.contains(first[0]));
        }
        if second.len() > 0 {
            assert(second.contains(second[0]));
        }
        assert(first =~= second);
    } else {
        assert(first.contains(first[0]));
        assert(second.contains(second[0]));
        let i = choose|i: int| 0 <= i < first.len() && first[i] == second[0];
        let j = choose|j: int| 0 <= j < second.len() && second[j] == first[0];
        if i > 0 {
            lemma_text_precedes_asymmetric(first[0], first[i]);
        }
        if j > 0 {
            lemma_text_precedes_asymmetric(second[0], second[j]);
        }
        assert(first[0] == second[0]);
        let rest = texts.remove(first[0]);
        lemma_rest_lists_ascending(first, texts);
        lemma_rest_lists_ascending(second, texts);
        lemma_ascending_listing_unique(first.drop_first(), second.drop_first(), rest);
        assert(first =~= seq![first[0]] + first.drop_first());
        assert(second =~= seq![second[0]] + second.drop_first());
    }
}

/// Without its first text, an ascending listing lists the other members.
proof fn lemma_rest_lists_ascending(list: Seq<Seq<char>>, texts: Set<Seq<char>>)
    requires
        lists_ascending(list, texts),
        list.len() > 0,
    ensures
        lists_ascending(list.drop_first(), texts.remove(list[0])),
{
    let rest = list.drop_first();
    assert forall|i: int, j: int| 0 <= i < j < rest.len() implies text_precedes(
        rest[i],
        rest[j],
    ) by {
        assert(rest[i] == list[i + 1] && rest[j] == list[j + 1]);
    }
    assert forall|text: Seq<char>| rest.contains(text) <==> texts.remove(list[0]).contains(
        text,
    ) by {
        if rest.contains(text) {
            let i = choose|i: int| 0 <= i < rest.len() && rest[i] == text;
            assert(list[i + 1] == text);
            assert(list.contains(text));
            lemma_text_precedes_asymmetric(list[0], list[i + 1]);
        }
        if texts.remove(list[0]).contains(text) {
            assert(list.contains(text));
            let i = choose|i: int| 0 <= i < list.len() && list[i] == text;
            assert(i > 0);
            assert(rest[i - 1] == text);
        }
    }
}

/// `list` with `text` put where it stands in ascending order.
pub open spec fn inserted(list: Seq<Seq<char>>, text: Seq<char>) -> Seq<Seq<char>>
    decreases list.len(),
{
    if list.len() == 0 {
        seq![text]
    } else if text_precedes(text, list[0]) {
        seq![text] + list
    } else {
        seq![list[0]] + inserted(list.drop_first(), text)
    }
}

/// An ascending listing with one more text put at its place lists the set
/// with that text.
proof fn lemma_inserted(list: Seq<Seq<char>>, texts: Set<Seq<char>>, text: Seq<char>)
    requires
        lists_ascending(list, texts),
        !texts.contains(text),
    ensures
        lists_ascending(inserted(list, text), texts.insert(text)),
    decreases list.len(),
{
    let longer = inserted(list, text);
    if list.len() == 0 {
        assert forall|other: Seq<char>| longer.contains(other) <==> texts.insert(text).contains(
            other,
        ) by {
            if other == text {
                assert(longer[0] == other);
            }
            if texts.contains(other) {
                assert(list.contains(other));
            }
        }
    } else if text_precedes(text, list[0]) {
        assert forall|i: int, j: int| 0 <= i < j < longer.len() implies text_precedes(
            longer[i],
            longer[j],
        ) by {
            assert(longer[j] == list[j - 1]);
            if i == 0 {
                if j > 1 {
                    lemma_text_precedes_transitive(text, list[0], list[j - 1]);
                }
            } else {
                assert(longer[i] == list[i - 1]);
            }
        }
        assert forall|other: Seq<char>| longer.contains(other) <==> texts.insert(text).contains(
            other,
        ) by {
            if longer.contains(other) {
                let i = choose|i: int| 0 <= i < longer.len() && longer[i] == other;
                if i > 0 {
                    assert(list[i - 1] == other);
                    assert(list.contains(other));
                }
            }
            if other == text {
                assert(longer[0] == other);
            }
            if texts.contains(other) {
                assert(list.contains(other));
                let i = choose|i: int| 0 <= i < list.len() && list[i] == other;
                assert(longer[i + 1] == other);
            }
        }
    } else {
        let first = list[0];
        let rest = list.drop_first();
        let others = texts.remove(first);
        assert(list.contains(first));
        lemma_text_precedes_total(text, first);
        lemma_rest_lists_ascending(list, texts);
        lemma_inserted(rest, others, text);
        let tail = inserted(rest, text);
        assert forall|k: int| 0 <= k < tail.len() implies text_precedes(first, tail[k]) by {
            assert(tail.contains(tail[k]));
            if tail[k] != text {
                assert(rest.contains(tail[k]));
                let j = choose|j: int| 0 <= j < rest.len() && rest[j] == tail[k];
                assert(list[j + 1] == tail[k]);
            }
        }
        assert forall|i: int, j: int| 0 <= i < j < longer.len() implies text_precedes(
            longer[i],
            longer[j],
        ) by {
            assert(longer[j] == tail[j - 1]);
            if i > 0 {
                assert(longer[i] == tail[i - 1]);
            }
        }
        assert forall|other: Seq<char>| longer.contains(other) <==> texts.insert(text).contains(
            other,
        ) by {
            if longer.contains(other) {
                let i = choose|i: int| 0 <= i < longer.len() && longer[i] == other;
                if i > 0 {
                    assert(tail[i - 1] == other);
                    assert(tail.contains(other));
                }
            }
            if other == first {
                assert(longer[0] == other);
            } else if texts.insert(text).contains(other) {
                assert(others.insert(text).contains(other));
                assert(tail.contains(other));
                let i = choose|i: int| 0 <= i < tail.len() && tail[i] == other;
                assert(longer[i + 1] == other);
            }
        }
    }
}

/// Every finite set of texts has an ascending listing, and `ascending_list`
/// gives it.
pub proof fn lemma_ascending_list_lists(texts: Set<Seq<char>>)
    requires
        texts.finite(),
    ensures
        lists_ascending(ascending_list(texts), texts),
    decreases texts.len(),
{
    if texts.len() == 0 {
        assert(texts =~= Set::<Seq<char>>::empty());
        assert(lists_ascending(Seq::<Seq<char>>::empty(), texts));
    } else {
        let text = texts.choose();
        let others = texts.remove(text);
        lemma_ascending_list_lists(others);
        lemma_inserted(ascending_list(others), others, text);
        assert(others.insert(text) =~= texts);
        assert(lists_ascending(inserted(ascending_list(others), text), texts));
    }
}

/// The listing that an ascending list of a set's members is.
pub proof fn lemma_ascending_list_is(list: Seq<Seq<char>>, texts: Set<Seq<char>>)
    requires
        lists_ascending(list, texts),
    ensures
        ascending_list(texts) == list,
{
    lemma_ascending_listing_unique(ascending_list(texts), list, texts);
}

/// Whether `a` comes strictly before `b`.
pub fn bytes_precede(a: &[u8], b: &[u8]) -> (before: bool)
    ensures
        before == precedes(a@, b@),
{
    let mut i: usize = 0;
    assert(a@.skip(0) =~= a@ && b@.skip(0) =~= b@);
    while i < a.len() && i < b.len()
        invariant
            i <= a@.len(),
            i <= b@.len(),
            precedes(a@, b@) == precedes(a@.skip(i as int), b@.skip(i as int)),
        decreases a@.len() - i,
    {
        assert(a@.skip(i as int).drop_first() =~= a@.skip(i + 1));
        assert(b@.skip(i as int).drop_first() =~= b@.skip(i + 1));
        if a[i] != b[i] {
            return a[i] < b[i];
        }
        i = i + 1;
    }
    i < b.len()
}

/// Whether `a` comes strictly before `b` in the order of their UTF-8 bytes.
pub fn text_precede(a: &str, b: &str) -> (before: bool)
    ensures
        before == text_precedes(a@, b@),
{
    bytes_precede(a.as_bytes(), b.as_bytes())
}

/// Whether two texts are the same.
pub fn same_text(a: &str, b: &str) -> (same: bool)
    ensures
        same == (a@ == b@),
{
    let left = a.as_bytes();
    let right = b.as_bytes();
    proof {
        encode_utf8_decode_utf8(a@);
        encode_utf8_decode_utf8(b@);
    }
    if left.len() != right.len() {
        return false;
    }
    let mut i: usize = 0;
    while i < left.len()
        invariant
            left@ == encode_utf8(a@),
            right@ == encode_utf8(b@),
            left@.len() == right@.len(),
            i <= left@.len(),
            forall|k: int| 0 <= k < i ==> left@[k] == right@[k],
        decreases left@.len() - i,
    {
        if left[i] != right[i] {
            assert(left@[i as int] != right@[i as int]);
            return false;
        }
        i = i + 1;
    }
    assert(left@ =~= right@);
    true
}

} // verus!
