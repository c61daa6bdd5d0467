//! Text in the order PostgreSQL's `"C"` collation and Rust give it: by bytes.

use vstd::prelude::*;
use vstd::utf8::{encode_utf8, encode_utf8_decode_utf8};

verus! {

/// What each of `items` holds.
pub open spec fn texts(items: Seq<String>) -> Seq<Seq<char>> {
    items.map_values(|item: String| item@)
}

/// Byte strings in lexicographic order.
pub open spec fn bytes_before(a: Seq<u8>, b: Seq<u8>) -> bool
    decreases a.len(),
{
    b.len() > 0 && (a.len() == 0 || a[0] < b[0] || (a[0] == b[0] && bytes_before(
        a.drop_first(),
        b.drop_first(),
    )))
}

/// Texts in the order of their bytes.
pub open spec fn text_before(a: Seq<char>, b: Seq<char>) -> bool {
    bytes_before(encode_utf8(a), encode_utf8(b))
}

/// Each text comes before the next, so none occurs twice.
pub open spec fn ascending(items: Seq<Seq<char>>) -> bool {
    forall|i: int, j: int| 0 <= i < j < items.len() ==> text_before(items[i], items[j])
}

/// The same texts, however often and in whatever order.
pub open spec fn same_texts(a: Seq<Seq<char>>, b: Seq<Seq<char>>) -> bool {
    forall|text: Seq<char>| #[trigger] a.contains(text) <==> b.contains(text)
}

pub proof fn lemma_bytes_transitive(a: Seq<u8>, b: Seq<u8>, c: Seq<u8>)
    requires
        bytes_before(a, b),
        bytes_before(b, c),
    ensures
        bytes_before(a, c),
    decreases a.len(),
{
    if a.len() > 0 && a[0] == b[0] && b[0] == c[0] {
        lemma_bytes_transitive(a.drop_first(), b.drop_first(), c.drop_first());
    }
}

pub proof fn lemma_bytes_total(a: Seq<u8>, b: Seq<u8>)
    ensures
        !(bytes_before(a, b) && bytes_before(b, a)),
        bytes_before(a, b) || bytes_before(b, a) || a == b,
        !bytes_before(a, a),
    decreases a.len(),
{
    if a.len() > 0 {
        lemma_bytes_total(a.drop_first(), a.drop_first());
        if b.len() > 0 && a[0] == b[0] {
            lemma_bytes_total(a.drop_first(), b.drop_first());
            if a.drop_first() == b.drop_first() {
                assert(a =~= seq![a[0]] + a.drop_first());
                assert(b =~= seq![b[0]] + b.drop_first());
            }
        }
    } else if b.len() == 0 {
        assert(a =~= b);
    }
}

/// Texts are equal exactly when their bytes are.
pub proof fn lemma_text_bytes(a: Seq<char>, b: Seq<char>)
    ensures
        encode_utf8(a) == encode_utf8(b) <==> a == b,
{
    encode_utf8_decode_utf8(a);
    encode_utf8_decode_utf8(b);
}

/// The order of texts is total and strict.
pub proof fn lemma_text_total(a: Seq<char>, b: Seq<char>)
    ensures
        !(text_before(a, b) && text_before(b, a)),
        text_before(a, b) || text_before(b, a) || a == b,
        !text_before(a, a),
{
    lemma_bytes_total(encode_utf8(a), encode_utf8(b));
    lemma_bytes_total(encode_utf8(a), encode_utf8(a));
    lemma_text_bytes(a, b);
}

pub proof fn lemma_text_transitive(a: Seq<char>, b: Seq<char>, c: Seq<char>)
    requires
        text_before(a, b),
        text_before(b, c),
    ensures
        text_before(a, c),
{
    lemma_bytes_transitive(encode_utf8(a), encode_utf8(b), encode_utf8(c));
}

proof fn lemma_skip_byte(s: Seq<u8>, i: int)
    requires
        0 <= i < s.len(),
    ensures
        s.skip(i)[0] == s[i],
        s.skip(i).drop_first() == s.skip(i + 1),
{
    assert(s.skip(i).drop_first() =~= s.skip(i + 1));
}

/// Whether `a` comes before `b`.
pub fn before(a: &str, b: &str) -> (earlier: bool)
    ensures
        earlier == text_before(a@, b@),
{
    let left = a.as_bytes();
    let right = b.as_bytes();
    let mut i: usize = 0;
    proof {
        assert(left@.skip(0) =~= left@);
        assert(right@.skip(0) =~= right@);
    }
    while i < left.len() && i < right.len()
        invariant
            i <= left.len(),
            i <= right.len(),
            left@ == encode_utf8(a@),
            right@ == encode_utf8(b@),
            bytes_before(left@, right@) == bytes_before(
                left@.skip(i as int),
                right@.skip(i as int),
            ),
        decreases left.len() - i,
    {
        proof {
            lemma_skip_byte(left@, i as int);
            lemma_skip_byte(right@, i as int);
        }
        if left[i] != right[i] {
            return left[i] < right[i];
        }
        i = i + 1;
    }
    i < right.len()
}

/// Whether `a` and `b` are the same text.
pub fn same(a: &str, b: &str) -> (equal: bool)
    ensures
        equal == (a@ == b@),
{
    let left = a.as_bytes();
    let right = b.as_bytes();
    proof {
        lemma_text_bytes(a@, b@);
    }
    if left.len() != right.len() {
        return false;
    }
    let mut i: usize = 0;
    while i < left.len()
        invariant
            i <= left.len() == right.len(),
            left@ == encode_utf8(a@),
            right@ == encode_utf8(b@),
            encode_utf8(a@) == encode_utf8(b@) <==> a@ == b@,
            forall|j: int| 0 <= j < i ==> left@[j] == right@[j],
        decreases left.len() - i,
    {
        if left[i] != right[i] {
            return false;
        }
        i = i + 1;
    }
    proof {
        assert(left@ =~= right@);
    }
    true
}

/// What a list of texts holds, if there is one.
pub open spec fn list_texts(list: Option<Vec<String>>) -> Option<Seq<Seq<char>>> {
    match list {
        Some(items) => Some(texts(items@)),
        None => None,
    }
}

/// Whether two lists hold the same texts in the same order.
pub fn same_all(a: &Vec<String>, b: &Vec<String>) -> (equal: bool)
    ensures
        equal == (texts(a@) == texts(b@)),
{
    if a.len() != b.len() {
        assert(texts(a@).len() != texts(b@).len());
        return false;
    }
    let mut i: usize = 0;
    while i < a.len()
        invariant
            i <= a.len() == b.len(),
            forall|j: int| 0 <= j < i ==> a[j]@ == b[j]@,
        decreases a.len() - i,
    {
        if !same(a[i].as_str(), b[i].as_str()) {
            assert(texts(a@)[i as int] != texts(b@)[i as int]);
            return false;
        }
        i = i + 1;
    }
    proof {
        assert(texts(a@) =~= texts(b@));
    }
    true
}

/// Whether `items` holds `text`.
pub fn holds_text(items: &Vec<String>, text: &str) -> (held: bool)
    ensures
        held == texts(items@).contains(text@),
{
    let mut i: usize = 0;
    while i < items.len()
        invariant
            i <= items.len(),
            forall|j: int| 0 <= j < i ==> texts(items@)[j] != text@,
        decreases items.len() - i,
    {
        if same(items[i].as_str(), text) {
            assert(texts(items@)[i as int] == text@);
            return true;
        }
        i = i + 1;
    }
    false
}

/// The texts of `items` in order, each once.
pub open spec fn sorted_set(items: Seq<Seq<char>>) -> Seq<Seq<char>> {
    choose|sorted: Seq<Seq<char>>| #[trigger] ascending(sorted) && same_texts(sorted, items)
}

/// What is in order and holds the same texts is their sorted set.
pub proof fn lemma_sorted_set(sorted: Seq<Seq<char>>, items: Seq<Seq<char>>)
    requires
        ascending(sorted),
        same_texts(sorted, items),
    ensures
        sorted_set(items) == sorted,
{
    let other = sorted_set(items);
    assert(ascending(other) && same_texts(other, items));
    assert forall|text: Seq<char>| #[trigger] other.contains(text) <==> sorted.contains(text) by {
        assert(sorted.contains(text) <==> items.contains(text));
    }
    law_ascending_unique(other, sorted);
}

/// The sorted set of texts is in order and holds them.
pub proof fn lemma_sorted_set_exists(items: Seq<Seq<char>>)
    ensures
        ascending(sorted_set(items)),
        same_texts(sorted_set(items), items),
    decreases items.len(),
{
    if items.len() == 0 {
        assert(ascending(items) && same_texts(items, items));
    } else {
        let rest = items.drop_last();
        lemma_sorted_set_exists(rest);
        let sorted = sorted_set(rest);
        let text = items.last();
        assert(items =~= rest.push(text));
        let more = if sorted.contains(text) {
            sorted
        } else {
            text_inserted(sorted, text)
        };
        lemma_text_inserted(sorted, text);
        assert forall|other: Seq<char>| #[trigger] more.contains(other) <==> items.contains(
            other,
        ) by {
            lemma_push_contains(rest, text, other);
            assert(sorted.contains(other) <==> rest.contains(other));
        }
        assert(ascending(more) && same_texts(more, items));
    }
}

spec fn text_inserted(sorted: Seq<Seq<char>>, text: Seq<char>) -> Seq<Seq<char>>
    decreases sorted.len(),
{
    if sorted.len() == 0 || text_before(sorted.last(), text) {
        sorted.push(text)
    } else {
        text_inserted(sorted.drop_last(), text).push(sorted.last())
    }
}

proof fn lemma_text_inserted(sorted: Seq<Seq<char>>, text: Seq<char>)
    requires
        ascending(sorted),
    ensures
        forall|other: Seq<char>| #[trigger]
            text_inserted(sorted, text).contains(other) <==> sorted.contains(other) || other == text,
        !sorted.contains(text) ==> ascending(text_inserted(sorted, text)),
    decreases sorted.len(),
{
    let all = text_inserted(sorted, text);
    if sorted.len() == 0 || text_before(sorted.last(), text) {
        assert forall|other: Seq<char>| #[trigger] all.contains(other) <==> sorted.contains(other)
            || other == text by {
            lemma_push_contains(sorted, text, other);
        }
        assert forall|i: int, j: int| 0 <= i < j < all.len() implies text_before(all[i], all[j]) by {
            if j == sorted.len() && i < sorted.len() - 1 {
                lemma_text_transitive(sorted[i], sorted.last(), text);
            }
        }
    } else {
        let rest = sorted.drop_last();
        assert(ascending(rest)) by {
            assert forall|i: int, j: int| 0 <= i < j < rest.len() implies text_before(
                rest[i],
                rest[j],
            ) by {
                assert(text_before(sorted[i], sorted[j]));
            }
        }
        lemma_text_inserted(rest, text);
        let before = text_inserted(rest, text);
        assert(sorted =~= rest.push(sorted.last()));
        assert forall|other: Seq<char>| #[trigger] all.contains(other) <==> sorted.contains(other)
            || other == text by {
            lemma_push_contains(before, sorted.last(), other);
            lemma_push_contains(rest, sorted.last(), other);
            assert(before.contains(other) <==> rest.contains(other) || other == text);
        }
        if !sorted.contains(text) {
            lemma_text_total(sorted.last(), text);
            assert(sorted.last() != text) by {
                assert(sorted[sorted.len() - 1] == sorted.last());
            }
            assert(!rest.contains(text)) by {
                if rest.contains(text) {
                    let k = choose|k: int| 0 <= k < rest.len() && rest[k] == text;
                    assert(sorted[k] == text);
                }
            }
            assert forall|i: int| 0 <= i < before.len() implies text_before(
                before[i],
                sorted.last(),
            ) by {
                assert(before.contains(before[i]));
                if before[i] != text {
                    assert(rest.contains(before[i]));
                    let k = choose|k: int| 0 <= k < rest.len() && rest[k] == before[i];
                    assert(text_before(sorted[k], sorted[sorted.len() - 1]));
                }
            }
        }
    }
}

/// The texts of `items` in order, each once.
pub fn sorted_unique(items: &Vec<String>) -> (sorted: Vec<String>)
    ensures
        texts(sorted@) == sorted_set(texts(items@)),
        ascending(texts(sorted@)),
        same_texts(texts(sorted@), texts(items@)),
{
    let mut sorted: Vec<String> = Vec::new();
    let mut i: usize = 0;
    while i < items.len()
        invariant
            i <= items.len(),
            ascending(texts(sorted@)),
            same_texts(texts(sorted@), texts(items@).take(i as int)),
        decreases items.len() - i,
    {
        let ghost was = texts(sorted@);
        insert_text(&mut sorted, items[i].as_str());
        proof {
            let now = texts(sorted@);
            let head = texts(items@).take(i as int);
            let longer = texts(items@).take(i + 1);
            assert(longer =~= head.push(items[i as int]@));
            assert forall|text: Seq<char>| #[trigger] now.contains(text) <==> longer.contains(
                text,
            ) by {
                assert(was.contains(text) <==> head.contains(text));
                lemma_push_contains(head, items[i as int]@, text);
            }
        }
        i = i + 1;
    }
    proof {
        assert(texts(items@).take(i as int) =~= texts(items@));
        lemma_sorted_set(texts(sorted@), texts(items@));
    }
    sorted
}

pub proof fn lemma_push_contains(items: Seq<Seq<char>>, last: Seq<char>, text: Seq<char>)
    ensures
        items.push(last).contains(text) <==> items.contains(text) || text == last,
{
    let all = items.push(last);
    assert(all[items.len() as int] == last);
    if items.contains(text) {
        let j = choose|j: int| 0 <= j < items.len() && items[j] == text;
        assert(all[j] == text);
    }
    if all.contains(text) && text != last {
        let j = choose|j: int| 0 <= j < all.len() && all[j] == text;
        assert(items[j] == text);
    }
}

/// Puts `text` in its place among `sorted`, unless it is there already.
pub fn insert_text(sorted: &mut Vec<String>, text: &str)
    requires
        ascending(texts(old(sorted)@)),
    ensures
        ascending(texts(final(sorted)@)),
        forall|other: Seq<char>| #[trigger]
            texts(final(sorted)@).contains(other) <==> texts(old(sorted)@).contains(other) || other
                == text@,
{
    let ghost was = texts(sorted@);
    let mut at: usize = 0;
    while at < sorted.len() && before(sorted[at].as_str(), text)
        invariant
            at <= sorted.len(),
            was == texts(sorted@),
            forall|j: int| 0 <= j < at ==> text_before(was[j], text@),
        decreases sorted.len() - at,
    {
        at = at + 1;
    }
    if at < sorted.len() && same(sorted[at].as_str(), text) {
        proof {
            assert(was[at as int] == text@);
        }
        return;
    }
    sorted.insert(at, text.to_owned());
    proof {
        let now = texts(sorted@);
        assert(now =~= was.insert(at as int, text@));
        assert forall|i: int, j: int| 0 <= i < j < now.len() implies text_before(now[i], now[j]) by {
            let a: int = if i < at { i } else { i - 1 };
            let b: int = if j < at { j } else { j - 1 };
            if i == at {
                assert(text_before(text@, was[at as int])) by {
                    lemma_text_total(was[at as int], text@);
                }
                if b > at {
                    lemma_text_transitive(text@, was[at as int], was[b]);
                }
            }
        }
        assert forall|other: Seq<char>| #[trigger] now.contains(other) <==> was.contains(other)
            || other == text@ by {
            assert(now[at as int] == text@);
            if was.contains(other) {
                let j = choose|j: int| 0 <= j < was.len() && was[j] == other;
                let k: int = if j < at { j } else { j + 1 };
                assert(now[k] == other);
            }
            if now.contains(other) && other != text@ {
                let k = choose|k: int| 0 <= k < now.len() && now[k] == other;
                let j: int = if k < at { k } else { k - 1 };
                assert(was[j] == other);
            }
        }
    }
}

/// Texts in ascending order are known by what they hold.
pub proof fn law_ascending_unique(a: Seq<Seq<char>>, b: Seq<Seq<char>>)
    requires
        ascending(a),
        ascending(b),
        same_texts(a, b),
    ensures
        a == b,
    decreases a.len(),
{
    if a.len() == 0 {
        if b.len() > 0 {
            assert(b.contains(b[0]));
            assert(a.contains(b[0]));
        }
        assert(a =~= b);
    } else {
        assert(a.contains(a.last()));
        assert(b.contains(a.last()));
        let i = choose|i: int| 0 <= i < b.len() && b[i] == a.last();
        assert(b.contains(b.last()));
        assert(a.contains(b.last()));
        let j = choose|j: int| 0 <= j < a.len() && a[j] == b.last();
        lemma_text_total(a.last(), b.last());
        if i < b.len() - 1 {
            assert(text_before(b[i], b[b.len() - 1]));
        }
        if j < a.len() - 1 {
            assert(text_before(a[j], a[a.len() - 1]));
        }
        assert(a.last() == b.last());
        let x = a.drop_last();
        let y = b.drop_last();
        assert(a =~= x.push(a.last()));
        assert(b =~= y.push(b.last()));
        assert forall|text: Seq<char>| #[trigger] x.contains(text) <==> y.contains(text) by {
            lemma_push_contains(x, a.last(), text);
            lemma_push_contains(y, b.last(), text);
            assert(a.contains(text) <==> b.contains(text));
            lemma_text_total(text, text);
            if x.contains(a.last()) {
                let k = choose|k: int| 0 <= k < x.len() && x[k] == a.last();
                assert(text_before(a[k], a[a.len() - 1]));
                lemma_text_total(a.last(), a.last());
            }
            if y.contains(b.last()) {
                let k = choose|k: int| 0 <= k < y.len() && y[k] == b.last();
                assert(text_before(b[k], b[b.len() - 1]));
                lemma_text_total(b.last(), b.last());
            }
        }
        law_ascending_unique(x, y);
    }
}

} // verus!
