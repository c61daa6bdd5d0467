//! Words, labels and the tags that name query parts.

use crate::chars::{ascii_alphanumeric, ascii_lower, white};
use crate::highlight::{
    begin_tag_of, html_escaped, hyphenated, joined, label_of, labels, trim_back, trim_front, words,
};
use crate::laws::highlight::{first_behind, free_of, is_at, law_the_pattern_is_replaced};
use crate::text::sorted_set;
use crate::wrapping::{is_label, lemma_hyphenated_again};
use vstd::prelude::*;

verus! {

/// A text without white space is one word, or none if it is empty.
pub proof fn law_a_word_is_one_word(text: Seq<char>)
    requires
        forall|i: int| 0 <= i < text.len() ==> !white(#[trigger] text[i]),
    ensures
        words(text) == (if text.len() == 0 {
            Seq::empty()
        } else {
            seq![text]
        }),
    decreases text.len(),
{
    if text.len() > 0 {
        let rest = text.drop_last();
        assert forall|i: int| 0 <= i < rest.len() implies !white(#[trigger] rest[i]) by {
            assert(rest[i] == text[i]);
        }
        law_a_word_is_one_word(rest);
        let last = text[text.len() - 1];
        assert(!white(last));
        if text.len() > 1 {
            assert(!white(text[text.len() - 2]));
            assert(words(rest) == seq![rest]);
            assert(words(rest).drop_last() =~= Seq::empty());
            assert(rest.push(last) =~= text);
            assert(words(text) =~= seq![text]);
        } else {
            assert(rest =~= Seq::empty());
            assert(seq![last] =~= text);
            assert(words(text) =~= seq![text]);
        }
    } else {
        assert(words(text) =~= Seq::empty());
    }
}

/// White space parts words: what stands before it and what stands behind it have
/// their words each for itself.
pub proof fn law_white_space_parts_words(a: Seq<char>, c: char, b: Seq<char>)
    requires
        white(c),
    ensures
        words(a.push(c) + b) == words(a) + words(b),
    decreases b.len(),
{
    let whole = a.push(c) + b;
    if b.len() == 0 {
        assert(whole =~= a.push(c));
        assert(whole.drop_last() =~= a);
        assert(words(a) + words(b) =~= words(a));
    } else {
        let rest = b.drop_last();
        let last = b[b.len() - 1];
        law_white_space_parts_words(a, c, rest);
        assert(whole.drop_last() =~= a.push(c) + rest);
        assert(whole.last() == last);
        let before = words(a) + words(rest);
        if white(last) {
        } else if b.len() > 1 {
            let other = b[b.len() - 2];
            assert(whole[whole.len() - 2] == other);
            if !white(other) {
                lemma_ends_in_word(rest);
                assert(before.drop_last() =~= words(a) + words(rest).drop_last());
                assert(before.last() == words(rest).last());
                assert(words(whole) =~= words(a) + words(b));
            } else {
                assert(words(whole) =~= words(a) + words(b));
            }
        } else {
            assert(whole[whole.len() - 2] == c);
            assert(rest =~= Seq::empty());
            assert(words(rest) =~= Seq::empty());
            assert(words(whole) =~= words(a) + words(b));
        }
    }
}

proof fn lemma_ends_in_word(text: Seq<char>)
    requires
        text.len() > 0,
        !white(text.last()),
    ensures
        words(text).len() > 0,
{
}

/// Parts are joined with the separator between neighbours.
pub proof fn law_parts_are_joined(parts: Seq<Seq<char>>, part: Seq<char>, separator: Seq<char>)
    ensures
        joined(parts.push(part), separator, (parts.len() + 1) as int) == (if parts.len() == 0 {
            part
        } else {
            joined(parts, separator, parts.len() as int) + separator + part
        }),
{
    lemma_joined_prefix(parts, part, separator, parts.len() as int);
}

proof fn lemma_joined_prefix(
    parts: Seq<Seq<char>>,
    part: Seq<char>,
    separator: Seq<char>,
    upto: int,
)
    requires
        0 <= upto <= parts.len(),
    ensures
        joined(parts.push(part), separator, upto) == joined(parts, separator, upto),
    decreases upto,
{
    if upto > 1 {
        lemma_joined_prefix(parts, part, separator, upto - 1);
        assert(parts.push(part)[upto - 1] == parts[upto - 1]);
    } else if upto == 1 {
        assert(parts.push(part)[0] == parts[0]);
    }
}

/// No character of the text is a dollar sign.
pub open spec fn plain(text: Seq<char>) -> bool {
    forall|i: int| 0 <= i < text.len() ==> (#[trigger] text[i]) != '$'
}

proof fn lemma_plain(text: Seq<char>, pattern: Seq<char>)
    requires
        plain(text),
        pattern.len() > 0,
        pattern[0] == '$',
    ensures
        free_of(text, pattern),
        first_behind(text, pattern),
{
    let n = pattern.len() as int;
    assert forall|at: int| !(#[trigger] is_at(text, pattern, at)) by {
        if is_at(text, pattern, at) {
            assert(text.subrange(at, at + n)[0] == text[at]);
        }
    }
    assert forall|at: int| 0 <= at < text.len() implies !(#[trigger] is_at(
        text + pattern,
        pattern,
        at,
    )) by {
        if is_at(text + pattern, pattern, at) {
            assert((text + pattern).subrange(at, at + n)[0] == text[at]);
        }
    }
}

/// A begin tag names the query parts where it asks for them, with what would be
/// markup escaped and `; ` between them, and their labels where it asks for
/// those, sorted, each once and with a blank between them.
pub proof fn law_tags_name_the_parts(a: Seq<char>, b: Seq<char>, parts: Seq<Seq<char>>)
    requires
        plain(a),
        plain(b),
        plain(html_escaped(joined(parts, "; "@, parts.len() as int))),
    ensures
        begin_tag_of(a + "$QUERY_PART"@ + b, parts) == a + html_escaped(
            joined(parts, "; "@, parts.len() as int),
        ) + b,
        begin_tag_of(a + "$QUERY_LABEL"@ + b, parts) == a + joined(
            sorted_set(labels(parts)),
            " "@,
            sorted_set(labels(parts)).len() as int,
        ) + b,
{
    reveal_strlit("$QUERY_PART");
    reveal_strlit("$QUERY_LABEL");
    let part = "$QUERY_PART"@;
    let label = "$QUERY_LABEL"@;
    assert(part[0] == '$' && label[0] == '$' && part[7] == 'P' && label[7] == 'L');
    let shown = html_escaped(joined(parts, "; "@, parts.len() as int));
    let names = sorted_set(labels(parts));
    let named = joined(names, " "@, names.len() as int);
    lemma_plain(a, part);
    lemma_plain(b, part);
    lemma_plain(a, label);
    lemma_plain(b, label);
    law_the_pattern_is_replaced(a, part, b, shown);
    law_the_pattern_is_replaced(b, part, Seq::empty(), shown);
    let first = a + shown + b;
    assert(plain(first)) by {
        assert forall|i: int| 0 <= i < first.len() implies (#[trigger] first[i]) != '$' by {
            if i < a.len() {
                assert(first[i] == a[i]);
            } else if i < a.len() + shown.len() {
                assert(first[i] == shown[i - a.len()]);
            } else {
                assert(first[i] == b[i - a.len() - shown.len()]);
            }
        }
    }
    lemma_plain(first, label);
    law_the_pattern_is_replaced(first, label, Seq::empty(), named);
    let second = a + label + b;
    assert(free_of(second, part)) by {
        assert forall|at: int| !(#[trigger] is_at(second, part, at)) by {
            if is_at(second, part, at) {
                let n = part.len() as int;
                assert(second.subrange(at, at + n)[0] == second[at]);
                assert(second.subrange(at, at + n)[7] == second[at + 7]);
                if at < a.len() {
                    assert(second[at] == a[at]);
                } else if at < a.len() + label.len() {
                    assert(second[at] == label[at - a.len()]);
                    assert(at == a.len());
                    assert(second[at + 7] == label[7]);
                } else {
                    assert(second[at] == b[at - a.len() - label.len()]);
                }
            }
        }
    }
    law_the_pattern_is_replaced(second, part, Seq::empty(), shown);
    law_the_pattern_is_replaced(a, label, b, named);
    law_the_pattern_is_replaced(b, label, Seq::empty(), named);
}

/// A text that is a label is its own.
pub proof fn law_labels_stay(label: Seq<char>)
    requires
        is_label(label),
    ensures
        label_of(label) == label,
{
    lemma_hyphenated_again(label);
}

proof fn lemma_hyphenated_parts(a: Seq<char>, c: char, b: Seq<char>)
    requires
        a.len() > 0,
        ascii_alphanumeric(a.last()),
        !ascii_alphanumeric(c),
        b.len() > 0 ==> ascii_alphanumeric(b[0]),
    ensures
        hyphenated(a.push(c) + b) == hyphenated(a).push('-') + hyphenated(b),
    decreases b.len(),
{
    let whole = a.push(c) + b;
    if b.len() == 0 {
        assert(whole =~= a.push(c));
        assert(whole.drop_last() =~= a);
        assert(whole[whole.len() - 2] == a.last());
        assert(hyphenated(a).push('-') + hyphenated(b) =~= hyphenated(a).push('-'));
    } else {
        let rest = b.drop_last();
        lemma_hyphenated_parts(a, c, rest);
        assert(whole.drop_last() =~= a.push(c) + rest);
        assert(whole.last() == b.last());
        if b.len() > 1 {
            assert(whole[whole.len() - 2] == b[b.len() - 2]);
        }
        assert(hyphenated(whole) =~= hyphenated(a).push('-') + hyphenated(b));
    }
}

proof fn lemma_trim_front_head(x: Seq<char>, y: Seq<char>)
    requires
        x.len() > 0,
        x.last() != '-',
    ensures
        trim_front(x + y) == trim_front(x) + y,
        trim_front(x).len() > 0,
        trim_front(x).last() == x.last(),
    decreases x.len(),
{
    assert((x + y)[0] == x[0]);
    if x[0] == '-' {
        assert((x + y).drop_first() =~= x.drop_first() + y);
        lemma_trim_front_head(x.drop_first(), y);
    }
}

proof fn lemma_trim_back_tail(x: Seq<char>, y: Seq<char>)
    requires
        y.len() > 0,
        y[0] != '-',
    ensures
        trim_back(x + y) == x + trim_back(y),
        trim_back(y).len() > 0,
        trim_back(y)[0] == y[0],
    decreases y.len(),
{
    assert((x + y).last() == y.last());
    if y.last() == '-' {
        assert((x + y).drop_last() =~= x + y.drop_last());
        lemma_trim_back_tail(x, y.drop_last());
    }
}

proof fn lemma_hyphenated_first(text: Seq<char>)
    requires
        text.len() > 0,
    ensures
        hyphenated(text).len() > 0,
        ascii_alphanumeric(text[0]) ==> hyphenated(text)[0] == ascii_lower(text[0]),
    decreases text.len(),
{
    if text.len() > 1 {
        let rest = text.drop_last();
        lemma_hyphenated_first(rest);
        assert(rest[0] == text[0]);
    } else {
        assert(text.drop_last() =~= Seq::empty());
        assert(hyphenated(text.drop_last()) =~= Seq::empty());
    }
}

/// The words of a label: what a character that is no letter and no digit parts is
/// joined by a hyphen.
pub proof fn law_labels_join_words(a: Seq<char>, c: char, b: Seq<char>)
    requires
        a.len() > 0,
        ascii_alphanumeric(a.last()),
        !ascii_alphanumeric(c),
        b.len() > 0,
        ascii_alphanumeric(b[0]),
        !('0' <= b[0] <= '9'),
    ensures
        label_of(a.push(c) + b) == label_of(a).push('-') + label_of(b),
{
    crate::wrapping::lemma_hyphenated(a);
    crate::wrapping::lemma_hyphenated(b);
    lemma_hyphenated_parts(a, c, b);
    lemma_hyphenated_first(b);
    let (x, y) = (hyphenated(a), hyphenated(b));
    assert(x.push('-') + y =~= x + (seq!['-'] + y));
    lemma_trim_front_head(x, seq!['-'] + y);
    lemma_trim_front_head(x, Seq::empty());
    assert(x + Seq::<char>::empty() =~= x);
    let front = trim_front(x);
    assert(front + (seq!['-'] + y) =~= front.push('-') + y);
    assert(ascii_lower(b[0]) != '-' && !('0' <= ascii_lower(b[0]) <= '9'));
    lemma_trim_back_tail(front.push('-'), y);
    assert(trim_back(front) == front);
    assert(trim_front(y) == y);
    let label = trim_back(front.push('-') + y);
    assert(label =~= front.push('-') + trim_back(y));
    assert(label[0] == front[0]);
    assert(label_of(b) == trim_back(y));
    reveal_strlit("qpart-");
    if '0' <= front[0] <= '9' {
        assert("qpart-"@ + label =~= ("qpart-"@ + front).push('-') + trim_back(y));
    }
}

/// The letters and digits of a text, in lower case.
pub open spec fn letters(text: Seq<char>) -> Seq<char>
    decreases text.len(),
{
    if text.len() == 0 {
        Seq::empty()
    } else {
        let c = text.last();
        let before = letters(text.drop_last());
        if 'a' <= c <= 'z' || '0' <= c <= '9' {
            before.push(c)
        } else if 'A' <= c <= 'Z' {
            before.push((c as u32 + 32) as char)
        } else {
            before
        }
    }
}

proof fn lemma_letters_push(text: Seq<char>, c: char)
    ensures
        letters(text.push(c)) == (if 'a' <= c <= 'z' || '0' <= c <= '9' {
            letters(text).push(c)
        } else if 'A' <= c <= 'Z' {
            letters(text).push((c as u32 + 32) as char)
        } else {
            letters(text)
        }),
{
    assert(text.push(c).drop_last() =~= text);
}

proof fn lemma_letters_concat(a: Seq<char>, b: Seq<char>)
    ensures
        letters(a + b) == letters(a) + letters(b),
    decreases b.len(),
{
    if b.len() == 0 {
        assert(a + b =~= a);
        assert(letters(a) + letters(b) =~= letters(a));
    } else {
        lemma_letters_concat(a, b.drop_last());
        assert((a + b).drop_last() =~= a + b.drop_last());
        assert((a + b).last() == b.last());
        assert(letters(a + b) =~= letters(a) + letters(b));
    }
}

proof fn lemma_letters_hyphenated(text: Seq<char>)
    ensures
        letters(hyphenated(text)) == letters(text),
    decreases text.len(),
{
    if text.len() > 0 {
        let rest = text.drop_last();
        let c = text.last();
        lemma_letters_hyphenated(rest);
        lemma_letters_push(hyphenated(rest), ascii_lower(c));
        lemma_letters_push(hyphenated(rest), '-');
        assert(text =~= rest.push(c));
        lemma_letters_push(rest, c);
    }
}

proof fn lemma_letters_trimmed(text: Seq<char>)
    ensures
        letters(trim_front(text)) == letters(text),
        letters(trim_back(text)) == letters(text),
    decreases text.len(),
{
    if text.len() > 0 {
        if text[0] == '-' {
            lemma_letters_trimmed(text.drop_first());
            lemma_letters_concat(seq!['-'], text.drop_first());
            assert(text =~= seq!['-'] + text.drop_first());
            lemma_letters_push(Seq::empty(), '-');
            assert(Seq::<char>::empty().push('-') =~= seq!['-']);
            assert(letters(seq!['-']) =~= Seq::empty());
            assert(letters(text) =~= letters(text.drop_first()));
        }
        if text.last() == '-' {
            lemma_letters_trimmed(text.drop_last());
        }
    }
}

/// A label keeps the letters and digits of the query part, in lower case and in
/// order. Where there are none, or the first is a digit, it starts with `qpart`.
pub proof fn law_labels_keep_the_letters(part: Seq<char>)
    ensures
        letters(label_of(part)) == (if letters(part).len() == 0 || '0' <= letters(part)[0] <= '9' {
            "qpart"@ + letters(part)
        } else {
            letters(part)
        }),
{
    let front = trim_front(hyphenated(part));
    let label = trim_back(front);
    lemma_letters_hyphenated(part);
    lemma_letters_trimmed(hyphenated(part));
    lemma_letters_trimmed(front);
    assert(letters(label) == letters(part));
    reveal_strlit("qpart");
    reveal_strlit("qpart-");
    let word = seq!['q', 'p', 'a', 'r', 't'];
    assert("qpart"@ =~= word);
    assert("qpart-"@ =~= word.push('-'));
    let e = Seq::<char>::empty();
    lemma_letters_push(e, 'q');
    lemma_letters_push(e.push('q'), 'p');
    lemma_letters_push(e.push('q').push('p'), 'a');
    lemma_letters_push(e.push('q').push('p').push('a'), 'r');
    lemma_letters_push(e.push('q').push('p').push('a').push('r'), 't');
    assert(e.push('q').push('p').push('a').push('r').push('t') =~= word);
    assert(letters(word) =~= word);
    lemma_letters_push(word, '-');
    crate::wrapping::lemma_hyphenated(part);
    crate::wrapping::lemma_trim_front(hyphenated(part));
    crate::wrapping::lemma_trim_back(front);
    if label.len() == 0 {
        assert(letters(label) =~= e);
        assert("qpart"@ + letters(part) =~= word);
    } else {
        lemma_letters_first(label);
        if '0' <= label[0] <= '9' {
            lemma_letters_concat(word.push('-'), label);
            assert(letters(word.push('-')) == word);
        }
    }
}

proof fn lemma_letters_first(text: Seq<char>)
    requires
        text.len() > 0,
        'a' <= text[0] <= 'z' || '0' <= text[0] <= '9',
    ensures
        letters(text).len() > 0,
        letters(text)[0] == text[0],
    decreases text.len(),
{
    if text.len() > 1 {
        lemma_letters_first(text.drop_last());
    } else {
        assert(letters(text.drop_last()) =~= Seq::empty());
    }
}

} // verus!
