//! What setting a text in lines comes to, and what a label looks like.

use crate::chars::{ascii_alphanumeric, ascii_lower, white};
use crate::highlight::{
    hyphenated, label_of, rewrapped, set_words, trim_back, trim_front, words,
};
use vstd::prelude::*;

verus! {

/// The lines of a text: what stands between its line breaks.
pub open spec fn lines(text: Seq<char>) -> Seq<Seq<char>>
    decreases text.len(),
{
    if text.len() == 0 {
        seq![Seq::empty()]
    } else {
        let before = lines(text.drop_last());
        if text.last() == '\n' {
            before.push(Seq::empty())
        } else {
            before.drop_last().push(before.last().push(text.last()))
        }
    }
}

/// A word: characters, and none of them white space.
pub open spec fn is_word(word: Seq<char>) -> bool {
    word.len() > 0 && forall|i: int| 0 <= i < word.len() ==> !white(#[trigger] word[i])
}

/// A line of at most `width` characters, or of one word.
pub open spec fn line_fits(line: Seq<char>, width: nat) -> bool {
    line.len() <= width || is_word(line)
}

/// The first word of the next line has no room in the line.
pub open spec fn must_break(line: Seq<char>, next: Seq<char>, width: nat) -> bool {
    line.len() + 1 + words(next)[0].len() > width
}

/// White space is a blank or a line break, alone between two words.
pub open spec fn single_spaced(text: Seq<char>) -> bool {
    forall|i: int|
        0 <= i < text.len() && white(#[trigger] text[i]) ==> {
            &&& text[i] == ' ' || text[i] == '\n'
            &&& 0 < i < text.len() - 1
            &&& !white(text[i - 1])
            &&& !white(text[i + 1])
        }
}

/// The words of a text are words.
proof fn lemma_words(text: Seq<char>)
    ensures
        forall|i: int| 0 <= i < words(text).len() ==> is_word(#[trigger] words(text)[i]),
        text.len() > 0 && !white(text.last()) ==> words(text).len() > 0,
    decreases text.len(),
{
    if text.len() > 0 {
        lemma_words(text.drop_last());
        let before = words(text.drop_last());
        if !white(text.last()) && text.len() > 1 && !white(text[text.len() - 2]) {
            assert(text.drop_last().last() == text[text.len() - 2]);
            assert(is_word(before[before.len() - 1]));
            assert(is_word(before.last().push(text.last())));
        } else if !white(text.last()) {
            assert(is_word(seq![text.last()]));
        }
    }
}

/// A word behind white space, or at the start, is one more word.
proof fn lemma_word_behind(text: Seq<char>, word: Seq<char>)
    requires
        text.len() == 0 || white(text.last()),
        is_word(word),
    ensures
        words(text + word) == words(text).push(word),
    decreases word.len(),
{
    let all = text + word;
    let rest = word.drop_last();
    assert(all.drop_last() =~= text + rest);
    assert(all.last() == word.last());
    assert(!white(word[word.len() - 1]));
    if word.len() == 1 {
        assert(text + rest =~= text);
        assert(word =~= seq![word.last()]);
        if text.len() > 0 {
            assert(all[all.len() - 2] == text.last());
        }
    } else {
        assert forall|i: int| 0 <= i < rest.len() implies !white(#[trigger] rest[i]) by {
            assert(rest[i] == word[i]);
        }
        lemma_word_behind(text, rest);
        assert(all[all.len() - 2] == word[word.len() - 2]);
        assert(words(text).push(rest).drop_last() =~= words(text));
        assert(rest.push(word.last()) =~= word);
    }
}

/// A word behind one white character more.
proof fn lemma_word_added(text: Seq<char>, separator: char, word: Seq<char>)
    requires
        white(separator),
        is_word(word),
    ensures
        words(text + seq![separator] + word) == words(text).push(word),
{
    let spaced = text + seq![separator];
    assert(spaced.drop_last() =~= text);
    assert(spaced.last() == separator);
    lemma_word_behind(spaced, word);
}

/// Text without line breaks extends the last line.
proof fn lemma_lines_extend(text: Seq<char>, more: Seq<char>)
    requires
        forall|i: int| 0 <= i < more.len() ==> #[trigger] more[i] != '\n',
    ensures
        lines(text).len() > 0,
        lines(text + more) == lines(text).drop_last().push(lines(text).last() + more),
    decreases more.len(),
{
    lemma_some_line(text);
    let all = text + more;
    if more.len() == 0 {
        assert(all =~= text);
        assert(lines(text).last() + more =~= lines(text).last());
        assert(lines(text).drop_last().push(lines(text).last()) =~= lines(text));
    } else {
        let rest = more.drop_last();
        assert(all.drop_last() =~= text + rest);
        assert(all.last() == more.last());
        assert(more[more.len() - 1] != '\n');
        assert forall|i: int| 0 <= i < rest.len() implies #[trigger] rest[i] != '\n' by {
            assert(rest[i] == more[i]);
        }
        lemma_lines_extend(text, rest);
        let before = lines(text).drop_last().push(lines(text).last() + rest);
        assert(before.drop_last() =~= lines(text).drop_last());
        assert(before.last().push(more.last()) =~= lines(text).last() + more);
    }
}

proof fn lemma_some_line(text: Seq<char>)
    ensures
        lines(text).len() > 0,
    decreases text.len(),
{
    if text.len() > 0 {
        lemma_some_line(text.drop_last());
    }
}

/// What holds of the first words set in lines.
spec fn set_well(all: Seq<Seq<char>>, width: nat, upto: int) -> bool {
    let (out, line) = set_words(all, width, upto);
    let set = lines(out);
    &&& words(out) == all.take(upto)
    &&& set.len() > 0
    &&& set.last().len() == line
    &&& forall|i: int| 0 <= i < set.len() ==> line_fits(#[trigger] set[i], width)
    &&& forall|i: int| 0 <= i < set.len() ==> words(#[trigger] set[i]).len() > 0
    &&& forall|i: int|
        0 <= i < set.len() - 1 ==> must_break(#[trigger] set[i], set[i + 1], width)
    &&& single_spaced(out)
    &&& out.len() > 0 && !white(out[0]) && !white(out.last())
}

proof fn lemma_spaced(out: Seq<char>, separator: char, word: Seq<char>)
    requires
        single_spaced(out),
        out.len() > 0,
        !white(out[0]),
        !white(out.last()),
        separator == ' ' || separator == '\n',
        is_word(word),
    ensures
        single_spaced(out + seq![separator] + word),
        !white((out + seq![separator] + word)[0]),
        !white((out + seq![separator] + word).last()),
{
    let all = out + seq![separator] + word;
    assert(all[0] == out[0]);
    assert(all.last() == word[word.len() - 1]);
    assert forall|i: int| 0 <= i < all.len() && white(#[trigger] all[i]) implies {
        &&& all[i] == ' ' || all[i] == '\n'
        &&& 0 < i < all.len() - 1
        &&& !white(all[i - 1])
        &&& !white(all[i + 1])
    } by {
        if i < out.len() {
            assert(all[i] == out[i]);
            assert(0 < i < out.len() - 1);
            assert(all[i - 1] == out[i - 1] && all[i + 1] == out[i + 1]);
        } else if i == out.len() {
            assert(all[i - 1] == out.last());
            assert(all[i + 1] == word[0]);
        } else {
            assert(all[i] == word[i - out.len() - 1]);
        }
    }
}

proof fn lemma_set_well(all: Seq<Seq<char>>, width: nat, upto: int)
    requires
        forall|i: int| 0 <= i < all.len() ==> is_word(#[trigger] all[i]),
        1 <= upto <= all.len(),
    ensures
        set_well(all, width, upto),
    decreases upto,
{
    let word = all[upto - 1];
    assert(is_word(word));
    assert forall|i: int| 0 <= i < word.len() implies #[trigger] word[i] != '\n' by {
        assert(!white(word[i]));
    }
    assert(white(' ') && white('\n'));
    assert(all.take(upto) =~= all.take(upto - 1).push(word));
    let none = Seq::<char>::empty();
    lemma_word_behind(none, word);
    assert(none + word =~= word);
    assert(words(none).push(word) =~= seq![word]);
    lemma_lines_extend(none, word);
    assert(lines(word) =~= seq![word]);
    if upto == 1 {
        assert(all.take(1) =~= seq![word]);
        assert(set_words(all, width, 1) == (word, word.len()));
        assert(!white(word[0]));
        assert(!white(word[word.len() - 1]));
        assert forall|i: int| 0 <= i < word.len() && white(#[trigger] word[i]) implies false by {}
    } else {
        lemma_set_well(all, width, upto - 1);
        let (before, line) = set_words(all, width, upto - 1);
        let was = lines(before);
        if line + 1 + word.len() <= width {
            let more = seq![' '] + word;
            let out = before + seq![' '] + word;
            assert(out =~= before + more);
            assert forall|i: int| 0 <= i < more.len() implies #[trigger] more[i] != '\n' by {
                if i > 0 {
                    assert(more[i] == word[i - 1]);
                }
            }
            lemma_lines_extend(before, more);
            lemma_word_added(before, ' ', word);
            lemma_word_added(was.last(), ' ', word);
            lemma_spaced(before, ' ', word);
            let last = was.last() + more;
            assert(last =~= was.last() + seq![' '] + word);
            let set = lines(out);
            assert(set == was.drop_last().push(last));
            assert(words(was[was.len() - 1]).len() > 0);
            assert(words(last)[0] == words(was.last())[0]);
            assert forall|i: int| 0 <= i < set.len() implies line_fits(#[trigger] set[i], width)
                && words(set[i]).len() > 0 by {
                if i < was.len() - 1 {
                    assert(set[i] == was[i]);
                }
            }
            assert forall|i: int| 0 <= i < set.len() - 1 implies must_break(
                #[trigger] set[i],
                set[i + 1],
                width,
            ) by {
                assert(set[i] == was[i]);
                assert(must_break(was[i], was[i + 1], width));
                if i + 1 < was.len() - 1 {
                    assert(set[i + 1] == was[i + 1]);
                }
            }
        } else {
            let broken = before + seq!['\n'];
            let out = broken + word;
            assert(broken.drop_last() =~= before);
            assert(broken.last() == '\n');
            lemma_lines_extend(broken, word);
            lemma_word_added(before, '\n', word);
            lemma_spaced(before, '\n', word);
            assert(lines(broken) == was.push(none));
            assert(was.push(none).drop_last() =~= was);
            let set = lines(out);
            assert(set =~= was.push(word));
            assert forall|i: int| 0 <= i < set.len() implies line_fits(#[trigger] set[i], width)
                && words(set[i]).len() > 0 by {
                if i < was.len() {
                    assert(set[i] == was[i]);
                }
            }
            assert forall|i: int| 0 <= i < set.len() - 1 implies must_break(
                #[trigger] set[i],
                set[i + 1],
                width,
            ) by {
                assert(set[i] == was[i]);
                if i + 1 < was.len() {
                    assert(must_break(was[i], was[i + 1], width));
                    assert(set[i + 1] == was[i + 1]);
                } else {
                    assert(set[i + 1] == word);
                    assert(words(word)[0] == word);
                }
            }
        }
    }
}

/// A text without words stays as it is. Any other keeps its words in order,
/// one blank or one line break between neighbours. Each line has at most
/// `width` characters or is one word, and a line ends only where the next word
/// has no room in it. Setting it again changes nothing.
pub proof fn law_wrapping(text: Seq<char>, width: nat)
    ensures
        words(text).len() == 0 ==> rewrapped(text, width) == text,
        words(text).len() > 0 ==> {
            let out = rewrapped(text, width);
            let set = lines(out);
            &&& words(out) == words(text)
            &&& single_spaced(out)
            &&& forall|i: int| 0 <= i < set.len() ==> line_fits(#[trigger] set[i], width)
            &&& forall|i: int|
                0 <= i < set.len() - 1 ==> must_break(#[trigger] set[i], set[i + 1], width)
        },
        rewrapped(rewrapped(text, width), width) == rewrapped(text, width),
{
    if words(text).len() > 0 {
        let all = words(text);
        lemma_words(text);
        lemma_set_well(all, width, all.len() as int);
        assert(all.take(all.len() as int) =~= all);
    }
}

/// A lower-case ASCII letter.
pub open spec fn lower_letter(c: char) -> bool {
    'a' <= c <= 'z'
}

/// Lower-case ASCII letters, digits and hyphens, no two hyphens together.
pub open spec fn hyphens_apart(text: Seq<char>) -> bool {
    &&& forall|i: int|
        0 <= i < text.len() ==> lower_letter(#[trigger] text[i]) || '0' <= text[i] <= '9'
            || text[i] == '-'
    &&& forall|i: int|
        0 <= i < text.len() - 1 && #[trigger] text[i] == '-' ==> text[i + 1] != '-'
}

/// A label: words of lower-case ASCII letters and digits, with a hyphen between
/// neighbours, that start with a letter.
pub open spec fn is_label(text: Seq<char>) -> bool {
    &&& text.len() > 0
    &&& lower_letter(text[0])
    &&& text.last() != '-'
    &&& hyphens_apart(text)
}

pub(crate) proof fn lemma_hyphenated(text: Seq<char>)
    ensures
        hyphens_apart(hyphenated(text)),
        text.len() > 0 ==> hyphenated(text).len() > 0 && (hyphenated(text).last() == '-'
            <==> !ascii_alphanumeric(text.last())),
    decreases text.len(),
{
    if text.len() > 0 {
        let rest = text.drop_last();
        lemma_hyphenated(rest);
        let before = hyphenated(rest);
        let all = hyphenated(text);
        if text.len() > 1 {
            assert(rest.last() == text[text.len() - 2]);
        }
        assert forall|i: int| 0 <= i < all.len() implies lower_letter(#[trigger] all[i]) || '0'
            <= all[i] <= '9' || all[i] == '-' by {
            if i < before.len() {
                assert(all[i] == before[i]);
            }
        }
        assert forall|i: int|
            0 <= i < all.len() - 1 && #[trigger] all[i] == '-' implies all[i + 1] != '-' by {
            assert(all[i] == before[i]);
            if i + 1 < before.len() {
                assert(all[i + 1] == before[i + 1]);
            }
        }
    }
}

pub(crate) proof fn lemma_trim_front(text: Seq<char>)
    requires
        hyphens_apart(text),
    ensures
        hyphens_apart(trim_front(text)),
        trim_front(text).len() > 0 ==> trim_front(text)[0] != '-',
    decreases text.len(),
{
    if text.len() > 0 && text[0] == '-' {
        let rest = text.drop_first();
        assert(hyphens_apart(rest)) by {
            assert forall|i: int| 0 <= i < rest.len() implies lower_letter(#[trigger] rest[i])
                || '0' <= rest[i] <= '9' || rest[i] == '-' by {
                assert(rest[i] == text[i + 1]);
            }
            assert forall|i: int|
                0 <= i < rest.len() - 1 && #[trigger] rest[i] == '-' implies rest[i + 1] != '-' by {
                assert(rest[i] == text[i + 1]);
            }
        }
        lemma_trim_front(rest);
    }
}

pub(crate) proof fn lemma_trim_back(text: Seq<char>)
    requires
        hyphens_apart(text),
        text.len() > 0 ==> text[0] != '-',
    ensures
        hyphens_apart(trim_back(text)),
        trim_back(text).len() > 0 ==> trim_back(text)[0] != '-' && trim_back(text).last() != '-',
    decreases text.len(),
{
    if text.len() > 0 && text.last() == '-' {
        let rest = text.drop_last();
        assert(hyphens_apart(rest)) by {
            assert forall|i: int| 0 <= i < rest.len() implies lower_letter(#[trigger] rest[i])
                || '0' <= rest[i] <= '9' || rest[i] == '-' by {
                assert(rest[i] == text[i]);
            }
            assert forall|i: int|
                0 <= i < rest.len() - 1 && #[trigger] rest[i] == '-' implies rest[i + 1] != '-' by {
                assert(rest[i] == text[i]);
            }
        }
        lemma_trim_back(rest);
    }
}

/// What is hyphenated stays so.
pub(crate) proof fn lemma_hyphenated_again(text: Seq<char>)
    requires
        hyphens_apart(text),
    ensures
        hyphenated(text) == text,
    decreases text.len(),
{
    if text.len() > 0 {
        let rest = text.drop_last();
        assert(hyphens_apart(rest)) by {
            assert forall|i: int| 0 <= i < rest.len() implies lower_letter(#[trigger] rest[i])
                || '0' <= rest[i] <= '9' || rest[i] == '-' by {
                assert(rest[i] == text[i]);
            }
            assert forall|i: int|
                0 <= i < rest.len() - 1 && #[trigger] rest[i] == '-' implies rest[i + 1] != '-' by {
                assert(rest[i] == text[i]);
            }
        }
        lemma_hyphenated_again(rest);
        let last = text[text.len() - 1];
        assert(lower_letter(last) || '0' <= last <= '9' || last == '-');
        if text.len() > 1 {
            let other = text[text.len() - 2];
            assert(lower_letter(other) || '0' <= other <= '9' || other == '-');
            assert(other == '-' ==> text[text.len() - 2 + 1] != '-');
        }
        assert(text =~= rest.push(last));
    } else {
        assert(hyphenated(text) =~= text);
    }
}

/// A label starts with a letter, has no hyphen at its end and no two together,
/// and is its own label.
pub proof fn law_label(part: Seq<char>)
    ensures
        is_label(label_of(part)),
        label_of(label_of(part)) == label_of(part),
{
    let whole = hyphenated(part);
    lemma_hyphenated(part);
    lemma_trim_front(whole);
    lemma_trim_back(trim_front(whole));
    let label = trim_back(trim_front(whole));
    let out = label_of(part);
    reveal_strlit("qpart");
    reveal_strlit("qpart-");
    if label.len() > 0 {
        assert(lower_letter(label[0]) || '0' <= label[0] <= '9' || label[0] == '-');
        if '0' <= label[0] <= '9' {
            let head = "qpart-"@;
            assert(out == head + label);
            assert forall|i: int| 0 <= i < out.len() implies lower_letter(#[trigger] out[i]) || '0'
                <= out[i] <= '9' || out[i] == '-' by {
                if i >= head.len() {
                    assert(out[i] == label[i - head.len()]);
                }
            }
            assert forall|i: int|
                0 <= i < out.len() - 1 && #[trigger] out[i] == '-' implies out[i + 1] != '-' by {
                if i >= head.len() {
                    assert(out[i] == label[i - head.len()]);
                    assert(out[i + 1] == label[i + 1 - head.len()]);
                } else {
                    assert(out[6] == label[0]);
                }
            }
            assert(out.last() == label.last());
        }
    }
    lemma_hyphenated_again(out);
    assert(!('0' <= out[0] <= '9'));
}

} // verus!
