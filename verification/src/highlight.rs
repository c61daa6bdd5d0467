//! Marking matched query parts in a text.

use crate::chars::{
    ascii_alphanumeric, ascii_lower, chars_of, is_ascii_alphanumeric, is_white, push_chars,
    text_of, to_ascii_lower, white,
};
use crate::decimal::{decimal, decimal_text};
use crate::fx::{fx_byte, fx_finish, fx_hash_byte, fx_hash_text, fx_hasher, fx_text, fx_value};
use crate::marks::{
    all_source, byte_ranges_for_positions, first_invalid, lemma_merged_boundaries, marks_apart,
    marks_of, merge_overlapping_ranges, merged_marks, position_marks, tokens_in, HighlightError,
    HighlightRange, Mark, TokenSpan,
};
use crate::match_positions::MatchPosition;
use crate::text::{sorted_set, sorted_unique, texts};
use vstd::prelude::*;
use vstd::string::StringSliceAdditionalSpecFns;
use vstd::utf8::{decode_utf8, encode_utf8, encode_utf8_valid_utf8, is_char_boundary, valid_utf8};

verus! {

/// The words of a text: its longest runs without white space.
pub open spec fn words(text: Seq<char>) -> Seq<Seq<char>>
    decreases text.len(),
{
    if text.len() == 0 {
        Seq::empty()
    } else {
        let before = words(text.drop_last());
        if white(text.last()) {
            before
        } else if text.len() > 1 && !white(text[text.len() - 2]) {
            before.drop_last().push(before.last().push(text.last()))
        } else {
            before.push(seq![text.last()])
        }
    }
}

/// The first `upto` words set in lines of at most `width` characters, a
/// longer word on a line of its own, and how long the last line is.
pub open spec fn set_words(all: Seq<Seq<char>>, width: nat, upto: int) -> (Seq<char>, nat)
    decreases upto,
{
    if upto <= 0 || upto > all.len() {
        (Seq::empty(), 0)
    } else {
        let (before, line) = set_words(all, width, upto - 1);
        let word = all[upto - 1];
        if upto == 1 {
            (word, word.len())
        } else if line + 1 + word.len() <= width {
            (before + seq![' '] + word, line + 1 + word.len())
        } else {
            (before + seq!['\n'] + word, word.len())
        }
    }
}

/// A text set in lines of at most `width` characters; one without words stays
/// as it is.
pub open spec fn rewrapped(text: Seq<char>, width: nat) -> Seq<char> {
    if words(text).len() == 0 {
        text
    } else {
        set_words(words(text), width, words(text).len() as int).0
    }
}

/// The words of `chars`.
fn words_of(chars: &Vec<char>) -> (found: Vec<String>)
    ensures
        texts(found@) == words(chars@),
{
    let mut found: Vec<String> = Vec::new();
    let mut start: usize = 0;
    let mut i: usize = 0;
    proof {
        assert(chars@.take(0) =~= Seq::empty());
        assert(texts(found@) =~= Seq::empty());
    }
    while i < chars.len()
        invariant
            start <= i <= chars.len(),
            forall|j: int| start <= j < i ==> !white(#[trigger] chars[j]),
            start == 0 || white(chars[start - 1]),
            words(chars@.take(i as int)) == if start < i {
                texts(found@).push(chars@.subrange(start as int, i as int))
            } else {
                texts(found@)
            },
        decreases chars.len() - i,
    {
        proof {
            let longer = chars@.take(i + 1);
            assert(longer.drop_last() =~= chars@.take(i as int));
            assert(longer.last() == chars[i as int]);
            assert(i > 0 ==> longer[longer.len() - 2] == chars[i - 1]);
        }
        if is_white(chars[i]) {
            if start < i {
                let word = text_of(chars, start, i);
                let ghost before = texts(found@);
                found.push(word);
                proof {
                    assert(texts(found@) =~= before.push(word@));
                }
            }
            start = i + 1;
        } else {
            proof {
                if start < i {
                    let word = chars@.subrange(start as int, i as int);
                    assert(word.push(chars[i as int]) =~= chars@.subrange(start as int, i + 1));
                    assert(texts(found@).push(word).drop_last() =~= texts(found@));
                } else {
                    assert(seq![chars[i as int]] =~= chars@.subrange(start as int, i + 1));
                }
            }
        }
        i = i + 1;
    }
    proof {
        assert(chars@.take(i as int) =~= chars@);
    }
    if start < chars.len() {
        let word = text_of(chars, start, chars.len());
        let ghost before = texts(found@);
        found.push(word);
        proof {
            assert(texts(found@) =~= before.push(word@));
        }
    }
    found
}

/// A text set anew in lines of at most `wrap_to` characters.
pub fn rewrap_text(text: &str, wrap_to: usize) -> (wrapped: String)
    requires
        wrap_to > 0,
    ensures
        wrapped@ == rewrapped(text@, wrap_to as nat),
{
    let chars = chars_of(text);
    let all = words_of(&chars);
    if all.len() == 0 {
        return String::from_str(text);
    }
    let mut output = String::new();
    let mut line: usize = 0;
    let mut i: usize = 0;
    while i < all.len()
        invariant
            i <= all.len(),
            wrap_to > 0,
            texts(all@) == words(text@),
            set_words(words(text@), wrap_to as nat, i as int) == (output@, line as nat),
        decreases all.len() - i,
    {
        let word = &all[i];
        let length: usize = vstd::string::StrSliceExecFns::unicode_len(word.as_str());
        let ghost before = output@;
        assert(words(text@)[i as int] == word@);
        if i == 0 {
            output.append(word.as_str());
            proof {
                assert(output@ =~= word@);
            }
            line = length;
        } else if line < wrap_to && length <= wrap_to - line - 1 {
            output.push(' ');
            output.append(word.as_str());
            proof {
                assert(output@ =~= before + seq![' '] + word@);
            }
            line = line + 1 + length;
        } else {
            output.push('\n');
            output.append(word.as_str());
            proof {
                assert(output@ =~= before + seq!['\n'] + word@);
            }
            line = length;
        }
        i = i + 1;
    }
    output
}

/// A character as it stands in HTML.
pub open spec fn escaped_char(c: char) -> Seq<char> {
    if c == '&' {
        "&amp;"@
    } else if c == '<' {
        "&lt;"@
    } else if c == '>' {
        "&gt;"@
    } else if c == '"' {
        "&quot;"@
    } else if c == '\'' {
        "&#39;"@
    } else {
        seq![c]
    }
}

/// A text as it stands in HTML.
pub open spec fn html_escaped(text: Seq<char>) -> Seq<char>
    decreases text.len(),
{
    if text.len() == 0 {
        Seq::empty()
    } else {
        html_escaped(text.drop_last()) + escaped_char(text.last())
    }
}

/// Replaces the characters that HTML takes for markup.
pub fn html_escape_in_place(text: &mut String)
    ensures
        final(text)@ == html_escaped(old(text)@),
{
    let chars = chars_of(text.as_str());
    let mut escaped = String::new();
    let mut i: usize = 0;
    proof {
        assert(chars@.take(0) =~= Seq::empty());
    }
    while i < chars.len()
        invariant
            i <= chars.len(),
            escaped@ == html_escaped(chars@.take(i as int)),
        decreases chars.len() - i,
    {
        let c: char = chars[i];
        proof {
            let longer = chars@.take(i + 1);
            assert(longer.drop_last() =~= chars@.take(i as int));
            assert(longer.last() == c);
        }
        let ghost before = escaped@;
        if c == '&' {
            escaped.append("&amp;");
        } else if c == '<' {
            escaped.append("&lt;");
        } else if c == '>' {
            escaped.append("&gt;");
        } else if c == '"' {
            escaped.append("&quot;");
        } else if c == '\'' {
            escaped.append("&#39;");
        } else {
            escaped.push(c);
            proof {
                assert(escaped@ =~= before + seq![c]);
            }
        }
        i = i + 1;
    }
    proof {
        assert(chars@.take(i as int) =~= chars@);
    }
    *text = escaped;
}

/// A text in lower case with every run of other characters than ASCII letters
/// and digits made a hyphen.
pub open spec fn hyphenated(text: Seq<char>) -> Seq<char>
    decreases text.len(),
{
    if text.len() == 0 {
        Seq::empty()
    } else {
        let before = hyphenated(text.drop_last());
        if ascii_alphanumeric(text.last()) {
            before.push(ascii_lower(text.last()))
        } else if text.len() > 1 && !ascii_alphanumeric(text[text.len() - 2]) {
            before
        } else {
            before.push('-')
        }
    }
}

/// A text without hyphens at its start.
pub open spec fn trim_front(text: Seq<char>) -> Seq<char>
    decreases text.len(),
{
    if text.len() > 0 && text[0] == '-' {
        trim_front(text.drop_first())
    } else {
        text
    }
}

/// A text without hyphens at its end.
pub open spec fn trim_back(text: Seq<char>) -> Seq<char>
    decreases text.len(),
{
    if text.len() > 0 && text.last() == '-' {
        trim_back(text.drop_last())
    } else {
        text
    }
}

/// A name for a query part that can stand among CSS classes.
pub open spec fn label_of(part: Seq<char>) -> Seq<char> {
    let label = trim_back(trim_front(hyphenated(part)));
    if label.len() == 0 {
        "qpart"@
    } else if '0' <= label[0] <= '9' {
        "qpart-"@ + label
    } else {
        label
    }
}

/// A name for a query part that can stand among CSS classes.
pub fn query_label(query_part: &str) -> (label: String)
    ensures
        label@ == label_of(query_part@),
{
    let chars = chars_of(query_part);
    let mut all: Vec<char> = Vec::new();
    let mut separated = false;
    let mut i: usize = 0;
    proof {
        assert(chars@.take(0) =~= Seq::empty());
    }
    while i < chars.len()
        invariant
            i <= chars.len(),
            all@ == hyphenated(chars@.take(i as int)),
            separated == (i > 0 && !ascii_alphanumeric(chars[i - 1])),
        decreases chars.len() - i,
    {
        let c: char = chars[i];
        proof {
            let longer = chars@.take(i + 1);
            assert(longer.drop_last() =~= chars@.take(i as int));
            assert(longer.last() == c);
            assert(i > 0 ==> longer[longer.len() - 2] == chars[i - 1]);
        }
        if is_ascii_alphanumeric(c) {
            all.push(to_ascii_lower(c));
            separated = false;
        } else if !separated {
            all.push('-');
            separated = true;
        }
        i = i + 1;
    }
    proof {
        assert(chars@.take(i as int) =~= chars@);
    }
    let mut from: usize = 0;
    let ghost whole = all@;
    proof {
        assert(whole.skip(0) =~= whole);
    }
    while from < all.len() && all[from] == '-'
        invariant
            from <= all.len(),
            whole == all@,
            trim_front(whole) == trim_front(whole.skip(from as int)),
        decreases all.len() - from,
    {
        proof {
            assert(whole.skip(from as int).drop_first() =~= whole.skip(from + 1));
        }
        from = from + 1;
    }
    let mut to: usize = all.len();
    let ghost front = trim_front(whole);
    proof {
        assert(front =~= whole.subrange(from as int, to as int));
    }
    while to > from && all[to - 1] == '-'
        invariant
            from <= to <= all.len(),
            whole == all@,
            trim_back(front) == trim_back(whole.subrange(from as int, to as int)),
        decreases to,
    {
        proof {
            assert(whole.subrange(from as int, to as int).drop_last() =~= whole.subrange(
                from as int,
                to - 1,
            ));
        }
        to = to - 1;
    }
    if from == to {
        return String::from_str("qpart");
    }
    if '0' <= all[from] && all[from] <= '9' {
        let mut label = String::from_str("qpart-");
        push_chars(&mut label, &all, from, to);
        return label;
    }
    text_of(&all, from, to)
}

/// The first `upto` of several texts with `separator` between them.
pub open spec fn joined(parts: Seq<Seq<char>>, separator: Seq<char>, upto: int) -> Seq<char>
    decreases upto,
{
    if upto <= 0 || upto > parts.len() {
        Seq::empty()
    } else if upto == 1 {
        parts[0]
    } else {
        joined(parts, separator, upto - 1) + separator + parts[upto - 1]
    }
}

fn join(parts: &Vec<String>, separator: &str) -> (text: String)
    ensures
        text@ == joined(texts(parts@), separator@, parts.len() as int),
{
    let mut text = String::new();
    let mut i: usize = 0;
    while i < parts.len()
        invariant
            i <= parts.len(),
            text@ == joined(texts(parts@), separator@, i as int),
        decreases parts.len() - i,
    {
        let ghost before = text@;
        if i > 0 {
            text.append(separator);
        }
        text.append(parts[i].as_str());
        proof {
            let all = texts(parts@);
            assert(all[i as int] == parts[i as int]@);
            if i == 0 {
                assert(text@ =~= all[0]);
            } else {
                assert(text@ =~= before + separator@ + all[i as int]);
            }
        }
        i = i + 1;
    }
    text
}

/// `pattern` stands in `text` at `at`.
pub open spec fn stands_at(text: Seq<char>, pattern: Seq<char>, at: int) -> bool {
    0 <= at && at + pattern.len() <= text.len() && text.subrange(at, at + pattern.len() as int)
        == pattern
}

/// The text from `at` on with each occurrence of `pattern`, left to right,
/// replaced.
pub open spec fn replaced(
    text: Seq<char>,
    pattern: Seq<char>,
    replacement: Seq<char>,
    at: int,
) -> Seq<char>
    decreases text.len() - at,
{
    if at < 0 || at >= text.len() {
        Seq::empty()
    } else if pattern.len() > 0 && stands_at(text, pattern, at) {
        replacement + replaced(text, pattern, replacement, at + pattern.len() as int)
    } else {
        seq![text[at]] + replaced(text, pattern, replacement, at + 1)
    }
}

fn pattern_at(text: &Vec<char>, pattern: &Vec<char>, at: usize) -> (stands: bool)
    requires
        at <= text.len(),
    ensures
        stands == stands_at(text@, pattern@, at as int),
{
    if pattern.len() > text.len() - at {
        return false;
    }
    let mut i: usize = 0;
    while i < pattern.len()
        invariant
            i <= pattern.len(),
            at + pattern.len() <= text.len(),
            forall|j: int| 0 <= j < i ==> text[at + j] == pattern[j],
        decreases pattern.len() - i,
    {
        if text[at + i] != pattern[i] {
            proof {
                let part = text@.subrange(at as int, at + pattern.len() as int);
                assert(part[i as int] != pattern@[i as int]);
            }
            return false;
        }
        i = i + 1;
    }
    proof {
        assert(text@.subrange(at as int, at + pattern.len() as int) =~= pattern@);
    }
    true
}

/// The text with each occurrence of `pattern` replaced.
fn replace(text: &str, pattern: &str, replacement: &str) -> (result: String)
    requires
        pattern@.len() > 0,
    ensures
        result@ == replaced(text@, pattern@, replacement@, 0),
{
    let chars = chars_of(text);
    let sought = chars_of(pattern);
    let mut result = String::new();
    let mut at: usize = 0;
    proof {
        assert(result@ + replaced(text@, pattern@, replacement@, 0) =~= replaced(
            text@,
            pattern@,
            replacement@,
            0,
        ));
    }
    while at < chars.len()
        invariant
            at <= chars.len(),
            chars@ == text@,
            sought@ == pattern@,
            sought.len() > 0,
            result@ + replaced(text@, pattern@, replacement@, at as int) == replaced(
                text@,
                pattern@,
                replacement@,
                0,
            ),
        decreases chars.len() - at,
    {
        let ghost before = result@;
        if pattern_at(&chars, &sought, at) {
            result.append(replacement);
            proof {
                let rest = replaced(
                    text@,
                    pattern@,
                    replacement@,
                    at + pattern@.len() as int,
                );
                assert(before + (replacement@ + rest) =~= result@ + rest);
            }
            at = at + sought.len();
        } else {
            result.push(chars[at]);
            proof {
                let rest = replaced(text@, pattern@, replacement@, at + 1);
                assert(before + (seq![text@[at as int]] + rest) =~= result@ + rest);
            }
            at = at + 1;
        }
    }
    proof {
        assert(result@ + Seq::<char>::empty() =~= result@);
    }
    result
}

/// The labels of several query parts.
pub open spec fn labels(parts: Seq<Seq<char>>) -> Seq<Seq<char>> {
    parts.map_values(|part: Seq<char>| label_of(part))
}

/// The opening tag that `template` gives for query parts: the parts themselves
/// and their labels are filled in, the labels in order and each once.
pub open spec fn begin_tag_of(template: Seq<char>, parts: Seq<Seq<char>>) -> Seq<char> {
    let names = sorted_set(labels(parts));
    replaced(
        replaced(
            template,
            "$QUERY_PART"@,
            html_escaped(joined(parts, "; "@, parts.len() as int)),
            0,
        ),
        "$QUERY_LABEL"@,
        joined(names, " "@, names.len() as int),
        0,
    )
}

/// The opening tag for query parts.
pub fn render_begin_tag(template: &str, query_parts: &Vec<String>) -> (tag: String)
    ensures
        tag@ == begin_tag_of(template@, texts(query_parts@)),
{
    let ghost parts = texts(query_parts@);
    let mut listed = join(query_parts, "; ");
    html_escape_in_place(&mut listed);
    proof {
        reveal_strlit("$QUERY_PART");
        reveal_strlit("$QUERY_LABEL");
    }
    let rendered = replace(template, "$QUERY_PART", listed.as_str());
    let mut found: Vec<String> = Vec::new();
    let mut i: usize = 0;
    while i < query_parts.len()
        invariant
            i <= query_parts.len(),
            parts == texts(query_parts@),
            texts(found@) == labels(parts).take(i as int),
        decreases query_parts.len() - i,
    {
        let ghost before = texts(found@);
        let label = query_label(query_parts[i].as_str());
        found.push(label);
        proof {
            assert(texts(found@) =~= before.push(label@));
            assert(texts(found@) =~= labels(parts).take(i + 1));
        }
        i = i + 1;
    }
    proof {
        assert(labels(parts).take(i as int) =~= labels(parts));
    }
    let sorted = sorted_unique(&found);
    let names = join(&sorted, " ");
    replace(rendered.as_str(), "$QUERY_LABEL", names.as_str())
}

/// A text between the codes that color it; nothing for no text.
pub open spec fn colored(begin: Seq<char>, text: Seq<char>) -> Seq<char> {
    if text.len() == 0 {
        text
    } else {
        begin + text + "\u{1b}[0m"@
    }
}

/// The color is taken off at the end of each line and put on again: `line` is
/// what has been read of a line, and `rest` is to come.
pub open spec fn ansi_lines(begin: Seq<char>, line: Seq<char>, rest: Seq<char>) -> Seq<char>
    decreases rest.len(),
{
    if rest.len() == 0 {
        colored(begin, line)
    } else if rest[0] == '\n' || rest[0] == '\r' {
        colored(begin, line) + seq![rest[0]] + ansi_lines(
            begin,
            Seq::empty(),
            rest.drop_first(),
        )
    } else {
        ansi_lines(begin, line.push(rest[0]), rest.drop_first())
    }
}

fn push_colored(output: &mut String, begin: &str, chars: &Vec<char>, from: usize, to: usize)
    requires
        from <= to <= chars.len(),
    ensures
        final(output)@ == old(output)@ + colored(begin@, chars@.subrange(from as int, to as int)),
{
    let ghost before = output@;
    if from < to {
        output.append(begin);
        push_chars(output, chars, from, to);
        output.append("\u{1b}[0m");
    }
    proof {
        assert(output@ =~= before + colored(begin@, chars@.subrange(from as int, to as int)));
    }
}

/// Appends a text in color, with line breaks left uncolored.
pub fn push_ansi_highlighted_text(output: &mut String, begin: &str, text: &str)
    ensures
        final(output)@ == old(output)@ + ansi_lines(begin@, Seq::empty(), text@),
{
    let chars = chars_of(text);
    let mut start: usize = 0;
    let mut cursor: usize = 0;
    let ghost before = output@;
    proof {
        assert(chars@.subrange(0, 0) =~= Seq::empty());
        assert(chars@.skip(0) =~= chars@);
    }
    while cursor < chars.len()
        invariant
            start <= cursor <= chars.len(),
            chars@ == text@,
            output@ + ansi_lines(
                begin@,
                chars@.subrange(start as int, cursor as int),
                chars@.skip(cursor as int),
            ) == before + ansi_lines(begin@, Seq::empty(), text@),
        decreases chars.len() - cursor,
    {
        let c: char = chars[cursor];
        let ghost line = chars@.subrange(start as int, cursor as int);
        let ghost rest = chars@.skip(cursor as int);
        let ghost had = output@;
        proof {
            assert(rest[0] == c);
            assert(rest.drop_first() =~= chars@.skip(cursor + 1));
        }
        if c == '\n' || c == '\r' {
            push_colored(output, begin, &chars, start, cursor);
            output.push(c);
            proof {
                let after = ansi_lines(begin@, Seq::empty(), rest.drop_first());
                assert(chars@.subrange(cursor + 1, cursor + 1) =~= Seq::empty());
                assert(had + (colored(begin@, line) + seq![c] + after) =~= output@ + after);
            }
            start = cursor + 1;
        } else {
            proof {
                assert(line.push(c) =~= chars@.subrange(start as int, cursor + 1));
            }
        }
        cursor = cursor + 1;
    }
    push_colored(output, begin, &chars, start, cursor);
}

/// A text without white space at its ends, and in lower case as far as ASCII
/// letters go.
pub open spec fn color_name(part: Seq<char>) -> Seq<char> {
    trim_white(part).map_values(|c: char| ascii_lower(c))
}

/// A text without white space at its ends.
pub open spec fn trim_white(text: Seq<char>) -> Seq<char>
    decreases text.len(),
{
    if text.len() > 0 && white(text[0]) {
        trim_white(text.drop_first())
    } else if text.len() > 0 && white(text.last()) {
        trim_white(text.drop_last())
    } else {
        text
    }
}

/// The code of a color that has a name: of the letters for a term, of the
/// background for a span.
pub open spec fn color_code(name: Seq<char>, has_span: bool) -> Option<Seq<char>> {
    if name == "black"@ {
        Some(
            if has_span {
                "\u{1b}[97;40m"@
            } else {
                "\u{1b}[1;30m"@
            },
        )
    } else if name == "red"@ {
        Some(
            if has_span {
                "\u{1b}[97;41m"@
            } else {
                "\u{1b}[1;31m"@
            },
        )
    } else if name == "green"@ {
        Some(
            if has_span {
                "\u{1b}[97;42m"@
            } else {
                "\u{1b}[1;32m"@
            },
        )
    } else if name == "yellow"@ {
        Some(
            if has_span {
                "\u{1b}[30;43m"@
            } else {
                "\u{1b}[1;33m"@
            },
        )
    } else if name == "blue"@ {
        Some(
            if has_span {
                "\u{1b}[97;44m"@
            } else {
                "\u{1b}[1;34m"@
            },
        )
    } else if name == "magenta"@ {
        Some(
            if has_span {
                "\u{1b}[97;45m"@
            } else {
                "\u{1b}[1;35m"@
            },
        )
    } else if name == "purple"@ {
        Some(
            if has_span {
                "\u{1b}[97;45m"@
            } else {
                "\u{1b}[1;35m"@
            },
        )
    } else if name == "cyan"@ {
        Some(
            if has_span {
                "\u{1b}[30;46m"@
            } else {
                "\u{1b}[1;36m"@
            },
        )
    } else if name == "white"@ {
        Some(
            if has_span {
                "\u{1b}[30;47m"@
            } else {
                "\u{1b}[1;37m"@
            },
        )
    } else if name == "gray"@ {
        Some(
            if has_span {
                "\u{1b}[97;100m"@
            } else {
                "\u{1b}[1;90m"@
            },
        )
    } else if name == "grey"@ {
        Some(
            if has_span {
                "\u{1b}[97;100m"@
            } else {
                "\u{1b}[1;90m"@
            },
        )
    } else {
        None
    }
}

/// The color that a hash picks.
pub open spec fn palette(hash: u64, has_span: bool) -> Seq<char> {
    if hash % 8 == 0 {
        if has_span {
            "\u{1b}[97;41m"@
        } else {
            "\u{1b}[1;31m"@
        }
    } else if hash % 8 == 1 {
        if has_span {
            "\u{1b}[97;42m"@
        } else {
            "\u{1b}[1;32m"@
        }
    } else if hash % 8 == 2 {
        if has_span {
            "\u{1b}[30;43m"@
        } else {
            "\u{1b}[1;33m"@
        }
    } else if hash % 8 == 3 {
        if has_span {
            "\u{1b}[97;44m"@
        } else {
            "\u{1b}[1;34m"@
        }
    } else if hash % 8 == 4 {
        if has_span {
            "\u{1b}[97;45m"@
        } else {
            "\u{1b}[1;35m"@
        }
    } else if hash % 8 == 5 {
        if has_span {
            "\u{1b}[30;46m"@
        } else {
            "\u{1b}[1;36m"@
        }
    } else if hash % 8 == 6 {
        if has_span {
            "\u{1b}[30;101m"@
        } else {
            "\u{1b}[1;91m"@
        }
    } else {
        if has_span {
            "\u{1b}[97;104m"@
        } else {
            "\u{1b}[1;94m"@
        }
    }
}

/// The color that a hash picks.
pub fn palette_color(hash: u64, has_span: bool) -> (code: &'static str)
    ensures
        code@ == palette(hash, has_span),
{
    if hash % 8 == 0 {
        if has_span {
            "\u{1b}[97;41m"
        } else {
            "\u{1b}[1;31m"
        }
    } else if hash % 8 == 1 {
        if has_span {
            "\u{1b}[97;42m"
        } else {
            "\u{1b}[1;32m"
        }
    } else if hash % 8 == 2 {
        if has_span {
            "\u{1b}[30;43m"
        } else {
            "\u{1b}[1;33m"
        }
    } else if hash % 8 == 3 {
        if has_span {
            "\u{1b}[97;44m"
        } else {
            "\u{1b}[1;34m"
        }
    } else if hash % 8 == 4 {
        if has_span {
            "\u{1b}[97;45m"
        } else {
            "\u{1b}[1;35m"
        }
    } else if hash % 8 == 5 {
        if has_span {
            "\u{1b}[30;46m"
        } else {
            "\u{1b}[1;36m"
        }
    } else if hash % 8 == 6 {
        if has_span {
            "\u{1b}[30;101m"
        } else {
            "\u{1b}[1;91m"
        }
    } else {
        if has_span {
            "\u{1b}[97;104m"
        } else {
            "\u{1b}[1;94m"
        }
    }
}

fn named(lowered: &Vec<char>, name: &str) -> (is: bool)
    ensures
        is == (lowered@ == name@),
{
    let chars = chars_of(name);
    if chars.len() != lowered.len() {
        return false;
    }
    let mut i: usize = 0;
    while i < chars.len()
        invariant
            i <= chars.len() == lowered.len(),
            chars@ == name@,
            forall|j: int| 0 <= j < i ==> lowered[j] == chars[j],
        decreases chars.len() - i,
    {
        if lowered[i] != chars[i] {
            return false;
        }
        i = i + 1;
    }
    proof {
        assert(lowered@ =~= name@);
    }
    true
}

/// The color that a query part names, whatever its case.
pub fn named_ansi_color(query_part: &str, has_span: bool) -> (code: Option<&'static str>)
    ensures
        match color_code(color_name(query_part@), has_span) {
            Some(expected) => code is Some && code->0@ == expected,
            None => code is None,
        },
{
    let chars = chars_of(query_part);
    let mut from: usize = 0;
    let mut to: usize = chars.len();
    let ghost whole = chars@;
    proof {
        assert(whole.subrange(0, to as int) =~= whole);
    }
    while from < to && (is_white(chars[from]) || is_white(chars[to - 1]))
        invariant
            from <= to <= chars.len(),
            whole == chars@,
            trim_white(whole) == trim_white(whole.subrange(from as int, to as int)),
        decreases to - from,
    {
        let ghost part = whole.subrange(from as int, to as int);
        proof {
            assert(part[0] == chars[from as int]);
            assert(part.last() == chars[to - 1]);
            assert(part.drop_first() =~= whole.subrange(from + 1, to as int));
            assert(part.drop_last() =~= whole.subrange(from as int, to - 1));
        }
        if is_white(chars[from]) {
            from = from + 1;
        } else {
            to = to - 1;
        }
    }
    let ghost trimmed = whole.subrange(from as int, to as int);
    proof {
        if from < to {
            assert(trimmed[0] == chars[from as int]);
            assert(trimmed.last() == chars[to - 1]);
        }
        assert(trim_white(whole) == trimmed);
    }
    let mut lowered: Vec<char> = Vec::new();
    let mut i: usize = from;
    while i < to
        invariant
            from <= i <= to <= chars.len(),
            whole == chars@,
            lowered.len() == i - from,
            forall|j: int| 0 <= j < i - from ==> lowered[j] == ascii_lower(whole[from + j]),
        decreases to - i,
    {
        lowered.push(to_ascii_lower(chars[i]));
        i = i + 1;
    }
    proof {
        assert(lowered@ =~= color_name(query_part@));
    }
    if named(&lowered, "black") {
        return Some(
            if has_span {
                "\u{1b}[97;40m"
            } else {
                "\u{1b}[1;30m"
            },
        );
    }
    if named(&lowered, "red") {
        return Some(
            if has_span {
                "\u{1b}[97;41m"
            } else {
                "\u{1b}[1;31m"
            },
        );
    }
    if named(&lowered, "green") {
        return Some(
            if has_span {
                "\u{1b}[97;42m"
            } else {
                "\u{1b}[1;32m"
            },
        );
    }
    if named(&lowered, "yellow") {
        return Some(
            if has_span {
                "\u{1b}[30;43m"
            } else {
                "\u{1b}[1;33m"
            },
        );
    }
    if named(&lowered, "blue") {
        return Some(
            if has_span {
                "\u{1b}[97;44m"
            } else {
                "\u{1b}[1;34m"
            },
        );
    }
    if named(&lowered, "magenta") {
        return Some(
            if has_span {
                "\u{1b}[97;45m"
            } else {
                "\u{1b}[1;35m"
            },
        );
    }
    if named(&lowered, "purple") {
        return Some(
            if has_span {
                "\u{1b}[97;45m"
            } else {
                "\u{1b}[1;35m"
            },
        );
    }
    if named(&lowered, "cyan") {
        return Some(
            if has_span {
                "\u{1b}[30;46m"
            } else {
                "\u{1b}[1;36m"
            },
        );
    }
    if named(&lowered, "white") {
        return Some(
            if has_span {
                "\u{1b}[30;47m"
            } else {
                "\u{1b}[1;37m"
            },
        );
    }
    if named(&lowered, "gray") {
        return Some(
            if has_span {
                "\u{1b}[97;100m"
            } else {
                "\u{1b}[1;90m"
            },
        );
    }
    if named(&lowered, "grey") {
        return Some(
            if has_span {
                "\u{1b}[97;100m"
            } else {
                "\u{1b}[1;90m"
            },
        );
    }
    None
}

/// The color of the first query part, from the `i`-th on, that names one.
pub open spec fn named_from(parts: Seq<Seq<char>>, has_span: bool, i: int) -> Option<Seq<char>>
    decreases parts.len() - i,
{
    if i < 0 || i >= parts.len() {
        None
    } else {
        match color_code(color_name(parts[i]), has_span) {
            Some(code) => Some(code),
            None => named_from(parts, has_span, i + 1),
        }
    }
}

/// The Fx hash of texts: each is mixed in, and the byte `0xff` behind it.
/// Whether the machine takes products in full is told for each of them.
pub open spec fn texts_hash(parts: Seq<Seq<char>>, full: Seq<bool>) -> u64
    decreases parts.len(),
{
    if parts.len() == 0 {
        0
    } else {
        let before = texts_hash(parts.drop_last(), full.drop_last());
        fx_byte(fx_text(before, parts.last(), usize::BITS, full.last()), 0xff, usize::BITS)
    }
}

/// The color that texts are given by their hash.
pub open spec fn hashed_color(parts: Seq<Seq<char>>, has_span: bool, code: Seq<char>) -> bool {
    exists|full: Seq<bool>|
        full.len() == parts.len() && code == palette(#[trigger] texts_hash(parts, full), has_span)
}

/// The color that query parts name or, by their hash, are given.
pub open spec fn color_of(parts: Seq<Seq<char>>, has_span: bool, code: Seq<char>) -> bool {
    match named_from(parts, has_span, 0) {
        Some(named) => code == named,
        None => hashed_color(parts, has_span, code),
    }
}

/// A color for query parts that name none.
fn hashed_ansi_color(query_parts: &Vec<String>, has_span: bool) -> (code: &'static str)
    ensures
        hashed_color(texts(query_parts@), has_span, code@),
{
    let ghost parts = texts(query_parts@);
    let ghost mut full: Seq<bool> = Seq::empty();
    let mut hasher = fx_hasher();
    let mut i: usize = 0;
    while i < query_parts.len()
        invariant
            i <= query_parts.len(),
            parts == texts(query_parts@),
            full.len() == i,
            fx_value(hasher, usize::BITS) == texts_hash(parts.take(i as int), full),
        decreases query_parts.len() - i,
    {
        let ghost before = fx_value(hasher, usize::BITS);
        fx_hash_text(&mut hasher, query_parts[i].as_str());
        proof {
            let text = query_parts[i as int]@;
            let taken = choose|taken: bool|
                fx_value(hasher, usize::BITS) == #[trigger] fx_text(
                    before,
                    text,
                    usize::BITS,
                    taken,
                );
            assert(parts.take(i + 1).drop_last() =~= parts.take(i as int));
            assert(parts.take(i + 1).last() == text);
            assert(full.push(taken).drop_last() =~= full);
            full = full.push(taken);
        }
        fx_hash_byte(&mut hasher, 0xff);
        i = i + 1;
    }
    proof {
        assert(parts.take(i as int) =~= parts);
    }
    palette_color(fx_finish(&hasher), has_span)
}

/// The code that starts the color of query parts.
pub fn render_ansi_begin(query_parts: &Vec<String>, has_span: bool) -> (code: &'static str)
    ensures
        color_of(texts(query_parts@), has_span, code@),
{
    let mut i: usize = 0;
    while i < query_parts.len()
        invariant
            i <= query_parts.len(),
            named_from(texts(query_parts@), has_span, 0) == named_from(
                texts(query_parts@),
                has_span,
                i as int,
            ),
        decreases query_parts.len() - i,
    {
        assert(texts(query_parts@)[i as int] == query_parts[i as int]@);
        if let Some(code) = named_ansi_color(query_parts[i].as_str(), has_span) {
            return code;
        }
        i = i + 1;
    }
    hashed_ansi_color(query_parts, has_span)
}

/// The characters in a stretch of the bytes of a text.
pub open spec fn slice_of(text: Seq<char>, from: int, to: int) -> Seq<char> {
    decode_utf8(encode_utf8(text).subrange(from, to))
}

proof fn lemma_boundary_in_prefix(bytes: Seq<u8>, from: int, to: int)
    requires
        valid_utf8(bytes),
        is_char_boundary(bytes, from),
        is_char_boundary(bytes, to),
        0 <= from <= to <= bytes.len(),
    ensures
        valid_utf8(bytes.subrange(0, to)),
        is_char_boundary(bytes.subrange(0, to), from),
{
    let head = bytes.subrange(0, to);
    vstd::utf8::valid_utf8_split(bytes, to);
    if from < to {
        vstd::utf8::is_char_boundary_iff_not_is_continuation_byte(bytes, from);
        vstd::utf8::is_char_boundary_iff_not_is_continuation_byte(head, from);
        assert(head[from] == bytes[from]);
    } else {
        vstd::utf8::is_char_boundary_start_end_of_seq(head);
    }
}

/// A place between two characters is within the text.
proof fn lemma_boundary_inside(bytes: Seq<u8>, at: int)
    requires
        valid_utf8(bytes),
        is_char_boundary(bytes, at),
    ensures
        0 <= at <= bytes.len(),
{
}

/// Two stretches that meet are one.
proof fn lemma_slices_meet(text: Seq<char>, from: int, middle: int, to: int)
    requires
        0 <= from <= middle <= to <= encode_utf8(text).len(),
        is_char_boundary(encode_utf8(text), from),
        is_char_boundary(encode_utf8(text), middle),
        is_char_boundary(encode_utf8(text), to),
    ensures
        slice_of(text, from, middle) + slice_of(text, middle, to) == slice_of(text, from, to),
{
    let bytes = encode_utf8(text);
    encode_utf8_valid_utf8(text);
    let head = bytes.subrange(0, to);
    lemma_boundary_in_prefix(bytes, from, to);
    lemma_boundary_in_prefix(bytes, middle, to);
    let part = head.subrange(from, to);
    vstd::utf8::valid_utf8_split(head, from);
    assert(part =~= bytes.subrange(from, to));
    assert(is_char_boundary(part, middle - from)) by {
        if middle < to {
            vstd::utf8::is_char_boundary_iff_not_is_continuation_byte(bytes, middle);
            vstd::utf8::is_char_boundary_iff_not_is_continuation_byte(part, middle - from);
            assert(part[middle - from] == bytes[middle]);
        } else {
            vstd::utf8::is_char_boundary_start_end_of_seq(part);
        }
    }
    vstd::utf8::decode_utf8_split(part, middle - from);
    assert(part.subrange(0, middle - from) =~= bytes.subrange(from, middle));
    assert(part.subrange(middle - from, part.len() as int) =~= bytes.subrange(middle, to));
}

/// The characters of `text` from byte `from` up to byte `to`.
fn slice(text: &str, from: usize, to: usize) -> (part: &str)
    requires
        from <= to,
        is_char_boundary(encode_utf8(text@), from as int),
        is_char_boundary(encode_utf8(text@), to as int),
    ensures
        part@ == slice_of(text@, from as int, to as int),
{
    let ghost bytes = encode_utf8(text@);
    proof {
        encode_utf8_valid_utf8(text@);
        lemma_boundary_inside(bytes, to as int);
        lemma_boundary_in_prefix(bytes, from as int, to as int);
    }
    let (head, _) = text.split_at(to);
    let (_, part) = head.split_at(from);
    proof {
        assert(part.spec_bytes() =~= bytes.subrange(from as int, to as int));
        vstd::utf8::encode_utf8_decode_utf8(part@);
    }
    part
}

/// How matches are marked.
#[derive(Clone, Copy, Debug, PartialEq, Eq)]
pub enum HighlightStyle<'a> {
    Html { begin_tag: &'a str, end_tag: &'a str },
    Ansi,
}

/// A stretch of text marked in HTML.
pub open spec fn html_marked(
    text: Seq<char>,
    mark: Mark,
    begin_tag: Seq<char>,
    end_tag: Seq<char>,
) -> Seq<char> {
    begin_tag_of(begin_tag, mark.parts) + slice_of(text, mark.start, mark.end) + end_tag
}

/// The text from byte `cursor` on, with the stretches from the `i`-th on
/// marked in HTML.
pub open spec fn html_from(
    text: Seq<char>,
    marks: Seq<Mark>,
    begin_tag: Seq<char>,
    end_tag: Seq<char>,
    cursor: int,
    i: int,
) -> Seq<char>
    decreases marks.len() - i,
{
    if i < 0 || i >= marks.len() {
        slice_of(text, cursor, encode_utf8(text).len() as int)
    } else {
        slice_of(text, cursor, marks[i].start) + html_marked(text, marks[i], begin_tag, end_tag)
            + html_from(text, marks, begin_tag, end_tag, marks[i].end, i + 1)
    }
}

/// The text from byte `cursor` on, with the stretches from the `i`-th on in
/// color; `codes` are the colors of the stretches.
pub open spec fn ansi_from(
    text: Seq<char>,
    marks: Seq<Mark>,
    codes: Seq<Seq<char>>,
    cursor: int,
    i: int,
) -> Seq<char>
    decreases marks.len() - i,
{
    if i < 0 || i >= marks.len() {
        slice_of(text, cursor, encode_utf8(text).len() as int)
    } else {
        slice_of(text, cursor, marks[i].start) + ansi_lines(
            codes[i],
            Seq::empty(),
            slice_of(text, marks[i].start, marks[i].end),
        ) + ansi_from(text, marks, codes, marks[i].end, i + 1)
    }
}

/// The colors are those of the stretches.
pub open spec fn codes_of(marks: Seq<Mark>, codes: Seq<Seq<char>>) -> bool {
    &&& codes.len() == marks.len()
    &&& forall|i: int|
        0 <= i < marks.len() ==> color_of(marks[i].parts, marks[i].has_span, #[trigger] codes[i])
}

/// `output` is the text with the stretches marked in a style.
pub open spec fn marked_in(
    style: HighlightStyle<'_>,
    text: Seq<char>,
    marks: Seq<Mark>,
    output: Seq<char>,
) -> bool {
    match style {
        HighlightStyle::Html { begin_tag, end_tag } => output == html_from(
            text,
            marks,
            begin_tag@,
            end_tag@,
            0,
            0,
        ),
        HighlightStyle::Ansi => exists|codes: Seq<Seq<char>>| #[trigger]
            codes_of(marks, codes) && output == ansi_from(text, marks, codes, 0, 0),
    }
}

/// The stretches start and end at characters, in order and apart.
spec fn marks_fit(marks: Seq<Mark>, text: Seq<char>) -> bool {
    &&& marks_apart(marks)
    &&& forall|i: int| #![trigger marks[i]]
        0 <= i < marks.len() ==> marks[i].start <= marks[i].end && is_char_boundary(
            encode_utf8(text),
            marks[i].start,
        ) && is_char_boundary(encode_utf8(text), marks[i].end)
}

fn render_html(
    text: &str,
    ranges: &Vec<HighlightRange>,
    begin_tag: &str,
    end_tag: &str,
) -> (output: String)
    requires
        marks_fit(marks_of(ranges@), text@),
    ensures
        output@ == html_from(text@, marks_of(ranges@), begin_tag@, end_tag@, 0, 0),
{
    let ghost marks = marks_of(ranges@);
    let ghost whole = html_from(text@, marks, begin_tag@, end_tag@, 0, 0);
    let mut output = String::new();
    let mut cursor: usize = 0;
    let mut i: usize = 0;
    proof {
        encode_utf8_valid_utf8(text@);
        assert(output@ + whole =~= whole);
    }
    while i < ranges.len()
        invariant
            i <= ranges.len(),
            marks == marks_of(ranges@),
            marks_fit(marks, text@),
            whole == html_from(text@, marks, begin_tag@, end_tag@, 0, 0),
            output@ + html_from(text@, marks, begin_tag@, end_tag@, cursor as int, i as int)
                == whole,
            is_char_boundary(encode_utf8(text@), cursor as int),
            i < ranges.len() ==> cursor <= marks[i as int].start,
        decreases ranges.len() - i,
    {
        let range = &ranges[i];
        let ghost before = output@;
        proof {
            assert(marks[i as int] == range@);
            if i + 1 < marks.len() {
                assert(marks[i as int].end < marks[i + 1].start);
            }
        }
        output.append(slice(text, cursor, range.bytes.start));
        let tag = render_begin_tag(begin_tag, &range.query_parts);
        output.append(tag.as_str());
        output.append(slice(text, range.bytes.start, range.bytes.end));
        output.append(end_tag);
        proof {
            let rest = html_from(text@, marks, begin_tag@, end_tag@, range.bytes.end as int, i + 1);
            let gap = slice_of(text@, cursor as int, range.bytes.start as int);
            let marked = html_marked(text@, marks[i as int], begin_tag@, end_tag@);
            assert(before + (gap + marked + rest) =~= output@ + rest);
        }
        cursor = range.bytes.end;
        i = i + 1;
    }
    proof {
        encode_utf8_valid_utf8(text@);
        vstd::utf8::is_char_boundary_start_end_of_seq(encode_utf8(text@));
        lemma_boundary_inside(encode_utf8(text@), cursor as int);
    }
    let len: usize = text.as_bytes().len();
    output.append(slice(text, cursor, len));
    output
}

fn render_ansi(text: &str, ranges: &Vec<HighlightRange>) -> (output: String)
    requires
        marks_fit(marks_of(ranges@), text@),
    ensures
        exists|codes: Seq<Seq<char>>| #[trigger]
            codes_of(marks_of(ranges@), codes) && output@ == ansi_from(
                text@,
                marks_of(ranges@),
                codes,
                0,
                0,
            ),
{
    let ghost marks = marks_of(ranges@);
    let mut codes: Vec<&'static str> = Vec::new();
    let mut i: usize = 0;
    while i < ranges.len()
        invariant
            i <= ranges.len(),
            marks == marks_of(ranges@),
            codes.len() == i,
            forall|j: int|
                0 <= j < i ==> color_of(
                    marks[j].parts,
                    marks[j].has_span,
                    (#[trigger] codes[j])@,
                ),
        decreases ranges.len() - i,
    {
        assert(marks[i as int] == ranges[i as int]@);
        codes.push(render_ansi_begin(&ranges[i].query_parts, ranges[i].has_span));
        i = i + 1;
    }
    let ghost colors = Seq::new(codes.len() as nat, |j: int| codes[j]@);
    proof {
        assert(codes_of(marks, colors)) by {
            assert forall|j: int| 0 <= j < marks.len() implies color_of(
                marks[j].parts,
                marks[j].has_span,
                #[trigger] colors[j],
            ) by {
                assert(colors[j] == codes[j]@);
            }
        }
    }
    let ghost whole = ansi_from(text@, marks, colors, 0, 0);
    let mut output = String::new();
    let mut cursor: usize = 0;
    let mut i: usize = 0;
    proof {
        encode_utf8_valid_utf8(text@);
        assert(output@ + whole =~= whole);
    }
    while i < ranges.len()
        invariant
            i <= ranges.len() == codes.len(),
            marks == marks_of(ranges@),
            marks_fit(marks, text@),
            colors == Seq::new(codes.len() as nat, |j: int| codes[j]@),
            whole == ansi_from(text@, marks, colors, 0, 0),
            output@ + ansi_from(text@, marks, colors, cursor as int, i as int) == whole,
            is_char_boundary(encode_utf8(text@), cursor as int),
            i < ranges.len() ==> cursor <= marks[i as int].start,
        decreases ranges.len() - i,
    {
        let range = &ranges[i];
        let ghost before = output@;
        proof {
            assert(marks[i as int] == range@);
            if i + 1 < marks.len() {
                assert(marks[i as int].end < marks[i + 1].start);
            }
        }
        output.append(slice(text, cursor, range.bytes.start));
        push_ansi_highlighted_text(
            &mut output,
            codes[i],
            slice(text, range.bytes.start, range.bytes.end),
        );
        proof {
            let rest = ansi_from(text@, marks, colors, range.bytes.end as int, i + 1);
            let gap = slice_of(text@, cursor as int, range.bytes.start as int);
            let marked = ansi_lines(
                colors[i as int],
                Seq::empty(),
                slice_of(text@, range.bytes.start as int, range.bytes.end as int),
            );
            assert(before + (gap + marked + rest) =~= output@ + rest);
        }
        cursor = range.bytes.end;
        i = i + 1;
    }
    proof {
        encode_utf8_valid_utf8(text@);
        vstd::utf8::is_char_boundary_start_end_of_seq(encode_utf8(text@));
        lemma_boundary_inside(encode_utf8(text@), cursor as int);
    }
    let len: usize = text.as_bytes().len();
    output.append(slice(text, cursor, len));
    output
}

/// What comes of marking the positions in a text: an error, or `output`.
pub open spec fn highlighted(
    style: HighlightStyle<'_>,
    text: Seq<char>,
    tokens: Seq<TokenSpan>,
    positions: Seq<MatchPosition>,
    output: Result<String, HighlightError>,
) -> bool {
    if text.len() == 0 || positions.len() == 0 {
        output is Ok && output->Ok_0@ == text
    } else if !all_source(tokens) {
        output == Err::<String, HighlightError>(HighlightError::TransformedTokenText)
    } else {
        match first_invalid(positions, tokens.len(), 0) {
            Some(position) => output == Err::<String, HighlightError>(
                HighlightError::InvalidPositionRange {
                    start: position.start,
                    end: position.end,
                    token_count: tokens.len() as usize,
                },
            ),
            None => output is Ok && marked_in(
                style,
                text,
                merged_marks(position_marks(tokens, positions)),
                output->Ok_0@,
            ),
        }
    }
}

/// Marks the positions in a text, whose tokens are `tokens`.
pub fn highlight_text_with_tokenizer(
    tokens: &Vec<TokenSpan>,
    text: &str,
    style: HighlightStyle<'_>,
    positions: &Vec<MatchPosition>,
) -> (output: Result<String, HighlightError>)
    requires
        tokens_in(tokens@, text@),
    ensures
        highlighted(style, text@, tokens@, positions@, output),
{
    if text.is_empty() || positions.len() == 0 {
        return Ok(String::from_str(text));
    }
    let ranges = match byte_ranges_for_positions(tokens, positions) {
        Ok(ranges) => ranges,
        Err(error) => {
            return Err(error);
        },
    };
    proof {
        lemma_merged_boundaries(tokens@, positions@, text@);
    }
    let merged = merge_overlapping_ranges(ranges);
    match style {
        HighlightStyle::Html { begin_tag, end_tag } => Ok(
            render_html(text, &merged, begin_tag, end_tag),
        ),
        HighlightStyle::Ansi => Ok(render_ansi(text, &merged)),
    }
}

/// Marks the positions in a text with tags.
pub fn highlight_text(
    tokens: &Vec<TokenSpan>,
    text: &str,
    begin_tag: &str,
    end_tag: &str,
    positions: &Vec<MatchPosition>,
) -> (output: Result<String, HighlightError>)
    requires
        tokens_in(tokens@, text@),
    ensures
        highlighted(
            HighlightStyle::Html { begin_tag, end_tag },
            text@,
            tokens@,
            positions@,
            output,
        ),
{
    highlight_text_with_tokenizer(
        tokens,
        text,
        HighlightStyle::Html { begin_tag, end_tag },
        positions,
    )
}

/// Marks the positions in a text with terminal colors.
pub fn highlight_text_ansi(tokens: &Vec<TokenSpan>, text: &str, positions: &Vec<MatchPosition>) -> (
output: Result<String, HighlightError>)
    requires
        tokens_in(tokens@, text@),
    ensures
        highlighted(HighlightStyle::Ansi, text@, tokens@, positions@, output),
{
    highlight_text_with_tokenizer(tokens, text, HighlightStyle::Ansi, positions)
}

/// Marking changes nothing else: without the tags, what comes out is the text.
pub proof fn law_highlighting_keeps_text(
    text: Seq<char>,
    tokens: Seq<TokenSpan>,
    positions: Seq<MatchPosition>,
)
    requires
        tokens_in(tokens, text),
        all_source(tokens),
        first_invalid(positions, tokens.len(), 0) is None,
    ensures
        html_from(
            text,
            merged_marks(position_marks(tokens, positions)),
            Seq::empty(),
            Seq::empty(),
            0,
            0,
        ) == text,
{
    let marks = merged_marks(position_marks(tokens, positions));
    lemma_merged_boundaries(tokens, positions, text);
    encode_utf8_valid_utf8(text);
    if marks.len() > 0 {
        lemma_boundary_inside(encode_utf8(text), marks[0].start);
    }
    lemma_untagged(text, marks, 0, 0);
    let bytes = encode_utf8(text);
    assert(bytes.subrange(0, bytes.len() as int) =~= bytes);
    vstd::utf8::encode_utf8_decode_utf8(text);
}

proof fn lemma_untagged(text: Seq<char>, marks: Seq<Mark>, cursor: int, i: int)
    requires
        marks_fit(marks, text),
        0 <= i <= marks.len(),
        is_char_boundary(encode_utf8(text), cursor),
        i < marks.len() ==> cursor <= marks[i].start,
    ensures
        html_from(text, marks, Seq::empty(), Seq::empty(), cursor, i) == slice_of(
            text,
            cursor,
            encode_utf8(text).len() as int,
        ),
    decreases marks.len() - i,
{
    let bytes = encode_utf8(text);
    let len = bytes.len() as int;
    encode_utf8_valid_utf8(text);
    vstd::utf8::is_char_boundary_start_end_of_seq(bytes);
    lemma_boundary_inside(bytes, cursor);
    if i < marks.len() {
        let mark = marks[i];
        if i + 1 < marks.len() {
            assert(marks[i].end < marks[i + 1].start);
        }
        lemma_boundary_inside(bytes, mark.start);
        lemma_boundary_inside(bytes, mark.end);
        lemma_untagged(text, marks, mark.end, i + 1);
        assert(begin_tag_of(Seq::empty(), mark.parts) =~= Seq::empty());
        lemma_slices_meet(text, cursor, mark.start, mark.end);
        lemma_slices_meet(text, cursor, mark.end, len);
        let gap = slice_of(text, cursor, mark.start);
        let marked = slice_of(text, mark.start, mark.end);
        assert(html_marked(text, mark, Seq::empty(), Seq::empty()) =~= marked);
    }
}

impl HighlightError {
    /// What the user is told.
    pub fn message(self) -> (message: String)
        ensures
            message@ == error_text(self),
    {
        match self {
            HighlightError::InvalidPositionRange { start, end, token_count } => {
                let mut message = String::from_str("highlight position range ");
                push_signed(&mut message, start);
                message.append("..=");
                push_signed(&mut message, end);
                message.append(" is invalid for a token stream of length ");
                let count = decimal_text(token_count as u64);
                message.append(count.as_str());
                message
            },
            HighlightError::TransformedTokenText => String::from_str(
                "highlight cannot recover byte offsets when tokenization transforms token text",
            ),
        }
    }
}

/// A number in decimal, with its sign if it is negative.
pub open spec fn signed_decimal(n: int) -> Seq<char> {
    if n < 0 {
        seq!['-'] + decimal((-n) as nat)
    } else {
        decimal(n as nat)
    }
}

fn push_signed(text: &mut String, n: i32)
    ensures
        final(text)@ == old(text)@ + signed_decimal(n as int),
{
    let ghost before = text@;
    if n < 0 {
        text.push('-');
        let size = decimal_text((-(n as i64)) as u64);
        text.append(size.as_str());
        proof {
            assert(text@ =~= before + signed_decimal(n as int));
        }
    } else {
        let size = decimal_text(n as u64);
        text.append(size.as_str());
    }
}

/// What the user is told of an error.
pub open spec fn error_text(error: HighlightError) -> Seq<char> {
    match error {
        HighlightError::InvalidPositionRange { start, end, token_count } =>
        "highlight position range "@ + signed_decimal(start as int) + "..="@ + signed_decimal(
            end as int,
        ) + " is invalid for a token stream of length "@ + decimal(token_count as nat),
        HighlightError::TransformedTokenText =>
        "highlight cannot recover byte offsets when tokenization transforms token text"@,
    }
}

} // verus!
