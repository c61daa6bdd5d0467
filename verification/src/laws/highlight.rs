//! What marking makes of a text.

use crate::chars::white;
use crate::highlight::{
    ansi_from, ansi_lines, begin_tag_of, color_code, color_name, color_of, escaped_char,
    highlighted, html_escaped, html_from, named_from, palette, replaced, slice_of, stands_at,
    texts_hash, trim_white, HighlightStyle,
};
use crate::laws::marks::law_the_first_wrong_position_is_refused;
use crate::marks::{mark_of, HighlightError, Mark, TokenSpan};
use crate::match_positions::MatchPosition;
use vstd::prelude::*;
use vstd::utf8::encode_utf8;

verus! {

/// A position marks from the start of its first token to the end of its last
/// one, names its query part and no other, and is a span if it is of more than
/// one token.
pub proof fn law_a_position_marks_its_tokens(tokens: Seq<TokenSpan>, position: MatchPosition)
    requires
        0 <= position.start <= position.end < tokens.len(),
    ensures
        ({
            let mark = mark_of(tokens, position);
            &&& tokens[position.start as int] matches TokenSpan::Source(first) ==> mark.start
                == first.start
            &&& tokens[position.end as int] matches TokenSpan::Source(last) ==> mark.end == last.end
            &&& mark.parts.len() == 1 && mark.parts[0] == position.part@
            &&& mark.has_span <==> position.start < position.end
        }),
{
}

/// Where the text before the `m`-th stretch starts.
pub open spec fn gap_start(marks: Seq<Mark>, m: int) -> int {
    if m <= 0 {
        0
    } else {
        marks[m - 1].end
    }
}

/// Where the text before the `m`-th stretch ends.
pub open spec fn gap_end(text: Seq<char>, marks: Seq<Mark>, m: int) -> int {
    if m >= marks.len() {
        encode_utf8(text).len() as int
    } else {
        marks[m].start
    }
}

/// What is put out, piece by piece: the text between stretches as it is, and each
/// stretch with what is put before it and behind it.
pub open spec fn pieces(
    text: Seq<char>,
    marks: Seq<Mark>,
    marked: spec_fn(int) -> Seq<char>,
) -> Seq<Seq<char>> {
    Seq::new(
        2 * marks.len() + 1,
        |x: int|
            if x % 2 == 0 {
                slice_of(text, gap_start(marks, x / 2), gap_end(text, marks, x / 2))
            } else {
                marked(x / 2)
            },
    )
}

proof fn lemma_html_pieces(
    text: Seq<char>,
    marks: Seq<Mark>,
    begin_tag: Seq<char>,
    end_tag: Seq<char>,
    marked: spec_fn(int) -> Seq<char>,
    i: int,
)
    requires
        0 <= i <= marks.len(),
        forall|m: int|
            0 <= m < marks.len() ==> #[trigger] marked(m) == begin_tag_of(
                begin_tag,
                marks[m].parts,
            ) + slice_of(text, marks[m].start, marks[m].end) + end_tag,
    ensures
        html_from(text, marks, begin_tag, end_tag, gap_start(marks, i), i) == pieces(
            text,
            marks,
            marked,
        ).skip(2 * i).flatten(),
    decreases marks.len() - i,
{
    let all = pieces(text, marks, marked);
    let rest = all.skip(2 * i);
    assert(rest[0] == all[2 * i]);
    assert(rest.flatten() == rest.first() + rest.drop_first().flatten());
    if i < marks.len() {
        lemma_html_pieces(text, marks, begin_tag, end_tag, marked, i + 1);
        let after = rest.drop_first();
        assert(after[0] == all[2 * i + 1]);
        assert((2 * i + 1) / 2 == i && (2 * i + 1) % 2 == 1);
        assert(after.flatten() == after.first() + after.drop_first().flatten());
        assert(after.drop_first() =~= all.skip(2 * (i + 1)));
        assert(all[2 * i + 1] == marked(i));
        assert(html_from(text, marks, begin_tag, end_tag, gap_start(marks, i), i)
            =~= rest.flatten());
    } else {
        assert(rest.drop_first() =~= Seq::empty());
        assert(rest.drop_first().flatten() =~= Seq::empty());
        assert(html_from(text, marks, begin_tag, end_tag, gap_start(marks, i), i)
            =~= rest.flatten());
    }
}

/// Each stretch comes out between its begin tag and the end tag, and the text
/// before, between and behind the stretches comes out as it is.
pub proof fn law_tags_stand_round_the_stretches(
    text: Seq<char>,
    marks: Seq<Mark>,
    begin_tag: Seq<char>,
    end_tag: Seq<char>,
)
    ensures
        html_from(text, marks, begin_tag, end_tag, 0, 0) == pieces(
            text,
            marks,
            |m: int|
                begin_tag_of(begin_tag, marks[m].parts) + slice_of(
                    text,
                    marks[m].start,
                    marks[m].end,
                ) + end_tag,
        ).flatten(),
{
    let marked = |m: int|
        begin_tag_of(begin_tag, marks[m].parts) + slice_of(text, marks[m].start, marks[m].end)
            + end_tag;
    lemma_html_pieces(text, marks, begin_tag, end_tag, marked, 0);
    assert(pieces(text, marks, marked).skip(0) =~= pieces(text, marks, marked));
}

proof fn lemma_ansi_pieces(
    text: Seq<char>,
    marks: Seq<Mark>,
    codes: Seq<Seq<char>>,
    marked: spec_fn(int) -> Seq<char>,
    i: int,
)
    requires
        0 <= i <= marks.len(),
        forall|m: int|
            0 <= m < marks.len() ==> #[trigger] marked(m) == ansi_lines(
                codes[m],
                Seq::empty(),
                slice_of(text, marks[m].start, marks[m].end),
            ),
    ensures
        ansi_from(text, marks, codes, gap_start(marks, i), i) == pieces(text, marks, marked).skip(
            2 * i,
        ).flatten(),
    decreases marks.len() - i,
{
    let all = pieces(text, marks, marked);
    let rest = all.skip(2 * i);
    assert(rest[0] == all[2 * i]);
    assert(rest.flatten() == rest.first() + rest.drop_first().flatten());
    if i < marks.len() {
        lemma_ansi_pieces(text, marks, codes, marked, i + 1);
        let after = rest.drop_first();
        assert(after[0] == all[2 * i + 1]);
        assert((2 * i + 1) / 2 == i && (2 * i + 1) % 2 == 1);
        assert(after.flatten() == after.first() + after.drop_first().flatten());
        assert(after.drop_first() =~= all.skip(2 * (i + 1)));
        assert(all[2 * i + 1] == marked(i));
        assert(ansi_from(text, marks, codes, gap_start(marks, i), i) =~= rest.flatten());
    } else {
        assert(rest.drop_first() =~= Seq::empty());
        assert(rest.drop_first().flatten() =~= Seq::empty());
        assert(ansi_from(text, marks, codes, gap_start(marks, i), i) =~= rest.flatten());
    }
}

/// Each stretch comes out in its color, and the text before, between and behind
/// the stretches comes out as it is.
pub proof fn law_colors_are_of_the_stretches(
    text: Seq<char>,
    marks: Seq<Mark>,
    codes: Seq<Seq<char>>,
)
    ensures
        ansi_from(text, marks, codes, 0, 0) == pieces(
            text,
            marks,
            |m: int|
                ansi_lines(
                    codes[m],
                    Seq::empty(),
                    slice_of(text, marks[m].start, marks[m].end),
                ),
        ).flatten(),
{
    let marked = |m: int|
        ansi_lines(codes[m], Seq::empty(), slice_of(text, marks[m].start, marks[m].end));
    lemma_ansi_pieces(text, marks, codes, marked, 0);
    assert(pieces(text, marks, marked).skip(0) =~= pieces(text, marks, marked));
}

/// No character of the text ends a line.
pub open spec fn one_line(text: Seq<char>) -> bool {
    forall|i: int| 0 <= i < text.len() ==> (#[trigger] text[i]) != '\n' && text[i] != '\r'
}

proof fn lemma_line(begin: Seq<char>, line: Seq<char>, text: Seq<char>, rest: Seq<char>)
    requires
        one_line(text),
    ensures
        ansi_lines(begin, line, text + rest) == ansi_lines(begin, line + text, rest),
    decreases text.len(),
{
    if text.len() == 0 {
        assert(text + rest =~= rest);
        assert(line + text =~= line);
    } else {
        let c = text[0];
        assert((text + rest)[0] == c);
        assert((text + rest).drop_first() =~= text.drop_first() + rest);
        assert forall|i: int| 0 <= i < text.drop_first().len() implies (
        #[trigger] text.drop_first()[i]) != '\n' && text.drop_first()[i] != '\r' by {
            assert(text.drop_first()[i] == text[i + 1]);
        }
        lemma_line(begin, line.push(c), text.drop_first(), rest);
        assert(line.push(c) + text.drop_first() =~= line + text);
    }
}

/// A line is colored from its start to its end and the color is then reset; a
/// line without characters is not. The end of a line is not colored, and the
/// next line is colored anew.
pub proof fn law_lines_are_colored_one_by_one(
    begin: Seq<char>,
    line: Seq<char>,
    end: char,
    rest: Seq<char>,
)
    requires
        one_line(line),
        end == '\n' || end == '\r',
    ensures
        ansi_lines(begin, Seq::empty(), line) == (if line.len() == 0 {
            Seq::empty()
        } else {
            begin + line + "\u{1b}[0m"@
        }),
        ansi_lines(begin, Seq::empty(), line.push(end) + rest) == ansi_lines(
            begin,
            Seq::empty(),
            line,
        ).push(end) + ansi_lines(begin, Seq::empty(), rest),
{
    let empty = Seq::<char>::empty();
    lemma_line(begin, empty, line, empty);
    assert(line + empty =~= line);
    assert(empty + line =~= line);
    let tail = seq![end] + rest;
    assert(line.push(end) + rest =~= line + tail);
    lemma_line(begin, empty, line, tail);
    assert(tail[0] == end);
    assert(tail.drop_first() =~= rest);
    assert(ansi_lines(begin, empty, line + tail) =~= ansi_lines(begin, empty, line).push(end)
        + ansi_lines(begin, empty, rest));
}

/// The character that an entity stands for in HTML.
pub open spec fn meaning(entity: Seq<char>) -> Option<char> {
    if entity == seq!['&', 'l', 't', ';'] {
        Some('<')
    } else if entity == seq!['&', 'g', 't', ';'] {
        Some('>')
    } else if entity == seq!['&', 'a', 'm', 'p', ';'] {
        Some('&')
    } else if entity == seq!['&', 'q', 'u', 'o', 't', ';'] {
        Some('"')
    } else if entity == seq!['&', '#', '3', '9', ';'] {
        Some('\'')
    } else {
        None
    }
}

/// The character would be taken for markup.
pub open spec fn is_markup(c: char) -> bool {
    c == '<' || c == '>' || c == '&' || c == '"' || c == '\''
}

/// A character is put out as what stands for it in HTML: itself, unless it would
/// be taken for markup.
pub proof fn law_characters_are_escaped(c: char)
    ensures
        if is_markup(c) {
            meaning(escaped_char(c)) == Some(c)
        } else {
            escaped_char(c) == seq![c]
        },
        escaped_char(c).len() > 0,
        is_markup(c) <==> escaped_char(c)[0] == '&',
        is_markup(c) ==> escaped_char(c).len() > 1,
{
    reveal_strlit("&amp;");
    reveal_strlit("&lt;");
    reveal_strlit("&gt;");
    reveal_strlit("&quot;");
    reveal_strlit("&#39;");
    assert("&amp;"@ =~= seq!['&', 'a', 'm', 'p', ';']);
    assert("&lt;"@ =~= seq!['&', 'l', 't', ';']);
    assert("&gt;"@ =~= seq!['&', 'g', 't', ';']);
    assert("&quot;"@ =~= seq!['&', 'q', 'u', 'o', 't', ';']);
    assert("&#39;"@ =~= seq!['&', '#', '3', '9', ';']);
    let a = seq!['&', 'a', 'm', 'p', ';'];
    let l = seq!['&', 'l', 't', ';'];
    let g = seq!['&', 'g', 't', ';'];
    let q = seq!['&', 'q', 'u', 'o', 't', ';'];
    let h = seq!['&', '#', '3', '9', ';'];
    assert(a[1] == 'a' && l[1] == 'l' && g[1] == 'g' && q[1] == 'q' && h[1] == '#');
}

/// Texts are escaped one after the other.
pub proof fn law_texts_are_escaped_in_order(a: Seq<char>, b: Seq<char>)
    ensures
        html_escaped(a + b) == html_escaped(a) + html_escaped(b),
        a.len() == 1 ==> html_escaped(a) == escaped_char(a[0]),
    decreases b.len(),
{
    if b.len() == 0 {
        assert(a + b =~= a);
        assert(html_escaped(a) + html_escaped(b) =~= html_escaped(a));
    } else {
        law_texts_are_escaped_in_order(a, b.drop_last());
        assert((a + b).drop_last() =~= a + b.drop_last());
        assert((a + b).last() == b.last());
        assert(html_escaped(a + b) =~= html_escaped(a) + html_escaped(b));
    }
    if a.len() == 1 {
        assert(html_escaped(a.drop_last()) =~= Seq::empty());
        assert(html_escaped(a) =~= escaped_char(a[0]));
    }
}

/// What is escaped holds no markup but entities.
pub proof fn law_escaped_texts_hold_no_tags(text: Seq<char>)
    ensures
        forall|i: int|
            0 <= i < html_escaped(text).len() ==> (#[trigger] html_escaped(text)[i]) != '<'
                && html_escaped(text)[i] != '>' && html_escaped(text)[i] != '"'
                && html_escaped(text)[i] != '\'',
        (forall|i: int| 0 <= i < text.len() ==> !is_markup(#[trigger] text[i])) ==> html_escaped(
            text,
        ) == text,
    decreases text.len(),
{
    if text.len() > 0 {
        let rest = text.drop_last();
        let c = text.last();
        law_escaped_texts_hold_no_tags(rest);
        law_characters_are_escaped(c);
        reveal_strlit("&amp;");
        reveal_strlit("&lt;");
        reveal_strlit("&gt;");
        reveal_strlit("&quot;");
        reveal_strlit("&#39;");
        assert forall|i: int| 0 <= i < html_escaped(text).len() implies (
        #[trigger] html_escaped(text)[i]) != '<' && html_escaped(text)[i] != '>'
            && html_escaped(text)[i] != '"' && html_escaped(text)[i] != '\'' by {
            let n = html_escaped(rest).len();
            if i < n {
                assert(html_escaped(text)[i] == html_escaped(rest)[i]);
            } else {
                assert(html_escaped(text)[i] == escaped_char(c)[i - n]);
            }
        }
        if forall|i: int| 0 <= i < text.len() ==> !is_markup(#[trigger] text[i]) {
            assert forall|i: int| 0 <= i < rest.len() implies !is_markup(#[trigger] rest[i]) by {
                assert(rest[i] == text[i]);
            }
            assert(!is_markup(text[text.len() - 1]));
            assert(html_escaped(text) =~= text);
        }
    } else {
        assert(html_escaped(text) =~= text);
    }
}

/// Two texts that are escaped alike are the same: nothing is lost.
pub proof fn law_escaping_loses_nothing(a: Seq<char>, b: Seq<char>)
    requires
        html_escaped(a) == html_escaped(b),
    ensures
        a == b,
    decreases a.len(),
{
    if a.len() > 0 && b.len() > 0 {
        let (x, y) = (a[0], b[0]);
        let (left, right) = (a.drop_first(), b.drop_first());
        assert(a =~= seq![x] + left);
        assert(b =~= seq![y] + right);
        law_texts_are_escaped_in_order(seq![x], left);
        law_texts_are_escaped_in_order(seq![y], right);
        law_characters_are_escaped(x);
        law_characters_are_escaped(y);
        let whole = html_escaped(a);
        assert(whole[0] == escaped_char(x)[0] && whole[0] == escaped_char(y)[0]);
        reveal_strlit("&amp;");
        reveal_strlit("&lt;");
        reveal_strlit("&gt;");
        reveal_strlit("&quot;");
        reveal_strlit("&#39;");
        if is_markup(x) {
            assert(whole[1] == escaped_char(x)[1] && whole[1] == escaped_char(y)[1]);
        }
        assert(x == y);
        let n = escaped_char(x).len() as int;
        assert(html_escaped(left) =~= whole.skip(n));
        assert(html_escaped(right) =~= whole.skip(n));
        law_escaping_loses_nothing(left, right);
    } else if a.len() > 0 {
        law_texts_are_escaped_in_order(seq![a[0]], a.drop_first());
        assert(a =~= seq![a[0]] + a.drop_first());
        law_characters_are_escaped(a[0]);
        assert(html_escaped(b).len() == 0);
    } else if b.len() > 0 {
        law_texts_are_escaped_in_order(seq![b[0]], b.drop_first());
        assert(b =~= seq![b[0]] + b.drop_first());
        law_characters_are_escaped(b[0]);
        assert(html_escaped(a).len() == 0);
    } else {
        assert(a =~= b);
    }
}

/// The pattern stands at this place of the text.
pub open spec fn is_at(text: Seq<char>, pattern: Seq<char>, at: int) -> bool {
    0 <= at && at + pattern.len() <= text.len() && text.subrange(at, at + pattern.len() as int)
        == pattern
}

/// The pattern stands nowhere in the text.
pub open spec fn free_of(text: Seq<char>, pattern: Seq<char>) -> bool {
    forall|at: int| !(#[trigger] is_at(text, pattern, at))
}

/// The pattern, put behind the text, stands there for the first time.
pub open spec fn first_behind(text: Seq<char>, pattern: Seq<char>) -> bool {
    forall|at: int| 0 <= at < text.len() ==> !(#[trigger] is_at(text + pattern, pattern, at))
}

proof fn lemma_replaced_later(
    text: Seq<char>,
    pattern: Seq<char>,
    replacement: Seq<char>,
    at: int,
)
    requires
        pattern.len() > 0,
        0 <= at <= text.len(),
    ensures
        replaced(text, pattern, replacement, at) == replaced(text.skip(at), pattern, replacement, 0),
    decreases text.len() - at,
{
    let rest = text.skip(at);
    if at < text.len() {
        let n = pattern.len() as int;
        if stands_at(text, pattern, at) {
            assert(rest.subrange(0, n) =~= text.subrange(at, at + n));
            assert(stands_at(rest, pattern, 0));
            lemma_replaced_later(text, pattern, replacement, at + n);
            lemma_replaced_later(rest, pattern, replacement, n);
            assert(rest.skip(n) =~= text.skip(at + n));
        } else {
            if stands_at(rest, pattern, 0) {
                assert(rest.subrange(0, n) =~= text.subrange(at, at + n));
            }
            lemma_replaced_later(text, pattern, replacement, at + 1);
            lemma_replaced_later(rest, pattern, replacement, 1);
            assert(rest.skip(1) =~= text.skip(at + 1));
        }
    }
}

proof fn lemma_nothing_replaced(text: Seq<char>, pattern: Seq<char>, replacement: Seq<char>, at: int)
    requires
        pattern.len() > 0,
        free_of(text, pattern),
        0 <= at <= text.len(),
    ensures
        replaced(text, pattern, replacement, at) == text.skip(at),
    decreases text.len() - at,
{
    if at < text.len() {
        assert(!is_at(text, pattern, at));
        lemma_nothing_replaced(text, pattern, replacement, at + 1);
        assert(seq![text[at]] + text.skip(at + 1) =~= text.skip(at));
    } else {
        assert(text.skip(at) =~= Seq::empty());
    }
}

proof fn lemma_first_replaced(
    before: Seq<char>,
    pattern: Seq<char>,
    rest: Seq<char>,
    replacement: Seq<char>,
    at: int,
)
    requires
        pattern.len() > 0,
        first_behind(before, pattern),
        0 <= at <= before.len(),
    ensures
        replaced(before + pattern + rest, pattern, replacement, at) == before.skip(at) + replacement
            + replaced(rest, pattern, replacement, 0),
    decreases before.len() - at,
{
    let n = pattern.len() as int;
    let whole = before + pattern + rest;
    let after = replaced(rest, pattern, replacement, 0);
    if at < before.len() {
        assert(!is_at(before + pattern, pattern, at));
        assert(whole.subrange(at, at + n) =~= (before + pattern).subrange(at, at + n));
        assert(!stands_at(whole, pattern, at));
        lemma_first_replaced(before, pattern, rest, replacement, at + 1);
        assert(whole[at] == before[at]);
        assert(seq![whole[at]] + (before.skip(at + 1) + replacement + after) =~= before.skip(at)
            + replacement + after);
    } else {
        assert(whole.subrange(at, at + n) =~= pattern);
        assert(stands_at(whole, pattern, at));
        lemma_replaced_later(whole, pattern, replacement, at + n);
        assert(whole.skip(at + n) =~= rest);
        assert(replacement + after =~= before.skip(at) + replacement + after);
    }
}

/// A text without the pattern stays as it is. In another the first place of the
/// pattern gets the replacement, what stands before it stays, and what stands
/// behind it is gone through in the same way.
pub proof fn law_the_pattern_is_replaced(
    before: Seq<char>,
    pattern: Seq<char>,
    rest: Seq<char>,
    replacement: Seq<char>,
)
    requires
        pattern.len() > 0,
    ensures
        free_of(before, pattern) ==> replaced(before, pattern, replacement, 0) == before,
        first_behind(before, pattern) ==> replaced(
            before + pattern + rest,
            pattern,
            replacement,
            0,
        ) == before + replacement + replaced(rest, pattern, replacement, 0),
{
    assert(before.skip(0) =~= before);
    if free_of(before, pattern) {
        lemma_nothing_replaced(before, pattern, replacement, 0);
    }
    if first_behind(before, pattern) {
        lemma_first_replaced(before, pattern, rest, replacement, 0);
    }
}

/// A begin tag that asks for nothing comes out as it is.
pub proof fn law_plain_tags_stay(template: Seq<char>, parts: Seq<Seq<char>>)
    requires
        forall|i: int| 0 <= i < template.len() ==> (#[trigger] template[i]) != '$',
    ensures
        begin_tag_of(template, parts) == template,
{
    reveal_strlit("$QUERY_PART");
    reveal_strlit("$QUERY_LABEL");
    let part = "$QUERY_PART"@;
    let label = "$QUERY_LABEL"@;
    assert forall|at: int| !(#[trigger] is_at(template, part, at)) by {
        if is_at(template, part, at) {
            assert(template.subrange(at, at + part.len() as int)[0] == template[at]);
            assert(part[0] == '$');
        }
    }
    assert forall|at: int| !(#[trigger] is_at(template, label, at)) by {
        if is_at(template, label, at) {
            assert(template.subrange(at, at + label.len() as int)[0] == template[at]);
            assert(label[0] == '$');
        }
    }
    assert(free_of(template, part));
    assert(free_of(template, label));
    let shown = html_escaped(crate::highlight::joined(parts, "; "@, parts.len() as int));
    let names = crate::text::sorted_set(crate::highlight::labels(parts));
    law_the_pattern_is_replaced(template, part, Seq::empty(), shown);
    law_the_pattern_is_replaced(
        template,
        label,
        Seq::empty(),
        crate::highlight::joined(names, " "@, names.len() as int),
    );
}

/// The color that a name has on a terminal, where it has one. Gray is bright
/// black.
pub open spec fn color_number(name: Seq<char>) -> Option<char> {
    if name == "black"@ || name == "gray"@ || name == "grey"@ {
        Some('0')
    } else if name == "red"@ {
        Some('1')
    } else if name == "green"@ {
        Some('2')
    } else if name == "yellow"@ {
        Some('3')
    } else if name == "blue"@ {
        Some('4')
    } else if name == "magenta"@ || name == "purple"@ {
        Some('5')
    } else if name == "cyan"@ {
        Some('6')
    } else if name == "white"@ {
        Some('7')
    } else {
        None
    }
}

/// The code ends in the number of its color, which is written behind `kind`.
pub open spec fn ends_in(code: Seq<char>, kind: Seq<char>, number: char) -> bool {
    code.len() >= kind.len() + 2 && code.last() == 'm' && code[code.len() - 2] == number
        && code.subrange(code.len() - 2 - kind.len() as int, code.len() - 2) == kind
}

proof fn lemma_strings()
    ensures
        "black"@[0] == 'b' && "black"@[1] == 'l' && "black"@[2] == 'a',
        "red"@[0] == 'r',
        "green"@[0] == 'g' && "green"@[2] == 'e' && "green"@.len() == 5,
        "yellow"@[0] == 'y',
        "blue"@[0] == 'b' && "blue"@[1] == 'l' && "blue"@[2] == 'u',
        "magenta"@[0] == 'm',
        "purple"@[0] == 'p',
        "cyan"@[0] == 'c',
        "white"@[0] == 'w',
        "gray"@[0] == 'g' && "gray"@.len() == 4 && "gray"@[2] == 'a',
        "grey"@[0] == 'g' && "grey"@.len() == 4 && "grey"@[2] == 'e',
{
    reveal_strlit("black");
    reveal_strlit("red");
    reveal_strlit("green");
    reveal_strlit("yellow");
    reveal_strlit("blue");
    reveal_strlit("magenta");
    reveal_strlit("purple");
    reveal_strlit("cyan");
    reveal_strlit("white");
    reveal_strlit("gray");
    reveal_strlit("grey");
}

/// Just the names of colors give one. A term is written in the color, a span on
/// it, and gray is the bright kind.
pub proof fn law_colors_are_named(name: Seq<char>)
    ensures
        color_code(name, false) is Some <==> color_number(name) is Some,
        color_code(name, true) is Some <==> color_number(name) is Some,
        color_number(name) matches Some(number) ==> {
            let bright = name == "gray"@ || name == "grey"@;
            &&& ends_in(
                color_code(name, false)->0,
                if bright {
                    seq!['9']
                } else {
                    seq!['3']
                },
                number,
            )
            &&& ends_in(
                color_code(name, true)->0,
                if bright {
                    seq!['1', '0']
                } else {
                    seq!['4']
                },
                number,
            )
        },
{
    lemma_strings();
    reveal_strlit("\u{1b}[97;40m");
    reveal_strlit("\u{1b}[1;30m");
    reveal_strlit("\u{1b}[97;41m");
    reveal_strlit("\u{1b}[1;31m");
    reveal_strlit("\u{1b}[97;42m");
    reveal_strlit("\u{1b}[1;32m");
    reveal_strlit("\u{1b}[30;43m");
    reveal_strlit("\u{1b}[1;33m");
    reveal_strlit("\u{1b}[97;44m");
    reveal_strlit("\u{1b}[1;34m");
    reveal_strlit("\u{1b}[97;45m");
    reveal_strlit("\u{1b}[1;35m");
    reveal_strlit("\u{1b}[30;46m");
    reveal_strlit("\u{1b}[1;36m");
    reveal_strlit("\u{1b}[30;47m");
    reveal_strlit("\u{1b}[1;37m");
    reveal_strlit("\u{1b}[97;100m");
    reveal_strlit("\u{1b}[1;90m");
    if let Some(number) = color_number(name) {
        let bright = name == "gray"@ || name == "grey"@;
        let term = color_code(name, false)->0;
        let span = color_code(name, true)->0;
        let n = term.len() as int;
        let m = span.len() as int;
        if bright {
            assert(term.subrange(n - 3, n - 2) =~= seq!['9']);
            assert(span.subrange(m - 4, m - 2) =~= seq!['1', '0']);
        } else {
            assert(term.subrange(n - 3, n - 2) =~= seq!['3']);
            assert(span.subrange(m - 3, m - 2) =~= seq!['4']);
        }
    }
}

/// The colors for parts that name none: eight of them, picked in turn.
pub proof fn law_the_palette_has_eight_colors(a: u64, b: u64, has_span: bool)
    ensures
        palette(a, has_span) == palette(b, has_span) <==> a % 8 == b % 8,
        palette(a, has_span).len() >= 7 && palette(a, has_span).last() == 'm',
        a % 8 < 6 ==> ends_in(
            palette(a, has_span),
            if has_span {
                seq!['4']
            } else {
                seq!['3']
            },
            (('1' as u32) + (a % 8) as u32) as char,
        ),
        a % 8 >= 6 ==> ends_in(
            palette(a, has_span),
            if has_span {
                seq!['1', '0']
            } else {
                seq!['9']
            },
            if a % 8 == 6 {
                '1'
            } else {
                '4'
            },
        ),
{
    reveal_strlit("\u{1b}[97;41m");
    reveal_strlit("\u{1b}[1;31m");
    reveal_strlit("\u{1b}[97;42m");
    reveal_strlit("\u{1b}[1;32m");
    reveal_strlit("\u{1b}[30;43m");
    reveal_strlit("\u{1b}[1;33m");
    reveal_strlit("\u{1b}[97;44m");
    reveal_strlit("\u{1b}[1;34m");
    reveal_strlit("\u{1b}[97;45m");
    reveal_strlit("\u{1b}[1;35m");
    reveal_strlit("\u{1b}[30;46m");
    reveal_strlit("\u{1b}[1;36m");
    reveal_strlit("\u{1b}[30;101m");
    reveal_strlit("\u{1b}[1;91m");
    reveal_strlit("\u{1b}[97;104m");
    reveal_strlit("\u{1b}[1;94m");
    let code = palette(a, has_span);
    let n = code.len() as int;
    if a % 8 < 6 {
        if has_span {
            assert(code.subrange(n - 3, n - 2) =~= seq!['4']);
        } else {
            assert(code.subrange(n - 3, n - 2) =~= seq!['3']);
        }
    } else if has_span {
        assert(code.subrange(n - 4, n - 2) =~= seq!['1', '0']);
    } else {
        assert(code.subrange(n - 3, n - 2) =~= seq!['9']);
    }
    let other = palette(b, has_span);
    let m = other.len() as int;
    if code == other {
        assert(code[n - 2] == other[m - 2] && code[n - 3] == other[m - 3]);
    }
}

/// The part names a color.
pub open spec fn names_color(part: Seq<char>, has_span: bool) -> bool {
    color_code(color_name(part), has_span) is Some
}

/// The first part that names a color gives it.
pub proof fn law_the_first_named_color_counts(parts: Seq<Seq<char>>, has_span: bool, x: int)
    requires
        0 <= x <= parts.len(),
        forall|y: int| 0 <= y < x ==> !names_color(#[trigger] parts[y], has_span),
        x < parts.len() ==> names_color(parts[x], has_span),
    ensures
        named_from(parts, has_span, 0) == (if x < parts.len() {
            color_code(color_name(parts[x]), has_span)
        } else {
            None
        }),
{
    lemma_named_from(parts, has_span, 0, x);
}

proof fn lemma_named_from(parts: Seq<Seq<char>>, has_span: bool, i: int, x: int)
    requires
        0 <= i <= x <= parts.len(),
        forall|y: int| i <= y < x ==> !names_color(#[trigger] parts[y], has_span),
        x < parts.len() ==> names_color(parts[x], has_span),
    ensures
        named_from(parts, has_span, i) == (if x < parts.len() {
            color_code(color_name(parts[x]), has_span)
        } else {
            None
        }),
    decreases x - i,
{
    if i < x {
        assert(!names_color(parts[i], has_span));
        lemma_named_from(parts, has_span, i + 1, x);
    }
}

/// White space round the name of a color, and its case, make no difference.
pub proof fn law_color_names_are_trimmed(part: Seq<char>, c: char)
    requires
        white(c),
    ensures
        color_name(seq![c] + part) == color_name(part),
        color_name(part.push(c)) == color_name(part),
        color_name(part).len() > 0 ==> !white(trim_white(part)[0]) && !white(
            trim_white(part).last(),
        ),
    decreases part.len(),
{
    lemma_trimmed_ends(part);
    assert((seq![c] + part)[0] == c);
    assert((seq![c] + part).drop_first() =~= part);
    lemma_trim_back_white(part, c);
}

proof fn lemma_trimmed_ends(part: Seq<char>)
    ensures
        trim_white(part).len() > 0 ==> !white(trim_white(part)[0]) && !white(
            trim_white(part).last(),
        ),
    decreases part.len(),
{
    if part.len() > 0 && white(part[0]) {
        lemma_trimmed_ends(part.drop_first());
    } else if part.len() > 0 && white(part.last()) {
        lemma_trimmed_ends(part.drop_last());
    }
}

proof fn lemma_trim_back_white(part: Seq<char>, c: char)
    requires
        white(c),
    ensures
        trim_white(part.push(c)) == trim_white(part),
    decreases part.len(),
{
    let all = part.push(c);
    assert(all.drop_last() =~= part);
    assert(all.last() == c);
    if part.len() == 0 {
        assert(all.drop_first() =~= part);
    } else if white(part[0]) {
        assert(all[0] == part[0]);
        assert(all.drop_first() =~= part.drop_first().push(c));
        lemma_trim_back_white(part.drop_first(), c);
    }
}

/// A stretch has the color that the first of its parts names, and where none does,
/// one of the palette.
pub proof fn law_a_stretch_has_a_named_color_or_one_of_the_palette(
    parts: Seq<Seq<char>>,
    has_span: bool,
    code: Seq<char>,
    x: int,
)
    requires
        color_of(parts, has_span, code),
        0 <= x <= parts.len(),
        forall|y: int| 0 <= y < x ==> !names_color(#[trigger] parts[y], has_span),
        x < parts.len() ==> names_color(parts[x], has_span),
    ensures
        x < parts.len() ==> Some(code) == color_code(color_name(parts[x]), has_span),
        x == parts.len() ==> exists|hash: u64| code == #[trigger] palette(hash, has_span),
{
    law_the_first_named_color_counts(parts, has_span, x);
    if x == parts.len() {
        let full = choose|full: Seq<bool>|
            full.len() == parts.len() && code == palette(
                #[trigger] texts_hash(parts, full),
                has_span,
            );
        assert(code == palette(texts_hash(parts, full), has_span));
    }
}

/// The position is of tokens that there are.
pub open spec fn is_of(position: MatchPosition, tokens: nat) -> bool {
    0 <= position.start <= position.end < tokens
}

/// Without a text or a position, nothing is marked. Tokens that do not stand in the
/// text are refused, then the first position that is not of tokens there are, as it
/// was given; nothing else is refused.
pub proof fn law_only_what_cannot_be_marked_is_refused(
    style: HighlightStyle<'_>,
    text: Seq<char>,
    tokens: Seq<TokenSpan>,
    positions: Seq<MatchPosition>,
    output: Result<String, HighlightError>,
)
    requires
        highlighted(style, text, tokens, positions, output),
    ensures
        text.len() == 0 || positions.len() == 0 ==> output is Ok && output->Ok_0@ == text,
        output == Err::<String, HighlightError>(HighlightError::TransformedTokenText) <==> {
            &&& text.len() > 0 && positions.len() > 0
            &&& exists|t: int| 0 <= t < tokens.len() && !(#[trigger] tokens[t] is Source)
        },
        output matches Err(HighlightError::InvalidPositionRange { start, end, token_count })
            ==> token_count == tokens.len() as usize && exists|p: int|
            #![trigger positions[p]]
            0 <= p < positions.len() && positions[p].start == start && positions[p].end == end
                && !is_of(positions[p], tokens.len()) && forall|q: int|
                0 <= q < p ==> is_of(#[trigger] positions[q], tokens.len()),
        (forall|t: int| 0 <= t < tokens.len() ==> #[trigger] tokens[t] is Source) && (forall|
            p: int,
        | 0 <= p < positions.len() ==> is_of(#[trigger] positions[p], tokens.len()))
            ==> output is Ok,
{
    let p = lemma_first_wrong(positions, tokens.len(), 0);
    law_the_first_wrong_position_is_refused(positions, tokens.len(), 0, p);
    if p < positions.len() {
        assert(!is_of(positions[p], tokens.len()));
    }
}

proof fn lemma_first_wrong(positions: Seq<MatchPosition>, tokens: nat, i: int) -> (x: int)
    requires
        0 <= i <= positions.len(),
    ensures
        i <= x <= positions.len(),
        forall|y: int| i <= y < x ==> is_of(#[trigger] positions[y], tokens),
        x < positions.len() ==> !is_of(positions[x], tokens),
    decreases positions.len() - i,
{
    if i < positions.len() && is_of(positions[i], tokens) {
        lemma_first_wrong(positions, tokens, i + 1)
    } else {
        i
    }
}

} // verus!
