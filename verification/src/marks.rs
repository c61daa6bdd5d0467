//! The stretches of a text that matches cover.

use crate::match_positions::MatchPosition;
use crate::text::{sorted_set, sorted_unique, texts};
use vstd::prelude::*;
use vstd::utf8::{encode_utf8, is_char_boundary};

verus! {

/// A stretch of bytes.
#[derive(Clone, Copy, Debug, PartialEq, Eq, Structural)]
pub struct ByteRange {
    pub start: usize,
    pub end: usize,
}

/// A token as the tokenizer gives it: where it stands in the text, or a text
/// of its own.
#[derive(Clone, Copy, Debug, PartialEq, Eq, Structural)]
pub enum TokenSpan {
    Source(ByteRange),
    Transformed,
}

/// A stretch to mark, with the query parts that match there.
#[derive(Debug)]
pub struct HighlightRange {
    pub bytes: ByteRange,
    pub query_parts: Vec<String>,
    pub has_span: bool,
}

/// Why a text cannot be marked.
#[derive(Clone, Copy, Debug, PartialEq, Eq, Structural)]
pub enum HighlightError {
    /// The position is not one of a token stream of this length.
    InvalidPositionRange { start: i32, end: i32, token_count: usize },
    /// A token does not stand in the text.
    TransformedTokenText,
}

/// A stretch to mark.
pub struct Mark {
    pub start: int,
    pub end: int,
    pub parts: Seq<Seq<char>>,
    pub has_span: bool,
}

impl View for HighlightRange {
    type V = Mark;

    open spec fn view(&self) -> Mark {
        Mark {
            start: self.bytes.start as int,
            end: self.bytes.end as int,
            parts: texts(self.query_parts@),
            has_span: self.has_span,
        }
    }
}

/// The stretches of several ranges.
pub open spec fn marks_of(ranges: Seq<HighlightRange>) -> Seq<Mark> {
    ranges.map_values(|range: HighlightRange| range@)
}

/// The tokens stand in the text, each from a character to a character, and
/// none ends before an earlier one starts.
pub open spec fn tokens_in(tokens: Seq<TokenSpan>, text: Seq<char>) -> bool {
    &&& forall|i: int| #![trigger tokens[i]]
        0 <= i < tokens.len() ==> (tokens[i] matches TokenSpan::Source(range) ==> range.start
            <= range.end && is_char_boundary(encode_utf8(text), range.start as int)
            && is_char_boundary(encode_utf8(text), range.end as int))
    &&& forall|i: int, j: int| #![trigger tokens[i], tokens[j]]
        0 <= i <= j < tokens.len() ==> (tokens[i] matches TokenSpan::Source(a)
            ==> (tokens[j] matches TokenSpan::Source(b) ==> a.start <= b.end))
}

/// Every token stands in the text as it is.
pub open spec fn all_source(tokens: Seq<TokenSpan>) -> bool {
    forall|i: int| 0 <= i < tokens.len() ==> #[trigger] tokens[i] is Source
}

/// The position is of tokens that there are.
pub open spec fn position_valid(position: MatchPosition, token_count: nat) -> bool {
    0 <= position.start <= position.end < token_count
}

/// The first position, from the `i`-th on, that is not of tokens there are.
pub open spec fn first_invalid(positions: Seq<MatchPosition>, token_count: nat, i: int) -> Option<
    MatchPosition,
>
    decreases positions.len() - i,
{
    if i < 0 || i >= positions.len() {
        None
    } else if !position_valid(positions[i], token_count) {
        Some(positions[i])
    } else {
        first_invalid(positions, token_count, i + 1)
    }
}

/// The stretch that a position covers.
pub open spec fn mark_of(tokens: Seq<TokenSpan>, position: MatchPosition) -> Mark {
    Mark {
        start: tokens[position.start as int]->Source_0.start as int,
        end: tokens[position.end as int]->Source_0.end as int,
        parts: seq![position.part@],
        has_span: position.start != position.end,
    }
}

/// The stretches that positions cover, in the order of the positions.
pub open spec fn position_marks(tokens: Seq<TokenSpan>, positions: Seq<MatchPosition>) -> Seq<Mark> {
    positions.map_values(|position: MatchPosition| mark_of(tokens, position))
}

/// Where the tokens stand; an error when one does not stand in the text.
pub fn token_byte_ranges(tokens: &Vec<TokenSpan>) -> (ranges: Result<Vec<ByteRange>, HighlightError>)
    ensures
        match ranges {
            Ok(found) => all_source(tokens@) && found.len() == tokens.len() && forall|i: int|
                0 <= i < tokens.len() ==> tokens[i] == TokenSpan::Source(#[trigger] found[i]),
            Err(error) => !all_source(tokens@) && error == HighlightError::TransformedTokenText,
        },
{
    let mut ranges: Vec<ByteRange> = Vec::new();
    let mut i: usize = 0;
    while i < tokens.len()
        invariant
            i <= tokens.len(),
            ranges.len() == i,
            forall|j: int| 0 <= j < i ==> tokens[j] == TokenSpan::Source(#[trigger] ranges[j]),
        decreases tokens.len() - i,
    {
        match tokens[i] {
            TokenSpan::Source(range) => ranges.push(range),
            TokenSpan::Transformed => {
                assert(!(tokens@[i as int] is Source));
                return Err(HighlightError::TransformedTokenText);
            },
        }
        i = i + 1;
    }
    proof {
        assert forall|j: int| 0 <= j < tokens.len() implies #[trigger] tokens@[j] is Source by {
            assert(tokens[j] == TokenSpan::Source(ranges[j]));
        }
    }
    Ok(ranges)
}

/// The stretches that positions cover; an error when a token does not stand in
/// the text, or else for the first position that is of no token.
pub fn byte_ranges_for_positions(tokens: &Vec<TokenSpan>, positions: &Vec<MatchPosition>) -> (ranges:
    Result<Vec<HighlightRange>, HighlightError>)
    ensures
        if !all_source(tokens@) {
            ranges == Err::<Vec<HighlightRange>, HighlightError>(
                HighlightError::TransformedTokenText,
            )
        } else {
            match first_invalid(positions@, tokens.len() as nat, 0) {
                Some(position) => ranges == Err::<Vec<HighlightRange>, HighlightError>(
                    HighlightError::InvalidPositionRange {
                        start: position.start,
                        end: position.end,
                        token_count: tokens.len(),
                    },
                ),
                None => ranges is Ok && marks_of(ranges->Ok_0@) == position_marks(
                    tokens@,
                    positions@,
                ),
            }
        },
{
    let token_ranges = match token_byte_ranges(tokens) {
        Ok(found) => found,
        Err(error) => {
            return Err(error);
        },
    };
    let token_count: usize = token_ranges.len();
    let mut ranges: Vec<HighlightRange> = Vec::new();
    let mut i: usize = 0;
    while i < positions.len()
        invariant
            i <= positions.len(),
            all_source(tokens@),
            token_count == token_ranges.len() == tokens.len(),
            forall|j: int|
                0 <= j < tokens.len() ==> tokens[j] == TokenSpan::Source(
                    #[trigger] token_ranges[j],
                ),
            first_invalid(positions@, tokens.len() as nat, 0) == first_invalid(
                positions@,
                tokens.len() as nat,
                i as int,
            ),
            marks_of(ranges@) == position_marks(tokens@, positions@).take(i as int),
        decreases positions.len() - i,
    {
        let position = &positions[i];
        let start: i32 = position.start;
        let end: i32 = position.end;
        if start < 0 || end < 0 || start > end || start as usize >= token_count || end as usize
            >= token_count {
            return Err(HighlightError::InvalidPositionRange { start, end, token_count });
        }
        let first: ByteRange = token_ranges[start as usize];
        let last: ByteRange = token_ranges[end as usize];
        let mut query_parts: Vec<String> = Vec::new();
        query_parts.push(position.part.clone());
        let ghost before = marks_of(ranges@);
        proof {
            assert(texts(query_parts@) =~= seq![position.part@]);
            assert(tokens[start as int] == TokenSpan::Source(token_ranges[start as int]));
            assert(tokens[end as int] == TokenSpan::Source(token_ranges[end as int]));
        }
        ranges.push(
            HighlightRange {
                bytes: ByteRange { start: first.start, end: last.end },
                query_parts,
                has_span: start != end,
            },
        );
        proof {
            assert(marks_of(ranges@) =~= before.push(mark_of(tokens@, *position)));
            assert(marks_of(ranges@) =~= position_marks(tokens@, positions@).take(i + 1));
        }
        i = i + 1;
    }
    proof {
        assert(position_marks(tokens@, positions@).take(i as int) =~= position_marks(
            tokens@,
            positions@,
        ));
    }
    Ok(ranges)
}

/// One stretch starts before another or, starting with it, ends before it.
pub open spec fn mark_before(a: Mark, b: Mark) -> bool {
    a.start < b.start || (a.start == b.start && a.end < b.end)
}

/// The stretches with another put behind all it does not come before.
pub open spec fn mark_inserted(marks: Seq<Mark>, mark: Mark) -> Seq<Mark>
    decreases marks.len(),
{
    if marks.len() == 0 || !mark_before(mark, marks.last()) {
        marks.push(mark)
    } else {
        mark_inserted(marks.drop_last(), mark).push(marks.last())
    }
}

/// The stretches in the order they start and end.
pub open spec fn marks_sorted(marks: Seq<Mark>) -> Seq<Mark>
    decreases marks.len(),
{
    if marks.len() == 0 {
        marks
    } else {
        mark_inserted(marks_sorted(marks.drop_last()), marks.last())
    }
}

/// A stretch and one that touches it as one: the query parts of both, in order
/// and each once.
pub open spec fn mark_joined(a: Mark, b: Mark) -> Mark {
    Mark {
        start: a.start,
        end: if b.end > a.end {
            b.end
        } else {
            a.end
        },
        parts: sorted_set(a.parts + b.parts),
        has_span: a.has_span || b.has_span,
    }
}

/// The first `upto` stretches, those that touch made one.
pub open spec fn marks_merged(sorted: Seq<Mark>, upto: int) -> Seq<Mark>
    decreases upto,
{
    if upto <= 0 || upto > sorted.len() {
        Seq::empty()
    } else {
        let before = marks_merged(sorted, upto - 1);
        let mark = sorted[upto - 1];
        if before.len() > 0 && mark.start <= before.last().end {
            before.drop_last().push(mark_joined(before.last(), mark))
        } else {
            before.push(mark)
        }
    }
}

/// The stretches to mark, in order and apart.
pub open spec fn merged_marks(marks: Seq<Mark>) -> Seq<Mark> {
    marks_merged(marks_sorted(marks), marks.len() as int)
}

fn insert_range(sorted: &mut Vec<HighlightRange>, range: HighlightRange)
    ensures
        marks_of(final(sorted)@) == mark_inserted(marks_of(old(sorted)@), range@),
{
    let ghost before = marks_of(sorted@);
    let mut at: usize = sorted.len();
    proof {
        assert(before.take(at as int) =~= before);
        assert(mark_inserted(before, range@) + before.skip(at as int) =~= mark_inserted(
            before,
            range@,
        ));
    }
    while at > 0 && (range.bytes.start < sorted[at - 1].bytes.start || (range.bytes.start
        == sorted[at - 1].bytes.start && range.bytes.end < sorted[at - 1].bytes.end))
        invariant
            at <= sorted.len(),
            marks_of(sorted@) == before,
            mark_inserted(before, range@) == mark_inserted(before.take(at as int), range@)
                + before.skip(at as int),
        decreases at,
    {
        proof {
            let head = before.take(at as int);
            assert(head.last() == sorted[at - 1]@);
            assert(head.drop_last() =~= before.take(at - 1));
            assert(mark_inserted(head.drop_last(), range@).push(head.last()) + before.skip(at as int)
                =~= mark_inserted(before.take(at - 1), range@) + before.skip(at - 1));
        }
        at = at - 1;
    }
    proof {
        let head = before.take(at as int);
        if at > 0 {
            assert(head.last() == sorted[at - 1]@);
        }
        assert(before.insert(at as int, range@) =~= head.push(range@) + before.skip(at as int));
    }
    let ghost added = range@;
    sorted.insert(at, range);
    proof {
        assert(marks_of(sorted@) =~= before.insert(at as int, added));
    }
}

/// Sorts the query parts and drops those that occur twice.
pub fn normalize_query_parts(query_parts: &mut Vec<String>)
    ensures
        texts(final(query_parts)@) == sorted_set(texts(old(query_parts)@)),
{
    let sorted = sorted_unique(query_parts);
    *query_parts = sorted;
}

/// Makes stretches that touch one, in the order of the text.
pub fn merge_overlapping_ranges(ranges: Vec<HighlightRange>) -> (merged: Vec<HighlightRange>)
    ensures
        marks_of(merged@) == merged_marks(marks_of(ranges@)),
{
    let ghost all = marks_of(ranges@);
    let len: usize = ranges.len();
    let mut rest = ranges;
    let mut sorted: Vec<HighlightRange> = Vec::new();
    let mut i: usize = 0;
    proof {
        assert(all.take(0) =~= Seq::empty());
        assert(all.skip(0) =~= all);
        assert(marks_of(sorted@) =~= Seq::empty());
    }
    while rest.len() > 0
        invariant
            all.len() == len,
            i + rest.len() == len,
            marks_of(rest@) == all.skip(i as int),
            marks_of(sorted@) == marks_sorted(all.take(i as int)),
        decreases rest.len(),
    {
        let ghost had = marks_of(rest@);
        let range = rest.remove(0);
        proof {
            assert(had[0] == all[i as int]);
            assert(marks_of(rest@) =~= had.drop_first());
            assert(had.drop_first() =~= all.skip(i + 1));
            assert(all.take(i + 1).drop_last() =~= all.take(i as int));
            assert(all.take(i + 1).last() == range@);
        }
        insert_range(&mut sorted, range);
        i = i + 1;
    }
    let ghost order = marks_of(sorted@);
    proof {
        assert(all.take(i as int) =~= all);
        lemma_sorted_len(all);
    }
    let mut merged: Vec<HighlightRange> = Vec::new();
    let mut i: usize = 0;
    proof {
        assert(order.skip(0) =~= order);
        assert(marks_of(merged@) =~= Seq::empty());
    }
    while sorted.len() > 0
        invariant
            order.len() == len,
            i + sorted.len() == len,
            marks_of(sorted@) == order.skip(i as int),
            marks_of(merged@) == marks_merged(order, i as int),
        decreases sorted.len(),
    {
        let ghost had = marks_of(sorted@);
        let mut range = sorted.remove(0);
        let ghost mark = range@;
        proof {
            assert(had[0] == order[i as int]);
            assert(marks_of(sorted@) =~= had.drop_first());
            assert(had.drop_first() =~= order.skip(i + 1));
        }
        let ghost before = marks_of(merged@);
        let count: usize = merged.len();
        let touches = count > 0 && range.bytes.start <= merged[count - 1].bytes.end;
        if touches {
            let last = merged.remove(count - 1);
            let ghost last_mark = last@;
            proof {
                assert(last_mark == before.last());
                assert(marks_of(merged@) =~= before.drop_last());
            }
            let start: usize = last.bytes.start;
            let end: usize = if range.bytes.end > last.bytes.end {
                range.bytes.end
            } else {
                last.bytes.end
            };
            let has_span = last.has_span || range.has_span;
            let mut query_parts = last.query_parts;
            let ghost first = texts(query_parts@);
            let ghost second = texts(range.query_parts@);
            query_parts.append(&mut range.query_parts);
            proof {
                assert(texts(query_parts@) =~= first + second);
            }
            normalize_query_parts(&mut query_parts);
            let joined = HighlightRange { bytes: ByteRange { start, end }, query_parts, has_span };
            proof {
                assert(joined@ == mark_joined(last_mark, mark));
            }
            merged.push(joined);
            proof {
                assert(marks_of(merged@) =~= before.drop_last().push(joined@));
            }
        } else {
            proof {
                if count > 0 {
                    assert(before.last() == merged[count - 1]@);
                }
            }
            merged.push(range);
            proof {
                assert(marks_of(merged@) =~= before.push(mark));
            }
        }
        i = i + 1;
    }
    merged
}

proof fn lemma_inserted_len(marks: Seq<Mark>, mark: Mark)
    ensures
        mark_inserted(marks, mark).len() == marks.len() + 1,
    decreases marks.len(),
{
    if marks.len() > 0 && mark_before(mark, marks.last()) {
        lemma_inserted_len(marks.drop_last(), mark);
    }
}

proof fn lemma_sorted_len(marks: Seq<Mark>)
    ensures
        marks_sorted(marks).len() == marks.len(),
    decreases marks.len(),
{
    if marks.len() > 0 {
        lemma_sorted_len(marks.drop_last());
        lemma_inserted_len(marks_sorted(marks.drop_last()), marks.last());
    }
}

/// Stretches in the order they start and end.
pub open spec fn in_mark_order(marks: Seq<Mark>) -> bool {
    forall|i: int, j: int| 0 <= i < j < marks.len() ==> !mark_before(marks[j], marks[i])
}

proof fn lemma_inserted_marks(marks: Seq<Mark>, mark: Mark)
    ensures
        in_mark_order(marks) ==> in_mark_order(mark_inserted(marks, mark)),
        forall|other: Mark| #[trigger]
            mark_inserted(marks, mark).contains(other) <==> marks.contains(other) || other == mark,
    decreases marks.len(),
{
    let all = mark_inserted(marks, mark);
    if marks.len() == 0 || !mark_before(mark, marks.last()) {
        assert forall|other: Mark| #[trigger] all.contains(other) <==> marks.contains(other)
            || other == mark by {
            lemma_push_mark(marks, mark, other);
        }
        if in_mark_order(marks) && marks.len() > 0 {
            assert forall|i: int| 0 <= i < marks.len() implies !mark_before(mark, marks[i]) by {
                if i < marks.len() - 1 {
                    assert(!mark_before(marks[marks.len() - 1], marks[i]));
                }
            }
        }
    } else {
        let rest = marks.drop_last();
        lemma_inserted_marks(rest, mark);
        let before = mark_inserted(rest, mark);
        assert(marks =~= rest.push(marks.last()));
        assert forall|other: Mark| #[trigger] all.contains(other) <==> marks.contains(other)
            || other == mark by {
            lemma_push_mark(before, marks.last(), other);
            lemma_push_mark(rest, marks.last(), other);
            assert(before.contains(other) <==> rest.contains(other) || other == mark);
        }
        if in_mark_order(marks) {
            assert(in_mark_order(rest)) by {
                assert forall|i: int, j: int| 0 <= i < j < rest.len() implies !mark_before(
                    rest[j],
                    rest[i],
                ) by {
                    assert(!mark_before(marks[j], marks[i]));
                }
            }
            assert forall|i: int| 0 <= i < before.len() implies !mark_before(
                marks.last(),
                before[i],
            ) by {
                assert(before.contains(before[i]));
                if before[i] != mark {
                    assert(rest.contains(before[i]));
                    let x = choose|x: int| 0 <= x < rest.len() && rest[x] == before[i];
                    assert(!mark_before(marks[marks.len() - 1], marks[x]));
                }
            }
        }
    }
}

proof fn lemma_push_mark(marks: Seq<Mark>, last: Mark, mark: Mark)
    ensures
        marks.push(last).contains(mark) <==> marks.contains(mark) || mark == last,
{
    let all = marks.push(last);
    assert(all[marks.len() as int] == last);
    if marks.contains(mark) {
        let j = choose|j: int| 0 <= j < marks.len() && marks[j] == mark;
        assert(all[j] == mark);
    }
    if all.contains(mark) && mark != last {
        let j = choose|j: int| 0 <= j < all.len() && all[j] == mark;
        assert(marks[j] == mark);
    }
}

pub(crate) proof fn lemma_marks_sorted(marks: Seq<Mark>)
    ensures
        in_mark_order(marks_sorted(marks)),
        marks_sorted(marks).len() == marks.len(),
        forall|mark: Mark| #[trigger] marks_sorted(marks).contains(mark) <==> marks.contains(mark),
    decreases marks.len(),
{
    if marks.len() > 0 {
        let rest = marks.drop_last();
        lemma_marks_sorted(rest);
        lemma_sorted_len(marks);
        lemma_inserted_marks(marks_sorted(rest), marks.last());
        assert(marks =~= rest.push(marks.last()));
        assert forall|mark: Mark| #[trigger] marks_sorted(marks).contains(mark)
            <==> marks.contains(mark) by {
            lemma_push_mark(rest, marks.last(), mark);
            assert(marks_sorted(rest).contains(mark) <==> rest.contains(mark));
        }
    }
}

/// `outer` covers `inner`, and its query parts and spans.
pub open spec fn mark_covers(outer: Mark, inner: Mark) -> bool {
    &&& outer.start <= inner.start
    &&& inner.end <= outer.end
    &&& inner.has_span ==> outer.has_span
    &&& forall|part: Seq<char>| #[trigger]
        inner.parts.contains(part) ==> outer.parts.contains(part)
}

/// Some stretch covers `inner`.
pub open spec fn covered(marks: Seq<Mark>, inner: Mark) -> bool {
    exists|r: int| 0 <= r < marks.len() && #[trigger] mark_covers(marks[r], inner)
}

/// Stretches in order with a gap between any two.
pub open spec fn marks_apart(marks: Seq<Mark>) -> bool {
    forall|i: int, j: int| 0 <= i < j < marks.len() ==> marks[i].end < marks[j].start
}

/// What is wanted of a place where a stretch starts or ends.
spec fn ends_hold(marks: Seq<Mark>, bytes: Seq<u8>) -> bool {
    forall|i: int| #![trigger marks[i]]
        0 <= i < marks.len() ==> marks[i].start <= marks[i].end && is_char_boundary(
            bytes,
            marks[i].start,
        ) && is_char_boundary(bytes, marks[i].end)
}

pub(crate) proof fn lemma_sorted_parts(a: Seq<Seq<char>>, b: Seq<Seq<char>>, part: Seq<char>)
    ensures
        sorted_set(a + b).contains(part) <==> a.contains(part) || b.contains(part),
{
    crate::text::lemma_sorted_set_exists(a + b);
    let all = a + b;
    assert(sorted_set(all).contains(part) <==> all.contains(part));
    if a.contains(part) {
        let i = choose|i: int| 0 <= i < a.len() && a[i] == part;
        assert(all[i] == part);
    }
    if b.contains(part) {
        let i = choose|i: int| 0 <= i < b.len() && b[i] == part;
        assert(all[a.len() + i] == part);
    }
    if all.contains(part) {
        let i = choose|i: int| 0 <= i < all.len() && all[i] == part;
        if i < a.len() {
            assert(a[i] == part);
        } else {
            assert(b[i - a.len()] == part);
        }
    }
}

proof fn lemma_merged(sorted: Seq<Mark>, bytes: Seq<u8>, upto: int)
    requires
        in_mark_order(sorted),
        forall|i: int|
            0 <= i < sorted.len() ==> (#[trigger] sorted[i]).start <= sorted[i].end,
        0 <= upto <= sorted.len(),
    ensures
        ({
            let merged = marks_merged(sorted, upto);
            &&& marks_apart(merged)
            &&& forall|r: int|
                0 <= r < merged.len() ==> (#[trigger] merged[r]).start <= merged[r].end
            &&& ends_hold(sorted, bytes) ==> ends_hold(merged, bytes)
            &&& upto > 0 ==> merged.len() > 0 && merged.last().start <= sorted[upto - 1].start
            &&& forall|x: int| 0 <= x < upto ==> covered(merged, #[trigger] sorted[x])
        }),
    decreases upto,
{
    if upto > 0 {
        lemma_merged(sorted, bytes, upto - 1);
        let before = marks_merged(sorted, upto - 1);
        let merged = marks_merged(sorted, upto);
        let mark = sorted[upto - 1];
        if upto > 1 {
            assert(!mark_before(sorted[upto - 1], sorted[upto - 2]));
        }
        let n = merged.len() as int;
        if before.len() > 0 && mark.start <= before.last().end {
            let last = before.last();
            let joined = mark_joined(last, mark);
            assert(merged == before.drop_last().push(joined));
            assert(mark_covers(joined, mark) && mark_covers(joined, last)) by {
                assert forall|part: Seq<char>| mark.parts.contains(part) || last.parts.contains(
                    part,
                ) implies #[trigger] joined.parts.contains(part) by {
                    lemma_sorted_parts(last.parts, mark.parts, part);
                }
            }
            assert forall|x: int| 0 <= x < upto implies covered(merged, #[trigger] sorted[x]) by {
                if x == upto - 1 {
                    assert(mark_covers(merged[n - 1], sorted[x]));
                } else {
                    let r = choose|r: int|
                        0 <= r < before.len() && #[trigger] mark_covers(before[r], sorted[x]);
                    if r < n - 1 {
                        assert(merged[r] == before[r]);
                        assert(mark_covers(merged[r], sorted[x]));
                    } else {
                        assert(mark_covers(before[r], sorted[x]));
                        assert(before[r] == last);
                        assert(mark_covers(merged[n - 1], sorted[x])) by {
                            assert forall|part: Seq<char>| #[trigger]
                                sorted[x].parts.contains(part) implies joined.parts.contains(
                                part,
                            ) by {
                                assert(last.parts.contains(part));
                            }
                        }
                    }
                }
            }
            assert forall|i: int, j: int| 0 <= i < j < merged.len() implies merged[i].end
                < merged[j].start by {
                assert(before[i].end < before[j].start);
            }
        } else {
            assert(merged == before.push(mark));
            assert forall|x: int| 0 <= x < upto implies covered(merged, #[trigger] sorted[x]) by {
                if x == upto - 1 {
                    assert(mark_covers(merged[n - 1], sorted[x]));
                } else {
                    let r = choose|r: int|
                        0 <= r < before.len() && #[trigger] mark_covers(before[r], sorted[x]);
                    assert(mark_covers(merged[r], sorted[x]));
                }
            }
            assert forall|i: int, j: int| 0 <= i < j < merged.len() implies merged[i].end
                < merged[j].start by {
                if j == n - 1 {
                    if i < before.len() - 1 {
                        assert(before[i].end < before[before.len() - 1].start);
                    }
                } else {
                    assert(before[i].end < before[j].start);
                }
            }
        }
    }
}

/// Merging loses no mark: each of the stretches lies within one of the merged
/// ones, which shows its query parts, and the merged ones are in order with a
/// gap between any two.
pub proof fn law_merging_keeps_marks(marks: Seq<Mark>)
    requires
        forall|i: int| 0 <= i < marks.len() ==> (#[trigger] marks[i]).start <= marks[i].end,
    ensures
        marks_apart(merged_marks(marks)),
        forall|i: int| 0 <= i < marks.len() ==> covered(merged_marks(marks), #[trigger] marks[i]),
{
    lemma_marks_sorted(marks);
    let sorted = marks_sorted(marks);
    assert forall|i: int| 0 <= i < sorted.len() implies (#[trigger] sorted[i]).start
        <= sorted[i].end by {
        assert(sorted.contains(sorted[i]));
        assert(marks.contains(sorted[i]));
    }
    lemma_merged(sorted, Seq::empty(), sorted.len() as int);
    let merged = merged_marks(marks);
    assert forall|i: int| 0 <= i < marks.len() implies covered(merged, #[trigger] marks[i]) by {
        assert(marks.contains(marks[i]));
        assert(sorted.contains(marks[i]));
        let x = choose|x: int| 0 <= x < sorted.len() && sorted[x] == marks[i];
        assert(covered(merged, sorted[x]));
    }
}

/// The merged stretches of valid positions start and end at characters.
pub proof fn lemma_merged_boundaries(
    tokens: Seq<TokenSpan>,
    positions: Seq<MatchPosition>,
    text: Seq<char>,
)
    requires
        tokens_in(tokens, text),
        all_source(tokens),
        first_invalid(positions, tokens.len(), 0) is None,
    ensures
        ({
            let merged = merged_marks(position_marks(tokens, positions));
            &&& marks_apart(merged)
            &&& forall|i: int| #![trigger merged[i]]
                0 <= i < merged.len() ==> merged[i].start <= merged[i].end && is_char_boundary(
                    encode_utf8(text),
                    merged[i].start,
                ) && is_char_boundary(encode_utf8(text), merged[i].end)
        }),
{
    let bytes = encode_utf8(text);
    let marks = position_marks(tokens, positions);
    lemma_all_valid(positions, tokens.len(), 0);
    lemma_marks_sorted(marks);
    let sorted = marks_sorted(marks);
    assert forall|i: int| #![trigger sorted[i]] 0 <= i < sorted.len() implies sorted[i].start
        <= sorted[i].end && is_char_boundary(bytes, sorted[i].start) && is_char_boundary(
        bytes,
        sorted[i].end,
    ) by {
        assert(sorted.contains(sorted[i]));
        assert(marks.contains(sorted[i]));
        let x = choose|x: int| 0 <= x < marks.len() && marks[x] == sorted[i];
        let position = positions[x];
        assert(position_valid(position, tokens.len()));
        assert(tokens[position.start as int] is Source && tokens[position.end as int] is Source);
    }
    lemma_merged(sorted, bytes, sorted.len() as int);
}

proof fn lemma_all_valid(positions: Seq<MatchPosition>, count: nat, i: int)
    requires
        first_invalid(positions, count, i) is None,
        0 <= i,
    ensures
        forall|x: int| i <= x < positions.len() ==> position_valid(#[trigger] positions[x], count),
    decreases positions.len() - i,
{
    if i < positions.len() {
        lemma_all_valid(positions, count, i + 1);
    }
}

} // verus!
