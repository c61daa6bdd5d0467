//! What merging makes of the stretches to mark.

use crate::marks::{
    first_invalid, in_mark_order, lemma_marks_sorted, lemma_sorted_parts, mark_before, mark_joined, marks_merged,
    marks_sorted, merged_marks, Mark,
};
use crate::match_positions::MatchPosition;
use vstd::prelude::*;

verus! {

/// The byte is in one of the stretches.
pub open spec fn in_one(x: int, marks: Seq<Mark>) -> bool {
    exists|i: int| 0 <= i < marks.len() && (#[trigger] marks[i]).start <= x < marks[i].end
}

/// A merged stretch is made of given ones: it starts where one starts and ends
/// where one ends, each of its bytes is in one of them, its query parts are
/// theirs, and it shows a span where one of them does.
pub open spec fn made_of(merged: Mark, marks: Seq<Mark>) -> bool {
    &&& exists|i: int| 0 <= i < marks.len() && (#[trigger] marks[i]).start == merged.start
    &&& exists|i: int| 0 <= i < marks.len() && (#[trigger] marks[i]).end == merged.end
    &&& forall|x: int| merged.start <= x < merged.end ==> #[trigger] in_one(x, marks)
    &&& forall|part: Seq<char>| #[trigger]
        merged.parts.contains(part) ==> exists|i: int|
            0 <= i < marks.len() && (#[trigger] marks[i]).parts.contains(part) && merged.start
                <= marks[i].start && marks[i].end <= merged.end
    &&& merged.has_span ==> exists|i: int|
        0 <= i < marks.len() && (#[trigger] marks[i]).has_span && merged.start <= marks[i].start
            && marks[i].end <= merged.end
}

/// A merged stretch holds the given one and shows its query parts and its span.
pub open spec fn kept_in(mark: Mark, merged: Seq<Mark>) -> bool {
    exists|r: int|
        #![trigger merged[r]]
        0 <= r < merged.len() && merged[r].start <= mark.start && mark.end <= merged[r].end && (
        mark.has_span ==> merged[r].has_span) && forall|part: Seq<char>| #[trigger]
            mark.parts.contains(part) ==> merged[r].parts.contains(part)
}

proof fn lemma_merged_from(sorted: Seq<Mark>, upto: int)
    requires
        in_mark_order(sorted),
        forall|i: int| 0 <= i < sorted.len() ==> (#[trigger] sorted[i]).start <= sorted[i].end,
        0 <= upto <= sorted.len(),
    ensures
        ({
            let merged = marks_merged(sorted, upto);
            &&& upto > 0 ==> merged.len() > 0 && merged.last().start <= sorted[upto - 1].start
            &&& forall|r: int|
                0 <= r < merged.len() ==> made_of(#[trigger] merged[r], sorted) && merged[r].start
                    <= merged[r].end
            &&& forall|r: int, s: int|
                0 <= r < s < merged.len() ==> merged[r].end < merged[s].start
            &&& forall|x: int|
                0 <= x < upto ==> kept_in(#[trigger] sorted[x], merged)
        }),
    decreases upto,
{
    if upto > 0 {
        lemma_merged_from(sorted, upto - 1);
        let before = marks_merged(sorted, upto - 1);
        let merged = marks_merged(sorted, upto);
        let mark = sorted[upto - 1];
        if upto > 1 {
            assert(!mark_before(sorted[upto - 1], sorted[upto - 2]));
        }
        if before.len() > 0 && mark.start <= before.last().end {
            let last = before.last();
            let joined = mark_joined(last, mark);
            let n: int = before.len() - 1;
            assert(made_of(before[n], sorted));
            assert(merged == before.drop_last().push(joined));
            assert forall|part: Seq<char>| #[trigger]
                joined.parts.contains(part) <==> last.parts.contains(part) || mark.parts.contains(
                part,
            ) by {
                lemma_sorted_parts(last.parts, mark.parts, part);
            }
            assert(made_of(joined, sorted)) by {
                assert(sorted[upto - 1].end == mark.end);
                assert forall|x: int| joined.start <= x < joined.end implies #[trigger] in_one(
                    x,
                    sorted,
                ) by {
                    if x >= last.end {
                        assert(sorted[upto - 1].start <= x < sorted[upto - 1].end);
                    }
                }
                assert forall|part: Seq<char>| #[trigger] joined.parts.contains(part) implies exists|
                    i: int,
                |
                    0 <= i < sorted.len() && (#[trigger] sorted[i]).parts.contains(part)
                        && joined.start <= sorted[i].start && sorted[i].end <= joined.end by {
                    if last.parts.contains(part) {
                        let i = choose|i: int|
                            0 <= i < sorted.len() && (#[trigger] sorted[i]).parts.contains(part)
                                && last.start <= sorted[i].start && sorted[i].end <= last.end;
                        assert(sorted[i].parts.contains(part));
                    } else {
                        assert(sorted[upto - 1].parts.contains(part));
                    }
                }
                if joined.has_span {
                    if last.has_span {
                        let i = choose|i: int|
                            0 <= i < sorted.len() && (#[trigger] sorted[i]).has_span && last.start
                                <= sorted[i].start && sorted[i].end <= last.end;
                        assert(sorted[i].has_span);
                    } else {
                        assert(sorted[upto - 1].has_span);
                    }
                }
            }
            assert forall|r: int| 0 <= r < merged.len() implies made_of(
                #[trigger] merged[r],
                sorted,
            ) && merged[r].start <= merged[r].end by {
                if r < n {
                    assert(merged[r] == before[r]);
                }
            }
            assert forall|r: int, s: int| 0 <= r < s < merged.len() implies merged[r].end
                < merged[s].start by {
                assert(before[r].end < before[s].start);
            }
            assert forall|x: int| 0 <= x < upto implies kept_in(#[trigger] sorted[x], merged) by {
                if x == upto - 1 {
                    assert(merged[n] == joined);
                    assert(merged[n].start <= sorted[x].start);
                } else {
                    assert(kept_in(sorted[x], before));
                    let r = choose|r: int|
                        #![trigger before[r]]
                        0 <= r < before.len() && before[r].start <= sorted[x].start
                            && sorted[x].end <= before[r].end && (sorted[x].has_span
                            ==> before[r].has_span) && forall|part: Seq<char>| #[trigger]
                            sorted[x].parts.contains(part) ==> before[r].parts.contains(part);
                    if r < n {
                        assert(merged[r] == before[r]);
                        assert(merged[r].start <= sorted[x].start);
                    } else {
                        assert(merged[n] == joined);
                        assert(merged[n].start <= sorted[x].start);
                        assert(before[r] == last);
                        assert forall|part: Seq<char>| #[trigger]
                            sorted[x].parts.contains(part) implies merged[n].parts.contains(part) by {
                            assert(last.parts.contains(part));
                        }
                    }
                }
            }
        } else {
            let n = before.len() as int;
            assert(merged == before.push(mark));
            assert(made_of(mark, sorted)) by {
                assert(sorted[upto - 1] == mark);
                assert forall|x: int| mark.start <= x < mark.end implies #[trigger] in_one(
                    x,
                    sorted,
                ) by {
                    assert(sorted[upto - 1].start <= x < sorted[upto - 1].end);
                }
                assert forall|part: Seq<char>| #[trigger] mark.parts.contains(part) implies exists|
                    i: int,
                |
                    0 <= i < sorted.len() && (#[trigger] sorted[i]).parts.contains(part)
                        && mark.start <= sorted[i].start && sorted[i].end <= mark.end by {
                    assert(sorted[upto - 1].parts.contains(part));
                }
            }
            assert forall|r: int| 0 <= r < merged.len() implies made_of(
                #[trigger] merged[r],
                sorted,
            ) && merged[r].start <= merged[r].end by {
                if r < n {
                    assert(merged[r] == before[r]);
                }
            }
            assert forall|r: int, s: int| 0 <= r < s < merged.len() implies merged[r].end
                < merged[s].start by {
                if s < n {
                    assert(before[r].end < before[s].start);
                } else {
                    assert(merged[r] == before[r]);
                    if r < n - 1 {
                        assert(before[r].end < before[n - 1].start);
                        assert(before[n - 1].start <= before[n - 1].end);
                    }
                }
            }
            assert forall|x: int| 0 <= x < upto implies kept_in(#[trigger] sorted[x], merged) by {
                if x == upto - 1 {
                    assert(merged[n].start <= sorted[x].start);
                } else {
                    assert(kept_in(sorted[x], before));
                    let r = choose|r: int|
                        #![trigger before[r]]
                        0 <= r < before.len() && before[r].start <= sorted[x].start
                            && sorted[x].end <= before[r].end && (sorted[x].has_span
                            ==> before[r].has_span) && forall|part: Seq<char>| #[trigger]
                            sorted[x].parts.contains(part) ==> before[r].parts.contains(part);
                    assert(merged[r] == before[r]);
                    assert(merged[r].start <= sorted[x].start);
                }
            }
        }
    }
}

/// Merging marks what was to be marked and nothing else. Each merged stretch is
/// made of given ones, each given one lies in a merged one that shows its query
/// parts, and between two merged ones there is a gap.
pub proof fn law_merging_marks_nothing_new(marks: Seq<Mark>)
    requires
        forall|i: int| 0 <= i < marks.len() ==> (#[trigger] marks[i]).start <= marks[i].end,
    ensures
        ({
            let merged = merged_marks(marks);
            &&& forall|r: int| 0 <= r < merged.len() ==> made_of(#[trigger] merged[r], marks)
            &&& forall|r: int, s: int|
                0 <= r < s < merged.len() ==> merged[r].end < merged[s].start
            &&& forall|x: int|
                0 <= x < marks.len() ==> kept_in(#[trigger] marks[x], merged)
        }),
{
    let sorted = marks_sorted(marks);
    let merged = merged_marks(marks);
    lemma_marks_sorted(marks);
    assert forall|i: int| 0 <= i < sorted.len() implies (#[trigger] sorted[i]).start
        <= sorted[i].end by {
        assert(sorted.contains(sorted[i]));
        assert(marks.contains(sorted[i]));
    }
    lemma_merged_from(sorted, sorted.len() as int);
    assert forall|r: int| 0 <= r < merged.len() implies made_of(#[trigger] merged[r], marks) by {
        lemma_same_marks(merged[r], sorted, marks);
    }
    assert forall|x: int| 0 <= x < marks.len() implies kept_in(#[trigger] marks[x], merged) by {
        assert(marks.contains(marks[x]));
        assert(sorted.contains(marks[x]));
        let y = choose|y: int| 0 <= y < sorted.len() && sorted[y] == marks[x];
        assert(kept_in(sorted[y], merged));
    }
}

proof fn lemma_same_marks(merged: Mark, sorted: Seq<Mark>, marks: Seq<Mark>)
    requires
        made_of(merged, sorted),
        forall|mark: Mark| #[trigger] sorted.contains(mark) ==> marks.contains(mark),
    ensures
        made_of(merged, marks),
{
    assert forall|i: int| 0 <= i < sorted.len() implies exists|j: int|
        0 <= j < marks.len() && #[trigger] marks[j] == #[trigger] sorted[i] by {
        assert(sorted.contains(sorted[i]));
        assert(marks.contains(sorted[i]));
        let j = choose|j: int| 0 <= j < marks.len() && marks[j] == sorted[i];
        assert(marks[j] == sorted[i]);
    }
    assert forall|x: int| merged.start <= x < merged.end implies #[trigger] in_one(x, marks) by {
        assert(in_one(x, sorted));
        let i = choose|i: int|
            0 <= i < sorted.len() && (#[trigger] sorted[i]).start <= x < sorted[i].end;
        let j = choose|j: int| 0 <= j < marks.len() && #[trigger] marks[j] == sorted[i];
        assert(marks[j].start <= x < marks[j].end);
    }
    assert forall|part: Seq<char>| #[trigger] merged.parts.contains(part) implies exists|i: int|
        0 <= i < marks.len() && (#[trigger] marks[i]).parts.contains(part) && merged.start
            <= marks[i].start && marks[i].end <= merged.end by {
        let i = choose|i: int|
            0 <= i < sorted.len() && (#[trigger] sorted[i]).parts.contains(part) && merged.start
                <= sorted[i].start && sorted[i].end <= merged.end;
        let j = choose|j: int| 0 <= j < marks.len() && #[trigger] marks[j] == sorted[i];
        assert(marks[j].parts.contains(part));
    }
}

/// The first position that is not of tokens there are is refused: one that starts
/// before the first token, ends behind the last, or ends before it starts.
pub proof fn law_the_first_wrong_position_is_refused(
    positions: Seq<MatchPosition>,
    tokens: nat,
    i: int,
    x: int,
)
    requires
        0 <= i <= x <= positions.len(),
        forall|y: int|
            i <= y < x ==> 0 <= (#[trigger] positions[y]).start <= positions[y].end < tokens,
        x < positions.len() ==> !(0 <= positions[x].start <= positions[x].end < tokens),
    ensures
        first_invalid(positions, tokens, i) == (if x < positions.len() {
            Some(positions[x])
        } else {
            None
        }),
    decreases x - i,
{
    if i < x {
        assert(0 <= positions[i].start <= positions[i].end < tokens);
        law_the_first_wrong_position_is_refused(positions, tokens, i + 1, x);
    }
}

} // verus!
