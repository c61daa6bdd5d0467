//! What a standalone search finds.

use crate::laws::ranking::{is_better, law_better_rows_rank_first};
use crate::ranking::{in_rank_order, ranks_before, Row};
use crate::scorer::last_score;
use crate::search::{
    located, parts_of, rank_keys, scored_upto, shown as shows_rows, snippet_named, visible_upto, FetchedTid,
    SearchError, SearchRow, SnippetMode, VisibleTid,
};
use crate::tid::Tid;
use vstd::prelude::*;

verus! {

/// A row shows just this document.
pub open spec fn shown(rows: Seq<VisibleTid>, document: Tid) -> bool {
    exists|r: int| 0 <= r < rows.len() && (#[trigger] rows[r]).visible_tid == document
}

/// The row's location is the first that leads to its document.
pub open spec fn first_leads(fetched: Seq<FetchedTid>, row: VisibleTid) -> bool {
    exists|i: int|
        #![trigger fetched[i]]
        0 <= i < fetched.len() && fetched[i].member == Some(row.visible_tid)
            && fetched[i].indexed_tid == row.indexed_tid && forall|h: int|
            0 <= h < i ==> (#[trigger] fetched[h]).member != Some(row.visible_tid)
}

proof fn lemma_visible(fetched: Seq<FetchedTid>, upto: int)
    requires
        0 <= upto <= fetched.len(),
    ensures
        ({
            let rows = visible_upto(fetched, upto);
            &&& forall|i: int|
                0 <= i < upto ==> ((#[trigger] fetched[i]).member matches Some(document)
                    ==> shown(rows, document))
            &&& forall|r: int| 0 <= r < rows.len() ==> first_leads(fetched, #[trigger] rows[r])
            &&& forall|r: int, s: int|
                0 <= r < s < rows.len() ==> rows[r].visible_tid != rows[s].visible_tid
            &&& forall|document: Tid| #[trigger]
                shown(rows, document) ==> exists|i: int|
                    0 <= i < upto && (#[trigger] fetched[i]).member == Some(document)
        }),
    decreases upto,
{
    if upto > 0 {
        lemma_visible(fetched, upto - 1);
        let before = visible_upto(fetched, upto - 1);
        let rows = visible_upto(fetched, upto);
        let last = fetched[upto - 1];
        assert forall|document: Tid| shown(before, document) implies #[trigger] shown(
            rows,
            document,
        ) by {
            let r = choose|r: int|
                0 <= r < before.len() && (#[trigger] before[r]).visible_tid == document;
            assert(rows[r].visible_tid == document);
        }
        if let Some(member) = last.member {
            if rows.len() == before.len() {
                let r = choose|r: int|
                    0 <= r < before.len() && (#[trigger] before[r]).visible_tid == member;
                assert(rows[r].visible_tid == member);
            } else {
                let n = before.len() as int;
                assert(rows[n].visible_tid == member);
                assert(shown(rows, member));
                assert(!shown(before, member));
                assert forall|h: int| 0 <= h < upto - 1 implies (#[trigger] fetched[h]).member
                    != Some(member) by {}
                assert(fetched[upto - 1].member == Some(rows[n].visible_tid));
                assert(first_leads(fetched, rows[n]));
                assert forall|r: int| 0 <= r < n implies before[r].visible_tid != member by {}
            }
        }
        assert forall|r: int| 0 <= r < rows.len() implies first_leads(fetched, #[trigger] rows[r]) by {
            if r < before.len() {
                assert(rows[r] == before[r]);
            }
        }
        assert forall|r: int, s: int| 0 <= r < s < rows.len() implies rows[r].visible_tid
            != rows[s].visible_tid by {
            assert(rows[r] == before[r]);
            if s < before.len() {
                assert(rows[s] == before[s]);
            }
        }
        assert forall|document: Tid| #[trigger] shown(rows, document) implies exists|i: int|
            0 <= i < upto && (#[trigger] fetched[i]).member == Some(document) by {
            let r = choose|r: int|
                0 <= r < rows.len() && (#[trigger] rows[r]).visible_tid == document;
            if r < before.len() {
                assert(before[r].visible_tid == document);
                assert(shown(before, document));
            } else {
                assert(fetched[upto - 1].member == Some(document));
            }
        }
    }
}

/// Nothing visible is lost, and nothing is made up: each location that leads to
/// a visible document has a row that shows just that document, each row comes
/// from the first location that leads to its document, and no document is shown
/// twice.
pub proof fn law_visible_documents_are_found(fetched: Seq<FetchedTid>)
    ensures
        ({
            let rows = visible_upto(fetched, fetched.len() as int);
            &&& forall|i: int|
                0 <= i < fetched.len() ==> ((#[trigger] fetched[i]).member matches Some(document)
                    ==> shown(rows, document))
            &&& forall|r: int| 0 <= r < rows.len() ==> first_leads(fetched, #[trigger] rows[r])
            &&& forall|r: int, s: int|
                0 <= r < s < rows.len() ==> rows[r].visible_tid != rows[s].visible_tid
        }),
{
    lemma_visible(fetched, fetched.len() as int);
}

/// The location has this score: the last row with it says so.
pub open spec fn has_score(scored: Seq<Row>, tid: Tid, score: u32) -> bool {
    exists|i: int|
        #![trigger scored[i]]
        0 <= i < scored.len() && scored[i] == (Row { score, tid }) && forall|j: int|
            i < j < scored.len() ==> (#[trigger] scored[j]).tid != tid
}

pub(crate) proof fn lemma_last_score(scored: Seq<Row>, tid: Tid)
    ensures
        match last_score(scored, tid) {
            Some(score) => has_score(scored, tid, score),
            None => forall|i: int| 0 <= i < scored.len() ==> (#[trigger] scored[i]).tid != tid,
        },
        forall|score: u32| #[trigger]
            has_score(scored, tid, score) ==> last_score(scored, tid) == Some(score),
    decreases scored.len(),
{
    if scored.len() > 0 {
        let rest = scored.drop_last();
        lemma_last_score(rest, tid);
        let n: int = scored.len() - 1;
        if scored.last().tid == tid {
            assert(scored[n] == (Row { score: scored.last().score, tid }));
        } else if let Some(score) = last_score(rest, tid) {
            let i = choose|i: int|
                #![trigger rest[i]]
                0 <= i < rest.len() && rest[i] == (Row { score, tid }) && forall|j: int|
                    i < j < rest.len() ==> (#[trigger] rest[j]).tid != tid;
            assert(scored[i] == (Row { score, tid }));
            assert forall|j: int| i < j < scored.len() implies (#[trigger] scored[j]).tid != tid by {
                if j < n {
                    assert(rest[j].tid != tid);
                }
            }
        } else {
            assert forall|i: int| 0 <= i < scored.len() implies (#[trigger] scored[i]).tid
                != tid by {
                if i < n {
                    assert(rest[i].tid != tid);
                }
            }
        }
        assert forall|score: u32| #[trigger] has_score(scored, tid, score) implies last_score(
            scored,
            tid,
        ) == Some(score) by {
            let i = choose|i: int|
                #![trigger scored[i]]
                0 <= i < scored.len() && scored[i] == (Row { score, tid }) && forall|j: int|
                    i < j < scored.len() ==> (#[trigger] scored[j]).tid != tid;
            if i < n {
                assert(scored[n].tid != tid);
                assert(rest[i] == (Row { score, tid }));
                assert forall|j: int| i < j < rest.len() implies (#[trigger] rest[j]).tid != tid by {
                    assert(scored[j].tid != tid);
                }
                assert(has_score(rest, tid, score));
            }
        }
    }
}

proof fn lemma_scored(visible: Seq<VisibleTid>, scored: Seq<Row>, upto: int)
    requires
        0 <= upto <= visible.len(),
    ensures
        forall|row: SearchRow| #[trigger]
            scored_upto(visible, scored, upto).contains(row) <==> visible.take(upto).contains(row.row)
                && has_score(scored, row.row.indexed_tid, row.score),
    decreases upto,
{
    if upto > 0 {
        lemma_scored(visible, scored, upto - 1);
        let last = visible[upto - 1];
        let before = scored_upto(visible, scored, upto - 1);
        let all = scored_upto(visible, scored, upto);
        let head = visible.take(upto - 1);
        let longer = visible.take(upto);
        assert(longer =~= head.push(last));
        lemma_last_score(scored, last.indexed_tid);
        assert forall|row: SearchRow| #[trigger] all.contains(row) <==> longer.contains(row.row)
            && has_score(scored, row.row.indexed_tid, row.score) by {
            assert(before.contains(row) <==> head.contains(row.row) && has_score(
                scored,
                row.row.indexed_tid,
                row.score,
            ));
            assert(longer.contains(row.row) <==> head.contains(row.row) || row.row == last) by {
                assert(longer[upto - 1] == last);
                if head.contains(row.row) {
                    let x = choose|x: int| 0 <= x < head.len() && head[x] == row.row;
                    assert(longer[x] == row.row);
                }
                if longer.contains(row.row) && row.row != last {
                    let x = choose|x: int| 0 <= x < longer.len() && longer[x] == row.row;
                    assert(head[x] == row.row);
                }
            }
            if let Some(score) = last_score(scored, last.indexed_tid) {
                let added = SearchRow { score, row: last };
                assert(all == before.push(added));
                assert(all.contains(row) <==> before.contains(row) || row == added) by {
                    assert(all[before.len() as int] == added);
                    if before.contains(row) {
                        let x = choose|x: int| 0 <= x < before.len() && before[x] == row;
                        assert(all[x] == row);
                    }
                    if all.contains(row) && row != added {
                        let x = choose|x: int| 0 <= x < all.len() && all[x] == row;
                        assert(before[x] == row);
                    }
                }
            } else if row.row == last && has_score(scored, row.row.indexed_tid, row.score) {
                assert(last_score(scored, last.indexed_tid) == Some(row.score));
            }
        }
    } else {
        assert(visible.take(upto) =~= Seq::empty());
    }
}

/// What a row is ranked by: its score and the location it is shown at.
pub open spec fn shown_as(row: SearchRow) -> Row {
    Row { score: row.score, tid: row.row.visible_tid }
}

/// A search shows visible documents with their scores, the best ones first, and
/// leaves out none that is better than one it shows. It leaves out documents only
/// when it shows as many as were asked for.
pub proof fn law_a_search_shows_the_best(
    visible: Seq<VisibleTid>,
    scored: Seq<Row>,
    limit: nat,
    rows: Seq<SearchRow>,
)
    requires
        shows_rows(visible, scored, limit, rows),
    ensures
        rows.len() <= limit,
        forall|i: int|
            0 <= i < rows.len() ==> visible.contains((#[trigger] rows[i]).row) && has_score(
                scored,
                rows[i].row.indexed_tid,
                rows[i].score,
            ),
        forall|i: int, j: int|
            0 <= i < j < rows.len() ==> !is_better(shown_as(rows[j]), shown_as(rows[i])),
        forall|row: SearchRow|
            visible.contains(row.row) && has_score(scored, row.row.indexed_tid, row.score)
                ==> #[trigger] rows.contains(row) || (rows.len() == limit && forall|i: int|
                0 <= i < rows.len() ==> !is_better(shown_as(row), shown_as(#[trigger] rows[i]))),
{
    broadcast use vstd::seq_lib::group_to_multiset_ensures;

    let found = scored_upto(visible, scored, visible.len() as int);
    let sorted = choose|sorted: Seq<SearchRow>| #[trigger]
        in_rank_order(rank_keys(sorted)) && sorted.to_multiset() == found.to_multiset() && rows
            == (if limit < sorted.len() {
            sorted.take(limit as int)
        } else {
            sorted
        });
    lemma_scored(visible, scored, visible.len() as int);
    assert(visible.take(visible.len() as int) =~= visible);
    assert forall|row: SearchRow| #[trigger] sorted.contains(row) <==> found.contains(row) by {
        assert(sorted.to_multiset().contains(row) <==> sorted.contains(row));
        assert(found.to_multiset().contains(row) <==> found.contains(row));
    }
    let keys = rank_keys(sorted);
    assert forall|i: int, j: int| 0 <= i < j < sorted.len() implies !is_better(
        shown_as(sorted[j]),
        shown_as(sorted[i]),
    ) by {
        assert(keys[i] == shown_as(sorted[i]) && keys[j] == shown_as(sorted[j]));
        assert(!ranks_before(keys[j], keys[i]));
        law_better_rows_rank_first(keys[j], keys[i]);
    }
    assert forall|i: int| 0 <= i < rows.len() implies visible.contains((#[trigger] rows[i]).row)
        && has_score(scored, rows[i].row.indexed_tid, rows[i].score) by {
        assert(sorted[i] == rows[i]);
        assert(sorted.contains(rows[i]));
        assert(found.contains(rows[i]));
    }
    assert forall|row: SearchRow|
        visible.contains(row.row) && has_score(
            scored,
            row.row.indexed_tid,
            row.score,
        ) implies #[trigger] rows.contains(row) || (rows.len() == limit && forall|i: int|
        0 <= i < rows.len() ==> !is_better(shown_as(row), shown_as(#[trigger] rows[i]))) by {
        assert(found.contains(row));
        assert(sorted.contains(row));
        let x = choose|x: int| 0 <= x < sorted.len() && sorted[x] == row;
        if x < rows.len() {
            assert(rows[x] == row);
        } else {
            assert forall|i: int| 0 <= i < rows.len() implies !is_better(
                shown_as(row),
                shown_as(#[trigger] rows[i]),
            ) by {
                assert(sorted[i] == rows[i]);
            }
        }
    }
}

/// What a user calls a kind of snippet.
pub open spec fn snippet_name(mode: SnippetMode) -> Seq<char> {
    match mode {
        SnippetMode::Nothing => "none"@,
        SnippetMode::Html => "html"@,
        SnippetMode::Ansi => "ansi"@,
    }
}

/// A kind of snippet is had by its name, and by no other.
pub proof fn law_snippets_are_named(mode: SnippetMode, name: Seq<char>)
    ensures
        snippet_named(name) == Ok::<SnippetMode, SearchError>(mode) <==> name == snippet_name(mode),
{
    reveal_strlit("none");
    reveal_strlit("html");
    reveal_strlit("ansi");
    assert("none"@[0] == 'n' && "html"@[0] == 'h' && "ansi"@[0] == 'a');
}

/// A location's block is the two halves that it is stored in, the upper one first,
/// and any offset that a page has is of a location.
pub proof fn law_a_location_is_its_block_and_offset(
    tid: Tid,
    parts: (u16, u16, u16),
    max_offset: u16,
)
    ensures
        parts_of(tid).0 * 0x1_0000 + parts_of(tid).1 == tid.block,
        parts_of(tid).2 == tid.offset,
        located(parts, max_offset) is Some <==> 0 < parts.2 && parts.2 <= max_offset,
        located(parts, max_offset) matches Some(found) ==> found.block == parts.0 * 0x1_0000
            + parts.1 && found.offset == parts.2,
{
}

} // verus!
