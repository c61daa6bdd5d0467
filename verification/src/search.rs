//! Standalone search: the best visible documents of a query, without a plan.

use crate::fx::{fx_set, fx_set_insert};
use crate::laws::requests::{count_granted, lemma_search_granted, path_fits, search_granted};
use crate::ranking::{at_most, law_ranked, lemma_order_unique, rank, ranked, in_rank_order, ranks_before, Row};
use crate::scorer::{last_score, KnownScores};
use crate::text::same;
use crate::tid::Tid;
use crate::top_k::{TopK, PRUNE_MAX_K};
use vstd::prelude::*;

verus! {

/// An indexed location whose chain has a visible member.
#[derive(Clone, Copy, Debug, PartialEq, Eq, Structural)]
pub struct VisibleTid {
    pub indexed_tid: Tid,
    pub visible_tid: Tid,
}

/// A scored visible document.
#[derive(Clone, Copy, Debug, PartialEq, Eq, Structural)]
pub struct SearchRow {
    pub score: u32,
    pub row: VisibleTid,
}

/// What was found of a location: the visible member of its chain, if any.
#[derive(Clone, Copy, Debug, PartialEq, Eq, Structural)]
pub struct FetchedTid {
    pub indexed_tid: Tid,
    pub member: Option<Tid>,
}

/// Some row shows the member.
pub open spec fn shows(rows: Seq<VisibleTid>, member: Tid) -> bool {
    exists|i: int| 0 <= i < rows.len() && (#[trigger] rows[i]).visible_tid == member
}

/// The visible members of the first `upto` locations, each once, with the
/// first location that leads to it.
pub open spec fn visible_upto(fetched: Seq<FetchedTid>, upto: int) -> Seq<VisibleTid>
    decreases upto,
{
    if upto <= 0 || upto > fetched.len() {
        Seq::empty()
    } else {
        let before = visible_upto(fetched, upto - 1);
        match fetched[upto - 1].member {
            Some(member) => if shows(before, member) {
                before
            } else {
                before.push(
                    VisibleTid {
                        indexed_tid: fetched[upto - 1].indexed_tid,
                        visible_tid: member,
                    },
                )
            },
            None => before,
        }
    }
}

/// Filters locations to visible members, keeping the first location for each
/// member.
pub fn visible_tid_pairs(fetched: &Vec<FetchedTid>) -> (visible: Vec<VisibleTid>)
    ensures
        visible@ == visible_upto(fetched@, fetched.len() as int),
{
    let mut visible: Vec<VisibleTid> = Vec::new();
    let mut seen = fx_set();
    let mut i: usize = 0;
    while i < fetched.len()
        invariant
            i <= fetched.len(),
            visible@ == visible_upto(fetched@, i as int),
            forall|tid: Tid| #[trigger]
                seen@.contains(tid.key() as u64) <==> shows(visible@, tid),
        decreases fetched.len() - i,
    {
        if let Some(member) = fetched[i].member {
            let ghost was = seen@;
            let ghost before = visible@;
            assert(was.contains(member.key() as u64) <==> shows(before, member));
            if fx_set_insert(&mut seen, member.number()) {
                visible.push(
                    VisibleTid { indexed_tid: fetched[i].indexed_tid, visible_tid: member },
                );
                proof {
                    assert forall|tid: Tid| #[trigger] seen@.contains(tid.key() as u64) <==> shows(
                        visible@,
                        tid,
                    ) by {
                        crate::tid::lemma_key_injective(tid, member);
                        assert(was.contains(tid.key() as u64) <==> shows(before, tid));
                        if shows(before, tid) {
                            let x = choose|x: int|
                                0 <= x < before.len() && (#[trigger] before[x]).visible_tid == tid;
                            assert(visible@[x].visible_tid == tid);
                        }
                        if shows(visible@, tid) && tid != member {
                            let x = choose|x: int|
                                0 <= x < visible@.len() && (#[trigger] visible@[x]).visible_tid
                                    == tid;
                            assert(before[x].visible_tid == tid);
                        }
                        assert(visible@[before.len() as int].visible_tid == member);
                    }
                }
            } else {
                proof {
                    assert forall|tid: Tid| #[trigger] seen@.contains(tid.key() as u64) <==> shows(
                        visible@,
                        tid,
                    ) by {
                        crate::tid::lemma_key_injective(tid, member);
                        assert(was.contains(tid.key() as u64) <==> shows(before, tid));
                    }
                }
            }
        }
        i = i + 1;
    }
    visible
}

/// No visible document is found twice.
pub proof fn law_visible_once(fetched: Seq<FetchedTid>, upto: int)
    requires
        0 <= upto <= fetched.len(),
    ensures
        forall|i: int, j: int|
            0 <= i < j < visible_upto(fetched, upto).len() ==> visible_upto(
                fetched,
                upto,
            )[i].visible_tid != visible_upto(fetched, upto)[j].visible_tid,
    decreases upto,
{
    if upto > 0 {
        law_visible_once(fetched, upto - 1);
        let before = visible_upto(fetched, upto - 1);
        let all = visible_upto(fetched, upto);
        assert forall|i: int, j: int| 0 <= i < j < all.len() implies all[i].visible_tid
            != all[j].visible_tid by {
            if j < before.len() {
                assert(before[i].visible_tid != before[j].visible_tid);
            } else {
                assert(before[i].visible_tid == all[i].visible_tid);
            }
        }
    }
}

/// The score and the shown location of a row, by which it is ranked.
pub open spec fn rank_key(row: SearchRow) -> Row {
    Row { score: row.score, tid: row.row.visible_tid }
}

/// The rank keys of rows.
pub open spec fn rank_keys(rows: Seq<SearchRow>) -> Seq<Row> {
    rows.map_values(|row: SearchRow| rank_key(row))
}

/// Whether `a` is shown before `b`.
fn row_before(a: SearchRow, b: SearchRow) -> (earlier: bool)
    ensures
        earlier == ranks_before(rank_key(a), rank_key(b)),
{
    rank(
        Row { score: a.score, tid: a.row.visible_tid },
        Row { score: b.score, tid: b.row.visible_tid },
    )
}

fn merge(left: &Vec<SearchRow>, right: &Vec<SearchRow>) -> (merged: Vec<SearchRow>)
    requires
        in_rank_order(rank_keys(left@)),
        in_rank_order(rank_keys(right@)),
    ensures
        in_rank_order(rank_keys(merged@)),
        merged@.to_multiset() == left@.to_multiset().add(right@.to_multiset()),
{
    let mut merged: Vec<SearchRow> = Vec::new();
    let mut i: usize = 0;
    let mut j: usize = 0;
    proof {
        assert(left@.take(0) =~= Seq::empty());
        assert(right@.take(0) =~= Seq::empty());
        broadcast use vstd::seq_lib::group_to_multiset_ensures;
        assert(merged@.to_multiset() =~= left@.take(0).to_multiset().add(
            right@.take(0).to_multiset(),
        ));
    }
    while i < left.len() || j < right.len()
        invariant
            in_rank_order(rank_keys(left@)),
            in_rank_order(rank_keys(right@)),
            i <= left.len(),
            j <= right.len(),
            in_rank_order(rank_keys(merged@)),
            merged@.to_multiset() == left@.take(i as int).to_multiset().add(
                right@.take(j as int).to_multiset(),
            ),
            forall|x: int, y: int|
                0 <= x < merged.len() && i <= y < left.len() ==> !ranks_before(
                    rank_key(#[trigger] left@[y]),
                    rank_key(#[trigger] merged@[x]),
                ),
            forall|x: int, y: int|
                0 <= x < merged.len() && j <= y < right.len() ==> !ranks_before(
                    rank_key(#[trigger] right@[y]),
                    rank_key(#[trigger] merged@[x]),
                ),
        decreases left.len() - i + right.len() - j,
    {
        broadcast use vstd::seq_lib::group_to_multiset_ensures;

        let ghost was = merged@;
        if j == right.len() || (i < left.len() && !row_before(right[j], left[i])) {
            merged.push(left[i]);
            proof {
                assert(left@.take(i + 1) =~= left@.take(i as int).push(left@[i as int]));
                assert(merged@.to_multiset() =~= left@.take(i + 1).to_multiset().add(
                    right@.take(j as int).to_multiset(),
                ));
                lemma_keys_pushed(was, left@[i as int]);
                assert forall|y: int| j <= y < right.len() implies !ranks_before(
                    rank_key(#[trigger] right@[y]),
                    rank_key(left@[i as int]),
                ) by {
                    if y > j {
                        assert(!ranks_before(
                            rank_keys(right@)[y],
                            rank_keys(right@)[j as int],
                        ));
                    }
                }
                assert forall|y: int| i < y < left.len() implies !ranks_before(
                    rank_key(#[trigger] left@[y]),
                    rank_key(left@[i as int]),
                ) by {
                    assert(!ranks_before(rank_keys(left@)[y], rank_keys(left@)[i as int]));
                }
            }
            i = i + 1;
        } else {
            merged.push(right[j]);
            proof {
                assert(right@.take(j + 1) =~= right@.take(j as int).push(right@[j as int]));
                assert(merged@.to_multiset() =~= left@.take(i as int).to_multiset().add(
                    right@.take(j + 1).to_multiset(),
                ));
                lemma_keys_pushed(was, right@[j as int]);
                assert forall|y: int| i <= y < left.len() implies !ranks_before(
                    rank_key(#[trigger] left@[y]),
                    rank_key(right@[j as int]),
                ) by {
                    if y > i {
                        assert(!ranks_before(rank_keys(left@)[y], rank_keys(left@)[i as int]));
                    }
                }
                assert forall|y: int| j < y < right.len() implies !ranks_before(
                    rank_key(#[trigger] right@[y]),
                    rank_key(right@[j as int]),
                ) by {
                    assert(!ranks_before(rank_keys(right@)[y], rank_keys(right@)[j as int]));
                }
            }
            j = j + 1;
        }
    }
    proof {
        assert(left@.take(i as int) =~= left@);
        assert(right@.take(j as int) =~= right@);
    }
    merged
}

/// A row that comes before none of those in order keeps the order.
proof fn lemma_keys_pushed(rows: Seq<SearchRow>, row: SearchRow)
    requires
        in_rank_order(rank_keys(rows)),
        forall|x: int|
            0 <= x < rows.len() ==> !ranks_before(rank_key(row), rank_key(#[trigger] rows[x])),
    ensures
        in_rank_order(rank_keys(rows.push(row))),
{
    let all = rank_keys(rows.push(row));
    assert forall|i: int, j: int| 0 <= i < j < all.len() implies !ranks_before(all[j], all[i]) by {
        if j == rows.len() {
            assert(!ranks_before(rank_key(row), rank_key(rows[i])));
        } else {
            assert(!ranks_before(rank_keys(rows)[j], rank_keys(rows)[i]));
        }
    }
}

fn sort_range(rows: &Vec<SearchRow>, from: usize, to: usize) -> (sorted: Vec<SearchRow>)
    requires
        from <= to <= rows.len(),
    ensures
        in_rank_order(rank_keys(sorted@)),
        sorted@.to_multiset() == rows@.subrange(from as int, to as int).to_multiset(),
    decreases to - from,
{
    if to - from <= 1 {
        let mut sorted: Vec<SearchRow> = Vec::new();
        if from < to {
            sorted.push(rows[from]);
        }
        proof {
            assert(sorted@ =~= rows@.subrange(from as int, to as int));
        }
        return sorted;
    }
    let middle: usize = from + (to - from) / 2;
    let left = sort_range(rows, from, middle);
    let right = sort_range(rows, middle, to);
    proof {
        let a = rows@.subrange(from as int, middle as int);
        let b = rows@.subrange(middle as int, to as int);
        assert(rows@.subrange(from as int, to as int) =~= a + b);
        vstd::seq_lib::lemma_multiset_commutative(a, b);
    }
    merge(&left, &right)
}

/// Rows in the order they are shown: descending score, then the location they
/// are shown at.
pub fn rank_rows(rows: &Vec<SearchRow>) -> (sorted: Vec<SearchRow>)
    ensures
        in_rank_order(rank_keys(sorted@)),
        sorted@.to_multiset() == rows@.to_multiset(),
        rank_keys(sorted@) == ranked(rank_keys(rows@)),
{
    let sorted = sort_range(rows, 0, rows.len());
    proof {
        assert(rows@.subrange(0, rows@.len() as int) =~= rows@);
        law_ranked(rank_keys(rows@));
        lemma_keys_multiset(sorted@, rows@);
        lemma_order_unique(rank_keys(sorted@), ranked(rank_keys(rows@)));
    }
    sorted
}

/// The same rows have the same rank keys.
proof fn lemma_keys_multiset(a: Seq<SearchRow>, b: Seq<SearchRow>)
    requires
        a.to_multiset() == b.to_multiset(),
    ensures
        rank_keys(a).to_multiset() == rank_keys(b).to_multiset(),
    decreases a.len(),
{
    broadcast use vstd::seq_lib::group_to_multiset_ensures;

    assert(a.len() == a.to_multiset().len());
    assert(b.len() == b.to_multiset().len());
    if a.len() > 0 {
        let row = a.last();
        assert(a.to_multiset().contains(row));
        assert(b.contains(row));
        let k = choose|k: int| 0 <= k < b.len() && b[k] == row;
        let x = a.drop_last();
        let y = b.remove(k);
        assert(x.push(row) =~= a);
        assert(x.to_multiset() =~= a.to_multiset().remove(row));
        assert(y.to_multiset() =~= b.to_multiset().remove(row));
        lemma_keys_multiset(x, y);
        assert(rank_keys(a) =~= rank_keys(x).push(rank_key(row)));
        assert(rank_keys(y) =~= rank_keys(b).remove(k));
        assert(rank_keys(b)[k] == rank_key(row));
        assert(rank_keys(y).to_multiset() =~= rank_keys(b).to_multiset().remove(rank_key(row)));
        assert(rank_keys(b).contains(rank_key(row)));
        assert(rank_keys(b).to_multiset() =~= rank_keys(y).to_multiset().insert(rank_key(row)));
        assert(rank_keys(a).to_multiset() =~= rank_keys(b).to_multiset());
    } else {
        assert(rank_keys(a) =~= rank_keys(b));
    }
}

/// The visible documents among the first `upto` that have a score, with it.
pub open spec fn scored_upto(visible: Seq<VisibleTid>, scored: Seq<Row>, upto: int) -> Seq<SearchRow>
    decreases upto,
{
    if upto <= 0 || upto > visible.len() {
        Seq::empty()
    } else {
        let before = scored_upto(visible, scored, upto - 1);
        match last_score(scored, visible[upto - 1].indexed_tid) {
            Some(score) => before.push(SearchRow { score, row: visible[upto - 1] }),
            None => before,
        }
    }
}

/// Joins visible documents with the scores of their indexed locations.
fn join_scores(visible: &Vec<VisibleTid>, scored: &Vec<Row>) -> (rows: Vec<SearchRow>)
    ensures
        rows@ == scored_upto(visible@, scored@, visible.len() as int),
{
    let scores = KnownScores::of_rows(scored);
    let mut rows: Vec<SearchRow> = Vec::new();
    let mut i: usize = 0;
    while i < visible.len()
        invariant
            i <= visible.len(),
            forall|tid: Tid| #[trigger] scores.at(tid) == last_score(scored@, tid),
            rows@ == scored_upto(visible@, scored@, i as int),
        decreases visible.len() - i,
    {
        if let Some(score) = scores.get(visible[i].indexed_tid) {
            rows.push(SearchRow { score, row: visible[i] });
        }
        i = i + 1;
    }
    rows
}

/// What is shown: the first `limit` of the scored visible documents, in order.
pub open spec fn shown(
    visible: Seq<VisibleTid>,
    scored: Seq<Row>,
    limit: nat,
    rows: Seq<SearchRow>,
) -> bool {
    exists|sorted: Seq<SearchRow>| #[trigger]
        in_rank_order(rank_keys(sorted)) && sorted.to_multiset() == scored_upto(
            visible,
            scored,
            visible.len() as int,
        ).to_multiset() && rows == (if limit < sorted.len() {
            sorted.take(limit as int)
        } else {
            sorted
        })
}

fn first_rows(visible: &Vec<VisibleTid>, scored: &Vec<Row>, limit: usize) -> (rows: Vec<SearchRow>)
    ensures
        shown(visible@, scored@, limit as nat, rows@),
        rank_keys(rows@) == at_most(
            limit as nat,
            ranked(rank_keys(scored_upto(visible@, scored@, visible.len() as int))),
        ),
{
    let joined = join_scores(visible, scored);
    let mut rows = rank_rows(&joined);
    let ghost sorted = rows@;
    proof {
        assert(in_rank_order(rank_keys(sorted)));
        assert(rank_keys(sorted).len() == sorted.len());
    }
    if limit < rows.len() {
        rows.truncate(limit);
    }
    proof {
        assert(rows@ =~= if limit < sorted.len() {
            sorted.take(limit as int)
        } else {
            sorted
        });
        assert(rank_keys(rows@) =~= at_most(limit as nat, rank_keys(sorted)));
    }
    rows
}

/// The best visible documents, of all that match: `scored` are the matching
/// locations that are visible, with their scores.
pub fn exhaustive_rows(visible: &Vec<VisibleTid>, scored: &Vec<Row>, limit: usize) -> (rows: Vec<
    SearchRow,
>)
    ensures
        shown(visible@, scored@, limit as nat, rows@),
        rank_keys(rows@) == at_most(
            limit as nat,
            ranked(rank_keys(scored_upto(visible@, scored@, visible.len() as int))),
        ),
{
    first_rows(visible, scored, limit)
}

/// The best visible documents, of those that pruning found; `visible` are
/// these as far as they are visible. None when there may be others: pruning
/// left candidates out, or a location is not visible or shows what another
/// shows too.
pub fn accepted_pruned_rows(pruned: &TopK, visible: &Vec<VisibleTid>, limit: usize) -> (rows: Option<
    Vec<SearchRow>,
>)
    ensures
        rows is Some <==> pruned.complete && visible.len() == pruned.rows.len(),
        rows matches Some(found) ==> shown(visible@, pruned.rows@, limit as nat, found@)
            && rank_keys(found@) == at_most(
            limit as nat,
            ranked(rank_keys(scored_upto(visible@, pruned.rows@, visible.len() as int))),
        ),
{
    if !pruned.complete {
        return None;
    }
    if visible.len() != pruned.rows.len() {
        return None;
    }
    Some(first_rows(visible, &pruned.rows, limit))
}

/// Accepting pruned rows changes nothing: where pruning found the scores that
/// scoring every match finds, the same documents are shown.
pub proof fn law_accepted_rows_are_exhaustive(
    visible: Seq<VisibleTid>,
    pruned: Seq<Row>,
    scored: Seq<Row>,
    limit: nat,
)
    requires
        forall|i: int|
            0 <= i < visible.len() ==> last_score(pruned, (#[trigger] visible[i]).indexed_tid)
                == last_score(scored, visible[i].indexed_tid),
    ensures
        forall|rows: Seq<SearchRow>| #[trigger]
            shown(visible, pruned, limit, rows) <==> shown(visible, scored, limit, rows),
{
    lemma_same_scores(visible, pruned, scored, visible.len() as int);
}

proof fn lemma_same_scores(visible: Seq<VisibleTid>, a: Seq<Row>, b: Seq<Row>, upto: int)
    requires
        0 <= upto <= visible.len(),
        forall|i: int|
            0 <= i < visible.len() ==> last_score(a, (#[trigger] visible[i]).indexed_tid)
                == last_score(b, visible[i].indexed_tid),
    ensures
        scored_upto(visible, a, upto) == scored_upto(visible, b, upto),
    decreases upto,
{
    if upto > 0 {
        lemma_same_scores(visible, a, b, upto - 1);
        assert(last_score(a, visible[upto - 1].indexed_tid) == last_score(
            b,
            visible[upto - 1].indexed_tid,
        ));
    }
}

/// How a result shows its text.
#[derive(Clone, Copy, Debug, PartialEq, Eq, Structural)]
pub enum SnippetMode {
    Nothing,
    Html,
    Ansi,
}

/// Why a search is refused.
#[derive(Clone, Copy, Debug, PartialEq, Eq, Structural)]
pub enum SearchError {
    NullQuery,
    NotSegmented,
    NegativeLimit,
    UnknownSnippet,
    SeveralColumns,
    ExpressionKey,
    NotText,
}

impl SearchError {
    /// What the user is told.
    pub open spec fn words(self) -> Seq<char> {
        match self {
            SearchError::NullQuery => "stannum.search() query must not be NULL"@,
            SearchError::NotSegmented => "stannum.search() requires a segmented stannum index"@,
            SearchError::NegativeLimit => "stannum.search() limit must be non-negative"@,
            SearchError::UnknownSnippet =>
            "stannum.search() snippet must be one of: none, html, ansi"@,
            SearchError::SeveralColumns =>
            "stannum.search() supports a single text column until LSG4"@,
            SearchError::ExpressionKey =>
            "stannum.search() snippets require a positive text key; use snippet => 'none' for an expression index"@,
            SearchError::NotText =>
            "stannum.search() snippets require a text-compatible key column; use snippet => 'none' for degraded mode"@,
        }
    }

    /// What the user is told.
    pub fn message(self) -> (text: &'static str)
        ensures
            text@ == self.words(),
    {
        match self {
            SearchError::NullQuery => "stannum.search() query must not be NULL",
            SearchError::NotSegmented => "stannum.search() requires a segmented stannum index",
            SearchError::NegativeLimit => "stannum.search() limit must be non-negative",
            SearchError::UnknownSnippet =>
            "stannum.search() snippet must be one of: none, html, ansi",
            SearchError::SeveralColumns =>
            "stannum.search() supports a single text column until LSG4",
            SearchError::ExpressionKey =>
            "stannum.search() snippets require a positive text key; use snippet => 'none' for an expression index",
            SearchError::NotText =>
            "stannum.search() snippets require a text-compatible key column; use snippet => 'none' for degraded mode",
        }
    }
}

/// The mode that a word names.
pub open spec fn snippet_named(snippet: Seq<char>) -> Result<SnippetMode, SearchError> {
    if snippet == "none"@ {
        Ok(SnippetMode::Nothing)
    } else if snippet == "html"@ {
        Ok(SnippetMode::Html)
    } else if snippet == "ansi"@ {
        Ok(SnippetMode::Ansi)
    } else {
        Err(SearchError::UnknownSnippet)
    }
}

/// The mode that a word names.
pub fn validate_snippet(snippet: &str) -> (mode: Result<SnippetMode, SearchError>)
    ensures
        mode == snippet_named(snippet@),
{
    if same(snippet, "none") {
        Ok(SnippetMode::Nothing)
    } else if same(snippet, "html") {
        Ok(SnippetMode::Html)
    } else if same(snippet, "ansi") {
        Ok(SnippetMode::Ansi)
    } else {
        Err(SearchError::UnknownSnippet)
    }
}

/// The column that results show, when the index has one key column that can
/// be shown: not an expression, and of a text type.
pub open spec fn shape_of(key_columns: i16, key: i16, text: bool, snippets: bool) -> Result<
    i16,
    SearchError,
> {
    if key_columns != 1 {
        Err(SearchError::SeveralColumns)
    } else if !snippets {
        Ok(key)
    } else if key <= 0 {
        Err(SearchError::ExpressionKey)
    } else if !text {
        Err(SearchError::NotText)
    } else {
        Ok(key)
    }
}

/// The column that results show.
pub fn validate_shape(key_columns: i16, key: i16, text: bool, snippets: bool) -> (column: Result<
    i16,
    SearchError,
>)
    ensures
        column == shape_of(key_columns, key, text, snippets),
{
    if key_columns != 1 {
        return Err(SearchError::SeveralColumns);
    }
    if !snippets {
        return Ok(key);
    }
    if key <= 0 {
        return Err(SearchError::ExpressionKey);
    }
    if !text {
        return Err(SearchError::NotText);
    }
    Ok(key)
}

/// What a search asks for, once it is checked.
#[derive(Clone, Copy, Debug, PartialEq, Eq, Structural)]
pub struct SearchRequest {
    pub limit: usize,
    pub mode: SnippetMode,
    pub column: i16,
}

/// Checks a search in the order the user is told of what is wrong with it.
pub fn check_search(
    null_query: bool,
    segmented: bool,
    limit: i32,
    snippet: &str,
    key_columns: i16,
    key: i16,
    text: bool,
) -> (request: Result<SearchRequest, SearchError>)
    ensures
        request == (if null_query {
            Err(SearchError::NullQuery)
        } else if !segmented {
            Err(SearchError::NotSegmented)
        } else if limit < 0 {
            Err(SearchError::NegativeLimit)
        } else {
            match snippet_named(snippet@) {
                Err(error) => Err(error),
                Ok(mode) => match shape_of(key_columns, key, text, mode != SnippetMode::Nothing) {
                    Err(error) => Err(error),
                    Ok(column) => Ok(SearchRequest { limit: limit as usize, mode, column }),
                },
            }
        }),
        search_granted(
            null_query,
            segmented,
            limit,
            snippet@,
            key_columns,
            key,
            text,
            request,
        ),
{
    proof {
        lemma_search_granted(
            null_query,
            segmented,
            limit,
            snippet@,
            key_columns,
            key,
            text,
        );
    }
    if null_query {
        return Err(SearchError::NullQuery);
    }
    if !segmented {
        return Err(SearchError::NotSegmented);
    }
    if limit < 0 {
        return Err(SearchError::NegativeLimit);
    }
    let mode = match validate_snippet(snippet) {
        Ok(mode) => mode,
        Err(error) => {
            return Err(error);
        },
    };
    match validate_shape(key_columns, key, text, mode != SnippetMode::Nothing) {
        Ok(column) => Ok(SearchRequest { limit: limit as usize, mode, column }),
        Err(error) => Err(error),
    }
}

/// Why a count of matching documents is refused.
#[derive(Clone, Copy, Debug, PartialEq, Eq, Structural)]
pub enum CountError {
    NullQuery,
    NotSegmented,
    SeveralColumns,
}

impl CountError {
    /// What the user is told.
    pub open spec fn words(self) -> Seq<char> {
        match self {
            CountError::NullQuery => "stannum.search_count() query must not be NULL"@,
            CountError::NotSegmented =>
            "stannum.search_count() requires a segmented stannum index"@,
            CountError::SeveralColumns => SearchError::SeveralColumns.words(),
        }
    }

    /// What the user is told.
    pub fn message(self) -> (text: &'static str)
        ensures
            text@ == self.words(),
    {
        match self {
            CountError::NullQuery => "stannum.search_count() query must not be NULL",
            CountError::NotSegmented =>
            "stannum.search_count() requires a segmented stannum index",
            CountError::SeveralColumns => SearchError::SeveralColumns.message(),
        }
    }
}

/// Checks a count in the order the user is told of what is wrong with it.
pub fn check_search_count(null_query: bool, segmented: bool, key_columns: i16) -> (checked: Result<
    (),
    CountError,
>)
    ensures
        checked == (if null_query {
            Err(CountError::NullQuery)
        } else if !segmented {
            Err(CountError::NotSegmented)
        } else if key_columns != 1 {
            Err(CountError::SeveralColumns)
        } else {
            Ok(())
        }),
        count_granted(null_query, segmented, key_columns, checked),
{
    if null_query {
        return Err(CountError::NullQuery);
    }
    if !segmented {
        return Err(CountError::NotSegmented);
    }
    if key_columns != 1 {
        return Err(CountError::SeveralColumns);
    }
    Ok(())
}

/// How a search finds its rows.
#[derive(Clone, Copy, Debug, PartialEq, Eq, Structural)]
pub enum SearchPath {
    /// There are none to find.
    Nothing,
    /// By pruning and, where that is not accepted, by scoring every match.
    Pruned,
    /// By scoring every match.
    Exhaustive,
}

/// How a search for `limit` rows finds them.
pub fn search_path(limit: usize) -> (path: SearchPath)
    ensures
        path == (if limit == 0 {
            SearchPath::Nothing
        } else if limit <= PRUNE_MAX_K {
            SearchPath::Pruned
        } else {
            SearchPath::Exhaustive
        }),
        path_fits(limit, path),
{
    if limit == 0 {
        SearchPath::Nothing
    } else if limit <= PRUNE_MAX_K {
        SearchPath::Pruned
    } else {
        SearchPath::Exhaustive
    }
}

/// Whether a row is still shown when its text is fetched: the chain of its
/// location leads where it did.
pub fn still_shown(row: VisibleTid, found: Option<Tid>) -> (is: bool)
    ensures
        is == (found == Some(row.visible_tid)),
{
    match found {
        Some(tid) => tid == row.visible_tid,
        None => false,
    }
}

/// The two halves of a block number, high and low, with the line pointer.
pub open spec fn parts_of(tid: Tid) -> (u16, u16, u16) {
    ((tid.block / 65536) as u16, (tid.block % 65536) as u16, tid.offset)
}

/// The location that the halves of a block number and a line pointer are, when
/// a block of the heap has such a line pointer.
pub open spec fn located(parts: (u16, u16, u16), max_offset: u16) -> Option<Tid> {
    if 1 <= parts.2 <= max_offset {
        Some(Tid { block: (parts.0 * 65536 + parts.1) as u32, offset: parts.2 })
    } else {
        None
    }
}

/// The two halves of a block number, high and low, with the line pointer.
pub fn pointer_of(tid: Tid) -> (parts: (u16, u16, u16))
    ensures
        parts == parts_of(tid),
{
    ((tid.block / 65536) as u16, (tid.block % 65536) as u16, tid.offset)
}

/// The location that the parts of one are.
pub fn tid_of(parts: (u16, u16, u16), max_offset: u16) -> (tid: Option<Tid>)
    ensures
        tid == located(parts, max_offset),
{
    if parts.2 < 1 || parts.2 > max_offset {
        return None;
    }
    Some(Tid { block: parts.0 as u32 * 65536 + parts.1 as u32, offset: parts.2 })
}

/// A location survives being taken apart.
pub proof fn law_location_survives(tid: Tid, max_offset: u16)
    requires
        1 <= tid.offset <= max_offset,
    ensures
        located(parts_of(tid), max_offset) == Some(tid),
{
}

} // verus!
