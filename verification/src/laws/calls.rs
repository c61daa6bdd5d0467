//! What score calls are bound to, and whose scores they get.

use crate::cache::{
    newest_owner, other_scans, wrapped_next, CacheKey, Emitted, ScanScorer, ScanScorers,
};
use crate::clause::Expression;
use crate::plan::picked;
use crate::score_call::{
    any_of, bound_arguments, combines, mode_of, queries_on, scored_from, where_quals, where_quals_upto,
    BoundArgument, JoinTree, ScoreClause, ScoreFunction, SiblingCalls,
};
use crate::selectivity::{
    path_clause_of, path_clauses_upto, remembered_from, EstimateMemo, PathClause, Remembered,
};
use crate::tid::Tid;
use vstd::prelude::*;

verus! {

/// The odd modes score by all terms, and those from two on give the largest score.
/// A call for a score or a full score is what it says. A call for the largest
/// score leaves common terms out just where the query's other calls do, and none
/// of them scores by all terms.
pub proof fn law_modes_are_of_their_functions(function: ScoreFunction, siblings: SiblingCalls)
    ensures
        ({
            let mode = mode_of(function, siblings);
            let full = mode % 2 == 1;
            let largest = mode >= 2;
            &&& 0 <= mode <= 3
            &&& largest <==> function == ScoreFunction::MaxScore
            &&& function == ScoreFunction::Score ==> !full
            &&& function == ScoreFunction::FullScore ==> full
            &&& function == ScoreFunction::MaxScore ==> (full <==> siblings.full
                || !siblings.dense)
        }),
{
}

/// A bound call takes the location, or the document where locations cannot be
/// scored, the query, the table, the index and the mode, and then what was given
/// to the call: a dense ratio, two parameters and two lists of terms, each in its
/// place and NULL where it was not given.
pub proof fn law_arguments_keep_their_places(mode: i32, given: i32, segmented: bool)
    ensures
        ({
            let arguments = bound_arguments(mode, given, segmented);
            &&& arguments.len() == 10
            &&& (arguments[0] == BoundArgument::Location) == segmented
            &&& (arguments[0] == BoundArgument::Document) == !segmented
            &&& arguments[1] == BoundArgument::Query
            &&& arguments[2] == BoundArgument::HeapOid
            &&& arguments[3] == BoundArgument::IndexOid
            &&& arguments[4] == BoundArgument::Mode
            &&& forall|i: int|
                5 <= i < 10 ==> (#[trigger] arguments[i] matches BoundArgument::Given(place)
                    ==> place == (if mode == 0 {
                    i - 4
                } else {
                    i - 5
                }))
            &&& forall|i: int|
                5 <= i < 10 ==> (#[trigger] arguments[i] is Given <==> mode == 0 || (mode == 1
                    && given == 3 && (i == 6 || i == 7)))
            &&& forall|i: int|
                5 <= i < 10 && !(#[trigger] arguments[i] is Given) ==> arguments[i] == (if i < 8 {
                    BoundArgument::NullFloat
                } else {
                    BoundArgument::NullArray
                })
        }),
{
}

/// Several queries are one that asks for any of them, each in brackets.
pub proof fn law_queries_are_joined_by_or(queries: Seq<Option<String>>, query: String)
    ensures
        any_of(queries.push(Some(query)), (queries.len() + 1) as int) == (if queries.len() == 0 {
            Seq::empty()
        } else {
            any_of(queries, queries.len() as int) + seq![' ', 'O', 'R', ' ']
        }) + seq!['('] + query@ + seq![')'],
{
    let all = queries.push(Some(query));
    lemma_any_of_prefix(queries, Some(query), queries.len() as int);
    reveal_strlit("(");
    reveal_strlit(")");
    reveal_strlit(" OR ");
    assert("("@ =~= seq!['(']);
    assert(")"@ =~= seq![')']);
    assert(" OR "@ =~= seq![' ', 'O', 'R', ' ']);
    assert(all[queries.len() as int] == Some(query));
    if queries.len() == 0 {
        assert(any_of(all, 1) =~= Seq::<char>::empty() + seq!['('] + query@ + seq![')']);
    } else {
        assert(any_of(all, all.len() as int) =~= any_of(queries, queries.len() as int) + seq![
            ' ',
            'O',
            'R',
            ' ',
        ] + seq!['('] + query@ + seq![')']);
    }
}

proof fn lemma_any_of_prefix(queries: Seq<Option<String>>, query: Option<String>, upto: int)
    requires
        0 <= upto <= queries.len(),
    ensures
        any_of(queries.push(query), upto) == any_of(queries, upto),
    decreases upto,
{
    if upto > 0 {
        lemma_any_of_prefix(queries, query, upto - 1);
        assert(queries.push(query)[upto - 1] == queries[upto - 1]);
    }
}

/// A score call scores by the first clause that an index answers.
pub proof fn law_the_first_answered_clause_is_scored(clauses: Seq<ScoreClause>, i: int, x: int)
    requires
        clauses.len() <= usize::MAX,
        0 <= i <= x <= clauses.len(),
        forall|y: int|
            i <= y < x ==> picked((#[trigger] clauses[y]).candidates@, clauses[y].bound) is None,
        x < clauses.len() ==> picked(clauses[x].candidates@, clauses[x].bound) is Some,
    ensures
        match scored_from(clauses, i) {
            Some(found) => x < clauses.len() && found.place == x && Some(found.index) == picked(
                clauses[x].candidates@,
                clauses[x].bound,
            ),
            None => x == clauses.len(),
        },
    decreases x - i,
{
    if i < x {
        assert(picked(clauses[i].candidates@, clauses[i].bound) is None);
        law_the_first_answered_clause_is_scored(clauses, i + 1, x);
    }
}

/// The queries on a document are those of all clauses on it and of no others, in
/// order. What comes out is the place of each one's clause.
pub proof fn law_queries_on_a_document(clauses: Seq<ScoreClause>, document: usize, upto: int) -> (
places: Seq<int>)
    requires
        0 <= upto <= clauses.len(),
    ensures
        places.len() == queries_on(clauses, document, upto).len(),
        forall|q: int|
            0 <= q < places.len() ==> 0 <= #[trigger] places[q] < upto
                && clauses[places[q]].document == document && queries_on(clauses, document, upto)[q]
                == clauses[places[q]].query,
        forall|q: int, r: int| 0 <= q < r < places.len() ==> places[q] < places[r],
        forall|i: int|
            0 <= i < upto && (#[trigger] clauses[i]).document == document ==> places.contains(i),
    decreases upto,
{
    if upto == 0 {
        Seq::empty()
    } else {
        let before = law_queries_on_a_document(clauses, document, upto - 1);
        let fewer = queries_on(clauses, document, upto - 1);
        let all = queries_on(clauses, document, upto);
        if clauses[upto - 1].document == document {
            let places = before.push(upto - 1);
            assert forall|q: int| 0 <= q < places.len() implies 0 <= #[trigger] places[q] < upto
                && clauses[places[q]].document == document && all[q]
                == clauses[places[q]].query by {
                if q < before.len() {
                    assert(places[q] == before[q] && all[q] == fewer[q]);
                }
            }
            assert forall|i: int|
                0 <= i < upto && (#[trigger] clauses[i]).document
                    == document implies places.contains(i) by {
                if i < upto - 1 {
                    assert(before.contains(i));
                    let q = choose|q: int| 0 <= q < before.len() && before[q] == i;
                    assert(places[q] == i);
                } else {
                    assert(places[before.len() as int] == i);
                }
            }
            places
        } else {
            before
        }
    }
}

/// The qual is one of a FROM that stands somewhere in the tree.
pub open spec fn is_where_qual<Q>(tree: JoinTree<Q>, qual: Q) -> bool
    decreases tree,
{
    match tree {
        JoinTree::From { quals, items } => quals@.contains(qual) || exists|i: int|
            0 <= i < items.len() && is_where_qual(#[trigger] items@[i], qual),
        JoinTree::Join { left, right } => is_where_qual(*left, qual) || is_where_qual(*right, qual),
        JoinTree::Leaf => false,
    }
}

proof fn lemma_where_quals_upto<Q>(items: Seq<JoinTree<Q>>, upto: int, qual: Q)
    requires
        0 <= upto <= items.len(),
    ensures
        where_quals_upto(items, upto).contains(qual) <==> exists|i: int|
            0 <= i < upto && is_where_qual(#[trigger] items[i], qual),
    decreases items, upto,
{
    if upto > 0 {
        lemma_where_quals_upto(items, upto - 1, qual);
        law_all_where_quals_are_found(items[upto - 1], qual);
        lemma_in_both(where_quals_upto(items, upto - 1), where_quals(items[upto - 1]), qual);
        if is_where_qual(items[upto - 1], qual) {
            assert(is_where_qual(items[upto - 1], qual));
        }
    }
}

proof fn lemma_in_both<X>(a: Seq<X>, b: Seq<X>, x: X)
    ensures
        (a + b).contains(x) <==> a.contains(x) || b.contains(x),
{
    let all = a + b;
    if a.contains(x) {
        let i = choose|i: int| 0 <= i < a.len() && a[i] == x;
        assert(all[i] == x);
    }
    if b.contains(x) {
        let i = choose|i: int| 0 <= i < b.len() && b[i] == x;
        assert(all[a.len() + i] == x);
    }
    if all.contains(x) {
        let i = choose|i: int| 0 <= i < all.len() && all[i] == x;
        if i < a.len() {
            assert(a[i] == x);
        } else {
            assert(b[i - a.len()] == x);
        }
    }
}

/// The quals of WHERE are found wherever they stand in the tree of joins, and no
/// condition of a JOIN is taken for one.
pub proof fn law_all_where_quals_are_found<Q>(tree: JoinTree<Q>, qual: Q)
    ensures
        where_quals(tree).contains(qual) <==> is_where_qual(tree, qual),
    decreases tree, 0int,
{
    match tree {
        JoinTree::From { quals, items } => {
            lemma_where_quals_upto(items@, items.len() as int, qual);
            lemma_in_both(quals@, where_quals_upto(items@, items.len() as int), qual);
        },
        JoinTree::Join { left, right } => {
            law_all_where_quals_are_found(*left, qual);
            law_all_where_quals_are_found(*right, qual);
            lemma_in_both(where_quals(*left), where_quals(*right), qual);
        },
        JoinTree::Leaf => {},
    }
}

/// A scorer is used again only for a call that scores alike: the same table and
/// index, the same query, the same parameters, the same terms added and replaced,
/// and the same choice about common terms.
pub proof fn law_scorers_answer_like_calls(a: CacheKey, b: CacheKey)
    ensures
        a.same_query(b) ==> b.same_query(a),
        a.same_query(a),
        a.heap_oid != b.heap_oid || a.index_oid != b.index_oid ==> !a.same_query(b),
        a.query@ != b.query@ || a.full != b.full || a.dense != b.dense ==> !a.same_query(b),
        a.k1 != b.k1 || a.b != b.b ==> !a.same_query(b),
        (a.add is Some) != (b.add is Some) || (a.replace is Some) != (b.replace is Some)
            ==> !a.same_query(b),
        a.add is Some && b.add is Some && a.add->0@.len() != b.add->0@.len() ==> !a.same_query(b),
        a.replace is Some && b.replace is Some && a.replace->0@.len() != b.replace->0@.len()
            ==> !a.same_query(b),
        forall|i: int|
            a.add is Some && b.add is Some && 0 <= i < a.add->0@.len() && i < b.add->0@.len()
                && (#[trigger] a.add->0@[i])@ != b.add->0@[i]@ ==> !a.same_query(b),
        forall|i: int|
            a.replace is Some && b.replace is Some && 0 <= i < a.replace->0@.len() && i
                < b.replace->0@.len() && (#[trigger] a.replace->0@[i])@ != b.replace->0@[i]@
                ==> !a.same_query(b),
{
    assert forall|i: int|
        a.add is Some && b.add is Some && 0 <= i < a.add->0@.len() && i < b.add->0@.len() && (
        #[trigger] a.add->0@[i])@ != b.add->0@[i]@ implies !a.same_query(b) by {
        if a.same_query(b) {
            assert(crate::text::texts(a.add->0@)[i] == crate::text::texts(b.add->0@)[i]);
        }
    }
    assert forall|i: int|
        a.replace is Some && b.replace is Some && 0 <= i < a.replace->0@.len() && i
            < b.replace->0@.len() && (#[trigger] a.replace->0@[i])@ != b.replace->0@[i]@ implies !a.same_query(
        b,
    ) by {
        if a.same_query(b) {
            assert(crate::text::texts(a.replace->0@)[i] == crate::text::texts(b.replace->0@)[i]);
        }
    }
    if a.same_query(b) && a.add is Some && b.add is Some {
        assert(crate::text::texts(a.add->0@).len() == crate::text::texts(b.add->0@).len());
    }
    if a.same_query(b) && a.replace is Some && b.replace is Some {
        assert(crate::text::texts(a.replace->0@).len() == crate::text::texts(b.replace->0@).len());
    }
}

/// The scan put out this row in the call's statement, and scores alike.
pub open spec fn put_out<P>(scan: ScanScorer<P>, call: CacheKey, tid: Tid) -> bool {
    scan.key.same_query(call) && (scan.emitted matches Some(row) && row.member == tid
        && row.statement == call.statement)
}

/// A row has the score of the scan that put it out last, of those that score as
/// the call does and put it out in the same statement.
pub proof fn law_the_last_scan_scores_its_row<P>(
    scans: Seq<ScanScorer<P>>,
    call: CacheKey,
    tid: Tid,
    upto: int,
)
    requires
        0 <= upto <= scans.len(),
    ensures
        match newest_owner(scans, call, tid, upto) {
            Some(i) => 0 <= i < upto && put_out(scans[i], call, tid) && forall|j: int|
                0 <= j < upto && put_out(#[trigger] scans[j], call, tid)
                    ==> scans[j].emitted->0.stamp <= scans[i].emitted->0.stamp,
            None => forall|j: int| 0 <= j < upto ==> !put_out(#[trigger] scans[j], call, tid),
        },
    decreases upto,
{
    if upto > 0 {
        law_the_last_scan_scores_its_row(scans, call, tid, upto - 1);
    }
}

/// The scan is the first of this identity.
pub open spec fn is_first_scan<P>(scans: Seq<ScanScorer<P>>, scan: u64, i: int) -> bool {
    0 <= i < scans.len() && scans[i].scan == scan && forall|j: int|
        0 <= j < i ==> (#[trigger] scans[j]).scan != scan
}

/// No row was put out with a stamp that is still to come.
pub open spec fn stamps_in_use<P>(scorers: ScanScorers<P>) -> bool {
    scorers.last_stamp < u64::MAX && forall|j: int|
        0 <= j < scorers.scans@.len() && (#[trigger] scorers.scans@[j]).emitted is Some
            ==> scorers.scans@[j].emitted->0.stamp <= scorers.last_stamp
}

/// Once a scan has put out a row, a call on that row that scores as the scan does,
/// in the same statement, gets the score by which the scan knows the row's root.
pub open spec fn row_put_out<P>(
    before: ScanScorers<P>,
    after: ScanScorers<P>,
    scan: u64,
    member: Tid,
    root: Tid,
) -> bool {
    forall|i: int, call: CacheKey|
        #![trigger is_first_scan(before.scans@, scan, i), after.emitted_score(call, member)]
        is_first_scan(before.scans@, scan, i) && stamps_in_use(before)
            && before.scans@[i].key.same_query(call) && call.statement == before.statement
            ==> after.emitted_score(call, member) == before.scans@[i].known.at(root)
}

pub(crate) proof fn lemma_row_put_out<P>(
    before: ScanScorers<P>,
    after: ScanScorers<P>,
    scan: u64,
    member: Tid,
    root: Tid,
)
    requires
        match before.position_from(scan, 0) {
            None => true,
            Some(i) => after.scans@ == before.scans@.update(
                i,
                ScanScorer {
                    emitted: Some(
                        Emitted {
                            member,
                            root,
                            statement: before.statement,
                            stamp: wrapped_next(before.last_stamp),
                        },
                    ),
                    ..before.scans@[i]
                },
            ),
        },
    ensures
        row_put_out(before, after, scan, member, root),
{
    assert forall|i: int, call: CacheKey|
        #![trigger is_first_scan(before.scans@, scan, i), after.emitted_score(call, member)]
        is_first_scan(before.scans@, scan, i) && stamps_in_use(before)
            && before.scans@[i].key.same_query(call) && call.statement
            == before.statement implies after.emitted_score(call, member)
        == before.scans@[i].known.at(root) by {
        lemma_position(before, scan, 0, i);
        let all = after.scans@;
        law_the_last_scan_scores_its_row(all, call, member, all.len() as int);
        assert(put_out(all[i], call, member));
        let owner = newest_owner(all, call, member, all.len() as int)->0;
        if owner != i {
            assert(all[owner] == before.scans@[owner]);
        }
    }
}

proof fn lemma_position<P>(scorers: ScanScorers<P>, scan: u64, i: int, x: int)
    requires
        0 <= i <= x,
        is_first_scan(scorers.scans@, scan, x),
    ensures
        scorers.position_from(scan, i) == Some(x),
    decreases x - i,
{
    if i < x {
        assert(scorers.scans@[i].scan != scan);
        lemma_position(scorers, scan, i + 1, x);
    }
}

/// A scan that is forgotten is gone, and the others stay.
pub proof fn law_only_the_scan_is_forgotten<P>(
    scans: Seq<ScanScorer<P>>,
    scan: u64,
    other: ScanScorer<P>,
)
    ensures
        other_scans(scans, scan).contains(other) <==> scans.contains(other) && other.scan != scan,
    decreases scans.len(),
{
    if scans.len() > 0 {
        let rest = scans.drop_last();
        let last = scans.last();
        law_only_the_scan_is_forgotten(rest, scan, other);
        let before = other_scans(rest, scan);
        lemma_in_both(rest, seq![last], other);
        assert(scans =~= rest + seq![last]);
        assert(seq![last].contains(other) <==> other == last) by {
            assert(seq![last][0] == last);
        }
        if last.scan != scan {
            lemma_in_both(before, seq![last], other);
            assert(before.push(last) =~= before + seq![last]);
        }
    }
}

proof fn lemma_remembered<E>(entries: Seq<Remembered<E>>, index: u32, query: Seq<char>, i: int)
    requires
        0 <= i <= entries.len(),
    ensures
        match remembered_from(entries, index, query, i) {
            Some(x) => i <= x < entries.len() && entries[x].index == index && entries[x].query@
                == query,
            None => forall|y: int|
                i <= y < entries.len() ==> (#[trigger] entries[y]).index != index
                    || entries[y].query@ != query,
        },
    decreases entries.len() - i,
{
    if i < entries.len() && !(entries[i].index == index && entries[i].query@ == query) {
        lemma_remembered(entries, index, query, i + 1);
    }
}

/// An estimate is used again only for the same index, the same query and the same
/// content of the index.
pub proof fn law_estimates_are_of_the_same_content<E: Copy>(
    memo: EstimateMemo<E>,
    index: u32,
    query: Seq<char>,
    stamp: u64,
)
    ensures
        memo.kept(index, query, stamp) matches Some(estimate) ==> exists|x: int|
            0 <= x < memo.entries@.len() && (#[trigger] memo.entries@[x]).index == index
                && memo.entries@[x].query@ == query && memo.entries@[x].stamp == stamp
                && memo.entries@[x].estimate == estimate,
        memo.kept(index, query, stamp) is None ==> forall|x: int|
            0 <= x < memo.entries@.len() && (#[trigger] memo.entries@[x]).index == index
                && memo.entries@[x].query@ == query && (forall|y: int|
                0 <= y < x ==> (#[trigger] memo.entries@[y]).index != index
                    || memo.entries@[y].query@ != query) ==> memo.entries@[x].stamp != stamp,
{
    lemma_remembered(memo.entries@, index, query, 0);
    if let Some(x) = remembered_from(memo.entries@, index, query, 0) {
        assert(memo.entries[x] == memo.entries@[x]);
        assert forall|z: int|
            0 <= z < memo.entries@.len() && (#[trigger] memo.entries@[z]).index == index
                && memo.entries@[z].query@ == query && (forall|y: int|
                0 <= y < z ==> (#[trigger] memo.entries@[y]).index != index
                    || memo.entries@[y].query@ != query) && memo.kept(
                index,
                query,
                stamp,
            ) is None implies memo.entries@[z].stamp != stamp by {
            lemma_first_remembered(memo.entries@, index, query, 0, z);
        }
    }
}

proof fn lemma_first_remembered<E>(
    entries: Seq<Remembered<E>>,
    index: u32,
    query: Seq<char>,
    i: int,
    x: int,
)
    requires
        0 <= i <= x < entries.len(),
        entries[x].index == index && entries[x].query@ == query,
        forall|y: int|
            i <= y < x ==> (#[trigger] entries[y]).index != index || entries[y].query@ != query,
    ensures
        remembered_from(entries, index, query, i) == Some(x),
    decreases x - i,
{
    if i < x {
        lemma_first_remembered(entries, index, query, i + 1, x);
    }
}

/// The clauses that an index path answers are the operators with two operands, all
/// of them and in order; each has its query where that is a constant.
pub proof fn law_path_clauses_are_found(nodes: Seq<Expression>, upto: int) -> (places: Seq<int>)
    requires
        0 <= upto <= nodes.len(),
    ensures
        places.len() == path_clauses_upto(nodes, upto).len(),
        forall|c: int|
            0 <= c < places.len() ==> 0 <= #[trigger] places[c] < upto && (
            nodes[places[c]] matches Expression::Operator { name: _, arguments, result: _ }
                && arguments@.len() == 2 && match arguments@[1] {
                Expression::TextConstant(Some(text)) => path_clauses_upto(nodes, upto)[c] == (
                PathClause { query: Some(text), bound: None }),
                Expression::BoundConstant(Some(bound)) => path_clauses_upto(nodes, upto)[c] == (
                PathClause { query: Some(bound.query), bound: Some(bound.index) }),
                _ => path_clauses_upto(nodes, upto)[c].query is None,
            }),
        forall|c: int, d: int| 0 <= c < d < places.len() ==> places[c] < places[d],
        forall|i: int|
            0 <= i < upto && (#[trigger] nodes[i] matches Expression::Operator {
                name: _,
                arguments,
                result: _,
            } && arguments@.len() == 2) ==> places.contains(i),
    decreases upto,
{
    if upto == 0 {
        Seq::empty()
    } else {
        let before = law_path_clauses_are_found(nodes, upto - 1);
        let fewer = path_clauses_upto(nodes, upto - 1);
        let all = path_clauses_upto(nodes, upto);
        match path_clause_of(nodes[upto - 1]) {
            Some(clause) => {
                let places = before.push(upto - 1);
                assert forall|c: int| 0 <= c < places.len() implies 0 <= #[trigger] places[c] < upto
                    && (nodes[places[c]] matches Expression::Operator {
                    name: _,
                    arguments,
                    result: _,
                } && arguments@.len() == 2 && match arguments@[1] {
                    Expression::TextConstant(Some(text)) => all[c] == (PathClause {
                        query: Some(text),
                        bound: None,
                    }),
                    Expression::BoundConstant(Some(bound)) => all[c] == (PathClause {
                        query: Some(bound.query),
                        bound: Some(bound.index),
                    }),
                    _ => all[c].query is None,
                }) by {
                    if c < before.len() {
                        assert(places[c] == before[c] && all[c] == fewer[c]);
                    }
                }
                assert forall|i: int|
                    0 <= i < upto && (#[trigger] nodes[i] matches Expression::Operator {
                        name: _,
                        arguments,
                        result: _,
                    } && arguments@.len() == 2) implies places.contains(i) by {
                    if i < upto - 1 {
                        assert(before.contains(i));
                        let c = choose|c: int| 0 <= c < before.len() && before[c] == i;
                        assert(places[c] == i);
                    } else {
                        assert(places[before.len() as int] == i);
                    }
                }
                places
            },
            None => before,
        }
    }
}

/// All queries are known, and there is more than one.
pub open spec fn can_join(queries: Seq<Option<String>>) -> bool {
    1 < queries.len() && forall|i: int| 0 <= i < queries.len() ==> #[trigger] queries[i] is Some
}

/// Just the queries that are all known, and more than one, are joined.
pub proof fn law_known_queries_are_joined(queries: Seq<Option<String>>, combined: Option<String>)
    requires
        combines(queries, combined),
    ensures
        combined is Some <==> can_join(queries),
{
}

} // verus!
