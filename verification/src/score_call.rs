//! Score calls: how they are bound to an index when a query is planned, and
//! how a bound call is answered.

use crate::cache::{CacheKey, ScanScorers};
use crate::laws::calls::can_join;
use crate::laws::requests::{lemma_routed, routed};
use crate::plan::{pick_index, picked, Candidate, Match};
use crate::text::{same, texts};
use crate::tid::Tid;
use vstd::prelude::*;

verus! {

/// The SQL score functions.
#[derive(Clone, Copy, Debug, PartialEq, Eq, Structural)]
pub enum ScoreFunction {
    Score,
    FullScore,
    MaxScore,
}

/// The score function of this name; every other name is the plain one.
pub fn score_function(name: &str) -> (function: ScoreFunction)
    ensures
        function == (if name@ == "full_score"@ {
            ScoreFunction::FullScore
        } else if name@ == "max_score"@ {
            ScoreFunction::MaxScore
        } else {
            ScoreFunction::Score
        }),
{
    if same(name, "full_score") {
        ScoreFunction::FullScore
    } else if same(name, "max_score") {
        ScoreFunction::MaxScore
    } else {
        ScoreFunction::Score
    }
}

/// The score calls on the same row that a query has besides.
#[derive(Clone, Copy, Debug, PartialEq, Eq, Structural)]
pub struct SiblingCalls {
    pub dense: bool,
    pub full: bool,
}

impl SiblingCalls {
    /// Takes a bound call in `mode` on the same row into account.
    pub fn note_bound(&mut self, mode: i32)
        ensures
            *final(self) == (SiblingCalls {
                dense: old(self).dense || mode == 0,
                full: old(self).full || mode == 1,
            }),
    {
        if mode == 0 {
            self.dense = true;
        } else if mode == 1 {
            self.full = true;
        }
    }

    /// Takes a call that is not bound yet into account.
    pub fn note_unbound(&mut self, function: ScoreFunction)
        ensures
            *final(self) == (match function {
                ScoreFunction::FullScore => SiblingCalls { full: true, ..*old(self) },
                _ => SiblingCalls { dense: true, ..*old(self) },
            }),
    {
        match function {
            ScoreFunction::FullScore => {
                self.full = true;
            },
            _ => {
                self.dense = true;
            },
        }
    }
}

/// The mode of a bound call. The maximum adapts to a sibling plain score
/// call; alone it uses the full policy.
pub open spec fn mode_of(function: ScoreFunction, siblings: SiblingCalls) -> i32 {
    match function {
        ScoreFunction::Score => 0,
        ScoreFunction::FullScore => 1,
        ScoreFunction::MaxScore => if siblings.dense && !siblings.full {
            2
        } else {
            3
        },
    }
}

/// The mode of a bound call.
pub fn score_mode(function: ScoreFunction, siblings: SiblingCalls) -> (mode: i32)
    ensures
        mode == mode_of(function, siblings),
{
    match function {
        ScoreFunction::Score => 0,
        ScoreFunction::FullScore => 1,
        ScoreFunction::MaxScore => if siblings.dense && !siblings.full {
            2
        } else {
            3
        },
    }
}

/// Where an argument of a bound call comes from.
#[derive(Clone, Copy, Debug, PartialEq, Eq, Structural)]
pub enum BoundArgument {
    /// The row's location, on a segmented index.
    Location,
    /// The document, otherwise.
    Document,
    Query,
    HeapOid,
    IndexOid,
    Mode,
    /// The argument of the call itself at this place.
    Given(i32),
    NullFloat,
    NullArray,
}

/// The arguments of a bound call, from a call that has `given` of them.
pub open spec fn bound_arguments(mode: i32, given: i32, segmented: bool) -> Seq<BoundArgument> {
    let head = seq![
        if segmented {
            BoundArgument::Location
        } else {
            BoundArgument::Document
        },
        BoundArgument::Query,
        BoundArgument::HeapOid,
        BoundArgument::IndexOid,
        BoundArgument::Mode,
    ];
    if mode == 0 {
        head + seq![
            BoundArgument::Given(1),
            BoundArgument::Given(2),
            BoundArgument::Given(3),
            BoundArgument::Given(4),
            BoundArgument::Given(5),
        ]
    } else if mode == 1 && given == 3 {
        head + seq![
            BoundArgument::NullFloat,
            BoundArgument::Given(1),
            BoundArgument::Given(2),
            BoundArgument::NullArray,
            BoundArgument::NullArray,
        ]
    } else {
        head + seq![
            BoundArgument::NullFloat,
            BoundArgument::NullFloat,
            BoundArgument::NullFloat,
            BoundArgument::NullArray,
            BoundArgument::NullArray,
        ]
    }
}

/// The arguments of a bound call.
pub fn score_arguments(mode: i32, given: i32, segmented: bool) -> (arguments: Vec<BoundArgument>)
    ensures
        arguments@ == bound_arguments(mode, given, segmented),
{
    let mut arguments: Vec<BoundArgument> = Vec::new();
    if segmented {
        arguments.push(BoundArgument::Location);
    } else {
        arguments.push(BoundArgument::Document);
    }
    arguments.push(BoundArgument::Query);
    arguments.push(BoundArgument::HeapOid);
    arguments.push(BoundArgument::IndexOid);
    arguments.push(BoundArgument::Mode);
    if mode == 0 {
        arguments.push(BoundArgument::Given(1));
        arguments.push(BoundArgument::Given(2));
        arguments.push(BoundArgument::Given(3));
        arguments.push(BoundArgument::Given(4));
        arguments.push(BoundArgument::Given(5));
    } else {
        arguments.push(BoundArgument::NullFloat);
        if mode == 1 && given == 3 {
            arguments.push(BoundArgument::Given(1));
            arguments.push(BoundArgument::Given(2));
        } else {
            arguments.push(BoundArgument::NullFloat);
            arguments.push(BoundArgument::NullFloat);
        }
        arguments.push(BoundArgument::NullArray);
        arguments.push(BoundArgument::NullArray);
    }
    proof {
        assert(arguments@ =~= bound_arguments(mode, given, segmented));
    }
    arguments
}

/// The first `upto` of several queries, any of which may match.
pub open spec fn any_of(queries: Seq<Option<String>>, upto: int) -> Seq<char>
    decreases upto,
{
    if upto <= 0 || upto > queries.len() {
        Seq::empty()
    } else {
        let one = "("@ + queries[upto - 1]->0@ + ")"@;
        if upto == 1 {
            one
        } else {
            any_of(queries, upto - 1) + " OR "@ + one
        }
    }
}

/// The constant queries on one document combined into one, unless there is
/// only one or some query is no constant.
pub fn combine_constant_queries(queries: &Vec<Option<String>>) -> (combined: Option<String>)
    ensures
        match combined {
            Some(text) => queries.len() >= 2 && (forall|i: int|
                0 <= i < queries.len() ==> #[trigger] queries[i] is Some) && text@ == any_of(
                queries@,
                queries.len() as int,
            ),
            None => queries.len() < 2 || exists|i: int|
                0 <= i < queries.len() && #[trigger] queries[i] is None,
        },
        combined is Some <==> can_join(queries@),
{
    if queries.len() < 2 {
        return None;
    }
    let mut text = String::new();
    let mut i: usize = 0;
    while i < queries.len()
        invariant
            i <= queries.len(),
            forall|j: int| 0 <= j < i ==> #[trigger] queries[j] is Some,
            text@ == any_of(queries@, i as int),
        decreases queries.len() - i,
    {
        match &queries[i] {
            Some(query) => {
                let ghost before = text@;
                if i > 0 {
                    text.append(" OR ");
                }
                text.append("(");
                text.append(query.as_str());
                text.append(")");
                proof {
                    let one = "("@ + query@ + ")"@;
                    if i == 0 {
                        assert(text@ =~= one);
                    } else {
                        assert(text@ =~= before + " OR "@ + one);
                    }
                }
            },
            None => {
                return None;
            },
        }
        i = i + 1;
    }
    Some(text)
}

/// A `==>` clause of a query that scores. Equal documents have equal numbers.
#[derive(Debug)]
pub struct ScoreClause {
    pub document: usize,
    /// The query, when it is a constant.
    pub query: Option<String>,
    /// The index the clause is bound to, with its settings.
    pub bound: Option<(u32, u64)>,
    /// The indexes that cover the document on the scored table.
    pub candidates: Vec<Candidate>,
}

/// How a score call is bound: the clause it scores by and the index that
/// answers it, and the constant query that the clauses on that document come
/// to. Without such a constant the clause's own query is scored.
#[derive(Debug)]
pub struct ScoreBinding {
    pub found: Match,
    pub query: Option<String>,
}

/// The first clause, from the `i`-th on, that an index answers.
pub open spec fn scored_from(clauses: Seq<ScoreClause>, i: int) -> Option<Match>
    decreases clauses.len() - i,
{
    if i < 0 || i >= clauses.len() {
        None
    } else {
        match picked(clauses[i].candidates@, clauses[i].bound) {
            Some(index) => Some(Match { place: i as usize, index }),
            None => scored_from(clauses, i + 1),
        }
    }
}

/// The queries of the first `upto` clauses on a document.
pub open spec fn queries_on(clauses: Seq<ScoreClause>, document: usize, upto: int) -> Seq<
    Option<String>,
>
    decreases upto,
{
    if upto <= 0 || upto > clauses.len() {
        Seq::empty()
    } else {
        let before = queries_on(clauses, document, upto - 1);
        if clauses[upto - 1].document == document {
            before.push(clauses[upto - 1].query)
        } else {
            before
        }
    }
}

/// `combined` is the queries as one constant, where there are several and all
/// are constants.
pub open spec fn combines(queries: Seq<Option<String>>, combined: Option<String>) -> bool {
    match combined {
        Some(text) => queries.len() >= 2 && (forall|i: int|
            0 <= i < queries.len() ==> #[trigger] queries[i] is Some) && text@ == any_of(
            queries,
            queries.len() as int,
        ),
        None => queries.len() < 2 || exists|i: int|
            0 <= i < queries.len() && #[trigger] queries[i] is None,
    }
}

/// Binds a score call to the first clause that an index answers, so scoring
/// statistics and matching use the same analyzer. `None` leaves the call as
/// it is: its argument is not a row's location, the row is not a table's, or
/// no index answers a clause.
pub fn score_support(location: bool, on_table: bool, clauses: &Vec<ScoreClause>) -> (binding: Option<
    ScoreBinding,
>)
    ensures
        match binding {
            None => !location || !on_table || scored_from(clauses@, 0) is None,
            Some(binding) => location && on_table && scored_from(clauses@, 0) == Some(binding.found)
                && combines(
                queries_on(
                    clauses@,
                    clauses[binding.found.place as int].document,
                    clauses.len() as int,
                ),
                binding.query,
            ),
        },
{
    if !location || !on_table {
        return None;
    }
    let mut i: usize = 0;
    while i < clauses.len()
        invariant
            i <= clauses.len(),
            location && on_table,
            scored_from(clauses@, 0) == scored_from(clauses@, i as int),
        decreases clauses.len() - i,
    {
        if let Some(index) = pick_index(&clauses[i].candidates, clauses[i].bound) {
            let document: usize = clauses[i].document;
            let mut queries: Vec<Option<String>> = Vec::new();
            let mut j: usize = 0;
            while j < clauses.len()
                invariant
                    j <= clauses.len(),
                    queries@ == queries_on(clauses@, document, j as int),
                decreases clauses.len() - j,
            {
                if clauses[j].document == document {
                    let query: Option<String> = match &clauses[j].query {
                        Some(text) => Some(text.clone()),
                        None => None,
                    };
                    queries.push(query);
                }
                j = j + 1;
            }
            let query: Option<String> = combine_constant_queries(&queries);
            return Some(ScoreBinding { found: Match { place: i, index }, query });
        }
        i = i + 1;
    }
    None
}

/// The WHERE clauses of a query: quals joined with what they range over.
#[derive(Debug)]
pub enum JoinTree<Q> {
    From { quals: Vec<Q>, items: Vec<JoinTree<Q>> },
    Join { left: Box<JoinTree<Q>>, right: Box<JoinTree<Q>> },
    /// A relation, or a query scope of its own.
    Leaf,
}

/// The WHERE quals of a join tree, those of a FROM before those of what it
/// joins. JOIN conditions are not among them.
pub open spec fn where_quals<Q>(tree: JoinTree<Q>) -> Seq<Q>
    decreases tree, 0int,
{
    match tree {
        JoinTree::From { quals, items } => quals@ + where_quals_upto(items@, items.len() as int),
        JoinTree::Join { left, right } => where_quals(*left) + where_quals(*right),
        JoinTree::Leaf => Seq::empty(),
    }
}

/// [`where_quals`] of the first `upto` of several trees.
pub open spec fn where_quals_upto<Q>(items: Seq<JoinTree<Q>>, upto: int) -> Seq<Q>
    decreases items, upto,
{
    if upto <= 0 || upto > items.len() {
        Seq::empty()
    } else {
        where_quals_upto(items, upto - 1) + where_quals(items[upto - 1])
    }
}

/// Finds the WHERE clauses of a query in the order they bind score calls:
/// parent quals first.
pub fn find_where_quals<Q: Copy>(tree: &JoinTree<Q>, found: &mut Vec<Q>)
    ensures
        final(found)@ == old(found)@ + where_quals(*tree),
    decreases tree, 0int,
{
    let ghost before = found@;
    match tree {
        JoinTree::From { quals, items } => {
            let mut i: usize = 0;
            proof {
                assert(before + quals@.take(0) =~= before);
            }
            while i < quals.len()
                invariant
                    i <= quals.len(),
                    found@ == before + quals@.take(i as int),
                decreases quals.len() - i,
            {
                found.push(quals[i]);
                proof {
                    assert(found@ =~= before + quals@.take(i + 1));
                }
                i = i + 1;
            }
            proof {
                assert(quals@.take(i as int) =~= quals@);
            }
            let ghost own = found@;
            let mut i: usize = 0;
            proof {
                assert(own + where_quals_upto(items@, 0) =~= own);
            }
            while i < items.len()
                invariant
                    i <= items.len(),
                    decreases_to!(tree => items),
                    found@ == own + where_quals_upto(items@, i as int),
                decreases items.len() - i,
            {
                find_where_quals(&items[i], found);
                proof {
                    assert(found@ =~= own + where_quals_upto(items@, i + 1));
                }
                i = i + 1;
            }
            proof {
                assert(found@ =~= before + where_quals(*tree));
            }
        },
        JoinTree::Join { left, right } => {
            find_where_quals(left, found);
            find_where_quals(right, found);
            proof {
                assert(found@ =~= before + where_quals(*tree));
            }
        },
        JoinTree::Leaf => {
            proof {
                assert(before + Seq::<Q>::empty() =~= before);
            }
        },
    }
}

/// How a bound score call is answered.
#[derive(Clone, Copy, Debug, PartialEq, Eq, Structural)]
pub enum ScoreRoute {
    /// The location is not one that a heap has.
    InvalidLocation,
    /// The score that a ranked scan ranked the row by.
    Ranked(u32),
    /// The statement's scorer, which is there.
    Cached,
    /// The statement's scorer, which is to be built.
    Build,
}

/// Decides how a bound call for the row at `tid` is answered. A row that a
/// ranked scan just emitted, in this statement, carries the score that scan
/// ranked it by; any other is scored by the statement's scorer.
pub fn route_score_call<P>(
    scans: &ScanScorers<P>,
    cached: Option<&CacheKey>,
    call: &CacheKey,
    mode: i32,
    tid: Option<Tid>,
) -> (route: ScoreRoute)
    ensures
        route == (if mode < 2 && tid is None {
            ScoreRoute::InvalidLocation
        } else if mode < 2 && scans.emitted_score(*call, tid->0) is Some {
            ScoreRoute::Ranked(scans.emitted_score(*call, tid->0)->0)
        } else if cached matches Some(key) && key.statement == call.statement && key.same_query(
            *call,
        ) {
            ScoreRoute::Cached
        } else {
            ScoreRoute::Build
        }),
        routed(*scans, cached, *call, mode, tid, route),
{
    proof {
        lemma_routed(*scans, cached, *call, mode, tid);
    }
    if mode < 2 {
        match tid {
            None => {
                return ScoreRoute::InvalidLocation;
            },
            Some(tid) => {
                if let Some(score) = scans.score_from_scan(call, tid) {
                    return ScoreRoute::Ranked(score);
                }
            },
        }
    }
    match cached {
        Some(key) => if key.answers(call) {
            ScoreRoute::Cached
        } else {
            ScoreRoute::Build
        },
        None => ScoreRoute::Build,
    }
}

/// Why an indexed scorer is not built.
#[derive(Clone, Copy, Debug, PartialEq, Eq, Structural)]
pub enum ScorerError {
    /// The index is not on the table.
    WrongTable,
    /// The index cannot be read during recovery.
    Unreadable,
}

/// Whether an indexed scorer may be built for a call.
pub fn check_scored_index(on_table: bool, readable: bool) -> (checked: Result<(), ScorerError>)
    ensures
        checked == (if !on_table {
            Err(ScorerError::WrongTable)
        } else if !readable {
            Err(ScorerError::Unreadable)
        } else {
            Ok(())
        }),
{
    if !on_table {
        return Err(ScorerError::WrongTable);
    }
    if !readable {
        return Err(ScorerError::Unreadable);
    }
    Ok(())
}

impl ScorerError {
    /// What the user is told.
    pub open spec fn text(self) -> Seq<char> {
        match self {
            ScorerError::WrongTable => "score index does not belong to the supplied table"@,
            ScorerError::Unreadable =>
            "indexed scoring is unavailable for this index during recovery; use stannum.score or stannum.full_score"@,
        }
    }

    /// What the user is told.
    pub fn message(self) -> (message: String)
        ensures
            message@ == self.text(),
    {
        match self {
            ScorerError::WrongTable => String::from_str(
                "score index does not belong to the supplied table",
            ),
            ScorerError::Unreadable => String::from_str(
                "indexed scoring is unavailable for this index during recovery; use stannum.score or stannum.full_score",
            ),
        }
    }
}

/// What a score function answers where no index scan binds it.
pub fn score_context_error(function: &str) -> (message: String)
    ensures
        message@ == function@
            + " requires a stannum index scan and cannot be used in this query context"@,
{
    let mut message = String::from_str(function);
    message.append(" requires a stannum index scan and cannot be used in this query context");
    message
}

/// The elements of an array argument, when there is one and none is NULL.
pub open spec fn elements(values: Seq<Option<String>>) -> Seq<Seq<char>> {
    values.map_values(|value: Option<String>| value->0@)
}

/// Takes an array argument of `stannum.score_inspect()`; `which` names it.
pub fn inspected_terms(which: &str, values: Option<Vec<Option<String>>>) -> (terms: Result<
    Option<Vec<String>>,
    String,
>)
    ensures
        match values {
            None => terms == Ok::<Option<Vec<String>>, String>(None),
            Some(given) => if exists|i: int| 0 <= i < given.len() && #[trigger] given[i] is None {
                terms matches Err(message) && message@ == "stannum.score_inspect() "@ + which@
                    + " array elements must not be NULL"@
            } else {
                terms matches Ok(Some(found)) && texts(found@) == elements(given@)
            },
        },
{
    let given = match values {
        Some(given) => given,
        None => {
            return Ok(None);
        },
    };
    let mut found: Vec<String> = Vec::new();
    let mut i: usize = 0;
    while i < given.len()
        invariant
            values == Some(given),
            i <= given.len(),
            forall|j: int| 0 <= j < i ==> #[trigger] given[j] is Some,
            texts(found@) == elements(given@).take(i as int),
        decreases given.len() - i,
    {
        match &given[i] {
            Some(value) => {
                let ghost before = texts(found@);
                found.push(value.clone());
                proof {
                    assert(texts(found@) =~= before.push(value@));
                    assert(texts(found@) =~= elements(given@).take(i + 1));
                }
            },
            None => {
                let mut message = String::from_str("stannum.score_inspect() ");
                message.append(which);
                message.append(" array elements must not be NULL");
                return Err(message);
            },
        }
        i = i + 1;
    }
    proof {
        assert(elements(given@).take(i as int) =~= elements(given@));
    }
    Ok(Some(found))
}

} // verus!
