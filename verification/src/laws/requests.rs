//! What is granted, what is refused, and why.

use crate::am::{has_null, key_queries, reading_from, Reading, ScanKey, ScanPlan};
use crate::cache::{CacheKey, ScanScorers};
use crate::clause::{
    binding_from, first_holding, variables_of, BoundClause, Expression, RelationKind, Variables,
};
use crate::dict::{word_valid, ChangeError};
use crate::highlight::words;
use crate::laws::calls::{law_the_last_scan_scores_its_row, put_out};
use crate::laws::clauses::{law_the_first_unreadable_key_decides, law_variables_are_found, readable, refers_to};
use crate::laws::dictionary::law_dictionary_words_are_words;
use crate::laws::search::{law_snippets_are_named, snippet_name};
use crate::plan::Candidate;
use crate::query::Query;
use crate::score_call::ScoreRoute;
use crate::search::{
    shape_of, snippet_named, CountError, SearchError, SearchPath, SearchRequest, SnippetMode,
};
use crate::tid::Tid;
use vstd::prelude::*;
use vstd::utf8::encode_utf8;

verus! {

/// A search is granted as asked for: its limit, its kind of snippets and its one
/// column. It is refused for what is wrong with it, and snippets need a column
/// that holds text.
pub open spec fn search_granted(
    null_query: bool,
    segmented: bool,
    limit: i32,
    snippet: Seq<char>,
    key_columns: i16,
    key: i16,
    text: bool,
    request: Result<SearchRequest, SearchError>,
) -> bool {
    match request {
        Ok(granted) => {
            &&& !null_query && segmented && key_columns == 1
            &&& 0 <= limit && granted.limit == limit
            &&& snippet == snippet_name(granted.mode)
            &&& granted.column == key
            &&& granted.mode == SnippetMode::Nothing || (key > 0 && text)
        },
        Err(SearchError::NullQuery) => null_query,
        Err(SearchError::NotSegmented) => !segmented,
        Err(SearchError::NegativeLimit) => limit < 0,
        Err(SearchError::UnknownSnippet) => forall|mode: SnippetMode| #[trigger]
            snippet_name(mode) != snippet,
        Err(SearchError::SeveralColumns) => key_columns != 1,
        Err(SearchError::ExpressionKey) => key <= 0 && snippet != snippet_name(
            SnippetMode::Nothing,
        ),
        Err(SearchError::NotText) => !text && snippet != snippet_name(SnippetMode::Nothing),
    }
}

pub(crate) proof fn lemma_search_granted(
    null_query: bool,
    segmented: bool,
    limit: i32,
    snippet: Seq<char>,
    key_columns: i16,
    key: i16,
    text: bool,
)
    ensures
        search_granted(
            null_query,
            segmented,
            limit,
            snippet,
            key_columns,
            key,
            text,
            (if null_query {
                Err(SearchError::NullQuery)
            } else if !segmented {
                Err(SearchError::NotSegmented)
            } else if limit < 0 {
                Err(SearchError::NegativeLimit)
            } else {
                match snippet_named(snippet) {
                    Err(error) => Err(error),
                    Ok(mode) => match shape_of(
                        key_columns,
                        key,
                        text,
                        mode != SnippetMode::Nothing,
                    ) {
                        Err(error) => Err(error),
                        Ok(column) => Ok(SearchRequest { limit: limit as usize, mode, column }),
                    },
                }
            }),
        ),
{
    law_snippets_are_named(SnippetMode::Nothing, snippet);
    law_snippets_are_named(SnippetMode::Html, snippet);
    law_snippets_are_named(SnippetMode::Ansi, snippet);
    assert forall|mode: SnippetMode| snippet_named(snippet) is Err implies #[trigger] snippet_name(
        mode,
    ) != snippet by {
        law_snippets_are_named(mode, snippet);
    }
}

/// A count is granted for a query that is not NULL, over the one column of an index
/// that can be read selectively, and is refused for what is missing of that.
pub open spec fn count_granted(
    null_query: bool,
    segmented: bool,
    key_columns: i16,
    checked: Result<(), CountError>,
) -> bool {
    match checked {
        Ok(_) => !null_query && segmented && key_columns == 1,
        Err(CountError::NullQuery) => null_query,
        Err(CountError::NotSegmented) => !segmented,
        Err(CountError::SeveralColumns) => key_columns != 1,
    }
}

/// No rows are asked for: nothing is searched. Up to 4096 rows pruning is tried, and
/// beyond that every match is scored.
pub open spec fn path_fits(limit: usize, path: SearchPath) -> bool {
    match path {
        SearchPath::Nothing => limit == 0,
        SearchPath::Pruned => 0 < limit <= 4096,
        SearchPath::Exhaustive => limit > 4096,
    }
}

/// A scan without keys, or with a NULL among them, finds nothing. One whose keys the
/// index can answer asks for the query of each. One with a text that is no query
/// fails, unless another key before it cannot be answered; then, and where the index
/// cannot be read selectively, every page is a candidate.
pub open spec fn keys_planned(
    keys: Seq<ScanKey>,
    own: Option<u64>,
    plan: Result<ScanPlan, String>,
) -> bool {
    let nothing = keys.len() == 0 || exists|i: int| 0 <= i < keys.len() && (#[trigger] keys[i]).null;
    match plan {
        Ok(ScanPlan::Inactive) => nothing,
        Ok(ScanPlan::Queries(queries)) => {
            &&& !nothing && own is Some
            &&& queries@.len() == keys.len()
            &&& forall|i: int|
                0 <= i < keys.len() ==> readable(#[trigger] keys[i], own) && keys[i].parsed == Ok::<
                    Query,
                    String,
                >(queries@[i])
        },
        Ok(ScanPlan::Fallback) => !nothing && (own is None || exists|i: int|
            0 <= i < keys.len() && !readable(#[trigger] keys[i], own)),
        Err(message) => !nothing && exists|i: int|
            #![trigger keys[i]]
            0 <= i < keys.len() && keys[i].parsed == Err::<Query, String>(message)
                && !keys[i].other_flags && forall|j: int|
                0 <= j < i ==> readable(#[trigger] keys[j], own),
    }
}

proof fn lemma_first_unreadable(keys: Seq<ScanKey>, own: Option<u64>, i: int) -> (x: int)
    requires
        0 <= i <= keys.len(),
    ensures
        i <= x <= keys.len(),
        forall|y: int| i <= y < x ==> readable(#[trigger] keys[y], own),
        x < keys.len() ==> !readable(keys[x], own),
    decreases keys.len() - i,
{
    if i < keys.len() && readable(keys[i], own) {
        lemma_first_unreadable(keys, own, i + 1)
    } else {
        i
    }
}

pub(crate) proof fn lemma_keys_planned(keys: Seq<ScanKey>, own: Option<u64>)
    ensures
        keys.len() == 0 || has_null(keys) ==> keys_planned(
            keys,
            own,
            Ok::<ScanPlan, String>(ScanPlan::Inactive),
        ),
        keys.len() > 0 && !has_null(keys) ==> match reading_from(keys, own, 0) {
            Reading::Invalid(message) => keys_planned(keys, own, Err::<ScanPlan, String>(message)),
            Reading::Fallback => keys_planned(
                keys,
                own,
                Ok::<ScanPlan, String>(ScanPlan::Fallback),
            ),
            Reading::Queries => if own is Some {
                forall|queries: Vec<Query>|
                    queries@ == key_queries(keys) ==> #[trigger] keys_planned(
                        keys,
                        own,
                        Ok::<ScanPlan, String>(ScanPlan::Queries(queries)),
                    )
            } else {
                keys_planned(keys, own, Ok::<ScanPlan, String>(ScanPlan::Fallback))
            },
        },
{
    if keys.len() > 0 && !has_null(keys) {
        let x = lemma_first_unreadable(keys, own, 0);
        law_the_first_unreadable_key_decides(keys, own, 0, x);
        if x < keys.len() {
            assert(!readable(keys[x], own));
        }
        if reading_from(keys, own, 0) is Queries && own is Some {
            assert forall|queries: Vec<Query>|
                queries@ == key_queries(keys) implies #[trigger] keys_planned(
                keys,
                own,
                Ok::<ScanPlan, String>(ScanPlan::Queries(queries)),
            ) by {
                assert forall|i: int| 0 <= i < keys.len() implies readable(#[trigger] keys[i], own)
                    && keys[i].parsed == Ok::<Query, String>(queries@[i]) by {
                    assert(readable(keys[i], own));
                    assert(key_queries(keys)[i] == keys[i].parsed->Ok_0);
                }
            }
        }
    }
}

/// A clause is bound to the first index that covers its document and whose
/// predicate holds, if the document is of one table that can be indexed.
pub open spec fn bound_to(
    document: Expression,
    relations: Seq<RelationKind>,
    candidates: Seq<Candidate>,
    holds: Seq<bool>,
    index: Option<Candidate>,
) -> bool {
    match index {
        Some(found) => {
            &&& exists|varno: i32|
                1 <= varno <= relations.len() && #[trigger] refers_to(
                    document,
                    Variables::Of(varno),
                ) && relations[varno - 1] == RelationKind::Indexable
            &&& exists|x: int|
                #![trigger candidates[x]]
                0 <= x < candidates.len() && candidates[x] == found && holds[x] && forall|y: int|
                    0 <= y < x ==> !#[trigger] holds[y]
        },
        None => {
            ||| forall|x: int| 0 <= x < holds.len() ==> !#[trigger] holds[x]
            ||| refers_to(document, Variables::Nothing)
            ||| refers_to(document, Variables::Mixed)
            ||| exists|varno: i32| #[trigger]
                refers_to(document, Variables::Of(varno)) && !(1 <= varno <= relations.len()
                    && relations[varno - 1] == RelationKind::Indexable)
        },
    }
}

proof fn lemma_first_holding(candidates: Seq<Candidate>, holds: Seq<bool>, i: int)
    requires
        candidates.len() == holds.len(),
        0 <= i <= candidates.len(),
    ensures
        match first_holding(candidates, holds, i) {
            Some(found) => exists|x: int|
                #![trigger candidates[x]]
                i <= x < candidates.len() && candidates[x] == found && holds[x] && forall|y: int|
                    i <= y < x ==> !#[trigger] holds[y],
            None => forall|x: int| i <= x < holds.len() ==> !#[trigger] holds[x],
        },
    decreases candidates.len() - i,
{
    if i < candidates.len() {
        if holds[i] {
            assert(candidates[i] == candidates[i]);
        } else {
            lemma_first_holding(candidates, holds, i + 1);
            if let Some(found) = first_holding(candidates, holds, i + 1) {
                let x = choose|x: int|
                    #![trigger candidates[x]]
                    i + 1 <= x < candidates.len() && candidates[x] == found && holds[x] && forall|
                        y: int,
                    | i + 1 <= y < x ==> !#[trigger] holds[y];
                assert(candidates[x] == found);
            }
        }
    }
}

pub(crate) proof fn lemma_bound_to(
    document: Expression,
    relations: Seq<RelationKind>,
    candidates: Seq<Candidate>,
    holds: Seq<bool>,
)
    requires
        candidates.len() == holds.len(),
    ensures
        bound_to(
            document,
            relations,
            candidates,
            holds,
            (match variables_of(document) {
                Variables::Of(varno) => if 1 <= varno <= relations.len() && relations[varno - 1]
                    == RelationKind::Indexable {
                    first_holding(candidates, holds, 0)
                } else {
                    None
                },
                _ => None,
            }),
        ),
{
    law_variables_are_found(document);
    lemma_first_holding(candidates, holds, 0);
    if let Variables::Of(varno) = variables_of(document) {
        assert(refers_to(document, Variables::Of(varno)));
    }
}

/// A clause of a predicate is bound like the first of the query's clauses on the
/// same document with the same text, and only if that index analyzes texts as the
/// predicate does.
pub open spec fn bound_alike(
    bindings: Seq<BoundClause>,
    document: usize,
    query: Seq<char>,
    index: Option<u32>,
) -> bool {
    let alike = |x: int|
        bindings[x].document == document && bindings[x].query@ == query;
    match index {
        Some(found) => exists|x: int|
            #![trigger bindings[x]]
            0 <= x < bindings.len() && alike(x) && bindings[x].default_settings && bindings[x].index
                == found && forall|y: int|
                #![trigger bindings[y]]
                0 <= y < x ==> !alike(y),
        None => forall|x: int|
            #![trigger bindings[x]]
            0 <= x < bindings.len() && alike(x) && (forall|y: int|
                #![trigger bindings[y]]
                0 <= y < x ==> !alike(y)) ==> !bindings[x].default_settings,
    }
}

pub(crate) proof fn lemma_bound_alike(bindings: Seq<BoundClause>, document: usize, query: Seq<char>)
    ensures
        bound_alike(
            bindings,
            document,
            query,
            (match binding_from(bindings, document, query, 0) {
                Some(binding) => if binding.default_settings {
                    Some(binding.index)
                } else {
                    None
                },
                None => None,
            }),
        ),
{
    let x = lemma_first_alike(bindings, document, query, 0);
    crate::laws::clauses::law_predicates_are_bound_like_clauses(bindings, document, query, 0, x);
    if x < bindings.len() {
        assert(bindings[x].document == document);
    }
}

proof fn lemma_first_alike(
    bindings: Seq<BoundClause>,
    document: usize,
    query: Seq<char>,
    i: int,
) -> (x: int)
    requires
        0 <= i <= bindings.len(),
    ensures
        i <= x <= bindings.len(),
        forall|y: int|
            i <= y < x ==> (#[trigger] bindings[y]).document != document || bindings[y].query@
                != query,
        x < bindings.len() ==> bindings[x].document == document && bindings[x].query@ == query,
    decreases bindings.len() - i,
{
    if i < bindings.len() && !(bindings[i].document == document && bindings[i].query@ == query) {
        lemma_first_alike(bindings, document, query, i + 1)
    } else {
        i
    }
}

/// A word is added by someone who may, if it is one word of at most 256 bytes and
/// its frequency is not negative; else it is refused for what is wrong.
pub open spec fn addition_granted(
    admin: bool,
    word: Seq<char>,
    freq: i32,
    checked: Result<(), ChangeError>,
) -> bool {
    let fits = words(word) == seq![word] && encode_utf8(word).len() <= 256;
    match checked {
        Ok(_) => admin && fits && freq >= 0,
        Err(ChangeError::NotAllowed) => !admin,
        Err(ChangeError::InvalidWord) => admin && !fits,
        Err(ChangeError::NegativeFrequency) => admin && fits && freq < 0,
    }
}

pub(crate) proof fn lemma_addition_granted(admin: bool, word: Seq<char>, freq: i32)
    ensures
        addition_granted(
            admin,
            word,
            freq,
            (if !admin {
                Err(ChangeError::NotAllowed)
            } else if !word_valid(word) {
                Err(ChangeError::InvalidWord)
            } else if freq < 0 {
                Err(ChangeError::NegativeFrequency)
            } else {
                Ok(())
            }),
        ),
{
    law_dictionary_words_are_words(word);
}

/// A score call gets the score of the scan that put its row out last, if one did in
/// the same statement; else it is answered by the scorer that is kept, if that was
/// made in the same statement for a call that scores alike; else a scorer is built.
/// A call for the largest score has no row, and another one without a row fails.
pub open spec fn routed<P>(
    scans: ScanScorers<P>,
    cached: Option<&CacheKey>,
    call: CacheKey,
    mode: i32,
    tid: Option<Tid>,
    route: ScoreRoute,
) -> bool {
    match route {
        ScoreRoute::InvalidLocation => mode < 2 && tid is None,
        ScoreRoute::Ranked(score) => mode < 2 && tid is Some && exists|i: int|
            #![trigger scans.scans@[i]]
            0 <= i < scans.scans@.len() && put_out(scans.scans@[i], call, tid->0) && (forall|j: int|
                0 <= j < scans.scans@.len() && put_out(#[trigger] scans.scans@[j], call, tid->0)
                    ==> scans.scans@[j].emitted->0.stamp <= scans.scans@[i].emitted->0.stamp)
                && scans.scans@[i].known.at(scans.scans@[i].emitted->0.root) == Some(score),
        ScoreRoute::Cached => cached matches Some(key) && key.statement == call.statement
            && key.same_query(call) && (mode < 2 ==> tid is Some),
        ScoreRoute::Build => !(cached matches Some(key) && key.statement == call.statement
            && key.same_query(call)) && (mode < 2 ==> tid is Some),
    }
}

pub(crate) proof fn lemma_routed<P>(
    scans: ScanScorers<P>,
    cached: Option<&CacheKey>,
    call: CacheKey,
    mode: i32,
    tid: Option<Tid>,
)
    ensures
        routed(
            scans,
            cached,
            call,
            mode,
            tid,
            (if mode < 2 && tid is None {
                ScoreRoute::InvalidLocation
            } else if mode < 2 && scans.emitted_score(call, tid->0) is Some {
                ScoreRoute::Ranked(scans.emitted_score(call, tid->0)->0)
            } else if cached matches Some(key) && key.statement == call.statement && key.same_query(
                call,
            ) {
                ScoreRoute::Cached
            } else {
                ScoreRoute::Build
            }),
        ),
{
    if mode < 2 && tid is Some && scans.emitted_score(call, tid->0) is Some {
        let all = scans.scans@;
        law_the_last_scan_scores_its_row(all, call, tid->0, all.len() as int);
        let i = crate::cache::newest_owner(all, call, tid->0, all.len() as int)->0;
        assert(put_out(scans.scans@[i], call, tid->0));
    }
}

} // verus!
