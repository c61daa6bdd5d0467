//! Putting a scorer together.

use crate::corpus::{corpus_kept, corpus_terms};
use crate::options::Bm25Params;
use crate::query::{
    field_error_text, parse_query, resolved_query, unresolved_field, FieldError, FieldMeta, Query,
    QueryError,
};
use crate::score_call::{elements, inspected_terms};
use crate::statistics::{
    counts_valid, document_totals, documents_upto, field_length_upto, field_total, kept_upto,
    length_upto, retained_terms, total_length, Retention, SourceCounts, TermCounts,
};
use crate::terms::{
    all_fields_mask, collect_score_terms, every_field, law_resolved_query_scores, score_expansions,
    score_terms, scored_unknown, Boosting, Collected, Standing,
};
use crate::text::texts;
use vstd::prelude::*;

verus! {

/// The boost of what no query boosts: the bit pattern of one.
pub const UNBOOSTED: u32 = 0x3f80_0000;

/// Why a scorer is not built.
#[derive(Debug)]
pub enum BuildError {
    /// The index is no longer on the scored table.
    Relation,
    /// The scoring parameters are out of range; what is wrong with them.
    Parameters(String),
    DenseRatio,
    Query(QueryError),
    /// The edit of the scoring terms is refused; the reason.
    Edit(String),
}

/// What a scorer is asked for, with what was found out about the request.
#[derive(Debug)]
pub struct ScoreRequest {
    /// Whether the index is on the scored table.
    pub belongs: bool,
    /// The parameters to score by.
    pub parameters: Result<Bm25Params, String>,
    /// Whether common terms are scored too.
    pub full: bool,
    /// Whether the ratio that common terms are told by is one.
    pub dense_valid: bool,
    /// What the parser made of the query's text.
    pub parsed: Result<Query, String>,
    /// Whether the edit of the scoring terms is one.
    pub edit: Result<(), String>,
}

/// A checked request.
#[derive(Debug)]
pub struct Prepared {
    pub parameters: Bm25Params,
    pub query: Query,
    /// Every field of the index.
    pub mask: u16,
    /// What the query is scored by.
    pub collected: Collected,
}

impl ScoreRequest {
    /// The first reason to refuse the request, in the order in which its parts
    /// are checked.
    pub open spec fn refusal(self, fields: Option<FieldMeta>) -> Option<BuildError> {
        if !self.belongs {
            Some(BuildError::Relation)
        } else if self.parameters is Err {
            Some(BuildError::Parameters(self.parameters->Err_0))
        } else if !self.full && !self.dense_valid {
            Some(BuildError::DenseRatio)
        } else if resolved_query(self.parsed, fields) is Err {
            Some(BuildError::Query(resolved_query(self.parsed, fields)->Err_0))
        } else if self.edit is Err {
            Some(BuildError::Edit(self.edit->Err_0))
        } else {
            None
        }
    }
}

/// What a whole query stands under.
pub open spec fn unscoped(fields: Option<FieldMeta>) -> Standing {
    Standing {
        mask: every_field(fields) as u16,
        boost: UNBOOSTED,
        explicitly_boosted: false,
    }
}

/// The fields that names of a query stand for: none, without a field plan.
pub open spec fn is_scope(plan: FieldMeta, fields: Option<FieldMeta>) -> bool {
    match fields {
        Some(given) => plan == given,
        None => plan.names@.len() == 0 && plan.weights@.len() == 0,
    }
}

fn collect_under<T: Fn(u32, u32) -> u32>(
    query: &Query,
    mask: u16,
    plan: &FieldMeta,
    boosting: &Boosting<T>,
) -> (collected: Result<Collected, FieldError>)
    requires
        plan.valid(),
        boosting.deterministic(),
    ensures
        match scored_unknown(*query, *plan) {
            Some(error) => collected == Err::<Collected, FieldError>(error),
            None => {
                &&& collected is Ok
                &&& collected->Ok_0.terms@ == score_terms(
                    *query,
                    (Standing { mask, boost: UNBOOSTED, explicitly_boosted: false }),
                    *plan,
                    *boosting,
                )
                &&& collected->Ok_0.expansions@ == score_expansions(
                    *query,
                    (Standing { mask, boost: UNBOOSTED, explicitly_boosted: false }),
                    *plan,
                    *boosting,
                )
            },
        },
{
    let mut collected = Collected::new();
    let standing = Standing { mask, boost: UNBOOSTED, explicitly_boosted: false };
    match collect_score_terms(query, standing, plan, boosting, &mut collected) {
        Ok(()) => {
            proof {
                let terms = score_terms(*query, standing, *plan, *boosting);
                let expansions = score_expansions(*query, standing, *plan, *boosting);
                assert(collected.terms@ =~= terms);
                assert(collected.expansions@ =~= expansions);
            }
            Ok(collected)
        },
        Err(error) => Err(error),
    }
}

fn check_request(request: ScoreRequest, fields: &Option<FieldMeta>) -> (checked: Result<
    (Bm25Params, Query),
    BuildError,
>)
    ensures
        checked == (match request.refusal(*fields) {
            Some(error) => Err(error),
            None => Ok((request.parameters->Ok_0, request.parsed->Ok_0)),
        }),
{
    if !request.belongs {
        return Err(BuildError::Relation);
    }
    let parameters = match request.parameters {
        Ok(parameters) => parameters,
        Err(message) => {
            return Err(BuildError::Parameters(message));
        },
    };
    if !request.full && !request.dense_valid {
        return Err(BuildError::DenseRatio);
    }
    let query = match parse_query(request.parsed, fields) {
        Ok(query) => query,
        Err(error) => {
            return Err(BuildError::Query(error));
        },
    };
    if let Err(message) = request.edit {
        return Err(BuildError::Edit(message));
    }
    Ok((parameters, query))
}

/// What a query is scored by in an index with these fields.
pub open spec fn gathered<T: Fn(u32, u32) -> u32>(
    query: Query,
    fields: Option<FieldMeta>,
    boosting: Boosting<T>,
    collected: Collected,
) -> bool {
    exists|plan: FieldMeta|
        {
            &&& #[trigger] is_scope(plan, fields)
            &&& collected.terms@ == score_terms(query, unscoped(fields), plan, boosting)
            &&& collected.expansions@ == score_expansions(query, unscoped(fields), plan, boosting)
        }
}

/// Gathers what a query whose field names were resolved is scored by, in all
/// fields of an index where it names none.
pub fn collect_in_fields<T: Fn(u32, u32) -> u32>(
    query: &Query,
    fields: &Option<FieldMeta>,
    boosting: &Boosting<T>,
) -> (gathering: (u16, Collected))
    requires
        fields matches Some(plan) ==> plan.valid(),
        boosting.deterministic(),
        unresolved_field(*query, *fields) is None,
    ensures
        gathering.0 == every_field(*fields),
        gathered(*query, *fields, *boosting, gathering.1),
{
    let mask: u16 = all_fields_mask(fields);
    let none = FieldMeta { names: Vec::new(), weights: Vec::new() };
    let plan: &FieldMeta = match fields {
        Some(plan) => plan,
        None => &none,
    };
    proof {
        law_resolved_query_scores(*query, *fields, *plan);
        assert(is_scope(*plan, *fields));
    }
    match collect_under(query, mask, plan, boosting) {
        Ok(collected) => (mask, collected),
        Err(_) => {
            assert(false);
            (mask, Collected::new())
        },
    }
}

/// Checks a request and gathers what its query is scored by.
pub fn prepare_scorer<T: Fn(u32, u32) -> u32>(
    request: ScoreRequest,
    fields: &Option<FieldMeta>,
    boosting: &Boosting<T>,
) -> (prepared: Result<Prepared, BuildError>)
    requires
        fields matches Some(plan) ==> plan.valid(),
        boosting.deterministic(),
    ensures
        match request.refusal(*fields) {
            Some(error) => prepared == Err::<Prepared, BuildError>(error),
            None => {
                &&& prepared is Ok
                &&& prepared->Ok_0.parameters == request.parameters->Ok_0
                &&& prepared->Ok_0.query == request.parsed->Ok_0
                &&& prepared->Ok_0.mask == every_field(*fields)
                &&& gathered(
                    request.parsed->Ok_0,
                    *fields,
                    *boosting,
                    prepared->Ok_0.collected,
                )
            },
        },
{
    let (parameters, query) = match check_request(request, fields) {
        Ok(checked) => checked,
        Err(error) => {
            return Err(error);
        },
    };
    let (mask, collected) = collect_in_fields(&query, fields, boosting);
    Ok(Prepared { parameters, query, mask, collected })
}

/// What a query over one column's text stands under.
pub open spec fn one_column() -> Standing {
    Standing { mask: 1, boost: UNBOOSTED, explicitly_boosted: false }
}

/// Checks a request and gathers what its query is scored by in a corpus of one
/// column's text. The field names of the query are resolved like those of any
/// other, but none can be scored by there.
pub fn prepare_corpus<T: Fn(u32, u32) -> u32>(
    request: ScoreRequest,
    fields: &Option<FieldMeta>,
    boosting: &Boosting<T>,
) -> (prepared: Result<Prepared, BuildError>)
    requires
        boosting.deterministic(),
    ensures
        match request.refusal(*fields) {
            Some(error) => prepared == Err::<Prepared, BuildError>(error),
            None => exists|plan: FieldMeta|
                {
                    &&& #[trigger] is_scope(plan, None)
                    &&& match scored_unknown(request.parsed->Ok_0, plan) {
                        Some(error) => prepared == Err::<Prepared, BuildError>(
                            BuildError::Query(QueryError::Field(error)),
                        ),
                        None => {
                            &&& prepared is Ok
                            &&& prepared->Ok_0.parameters == request.parameters->Ok_0
                            &&& prepared->Ok_0.query == request.parsed->Ok_0
                            &&& prepared->Ok_0.mask == 1
                            &&& prepared->Ok_0.collected.terms@ == score_terms(
                                request.parsed->Ok_0,
                                one_column(),
                                plan,
                                *boosting,
                            )
                            &&& prepared->Ok_0.collected.expansions@ == score_expansions(
                                request.parsed->Ok_0,
                                one_column(),
                                plan,
                                *boosting,
                            )
                        },
                    }
                },
        },
{
    let (parameters, query) = match check_request(request, fields) {
        Ok(checked) => checked,
        Err(error) => {
            return Err(error);
        },
    };
    let plan = FieldMeta { names: Vec::new(), weights: Vec::new() };
    proof {
        assert(is_scope(plan, None));
    }
    match collect_under(&query, 1, &plan, boosting) {
        Ok(collected) => Ok(Prepared { parameters, query, mask: 1, collected }),
        Err(error) => Err(BuildError::Query(QueryError::Field(error))),
    }
}

/// What the user is told of a refused query; `prefix` says whose query it is.
pub open spec fn query_error_text(error: QueryError, prefix: Seq<char>) -> Seq<char> {
    match error {
        QueryError::Parse(message) => prefix + message@,
        QueryError::Field(error) => field_error_text(error),
    }
}

impl QueryError {
    /// What the user is told; `prefix` says whose query it is.
    pub fn message(&self, prefix: &str) -> (message: String)
        ensures
            message@ == query_error_text(*self, prefix@),
    {
        match self {
            QueryError::Parse(reason) => {
                let mut message = String::from_str(prefix);
                message.append(reason.as_str());
                message
            },
            QueryError::Field(error) => error.message(),
        }
    }
}

impl BuildError {
    /// What the user is told.
    pub open spec fn text(self) -> Seq<char> {
        match self {
            BuildError::Relation =>
            "stannum score index no longer belongs to the scored relation"@,
            BuildError::Parameters(reason) => "stannum score parameters: "@ + reason@,
            BuildError::DenseRatio => "dense_ratio must be finite and non-negative"@,
            BuildError::Query(error) => query_error_text(error, "Stannum score query error: "@),
            BuildError::Edit(reason) => "stannum.score(): "@ + reason@,
        }
    }

    /// What the user is told.
    pub fn message(&self) -> (message: String)
        ensures
            message@ == self.text(),
    {
        match self {
            BuildError::Relation => String::from_str(
                "stannum score index no longer belongs to the scored relation",
            ),
            BuildError::Parameters(reason) => {
                let mut message = String::from_str("stannum score parameters: ");
                message.append(reason.as_str());
                message
            },
            BuildError::DenseRatio => String::from_str(
                "dense_ratio must be finite and non-negative",
            ),
            BuildError::Query(error) => error.message("Stannum score query error: "),
            BuildError::Edit(reason) => {
                let mut message = String::from_str("stannum.score(): ");
                message.append(reason.as_str());
                message
            },
        }
    }
}

/// What the average length of a document is computed from.
#[derive(Debug)]
pub enum LengthTotals {
    /// The lengths of all documents together.
    Whole(u64),
    /// The lengths of each field, all together.
    Fields(Vec<u64>),
}

/// What the term scorers of an index are computed from.
#[derive(Debug)]
pub struct IndexStatistics {
    pub documents: u64,
    pub lengths: LengthTotals,
    /// The scoring terms that are kept.
    pub terms: Vec<TermCounts>,
}

/// The lengths of an index, or of each of its fields, fit in a number.
pub open spec fn lengths_fit(sources: Seq<SourceCounts>, fields: Option<usize>) -> bool {
    match fields {
        None => length_upto(sources, sources.len() as int) <= u64::MAX,
        Some(n) => forall|field: int|
            0 <= field < n ==> #[trigger] field_length_upto(sources, field, sources.len() as int)
                <= u64::MAX,
    }
}

/// Adds up the statistics of an index with `fields` fields, or without. They
/// count deleted documents until their source is rewritten, and buffered
/// documents immediately; which terms are kept rests on the immutable sources.
pub fn index_statistics<R: Fn(usize, u64, u64, u64) -> bool>(
    sources: &Vec<SourceCounts>,
    immutable: usize,
    fields: Option<usize>,
    terms: usize,
    retention: &Retention<R>,
) -> (statistics: IndexStatistics)
    requires
        counts_valid(
            sources@,
            terms as nat,
            match fields {
                Some(n) => n as nat,
                None => 0,
            },
        ),
        lengths_fit(sources@, fields),
        retention.deterministic(),
    ensures
        statistics.documents == documents_upto(sources@, sources.len() as int),
        match fields {
            None => statistics.lengths == LengthTotals::Whole(
                length_upto(sources@, sources.len() as int) as u64,
            ),
            Some(n) => statistics.lengths matches LengthTotals::Fields(totals) && totals.len() == n
                && forall|field: int|
                0 <= field < n ==> #[trigger] totals[field] == field_length_upto(
                    sources@,
                    field,
                    sources.len() as int,
                ),
        },
        statistics.terms@ == kept_upto(sources@, immutable as int, *retention, terms as int),
{
    let (documents, _) = document_totals(sources, immutable);
    let lengths = match fields {
        None => LengthTotals::Whole(total_length(sources)),
        Some(n) => {
            let mut totals: Vec<u64> = Vec::new();
            let mut field: usize = 0;
            while field < n
                invariant
                    field <= n,
                    totals.len() == field,
                    fields == Some(n),
                    counts_valid(sources@, terms as nat, n as nat),
                    lengths_fit(sources@, fields),
                    forall|f: int|
                        0 <= f < field ==> #[trigger] totals[f] == field_length_upto(
                            sources@,
                            f,
                            sources.len() as int,
                        ),
                decreases n - field,
            {
                totals.push(field_total(sources, field));
                field = field + 1;
            }
            LengthTotals::Fields(totals)
        },
    };
    let terms = retained_terms(sources, immutable, terms, retention);
    IndexStatistics { documents, lengths, terms }
}

/// A scoring term as it is listed: its text and its boost.
#[derive(Debug)]
pub struct ScoringTerm {
    pub text: String,
    pub boost: u32,
}

/// The terms that `kept` names, in its order.
pub open spec fn listed(terms: Seq<ScoringTerm>, kept: Seq<TermCounts>) -> Seq<ScoringTerm> {
    kept.map_values(|counts: TermCounts| terms[counts.term as int])
}

fn list_kept(terms: &Vec<ScoringTerm>, kept: &Vec<TermCounts>) -> (rows: Vec<ScoringTerm>)
    requires
        forall|i: int| 0 <= i < kept.len() ==> (#[trigger] kept[i]).term < terms.len(),
    ensures
        rows@ == listed(terms@, kept@),
{
    let mut rows: Vec<ScoringTerm> = Vec::new();
    let mut i: usize = 0;
    while i < kept.len()
        invariant
            i <= kept.len(),
            forall|j: int| 0 <= j < kept.len() ==> (#[trigger] kept[j]).term < terms.len(),
            rows@ == listed(terms@, kept@).take(i as int),
        decreases kept.len() - i,
    {
        let term = &terms[kept[i].term];
        rows.push(ScoringTerm { text: term.text.clone(), boost: term.boost });
        proof {
            assert(rows@ =~= listed(terms@, kept@).take(i + 1));
        }
        i = i + 1;
    }
    proof {
        assert(listed(terms@, kept@).take(i as int) =~= listed(terms@, kept@));
    }
    rows
}

proof fn lemma_kept_within<R: Fn(usize, u64, u64, u64) -> bool>(
    sources: Seq<SourceCounts>,
    immutable: int,
    retention: Retention<R>,
    upto: int,
)
    requires
        upto <= usize::MAX,
    ensures
        forall|i: int|
            0 <= i < kept_upto(sources, immutable, retention, upto).len() ==> (#[trigger] kept_upto(
                sources,
                immutable,
                retention,
                upto,
            )[i]).term < upto,
    decreases upto,
{
    if upto > 0 {
        lemma_kept_within(sources, immutable, retention, upto - 1);
        let before = kept_upto(sources, immutable, retention, upto - 1);
        let kept = kept_upto(sources, immutable, retention, upto);
        assert forall|i: int| 0 <= i < kept.len() implies (#[trigger] kept[i]).term < upto by {
            if i < before.len() {
                assert(kept[i] == before[i]);
            }
        }
    }
}

proof fn lemma_corpus_kept_within<R: Fn(usize, u64, u64, u64) -> bool>(
    tokenized: Seq<Vec<String>>,
    terms: Seq<String>,
    retention: Retention<R>,
    upto: int,
)
    requires
        upto <= usize::MAX,
    ensures
        forall|i: int|
            0 <= i < corpus_kept(tokenized, terms, retention, upto).len() ==> (
            #[trigger] corpus_kept(tokenized, terms, retention, upto)[i]).term < upto,
    decreases upto,
{
    if upto > 0 {
        lemma_corpus_kept_within(tokenized, terms, retention, upto - 1);
        let before = corpus_kept(tokenized, terms, retention, upto - 1);
        let kept = corpus_kept(tokenized, terms, retention, upto);
        assert forall|i: int| 0 <= i < kept.len() implies (#[trigger] kept[i]).term < upto by {
            if i < before.len() {
                assert(kept[i] == before[i]);
            }
        }
    }
}

/// Lists the terms that scores of an index keep, for inspection.
pub fn inspect_index<R: Fn(usize, u64, u64, u64) -> bool>(
    sources: &Vec<SourceCounts>,
    immutable: usize,
    terms: &Vec<ScoringTerm>,
    retention: &Retention<R>,
) -> (rows: Vec<ScoringTerm>)
    requires
        sources.len() <= u32::MAX,
        forall|i: int|
            0 <= i < sources.len() ==> (#[trigger] sources[i]).frequencies.len() == terms.len(),
        retention.deterministic(),
    ensures
        rows@ == listed(
            terms@,
            kept_upto(sources@, immutable as int, *retention, terms.len() as int),
        ),
{
    let kept = retained_terms(sources, immutable, terms.len(), retention);
    proof {
        lemma_kept_within(sources@, immutable as int, *retention, terms.len() as int);
    }
    list_kept(terms, &kept)
}

/// Lists the terms that scores of a corpus keep, for inspection.
pub fn inspect_corpus<R: Fn(usize, u64, u64, u64) -> bool>(
    tokenized: &Vec<Vec<String>>,
    terms: &Vec<ScoringTerm>,
    retention: &Retention<R>,
) -> (rows: Vec<ScoringTerm>)
    requires
        retention.deterministic(),
    ensures
        rows@ == listed(
            terms@,
            corpus_kept(
                tokenized@,
                terms@.map_values(|term: ScoringTerm| term.text),
                *retention,
                terms.len() as int,
            ),
        ),
{
    let ghost names = terms@.map_values(|term: ScoringTerm| term.text);
    let mut owned: Vec<String> = Vec::new();
    let mut i: usize = 0;
    while i < terms.len()
        invariant
            i <= terms.len(),
            names == terms@.map_values(|term: ScoringTerm| term.text),
            owned@ == names.take(i as int),
        decreases terms.len() - i,
    {
        owned.push(terms[i].text.clone());
        proof {
            assert(owned@ =~= names.take(i + 1));
        }
        i = i + 1;
    }
    proof {
        assert(names.take(i as int) =~= names);
        lemma_corpus_kept_within(tokenized@, names, *retention, terms.len() as int);
    }
    let kept = corpus_terms(tokenized, &owned, retention);
    list_kept(terms, &kept)
}

/// Why the scoring terms of a query cannot be listed.
#[derive(Debug)]
pub enum InspectError {
    /// The relation is no index of this kind.
    Index,
    Query(QueryError),
    /// An array argument holds a NULL; the message.
    Array(String),
    Edit(String),
    DenseRatio,
}

/// The arguments of an inspection.
#[derive(Debug)]
pub struct InspectArguments {
    pub query: Query,
    pub add: Option<Vec<String>>,
    pub replace: Option<Vec<String>>,
}

/// Whether an array argument holds a NULL.
pub open spec fn holds_null(values: Option<Vec<Option<String>>>) -> bool {
    values matches Some(given) && exists|i: int|
        0 <= i < given.len() && #[trigger] given[i] is None
}

/// What an array argument without NULLs gives.
pub open spec fn taken(terms: Option<Vec<String>>, values: Option<Vec<Option<String>>>) -> bool {
    match values {
        None => terms is None,
        Some(given) => terms matches Some(found) && texts(found@) == elements(given@),
    }
}

/// What the user is told of a NULL in the array called `which`.
pub open spec fn null_text(which: Seq<char>) -> Seq<char> {
    "stannum.score_inspect() "@ + which + " array elements must not be NULL"@
}

/// Checks the arguments of an inspection.
pub fn inspect_arguments(
    stannum: bool,
    parsed: Result<Query, String>,
    fields: &Option<FieldMeta>,
    add: Option<Vec<Option<String>>>,
    replace: Option<Vec<Option<String>>>,
) -> (arguments: Result<InspectArguments, InspectError>)
    ensures
        if !stannum {
            arguments == Err::<InspectArguments, InspectError>(InspectError::Index)
        } else if resolved_query(parsed, *fields) is Err {
            arguments == Err::<InspectArguments, InspectError>(
                InspectError::Query(resolved_query(parsed, *fields)->Err_0),
            )
        } else if holds_null(add) {
            arguments matches Err(InspectError::Array(message)) && message@ == null_text(
                "term_add"@,
            )
        } else if holds_null(replace) {
            arguments matches Err(InspectError::Array(message)) && message@ == null_text(
                "term_replace"@,
            )
        } else {
            arguments matches Ok(given) && given.query == parsed->Ok_0 && taken(given.add, add)
                && taken(given.replace, replace)
        },
{
    if !stannum {
        return Err(InspectError::Index);
    }
    let query = match parse_query(parsed, fields) {
        Ok(query) => query,
        Err(error) => {
            return Err(InspectError::Query(error));
        },
    };
    let add = match inspected_terms("term_add", add) {
        Ok(add) => add,
        Err(message) => {
            return Err(InspectError::Array(message));
        },
    };
    let replace = match inspected_terms("term_replace", replace) {
        Ok(replace) => replace,
        Err(message) => {
            return Err(InspectError::Array(message));
        },
    };
    Ok(InspectArguments { query, add, replace })
}

/// Checks what the edit and the ratio of an inspection came to.
pub fn check_inspect(edit: Result<(), String>, dense_valid: bool) -> (checked: Result<
    (),
    InspectError,
>)
    ensures
        checked == (match edit {
            Err(message) => Err(InspectError::Edit(message)),
            Ok(_) => if dense_valid {
                Ok(())
            } else {
                Err(InspectError::DenseRatio)
            },
        }),
{
    match edit {
        Err(message) => Err(InspectError::Edit(message)),
        Ok(_) => if dense_valid {
            Ok(())
        } else {
            Err(InspectError::DenseRatio)
        },
    }
}

impl InspectError {
    /// What the user is told.
    pub open spec fn text(self) -> Seq<char> {
        match self {
            InspectError::Index => "stannum.score_inspect() requires a stannum index"@,
            InspectError::Query(error) => query_error_text(
                error,
                "stannum.score_inspect() query error: "@,
            ),
            InspectError::Array(message) => message@,
            InspectError::Edit(reason) => "stannum.score_inspect(): "@ + reason@,
            InspectError::DenseRatio => "dense_ratio must be finite and non-negative"@,
        }
    }

    /// What the user is told.
    pub fn message(&self) -> (message: String)
        ensures
            message@ == self.text(),
    {
        match self {
            InspectError::Index => String::from_str(
                "stannum.score_inspect() requires a stannum index",
            ),
            InspectError::Query(error) => error.message("stannum.score_inspect() query error: "),
            InspectError::Array(message) => message.clone(),
            InspectError::Edit(reason) => {
                let mut message = String::from_str("stannum.score_inspect(): ");
                message.append(reason.as_str());
                message
            },
            InspectError::DenseRatio => String::from_str(
                "dense_ratio must be finite and non-negative",
            ),
        }
    }
}

} // verus!
