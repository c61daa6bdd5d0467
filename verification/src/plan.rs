//! Planning: which index answers a clause, which ordering a scan can
//! provide, and what the plan hands to the executor.

use vstd::prelude::*;

verus! {

/// An index that can answer a clause: the field of the index that the
/// clause's column is, and the index's tokenizer settings.
#[derive(Clone, Copy, Debug, PartialEq, Eq, Structural)]
pub struct Candidate {
    pub index: u32,
    pub field: u8,
    pub spec: u64,
}

/// The first candidate, from the `i`-th on, that is `index`.
pub open spec fn candidate_of(candidates: Seq<Candidate>, index: u32, i: int) -> Option<Candidate>
    decreases candidates.len() - i,
{
    if i < 0 || i >= candidates.len() {
        None
    } else if candidates[i].index == index {
        Some(candidates[i])
    } else {
        candidate_of(candidates, index, i + 1)
    }
}

/// The first candidate, from the `i`-th on, with these tokenizer settings.
pub open spec fn candidate_like(candidates: Seq<Candidate>, spec: u64, i: int) -> Option<Candidate>
    decreases candidates.len() - i,
{
    if i < 0 || i >= candidates.len() {
        None
    } else if candidates[i].spec == spec {
        Some(candidates[i])
    } else {
        candidate_like(candidates, spec, i + 1)
    }
}

/// The index that answers a clause bound to `bound`, an index and its
/// settings.
pub open spec fn picked(candidates: Seq<Candidate>, bound: Option<(u32, u64)>) -> Option<Candidate> {
    match bound {
        Some((index, spec)) => match candidate_of(candidates, index, 0) {
            Some(candidate) => Some(candidate),
            None => candidate_like(candidates, spec, 0),
        },
        None => if candidates.len() > 0 {
            Some(candidates[0])
        } else {
            None
        },
    }
}

/// The index a clause should be answered by, among `candidates` in OID order:
/// the one it is bound to when that is one of them, otherwise the first with
/// the same tokenizer settings, so an index scan never disagrees with the
/// clause's own evaluation.
pub fn pick_index(candidates: &Vec<Candidate>, bound: Option<(u32, u64)>) -> (index: Option<
    Candidate,
>)
    ensures
        index == picked(candidates@, bound),
{
    let (index, spec) = match bound {
        Some(bound) => bound,
        None => {
            return if candidates.len() > 0 {
                Some(candidates[0])
            } else {
                None
            };
        },
    };
    let mut i: usize = 0;
    while i < candidates.len()
        invariant
            bound == Some((index, spec)),
            i <= candidates.len(),
            candidate_of(candidates@, index, 0) == candidate_of(candidates@, index, i as int),
        decreases candidates.len() - i,
    {
        if candidates[i].index == index {
            return Some(candidates[i]);
        }
        i = i + 1;
    }
    let mut i: usize = 0;
    while i < candidates.len()
        invariant
            bound == Some((index, spec)),
            candidate_of(candidates@, index, 0) is None,
            i <= candidates.len(),
            candidate_like(candidates@, spec, 0) == candidate_like(candidates@, spec, i as int),
        decreases candidates.len() - i,
    {
        if candidates[i].spec == spec {
            return Some(candidates[i]);
        }
        i = i + 1;
    }
    None
}

/// An index never answers a clause with settings other than those the clause
/// was bound to.
pub proof fn law_picked_settings(candidates: Seq<Candidate>, index: u32, spec: u64)
    requires
        forall|i: int|
            0 <= i < candidates.len() && (#[trigger] candidates[i]).index == index
                ==> candidates[i].spec == spec,
    ensures
        picked(candidates, Some((index, spec))) matches Some(candidate) ==> candidate.spec == spec
            && candidates.contains(candidate),
{
    lemma_candidate_of(candidates, index, 0);
    lemma_candidate_like(candidates, spec, 0);
}

proof fn lemma_candidate_of(candidates: Seq<Candidate>, index: u32, i: int)
    ensures
        candidate_of(candidates, index, i) matches Some(candidate) ==> candidate.index == index
            && candidates.contains(candidate),
    decreases candidates.len() - i,
{
    if 0 <= i < candidates.len() && candidates[i].index != index {
        lemma_candidate_of(candidates, index, i + 1);
    }
}

proof fn lemma_candidate_like(candidates: Seq<Candidate>, spec: u64, i: int)
    ensures
        candidate_like(candidates, spec, i) matches Some(candidate) ==> candidate.spec == spec
            && candidates.contains(candidate),
    decreases candidates.len() - i,
{
    if 0 <= i < candidates.len() && candidates[i].spec != spec {
        lemma_candidate_like(candidates, spec, i + 1);
    }
}

/// What a clause's document operand is, once its variables are renumbered.
#[derive(Clone, Copy, Debug, PartialEq, Eq, Structural)]
pub enum DocumentOperand {
    /// A variable: its range-table position, query level and attribute.
    Variable { varno: i32, level: u32, attribute: i16 },
    /// Anything else.
    Expression,
}

/// What an index of the clause's table offers.
#[derive(Debug)]
pub struct IndexShape {
    pub index: u32,
    pub spec: u64,
    /// A stannum index that is valid and ready.
    pub suitable: bool,
    /// The attribute of each key column; not positive for an expression.
    pub keys: Vec<i16>,
    /// The index has one key expression, and it is the operand.
    pub expression_matches: bool,
}

/// The first key column, from the `i`-th on, that is `attribute`.
pub open spec fn key_position(keys: Seq<i16>, attribute: i16, i: int) -> Option<int>
    decreases keys.len() - i,
{
    if i < 0 || i >= keys.len() {
        None
    } else if keys[i] == attribute {
        Some(i)
    } else {
        key_position(keys, attribute, i + 1)
    }
}

impl IndexShape {
    /// The field of the index that a clause's operand is.
    pub open spec fn field_of(self, operand: DocumentOperand) -> Option<u8> {
        if !self.suitable {
            None
        } else if self.keys.len() == 1 && self.keys[0] <= 0 {
            if self.expression_matches {
                Some(0)
            } else {
                None
            }
        } else {
            match operand {
                DocumentOperand::Variable { varno, level, attribute } => if varno != 1 || level != 0
                    || attribute <= 0 {
                    None
                } else {
                    match key_position(self.keys@, attribute, 0) {
                        Some(field) => if field <= 255 {
                            Some(field as u8)
                        } else {
                            None
                        },
                        None => None,
                    }
                },
                DocumentOperand::Expression => None,
            }
        }
    }

    /// The field of the index that a clause's operand is: any key column, or
    /// the expression of a single-column index.
    pub fn matched_field(&self, operand: DocumentOperand) -> (field: Option<u8>)
        ensures
            field == self.field_of(operand),
    {
        if !self.suitable {
            return None;
        }
        if self.keys.len() == 1 && self.keys[0] <= 0 {
            return if self.expression_matches {
                Some(0)
            } else {
                None
            };
        }
        match operand {
            DocumentOperand::Variable { varno, level, attribute } => {
                if varno != 1 || level != 0 || attribute <= 0 {
                    return None;
                }
                let mut i: usize = 0;
                while i < self.keys.len()
                    invariant
                        self.suitable,
                        !(self.keys.len() == 1 && self.keys[0] <= 0),
                        operand == (DocumentOperand::Variable { varno, level, attribute }),
                        varno == 1 && level == 0 && attribute > 0,
                        i <= self.keys.len(),
                        key_position(self.keys@, attribute, 0) == key_position(
                            self.keys@,
                            attribute,
                            i as int,
                        ),
                    decreases self.keys.len() - i,
                {
                    if self.keys[i] == attribute {
                        return if i <= 255 {
                            Some(i as u8)
                        } else {
                            None
                        };
                    }
                    i = i + 1;
                }
                None
            },
            DocumentOperand::Expression => None,
        }
    }
}

/// The candidates among the first `upto` indexes.
pub open spec fn candidates_upto(
    indexes: Seq<IndexShape>,
    operand: DocumentOperand,
    upto: int,
) -> Seq<Candidate>
    decreases upto,
{
    if upto <= 0 || upto > indexes.len() {
        Seq::empty()
    } else {
        let before = candidates_upto(indexes, operand, upto - 1);
        let index = indexes[upto - 1];
        match index.field_of(operand) {
            Some(field) => before.push(Candidate { index: index.index, field, spec: index.spec }),
            None => before,
        }
    }
}

/// Every valid, ready stannum index one of whose key columns is the operand,
/// in the order they come, with the field of the index the clause answers.
pub fn matching_stannum_indexes(indexes: &Vec<IndexShape>, operand: DocumentOperand) -> (candidates:
    Vec<Candidate>)
    ensures
        candidates@ == candidates_upto(indexes@, operand, indexes.len() as int),
{
    let mut candidates: Vec<Candidate> = Vec::new();
    let mut i: usize = 0;
    while i < indexes.len()
        invariant
            i <= indexes.len(),
            candidates@ == candidates_upto(indexes@, operand, i as int),
        decreases indexes.len() - i,
    {
        let shape = &indexes[i];
        if let Some(field) = shape.matched_field(operand) {
            candidates.push(Candidate { index: shape.index, field, spec: shape.spec });
        }
        i = i + 1;
    }
    candidates
}

/// What the planner knows of an index's predicate.
#[derive(Clone, Copy, Debug, PartialEq, Eq, Structural)]
pub struct IndexPredicate {
    pub index: u32,
    pub partial: bool,
    pub implied: bool,
}

/// Whether the first of `predicates` that is of `index`, from the `i`-th on,
/// holds.
pub open spec fn proven_from(predicates: Seq<IndexPredicate>, index: u32, i: int) -> bool
    decreases predicates.len() - i,
{
    if i < 0 || i >= predicates.len() {
        false
    } else if predicates[i].index == index {
        !predicates[i].partial || predicates[i].implied
    } else {
        proven_from(predicates, index, i + 1)
    }
}

/// A partial index may only answer a query whose restrictions imply its
/// predicate; the planner has already decided that per index.
pub fn predicate_proven(predicates: &Vec<IndexPredicate>, index: u32) -> (proven: bool)
    ensures
        proven == proven_from(predicates@, index, 0),
{
    let mut i: usize = 0;
    while i < predicates.len()
        invariant
            i <= predicates.len(),
            proven_from(predicates@, index, 0) == proven_from(predicates@, index, i as int),
        decreases predicates.len() - i,
    {
        if predicates[i].index == index {
            return !predicates[i].partial || predicates[i].implied;
        }
        i = i + 1;
    }
    false
}

/// The query operand of a `==>` clause.
#[derive(Debug)]
pub enum QueryOperand {
    /// A text constant.
    Constant(String),
    /// A client bind parameter of type text.
    Parameter,
    /// Anything else: outer-row values, subplans, functions, expressions with
    /// execution-dependent effects.
    Other,
}

/// A restriction of a relation.
#[derive(Debug)]
pub enum Restriction {
    /// A `==>` clause: its query, the index it is bound to with that index's
    /// settings, and the segmented indexes with a proven predicate that cover
    /// its document.
    Search { query: QueryOperand, bound: Option<(u32, u64)>, candidates: Vec<Candidate> },
    /// Any other clause.
    Other,
}

/// A clause that an index answers: its place among the restrictions, and the
/// index.
#[derive(Clone, Copy, Debug, PartialEq, Eq, Structural)]
pub struct Match {
    pub place: usize,
    pub index: Candidate,
}

impl Restriction {
    /// The index that answers the restriction.
    pub open spec fn answered_by(self, allow_parameter: bool) -> Option<Candidate> {
        match self {
            Restriction::Search { query, bound, candidates } => if query is Constant || (query is Parameter
                && allow_parameter) {
                picked(candidates@, bound)
            } else {
                None
            },
            Restriction::Other => None,
        }
    }

    fn answer(&self, allow_parameter: bool) -> (index: Option<Candidate>)
        ensures
            index == self.answered_by(allow_parameter),
    {
        match self {
            Restriction::Search { query, bound, candidates } => {
                let usable = match query {
                    QueryOperand::Constant(_) => true,
                    QueryOperand::Parameter => allow_parameter,
                    QueryOperand::Other => false,
                };
                if usable {
                    pick_index(candidates, *bound)
                } else {
                    None
                }
            },
            Restriction::Other => None,
        }
    }
}

/// The first restriction, from the `i`-th on, that an index answers.
pub open spec fn match_from(restrictions: Seq<Restriction>, allow_parameter: bool, i: int) -> Option<
    Match,
>
    decreases restrictions.len() - i,
{
    if i < 0 || i >= restrictions.len() {
        None
    } else {
        match restrictions[i].answered_by(allow_parameter) {
            Some(index) => Some(Match { place: i as usize, index }),
            None => match_from(restrictions, allow_parameter, i + 1),
        }
    }
}

/// Finds a constant (or, when allowed, external text parameter) restriction
/// answered by an index whose tokenizer settings are the ones the clause is
/// bound to.
pub fn find_match(restrictions: &Vec<Restriction>, allow_parameter: bool) -> (found: Option<Match>)
    ensures
        found == match_from(restrictions@, allow_parameter, 0),
        found matches Some(m) ==> m.place < restrictions.len(),
{
    let mut i: usize = 0;
    while i < restrictions.len()
        invariant
            i <= restrictions.len(),
            match_from(restrictions@, allow_parameter, 0) == match_from(
                restrictions@,
                allow_parameter,
                i as int,
            ),
        decreases restrictions.len() - i,
    {
        if let Some(index) = restrictions[i].answer(allow_parameter) {
            return Some(Match { place: i, index });
        }
        i = i + 1;
    }
    None
}

/// An object identifier that a signed integer stands for.
pub open spec fn unsigned_oid(value: i32) -> int {
    if value < 0 {
        value + 0x1_0000_0000
    } else {
        value as int
    }
}

/// The object identifier that a signed integer stands for.
pub fn oid_of(value: i32) -> (oid: u32)
    ensures
        oid == unsigned_oid(value),
{
    if value < 0 {
        (value as i64 + 0x1_0000_0000) as u32
    } else {
        value as u32
    }
}

/// The kind of function a sort expression calls, as far as ordering by it
/// goes.
#[derive(Debug)]
pub enum SortExpression {
    /// A call of the indexed score function, with what its arguments are.
    ScoreCall(ScoreCall),
    /// Anything else, or an expression over other relations.
    Other,
}

/// An argument of a score call: not a constant, NULL, or a value.
#[derive(Debug)]
pub enum Argument<T> {
    NotConstant,
    Null,
    Value(T),
}

/// The arguments of an indexed score call. Numbers are bit patterns.
#[derive(Debug)]
pub struct ScoreCall {
    /// The query is the one of the clause that was found.
    pub same_query: bool,
    pub index: Argument<i32>,
    pub mode: Argument<i32>,
    pub dense_ratio: Argument<u32>,
    pub k1: Argument<u32>,
    pub b: Argument<u32>,
    pub term_add: Argument<Vec<String>>,
    pub term_replace: Argument<Vec<String>>,
}

/// Top-k ordering the scan can provide: a score sort key.
#[derive(Debug)]
pub struct ScoreOrder {
    pub full: bool,
    pub dense_ratio: Option<u32>,
    pub k1: Option<u32>,
    pub b: Option<u32>,
    pub term_add: Option<Vec<String>>,
    pub term_replace: Option<Vec<String>>,
    /// Rows the query will consume when the planner knows; only that many are
    /// sorted up front.
    pub top_k: Option<usize>,
}

impl<T> Argument<T> {
    /// The value of a constant argument; NULL is no value.
    pub open spec fn constant(self) -> Option<T> {
        match self {
            Argument::Value(value) => Some(value),
            _ => None,
        }
    }
}

impl ScoreCall {
    /// The call scores by the index found, and all it is given is constant.
    pub open spec fn orders_by(self, index: u32) -> bool {
        &&& self.same_query
        &&& self.index matches Argument::Value(oid) && unsigned_oid(oid) == index
        &&& self.mode is Value
        &&& !(self.dense_ratio is NotConstant)
        &&& !(self.k1 is NotConstant)
        &&& !(self.b is NotConstant)
        &&& !(self.term_add is NotConstant)
        &&& !(self.term_replace is NotConstant)
    }

    /// The ordering that a scan of the index provides for the call.
    pub open spec fn order(self, top_k: Option<usize>) -> ScoreOrder {
        ScoreOrder {
            full: self.mode == Argument::Value(1i32),
            dense_ratio: self.dense_ratio.constant(),
            k1: self.k1.constant(),
            b: self.b.constant(),
            term_add: self.term_add.constant(),
            term_replace: self.term_replace.constant(),
            top_k,
        }
    }
}

/// The first of the sort expressions, from the `i`-th on, that is a score
/// call on `index`.
pub open spec fn ordering_from(members: Seq<SortExpression>, index: u32, i: int) -> Option<ScoreCall>
    decreases members.len() - i,
{
    if i < 0 || i >= members.len() {
        None
    } else {
        match members[i] {
            SortExpression::ScoreCall(call) => if call.orders_by(index) {
                Some(call)
            } else {
                ordering_from(members, index, i + 1)
            },
            SortExpression::Other => ordering_from(members, index, i + 1),
        }
    }
}

/// Recognizes an `ORDER BY` on a score, descending and alone, after the
/// scoring support function has bound it to `index`. The sort key's
/// equivalent expressions are `members`.
pub fn find_ordering(
    sort_keys: usize,
    descending: bool,
    members: Vec<SortExpression>,
    index: u32,
    top_k: Option<usize>,
) -> (order: Option<ScoreOrder>)
    ensures
        order == (if sort_keys != 1 || !descending {
            None
        } else {
            match ordering_from(members@, index, 0) {
                Some(call) => Some(call.order(top_k)),
                None => None,
            }
        }),
{
    if sort_keys != 1 || !descending {
        return None;
    }
    let ghost all = members@;
    let len: usize = members.len();
    let mut rest = members;
    let mut i: usize = 0;
    proof {
        assert(all.skip(0) =~= all);
    }
    while rest.len() > 0
        invariant
            all == members@,
            all.len() == len,
            sort_keys == 1 && descending,
            i + rest.len() == all.len(),
            rest@ == all.skip(i as int),
            ordering_from(all, index, 0) == ordering_from(all, index, i as int),
        decreases rest.len(),
    {
        let member = rest.remove(0);
        proof {
            assert(member == all[i as int]);
            assert(rest@ =~= all.skip(i + 1));
        }
        if let SortExpression::ScoreCall(call) = member {
            if score_call_fits(&call, index) {
                return Some(order_of(call, top_k));
            }
        }
        i = i + 1;
    }
    None
}

fn score_call_fits(call: &ScoreCall, index: u32) -> (fits: bool)
    ensures
        fits == call.orders_by(index),
{
    let same_index = match call.index {
        Argument::Value(oid) => oid_of(oid) == index,
        _ => false,
    };
    call.same_query && same_index && matches!(call.mode, Argument::Value(_)) && !matches!(
        call.dense_ratio,
        Argument::NotConstant
    ) && !matches!(call.k1, Argument::NotConstant) && !matches!(call.b, Argument::NotConstant)
        && !matches!(call.term_add, Argument::NotConstant) && !matches!(
        call.term_replace,
        Argument::NotConstant
    )
}

fn value_of<T>(argument: Argument<T>) -> (value: Option<T>)
    ensures
        value == argument.constant(),
{
    match argument {
        Argument::Value(value) => Some(value),
        _ => None,
    }
}

fn order_of(call: ScoreCall, top_k: Option<usize>) -> (order: ScoreOrder)
    ensures
        order == call.order(top_k),
{
    let full = match call.mode {
        Argument::Value(mode) => mode == 1,
        _ => false,
    };
    ScoreOrder {
        full,
        dense_ratio: value_of(call.dense_ratio),
        k1: value_of(call.k1),
        b: value_of(call.b),
        term_add: value_of(call.term_add),
        term_replace: value_of(call.term_replace),
        top_k,
    }
}

/// Which clause a search path is built on, given the match that admits
/// parameters, whether its query is a constant, whether it supplies the
/// ordering, and the match among constants only. A parameter that cannot
/// supply the ordering must not hide an existing constant-clause path.
pub fn path_match(
    found: Match,
    constant_query: bool,
    supplies_ordering: bool,
    constant: Option<Match>,
) -> (chosen: Option<Match>)
    ensures
        chosen == (if constant_query || supplies_ordering {
            Some(found)
        } else {
            constant
        }),
{
    if !constant_query && !supplies_ordering {
        constant
    } else {
        Some(found)
    }
}

/// Whether a search path may run in a parallel worker. An unordered scan
/// keeps no state outside its own process; an ordered one publishes scorer
/// state to the score calls of its own backend.
pub fn path_parallel_safe(consider: bool, ordered: bool, dictionary_safe: bool) -> (safe: bool)
    ensures
        safe == (consider && !ordered && dictionary_safe),
{
    consider && !ordered && dictionary_safe
}

/// A LIMIT or OFFSET expression.
#[derive(Clone, Copy, Debug, PartialEq, Eq, Structural)]
pub enum BoundExpression {
    Absent,
    /// A constant; whether it is a `bigint`.
    Constant { bigint: bool },
    /// A parameter; whether the client binds it, as a `bigint`.
    Parameter { external: bool, bigint: bool },
    Other,
}

impl BoundExpression {
    /// Evaluating the expression early repeats no work and depends on no
    /// outer row.
    pub open spec fn safe(self) -> bool {
        match self {
            BoundExpression::Constant { bigint } => bigint,
            BoundExpression::Parameter { external, bigint } => external && bigint,
            _ => false,
        }
    }

    /// Whether evaluating the expression early is safe.
    pub fn safe_bound_expr(self) -> (is_safe: bool)
        ensures
            is_safe == self.safe(),
    {
        match self {
            BoundExpression::Constant { bigint } => bigint,
            BoundExpression::Parameter { external, bigint } => external && bigint,
            _ => false,
        }
    }
}

/// What a query has besides a plain SELECT.
#[derive(Clone, Copy, Debug, PartialEq, Eq, Structural)]
pub struct QueryShape {
    pub aggregates: bool,
    pub window_functions: bool,
    pub target_srfs: bool,
    pub group_clause: bool,
    pub grouping_sets: bool,
    pub distinct_clause: bool,
    pub having: bool,
    pub set_operations: bool,
    /// The items of FROM; none without a join tree.
    pub from_items: Option<usize>,
    /// The first of them is the scanned relation itself.
    pub from_is_relation: bool,
}

impl QueryShape {
    /// A plain SELECT over the scanned relation alone.
    pub open spec fn plain(self) -> bool {
        &&& !self.aggregates
        &&& !self.window_functions
        &&& !self.target_srfs
        &&& !self.group_clause
        &&& !self.grouping_sets
        &&& !self.distinct_clause
        &&& !self.having
        &&& !self.set_operations
        &&& self.from_items == Some(1usize)
        &&& self.from_is_relation
    }

    /// Limit hints are useful only below a simple ranked SELECT: none comes
    /// through joins, aggregation, DISTINCT, window functions or SRFs.
    pub fn runtime_bound_shape(self) -> (plain: bool)
        ensures
            plain == self.plain(),
    {
        if self.aggregates || self.window_functions || self.target_srfs || self.group_clause
            || self.grouping_sets || self.distinct_clause || self.having || self.set_operations {
            return false;
        }
        match self.from_items {
            Some(items) => items == 1 && self.from_is_relation,
            None => false,
        }
    }
}

/// Whether a plan evaluates its LIMIT and OFFSET when it starts: the scan is
/// ordered, no other filter can reject rows, the query is plain, and one of
/// them is a parameter.
pub fn binds_limits(
    ordered: bool,
    remaining_quals: bool,
    shape: QueryShape,
    limit: BoundExpression,
    offset: BoundExpression,
) -> (binds: bool)
    ensures
        binds == (ordered && !remaining_quals && shape.plain() && limit.safe() && (offset is Absent
            || offset.safe()) && (limit is Parameter || offset is Parameter)),
{
    ordered && !remaining_quals && shape.runtime_bound_shape() && limit.safe_bound_expr() && (
    matches!(offset, BoundExpression::Absent) || offset.safe_bound_expr()) && (matches!(
        limit,
        BoundExpression::Parameter { .. }
    ) || matches!(offset, BoundExpression::Parameter { .. }))
}

/// The query whose rows a count scan could count.
#[derive(Clone, Copy, Debug, PartialEq, Eq, Structural)]
pub struct CountShape {
    pub enabled: bool,
    /// The planner is at the grouping and aggregation stage.
    pub grouping_stage: bool,
    pub aggregates: bool,
    pub group_clause: bool,
    pub having: bool,
    pub window_functions: bool,
    pub distinct_on: bool,
    pub grouping_sets: bool,
    pub targets: usize,
    /// The target is an aggregate call.
    pub target_is_aggregate: bool,
    pub star: bool,
    pub filter: bool,
    pub distinct: bool,
    pub order: bool,
    /// The input is a base relation, with this many restrictions.
    pub base_relation: bool,
    pub restrictions: usize,
    /// The relation is an ordinary table.
    pub table: bool,
}

impl CountShape {
    /// Exactly `count(*)`, unfiltered, over one table with one restriction.
    pub open spec fn counts_all(self) -> bool {
        &&& self.enabled && self.grouping_stage
        &&& self.aggregates && !self.group_clause && !self.having && !self.window_functions
        &&& !self.distinct_on && !self.grouping_sets && self.targets == 1
        &&& self.target_is_aggregate && self.star && !self.filter && !self.distinct && !self.order
        &&& self.base_relation && self.restrictions == 1
        &&& self.table
    }

    /// Whether a count scan may answer the query.
    pub fn countable(self) -> (countable: bool)
        ensures
            countable == self.counts_all(),
    {
        if !self.enabled || !self.grouping_stage {
            return false;
        }
        if !self.aggregates || self.group_clause || self.having || self.window_functions
            || self.distinct_on || self.grouping_sets || self.targets != 1 {
            return false;
        }
        if !self.target_is_aggregate {
            return false;
        }
        if !self.star || self.filter || self.distinct || self.order {
            return false;
        }
        if !self.base_relation || self.restrictions != 1 {
            return false;
        }
        self.table
    }
}

/// Whether a relation can be searched: a base relation that is an ordinary
/// table and refers to no other.
pub fn searchable(base_relation: bool, table: bool, lateral: bool) -> (can: bool)
    ensures
        can == (base_relation && table && !lateral),
{
    base_relation && table && !lateral
}

} // verus!
