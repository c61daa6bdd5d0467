//! The SQL highlight functions: how a call is bound to an index, and what it
//! gives.

use crate::clause::{
    bound_operand, operand_of, query_text, single_varno, variables_of, BoundOperand, Expression,
    ResultType, Variables,
};
use crate::operator::indexed_query;
use crate::highlight::{
    error_text, highlight_text, highlight_text_ansi, highlighted, rewrap_text, rewrapped,
    HighlightStyle,
};
use crate::laws::bindings::{call_bound, column_named, lemma_call_bound, lemma_column_named};
use crate::marks::{tokens_in, HighlightError, TokenSpan};
use crate::match_positions::MatchPosition;
use crate::query::FieldMeta;
use crate::score_call::{any_of, combine_constant_queries};
use crate::text::{holds_text, same, texts};
use vstd::prelude::*;

verus! {

/// The highlight functions.
#[derive(Clone, Copy, Debug, PartialEq, Eq, Structural)]
pub enum HighlightFunction {
    Html,
    Ansi,
}

/// The highlight function of this name.
pub fn highlight_function(name: &str) -> (function: Option<HighlightFunction>)
    ensures
        function == (if name@ == "highlight"@ {
            Some(HighlightFunction::Html)
        } else if name@ == "highlight_ansi"@ {
            Some(HighlightFunction::Ansi)
        } else {
            None
        }),
{
    if same(name, "highlight") {
        Some(HighlightFunction::Html)
    } else if same(name, "highlight_ansi") {
        Some(HighlightFunction::Ansi)
    } else {
        None
    }
}

/// The type of an argument.
#[derive(Clone, Copy, Debug, PartialEq, Eq, Structural)]
pub enum ArgumentType {
    Text,
    Integer,
    IndexedQuery,
}

impl HighlightFunction {
    /// Where the query stands among the arguments.
    pub open spec fn query_place(self) -> int {
        match self {
            HighlightFunction::Html => 3,
            HighlightFunction::Ansi => 2,
        }
    }

    /// Where the query stands among the arguments.
    pub fn query_position(self) -> (place: usize)
        ensures
            place == self.query_place(),
    {
        match self {
            HighlightFunction::Html => 3,
            HighlightFunction::Ansi => 2,
        }
    }

    /// The argument types of the bound overload.
    pub open spec fn overload(self, field: bool) -> Seq<ArgumentType> {
        (match self {
            HighlightFunction::Html => seq![
                ArgumentType::Text,
                ArgumentType::Text,
                ArgumentType::Text,
                ArgumentType::IndexedQuery,
            ],
            HighlightFunction::Ansi => seq![
                ArgumentType::Text,
                ArgumentType::Integer,
                ArgumentType::IndexedQuery,
            ],
        }) + if field {
            seq![ArgumentType::Text]
        } else {
            Seq::empty()
        }
    }

    /// The argument types of the overload that takes a bound query in place of
    /// the text query, optionally with a trailing field.
    pub fn bound_overload(self, field: bool) -> (types: Vec<ArgumentType>)
        ensures
            types@ == self.overload(field),
    {
        let mut types: Vec<ArgumentType> = Vec::new();
        match self {
            HighlightFunction::Html => {
                types.push(ArgumentType::Text);
                types.push(ArgumentType::Text);
                types.push(ArgumentType::Text);
            },
            HighlightFunction::Ansi => {
                types.push(ArgumentType::Text);
                types.push(ArgumentType::Integer);
            },
        }
        types.push(ArgumentType::IndexedQuery);
        if field {
            types.push(ArgumentType::Text);
        }
        proof {
            assert(types@ =~= self.overload(field));
        }
        types
    }
}

/// The query of a call that names none: the constants of the clauses on the
/// same document, any of which may match, or else the first clause's.
#[derive(Debug)]
pub enum CombinedQuery {
    Text(String),
    First,
}

/// The constant that a query is.
pub open spec fn constant_of(node: Expression) -> Option<String> {
    match node {
        Expression::TextConstant(Some(text)) => Some(text),
        Expression::BoundConstant(Some(bound)) => Some(bound.query),
        _ => None,
    }
}

/// The constants that queries are.
pub open spec fn constants_of(queries: Seq<Expression>) -> Seq<Option<String>> {
    queries.map_values(|query: Expression| constant_of(query))
}

/// The queries as one: constants are joined into one constant; anything else
/// keeps the first query.
pub fn combined_query(queries: &Vec<Expression>) -> (combined: CombinedQuery)
    ensures
        match combined {
            CombinedQuery::Text(text) => queries.len() >= 2 && (forall|i: int|
                0 <= i < queries.len() ==> constant_of(#[trigger] queries[i]) is Some) && text@
                == any_of(constants_of(queries@), queries.len() as int),
            CombinedQuery::First => queries.len() < 2 || exists|i: int|
                0 <= i < queries.len() && constant_of(#[trigger] queries[i]) is None,
        },
{
    let mut constants: Vec<Option<String>> = Vec::new();
    let mut i: usize = 0;
    while i < queries.len()
        invariant
            i <= queries.len(),
            constants@ == constants_of(queries@).take(i as int),
        decreases queries.len() - i,
    {
        constants.push(query_text(&queries[i]));
        proof {
            assert(constants@ =~= constants_of(queries@).take(i + 1));
        }
        i = i + 1;
    }
    proof {
        assert(constants@ =~= constants_of(queries@));
        assert forall|j: int| 0 <= j < queries.len() implies #[trigger] constants[j] == constant_of(
            queries[j],
        ) by {}
    }
    match combine_constant_queries(&constants) {
        Some(text) => {
            proof {
                assert forall|j: int| 0 <= j < queries.len() implies constant_of(
                    #[trigger] queries[j],
                ) is Some by {
                    assert(constants[j] is Some);
                }
            }
            CombinedQuery::Text(text)
        },
        None => {
            proof {
                if queries.len() >= 2 {
                    let j = choose|j: int|
                        0 <= j < constants.len() && #[trigger] constants[j] is None;
                    assert(constant_of(queries[j]) is None);
                }
            }
            CombinedQuery::First
        },
    }
}

/// A highlight call as the planner sees it.
#[derive(Debug)]
pub struct HighlightCall {
    pub function: Option<HighlightFunction>,
    /// How many arguments the call has.
    pub arguments: usize,
    /// The query argument.
    pub query: Expression,
    pub document: Expression,
    /// Whether the document's variables are a table's.
    pub on_table: bool,
    /// The queries of the `==>` clauses on the same document, as text.
    pub clauses: Vec<Expression>,
    /// The index that each of those clauses is bound to.
    pub bound: Vec<Option<u32>>,
    /// The index that a clause on the document would bind to.
    pub binds_to: Option<u32>,
}

/// How a highlight call is rewritten.
#[derive(Debug)]
pub struct HighlightBinding {
    pub function: HighlightFunction,
    /// The index whose settings text and query are analyzed with.
    pub index: u32,
    /// What stands in the query's place.
    pub operand: BoundOperand,
}

/// The first index, from the `i`-th clause on, that a clause is bound to.
pub open spec fn first_bound(bound: Seq<Option<u32>>, i: int) -> Option<u32>
    decreases bound.len() - i,
{
    if i < 0 || i >= bound.len() {
        None
    } else if bound[i] is Some {
        bound[i]
    } else {
        first_bound(bound, i + 1)
    }
}

impl HighlightCall {
    /// The call is one to rewrite: a highlight function with a text query and
    /// a document of one table.
    pub open spec fn eligible(self) -> bool {
        &&& self.function is Some
        &&& self.arguments > self.function->0.query_place()
        &&& self.query.result() == ResultType::Text
        &&& variables_of(self.document) is Of
        &&& self.on_table
    }

    /// The index to analyze with: that of a `==>` clause on the document, or
    /// the one it would bind to.
    pub open spec fn index(self) -> Option<u32> {
        match first_bound(self.bound@, 0) {
            Some(index) => Some(index),
            None => self.binds_to,
        }
    }

    /// The call names no query: it takes that of the clauses.
    pub open spec fn implicit(self) -> bool {
        self.query == Expression::TextConstant(None)
    }

    /// The clauses' queries are constants to be joined.
    pub open spec fn joins(self) -> bool {
        self.clauses.len() >= 2 && forall|i: int|
            0 <= i < self.clauses.len() ==> constant_of(#[trigger] self.clauses[i]) is Some
    }

    /// Whether `operand` takes the query's place under `index`.
    pub open spec fn replaced_by(self, index: u32, operand: Option<BoundOperand>) -> bool {
        if !self.implicit() {
            operand == operand_of(self.query, index)
        } else if self.clauses.len() == 0 {
            operand is None
        } else if self.joins() {
            operand matches Some(BoundOperand::Constant(bound)) && bound.index == index
                && bound.query@ == any_of(constants_of(self.clauses@), self.clauses.len() as int)
        } else {
            operand == operand_of(self.clauses[0], index)
        }
    }

    fn first_bound_index(&self) -> (index: Option<u32>)
        ensures
            index == first_bound(self.bound@, 0),
    {
        let mut i: usize = 0;
        while i < self.bound.len()
            invariant
                i <= self.bound.len(),
                first_bound(self.bound@, 0) == first_bound(self.bound@, i as int),
            decreases self.bound.len() - i,
        {
            if self.bound[i].is_some() {
                return self.bound[i];
            }
            i = i + 1;
        }
        None
    }

    fn operand(&self, index: u32) -> (operand: Option<BoundOperand>)
        ensures
            self.replaced_by(index, operand),
    {
        match &self.query {
            Expression::TextConstant(None) => {
                if self.clauses.len() == 0 {
                    return None;
                }
                match combined_query(&self.clauses) {
                    CombinedQuery::Text(text) => Some(
                        BoundOperand::Constant(indexed_query { index, query: text }),
                    ),
                    CombinedQuery::First => bound_operand(&self.clauses[0], index),
                }
            },
            _ => bound_operand(&self.query, index),
        }
    }

    /// Binds the call to an index, so that highlights agree with matches.
    /// `None` leaves the call as it is.
    pub fn highlight_support(&self) -> (binding: Option<HighlightBinding>)
        ensures
            match binding {
                None => !self.eligible() || self.index() is None || self.replaced_by(
                    self.index()->0,
                    None,
                ),
                Some(binding) => self.eligible() && Some(binding.function) == self.function && Some(
                    binding.index,
                ) == self.index() && self.replaced_by(binding.index, Some(binding.operand)),
            },
            call_bound(*self, binding),
    {
        proof {
            lemma_call_bound(*self, None);
        }
        let function = match self.function {
            Some(function) => function,
            None => {
                return None;
            },
        };
        if self.arguments <= function.query_position() {
            return None;
        }
        match self.query.result_type() {
            ResultType::Text => {},
            _ => {
                return None;
            },
        }
        if single_varno(&self.document).is_none() || !self.on_table {
            return None;
        }
        let index: u32 = match self.first_bound_index() {
            Some(index) => index,
            None => match self.binds_to {
                Some(index) => index,
                None => {
                    return None;
                },
            },
        };
        match self.operand(index) {
            Some(operand) => {
                let binding = HighlightBinding { function, index, operand };
                proof {
                    lemma_call_bound(*self, Some(binding));
                }
                Some(binding)
            },
            None => None,
        }
    }
}

/// The first key column, from the `i`-th on, that is `attribute`.
pub open spec fn column_from(keys: Seq<i16>, attribute: i16, i: int) -> Option<int>
    decreases keys.len() - i,
{
    if i < 0 || i >= keys.len() {
        None
    } else if keys[i] == attribute {
        Some(i)
    } else {
        column_from(keys, attribute, i + 1)
    }
}

/// The field name a plain column reference names on a multi-column index: the
/// place of its attribute among the key columns selects the field. A column
/// that is no key, or an index without fields, contributes no field.
pub fn column_field_name(keys: &Vec<i16>, attribute: i16, fields: &Option<FieldMeta>) -> (name: Option<
    String,
>)
    ensures
        name == (match (column_from(keys@, attribute, 0), *fields) {
            (Some(i), Some(plan)) => if attribute > 0 && i < plan.names.len() {
                Some(plan.names[i])
            } else {
                None
            },
            _ => None,
        }),
        column_named(keys@, attribute, *fields, name),
{
    proof {
        lemma_column_named(keys@, attribute, *fields);
    }
    if attribute <= 0 {
        return None;
    }
    let mut i: usize = 0;
    while i < keys.len()
        invariant
            i <= keys.len(),
            attribute > 0,
            column_from(keys@, attribute, 0) == column_from(keys@, attribute, i as int),
            column_named(
                keys@,
                attribute,
                *fields,
                (match (column_from(keys@, attribute, 0), *fields) {
                    (Some(i), Some(plan)) => if attribute > 0 && i < plan.names.len() {
                        Some(plan.names[i])
                    } else {
                        None
                    },
                    _ => None,
                }),
            ),
        decreases keys.len() - i,
    {
        if keys[i] == attribute {
            return match fields {
                Some(plan) => if i < plan.names.len() {
                    Some(plan.names[i].clone())
                } else {
                    None
                },
                None => None,
            };
        }
        i = i + 1;
    }
    None
}

/// What a highlight call that names an unknown field is told, if it does.
pub fn unknown_field(field: &str, fields: &Option<FieldMeta>) -> (error: Option<String>)
    ensures
        match error {
            Some(text) => !(fields matches Some(plan) && texts(plan.names@).contains(field@))
                && text@ == "stannum.highlight(): unknown field '"@ + field@ + "'"@,
            None => fields matches Some(plan) && texts(plan.names@).contains(field@),
        },
{
    if let Some(plan) = fields {
        if holds_text(&plan.names, field) {
            return None;
        }
    }
    let mut text = String::from_str("stannum.highlight(): unknown field '");
    text.append(field);
    text.append("'");
    Some(text)
}

/// What a call without a query is told.
pub open spec fn missing_binding_text(function: Seq<char>) -> Seq<char> {
    function + " requires an explicit query or a matching stannum index scan"@
}

fn missing_binding(function: &str) -> (message: String)
    ensures
        message@ == missing_binding_text(function@),
{
    let mut message = String::from_str(function);
    message.append(" requires an explicit query or a matching stannum index scan");
    message
}

/// What `stannum.highlight()` gives for a text whose tokens and match
/// positions are known, as they are once it has a query: nothing for no text,
/// and an error for no query.
pub fn render_highlight(
    text: Option<&str>,
    begin_tag: &str,
    end_tag: &str,
    found: Option<(Vec<TokenSpan>, Vec<MatchPosition>)>,
) -> (rendered: Result<Option<String>, String>)
    requires
        text matches Some(shown) ==> (found matches Some((tokens, _)) ==> tokens_in(
            tokens@,
            shown@,
        )),
    ensures
        match (text, found) {
            (None, _) => rendered == Ok::<Option<String>, String>(None),
            (Some(_), None) => rendered matches Err(message) && message@ == missing_binding_text(
                "stannum.highlight()"@,
            ),
            (Some(shown), Some((tokens, positions))) => exists|result: Result<
                String,
                HighlightError,
            >|
                #[trigger] highlighted(
                    HighlightStyle::Html { begin_tag, end_tag },
                    shown@,
                    tokens@,
                    positions@,
                    result,
                ) && told(result, rendered),
        },
{
    let shown = match text {
        Some(shown) => shown,
        None => {
            return Ok(None);
        },
    };
    let (tokens, positions) = match found {
        Some(found) => found,
        None => {
            return Err(missing_binding("stannum.highlight()"));
        },
    };
    match highlight_text(&tokens, shown, begin_tag, end_tag, &positions) {
        Ok(output) => Ok(Some(output)),
        Err(error) => Err(error.message()),
    }
}

/// An error is told in words.
pub open spec fn told(
    result: Result<String, HighlightError>,
    rendered: Result<Option<String>, String>,
) -> bool {
    match result {
        Ok(output) => rendered == Ok::<Option<String>, String>(Some(output)),
        Err(error) => rendered matches Err(message) && message@ == error_text(error),
    }
}

/// The text that `stannum.highlight_ansi()` marks: set anew where a width is
/// given, which must be positive. There is nothing to mark without a text, and
/// a query must be given.
pub fn ansi_text(text: Option<&str>, wrap_to: Option<i32>, query: bool) -> (shown: Result<
    Option<String>,
    String,
>)
    ensures
        match text {
            None => shown == Ok::<Option<String>, String>(None),
            Some(text) => if !query {
                shown matches Err(message) && message@ == missing_binding_text(
                    "stannum.highlight_ansi()"@,
                )
            } else {
                match wrap_to {
                    None => shown matches Ok(Some(out)) && out@ == text@,
                    Some(width) => if width <= 0 {
                        shown matches Err(message) && message@ == "wrap_to must be positive"@
                    } else {
                        shown matches Ok(Some(out)) && out@ == rewrapped(text@, width as nat)
                    },
                }
            },
        },
{
    let text = match text {
        Some(text) => text,
        None => {
            return Ok(None);
        },
    };
    if !query {
        return Err(missing_binding("stannum.highlight_ansi()"));
    }
    match wrap_to {
        None => Ok(Some(String::from_str(text))),
        Some(width) => if width <= 0 {
            Err(String::from_str("wrap_to must be positive"))
        } else {
            Ok(Some(rewrap_text(text, width as usize)))
        },
    }
}

/// What `stannum.highlight_ansi()` gives for the text it marks, whose tokens
/// and match positions are known.
pub fn render_highlight_ansi(
    shown: &str,
    tokens: &Vec<TokenSpan>,
    positions: &Vec<MatchPosition>,
) -> (rendered: Result<Option<String>, String>)
    requires
        tokens_in(tokens@, shown@),
    ensures
        exists|result: Result<String, HighlightError>| #[trigger]
            highlighted(HighlightStyle::Ansi, shown@, tokens@, positions@, result) && told(
                result,
                rendered,
            ),
{
    match highlight_text_ansi(tokens, shown, positions) {
        Ok(output) => Ok(Some(output)),
        Err(error) => Err(error.message()),
    }
}

} // verus!
