//! What the planner keeps of a statement's estimates, and the clauses of an
//! index path. The estimates themselves are floating-point numbers, which the
//! memo carries as they are.

use crate::clause::{bound_index, query_text, unbound_of, Expression, ResultType};
use crate::text::same;
use vstd::prelude::*;

verus! {

/// An estimate for a query over an index whose content had the stamp.
pub struct Remembered<E> {
    pub index: u32,
    pub query: String,
    pub stamp: u64,
    pub estimate: E,
}

/// The estimates of a statement.
pub struct EstimateMemo<E> {
    pub entries: Vec<Remembered<E>>,
}

/// The first entry, from the `i`-th on, for the index and the query.
pub open spec fn remembered_from<E>(
    entries: Seq<Remembered<E>>,
    index: u32,
    query: Seq<char>,
    i: int,
) -> Option<int>
    decreases entries.len() - i,
{
    if i < 0 || i >= entries.len() {
        None
    } else if entries[i].index == index && entries[i].query@ == query {
        Some(i)
    } else {
        remembered_from(entries, index, query, i + 1)
    }
}

impl<E: Copy> EstimateMemo<E> {
    /// The estimate kept for a query over an index, of whatever content, with
    /// the stamp of that.
    pub open spec fn at(self, index: u32, query: Seq<char>) -> Option<(u64, E)> {
        match remembered_from(self.entries@, index, query, 0) {
            Some(i) => Some((self.entries[i].stamp, self.entries[i].estimate)),
            None => None,
        }
    }

    /// The estimate kept for a query over an index with this content.
    pub open spec fn kept(self, index: u32, query: Seq<char>, stamp: u64) -> Option<E> {
        match self.at(index, query) {
            Some((at, kept)) => if at == stamp {
                Some(kept)
            } else {
                None
            },
            None => None,
        }
    }

    /// No estimates.
    pub fn new() -> (memo: Self)
        ensures
            memo.entries@ == Seq::<Remembered<E>>::empty(),
    {
        EstimateMemo { entries: Vec::new() }
    }

    fn place(&self, index: u32, query: &str) -> (place: Option<usize>)
        ensures
            match remembered_from(self.entries@, index, query@, 0) {
                Some(i) => place == Some(i as usize) && 0 <= i < self.entries.len()
                    && self.entries[i].index == index && self.entries[i].query@ == query@,
                None => place is None,
            },
    {
        let mut i: usize = 0;
        while i < self.entries.len()
            invariant
                i <= self.entries.len(),
                remembered_from(self.entries@, index, query@, 0) == remembered_from(
                    self.entries@,
                    index,
                    query@,
                    i as int,
                ),
            decreases self.entries.len() - i,
        {
            if self.entries[i].index == index && same(self.entries[i].query.as_str(), query) {
                return Some(i);
            }
            i = i + 1;
        }
        None
    }

    /// The estimate kept for a query over an index with this content.
    pub fn recall(&self, index: u32, query: &str, stamp: u64) -> (estimate: Option<E>)
        ensures
            estimate == self.kept(index, query@, stamp),
    {
        match self.place(index, query) {
            Some(i) => if self.entries[i].stamp == stamp {
                Some(self.entries[i].estimate)
            } else {
                None
            },
            None => None,
        }
    }

    /// Keeps an estimate in place of one for other content.
    pub fn remember(&mut self, index: u32, query: &str, stamp: u64, estimate: E)
        ensures
            final(self).at(index, query@) == Some((stamp, estimate)),
            forall|i: u32, q: Seq<char>|
                i != index || q != query@ ==> #[trigger] final(self).at(i, q) == old(self).at(i, q),
    {
        let ghost before = self.entries@;
        match self.place(index, query) {
            Some(p) => {
                self.entries[p].stamp = stamp;
                self.entries[p].estimate = estimate;
                proof {
                    lemma_remembered_same(before, self.entries@, 0);
                    assert forall|i: u32, q: Seq<char>| i != index || q != query@ implies #[trigger] self.at(
                        i,
                        q,
                    ) == old(self).at(i, q) by {
                        lemma_remembered_key(before, i, q, 0);
                        assert(remembered_from(self.entries@, i, q, 0) == remembered_from(
                            before,
                            i,
                            q,
                            0,
                        ));
                    }
                }
            },
            None => {
                let entry = Remembered {
                    index,
                    query: String::from_str(query),
                    stamp,
                    estimate,
                };
                self.entries.push(entry);
                proof {
                    lemma_remembered_pushed(before, entry, 0);
                    lemma_remembered_new(before, entry, 0);
                    assert forall|i: u32, q: Seq<char>| i != index || q != query@ implies #[trigger] self.at(
                        i,
                        q,
                    ) == old(self).at(i, q) by {
                        lemma_remembered_key(before, i, q, 0);
                        assert(remembered_from(self.entries@, i, q, 0) == remembered_from(
                            before,
                            i,
                            q,
                            0,
                        ));
                    }
                }
            },
        }
    }
}

/// Forgets the estimates when the executor starts, so they never outlive the
/// statement they were made for.
pub fn note_executor_start<E>(memo: &mut EstimateMemo<E>)
    ensures
        final(memo).entries@ == Seq::<Remembered<E>>::empty(),
{
    memo.entries.clear();
}

/// How a query over an index is estimated, where it can be.
pub struct Estimator<F> {
    pub estimate: F,
}

impl<F> Estimator<F> {
    /// Any query can be asked for.
    pub open spec fn total<E>(self) -> bool where F: Fn(&str) -> Option<E> {
        forall|query: &str| #[trigger] call_requires(self.estimate, (query,))
    }
}

/// The estimate for a query over an index: none when the index cannot be read
/// at plan time, which has no stamp then. One that is kept for the content is
/// used, and one that is not is made and then kept.
pub fn estimate_query<E: Copy, F: Fn(&str) -> Option<E>>(
    memo: &mut EstimateMemo<E>,
    index: u32,
    query: &str,
    segmented: bool,
    stamp: Option<u64>,
    estimator: &Estimator<F>,
) -> (estimate: Option<E>)
    requires
        estimator.total::<E>(),
    ensures
        !segmented || stamp is None ==> estimate is None && *final(memo) == *old(memo),
        segmented ==> (stamp matches Some(content) ==> match old(memo).kept(index, query@, content) {
            Some(kept) => estimate == Some(kept) && *final(memo) == *old(memo),
            None => call_ensures(estimator.estimate, (query,), estimate) && match estimate {
                Some(made) => final(memo).at(index, query@) == Some((content, made)),
                None => *final(memo) == *old(memo),
            },
        }),
        forall|i: u32, q: Seq<char>|
            i != index || q != query@ ==> #[trigger] final(memo).at(i, q) == old(memo).at(i, q),
{
    if !segmented {
        return None;
    }
    let content: u64 = match stamp {
        Some(content) => content,
        None => {
            return None;
        },
    };
    if let Some(kept) = memo.recall(index, query, content) {
        return Some(kept);
    }
    match (estimator.estimate)(query) {
        Some(made) => {
            memo.remember(index, query, content, made);
            Some(made)
        },
        None => None,
    }
}

/// What is found has the key.
proof fn lemma_remembered_key<E>(entries: Seq<Remembered<E>>, index: u32, query: Seq<char>, i: int)
    ensures
        remembered_from(entries, index, query, i) matches Some(n) ==> 0 <= n < entries.len()
            && entries[n].index == index && entries[n].query@ == query,
    decreases entries.len() - i,
{
    if 0 <= i < entries.len() && !(entries[i].index == index && entries[i].query@ == query) {
        lemma_remembered_key(entries, index, query, i + 1);
    }
}

/// Entries for the same keys are found in the same places.
proof fn lemma_remembered_same<E>(a: Seq<Remembered<E>>, b: Seq<Remembered<E>>, i: int)
    requires
        a.len() == b.len(),
        forall|j: int|
            0 <= j < a.len() ==> (#[trigger] a[j]).index == b[j].index && a[j].query@ == b[j].query@,
        0 <= i <= a.len(),
    ensures
        forall|index: u32, query: Seq<char>| #[trigger]
            remembered_from(b, index, query, i) == remembered_from(a, index, query, i),
    decreases a.len() - i,
{
    if i < a.len() {
        lemma_remembered_same(a, b, i + 1);
        assert forall|index: u32, query: Seq<char>| #[trigger]
            remembered_from(b, index, query, i) == remembered_from(a, index, query, i) by {
            assert(remembered_from(b, index, query, i + 1) == remembered_from(
                a,
                index,
                query,
                i + 1,
            ));
            assert(a[i].index == b[i].index);
        }
    }
}

/// An entry at the end hides no other.
proof fn lemma_remembered_pushed<E>(entries: Seq<Remembered<E>>, entry: Remembered<E>, i: int)
    requires
        0 <= i <= entries.len(),
    ensures
        forall|index: u32, query: Seq<char>|
            index != entry.index || query != entry.query@ ==> #[trigger] remembered_from(
                entries.push(entry),
                index,
                query,
                i,
            ) == remembered_from(entries, index, query, i),
    decreases entries.len() - i,
{
    let all = entries.push(entry);
    if i < entries.len() {
        lemma_remembered_pushed(entries, entry, i + 1);
        assert forall|index: u32, query: Seq<char>|
            index != entry.index || query != entry.query@ implies #[trigger] remembered_from(
            all,
            index,
            query,
            i,
        ) == remembered_from(entries, index, query, i) by {
            assert(remembered_from(all, index, query, i + 1) == remembered_from(
                entries,
                index,
                query,
                i + 1,
            ));
            assert(all[i] == entries[i]);
        }
    } else {
        assert forall|index: u32, query: Seq<char>|
            index != entry.index || query != entry.query@ implies #[trigger] remembered_from(
            all,
            index,
            query,
            i,
        ) == remembered_from(entries, index, query, i) by {
            assert(remembered_from(all, index, query, i + 1) is None);
        }
    }
}

/// An entry at the end is found where there was none.
proof fn lemma_remembered_new<E>(entries: Seq<Remembered<E>>, entry: Remembered<E>, i: int)
    requires
        0 <= i <= entries.len(),
        remembered_from(entries, entry.index, entry.query@, i) is None,
    ensures
        remembered_from(entries.push(entry), entry.index, entry.query@, i) == Some(
            entries.len() as int,
        ),
    decreases entries.len() - i,
{
    if i < entries.len() {
        assert(entries.push(entry)[i] == entries[i]);
        lemma_remembered_new(entries, entry, i + 1);
    }
}

/// A `==>` clause of an index path: its query text, when constant, and the
/// index it was bound to at plan time.
#[derive(Debug)]
pub struct PathClause {
    pub query: Option<String>,
    pub bound: Option<u32>,
}

/// What an index path takes from a clause that is an operator with two
/// operands.
pub open spec fn path_clause_of(node: Expression) -> Option<PathClause> {
    match node {
        Expression::Operator { name: _, arguments, result: _ } => if arguments.len() == 2 {
            Some(
                PathClause {
                    query: match arguments[1] {
                        Expression::TextConstant(Some(text)) => Some(text),
                        Expression::BoundConstant(Some(bound)) => Some(bound.query),
                        _ => None,
                    },
                    bound: if arguments[1].result() == ResultType::IndexedQuery {
                        match unbound_of(&arguments[1]) {
                            Some((_, index)) => index,
                            None => None,
                        }
                    } else {
                        None
                    },
                },
            )
        } else {
            None
        },
        _ => None,
    }
}

/// What an index path takes from the first `upto` clauses.
pub open spec fn path_clauses_upto(nodes: Seq<Expression>, upto: int) -> Seq<PathClause>
    decreases upto,
{
    if upto <= 0 || upto > nodes.len() {
        Seq::empty()
    } else {
        let before = path_clauses_upto(nodes, upto - 1);
        match path_clause_of(nodes[upto - 1]) {
            Some(clause) => before.push(clause),
            None => before,
        }
    }
}

/// The clauses of an index path.
pub fn index_path_clauses(nodes: &Vec<Expression>) -> (clauses: Vec<PathClause>)
    ensures
        clauses@ == path_clauses_upto(nodes@, nodes.len() as int),
{
    let mut clauses: Vec<PathClause> = Vec::new();
    let mut i: usize = 0;
    while i < nodes.len()
        invariant
            i <= nodes.len(),
            clauses@ == path_clauses_upto(nodes@, i as int),
        decreases nodes.len() - i,
    {
        if let Expression::Operator { name: _, arguments, result: _ } = &nodes[i] {
            if arguments.len() == 2 {
                clauses.push(
                    PathClause {
                        query: query_text(&arguments[1]),
                        bound: bound_index(&arguments[1]),
                    },
                );
            }
        }
        i = i + 1;
    }
    clauses
}

/// Whether some clause is bound to an index with other settings, which the
/// path's own index can answer only by looking at every row. `settings` are
/// those of the index each clause is bound to.
pub fn has_foreign_clause(settings: &Vec<Option<u64>>, own: u64) -> (foreign: bool)
    ensures
        foreign == exists|i: int|
            0 <= i < settings.len() && (#[trigger] settings[i] matches Some(bound) && bound != own),
{
    let mut i: usize = 0;
    while i < settings.len()
        invariant
            i <= settings.len(),
            forall|j: int|
                0 <= j < i ==> !(#[trigger] settings[j] matches Some(bound) && bound != own),
        decreases settings.len() - i,
    {
        if let Some(bound) = settings[i] {
            if bound != own {
                assert(settings[i as int] matches Some(bound) && bound != own);
                return true;
            }
        }
        i = i + 1;
    }
    false
}

} // verus!
