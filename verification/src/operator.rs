//! The `==>` operator: its evaluation, and the queries parsed for it.

use crate::options::{default_settings, encode_spec, encoded, TokenizerPipelineSpec, SPEC_BYTES};
use crate::text::same;
use vstd::prelude::*;

verus! {

/// A query bound to the index whose tokenizer settings evaluate it.
#[allow(non_camel_case_types)]
#[derive(Debug, PartialEq, Eq)]
pub struct indexed_query {
    pub index: u32,
    pub query: String,
}

/// Binds a query to an index.
pub fn bind_query(query: &str, index: u32) -> (bound: indexed_query)
    ensures
        bound.index == index,
        bound.query@ == query@,
{
    indexed_query { index, query: String::from_str(query) }
}

/// Most queries kept for one tokenizer's settings.
pub const QUERY_MEMO_LIMIT: usize = 256;

/// A parsed query, by its text.
pub struct MemoEntry<Q> {
    pub text: String,
    pub query: Q,
}

/// The parsed queries of one tokenizer's settings.
pub struct SpecQueries<Q> {
    pub spec: [u8; SPEC_BYTES],
    pub entries: Vec<MemoEntry<Q>>,
}

/// Parsed queries by tokenizer settings, then by text, so a scan does not
/// parse its constant query again for every row.
pub struct QueryMemo<Q> {
    pub specs: Vec<SpecQueries<Q>>,
}

/// The first entry for `text`, from the `i`-th on.
pub open spec fn entry_from<Q>(entries: Seq<MemoEntry<Q>>, text: Seq<char>, i: int) -> Option<int>
    decreases entries.len() - i,
{
    if i < 0 || i >= entries.len() {
        None
    } else if entries[i].text@ == text {
        Some(i)
    } else {
        entry_from(entries, text, i + 1)
    }
}

/// The first settings that are `spec`, from the `i`-th on.
pub open spec fn spec_from<Q>(specs: Seq<SpecQueries<Q>>, spec: Seq<u8>, i: int) -> Option<int>
    decreases specs.len() - i,
{
    if i < 0 || i >= specs.len() {
        None
    } else if specs[i].spec@ == spec {
        Some(i)
    } else {
        spec_from(specs, spec, i + 1)
    }
}

proof fn lemma_entry_from<Q>(entries: Seq<MemoEntry<Q>>, text: Seq<char>, i: int)
    ensures
        match entry_from(entries, text, i) {
            Some(n) => 0 <= i <= n < entries.len() && entries[n].text@ == text && forall|j: int|
                i <= j < n ==> (#[trigger] entries[j]).text@ != text,
            None => i < 0 || forall|j: int|
                i <= j < entries.len() ==> (#[trigger] entries[j]).text@ != text,
        },
    decreases entries.len() - i,
{
    if 0 <= i < entries.len() && entries[i].text@ != text {
        lemma_entry_from(entries, text, i + 1);
    }
}

proof fn lemma_spec_from<Q>(specs: Seq<SpecQueries<Q>>, spec: Seq<u8>, i: int)
    ensures
        match spec_from(specs, spec, i) {
            Some(n) => 0 <= i <= n < specs.len() && specs[n].spec@ == spec && forall|j: int|
                i <= j < n ==> (#[trigger] specs[j]).spec@ != spec,
            None => i < 0 || forall|j: int|
                i <= j < specs.len() ==> (#[trigger] specs[j]).spec@ != spec,
        },
    decreases specs.len() - i,
{
    if 0 <= i < specs.len() && specs[i].spec@ != spec {
        lemma_spec_from(specs, spec, i + 1);
    }
}

/// What is first is found.
proof fn lemma_spec_found<Q>(specs: Seq<SpecQueries<Q>>, spec: Seq<u8>, n: int)
    requires
        0 <= n < specs.len(),
        specs[n].spec@ == spec,
        forall|j: int| 0 <= j < n ==> (#[trigger] specs[j]).spec@ != spec,
    ensures
        spec_from(specs, spec, 0) == Some(n),
{
    lemma_spec_from(specs, spec, 0);
    let found = spec_from(specs, spec, 0);
    assert(found is Some);
    if found->0 < n {
        assert(specs[found->0].spec@ != spec);
    } else if n < found->0 {
        assert(specs[n].spec@ != spec);
    }
}

proof fn lemma_entry_found<Q>(entries: Seq<MemoEntry<Q>>, text: Seq<char>, n: int)
    requires
        0 <= n < entries.len(),
        entries[n].text@ == text,
        forall|j: int| 0 <= j < n ==> (#[trigger] entries[j]).text@ != text,
    ensures
        entry_from(entries, text, 0) == Some(n),
{
    lemma_entry_from(entries, text, 0);
    let found = entry_from(entries, text, 0);
    assert(found is Some);
    if found->0 < n {
        assert(entries[found->0].text@ != text);
    } else if n < found->0 {
        assert(entries[n].text@ != text);
    }
}

fn same_spec(a: &[u8; SPEC_BYTES], b: &[u8; SPEC_BYTES]) -> (equal: bool)
    ensures
        equal == (a@ == b@),
{
    let mut i: usize = 0;
    while i < SPEC_BYTES
        invariant
            i <= SPEC_BYTES,
            forall|j: int| 0 <= j < i ==> a@[j] == b@[j],
        decreases SPEC_BYTES - i,
    {
        if a[i] != b[i] {
            assert(a@[i as int] != b@[i as int]);
            return false;
        }
        i = i + 1;
    }
    proof {
        assert(a@ =~= b@);
    }
    true
}

impl<Q> QueryMemo<Q> {
    /// The queries kept for settings.
    pub open spec fn entries(self, spec: Seq<u8>) -> Seq<MemoEntry<Q>> {
        match spec_from(self.specs@, spec, 0) {
            Some(n) => self.specs[n].entries@,
            None => Seq::empty(),
        }
    }

    /// The query kept for settings and a text.
    pub open spec fn at(self, spec: Seq<u8>, text: Seq<char>) -> Option<Q> {
        match entry_from(self.entries(spec), text, 0) {
            Some(n) => Some(self.entries(spec)[n].query),
            None => None,
        }
    }

    /// The memo keeps one more query for settings than before. When as many
    /// were kept as can be, those are dropped.
    pub open spec fn keeps(self, before: Self, spec: Seq<u8>, text: Seq<char>, query: Q) -> bool {
        let full = before.entries(spec).len() >= QUERY_MEMO_LIMIT;
        &&& self.at(spec, text) == Some(query)
        &&& self.entries(spec).len() == if full {
            1
        } else {
            before.entries(spec).len() + 1
        }
        &&& forall|other: Seq<char>|
            other != text ==> #[trigger] self.at(spec, other) == if full {
                None
            } else {
                before.at(spec, other)
            }
    }

    /// No queries yet.
    pub fn new() -> (memo: Self)
        ensures
            forall|spec: Seq<u8>, text: Seq<char>| #[trigger] memo.at(spec, text) is None,
    {
        let memo = QueryMemo { specs: Vec::new() };
        proof {
            assert forall|spec: Seq<u8>, text: Seq<char>| #[trigger] memo.at(spec, text) is None by {
                lemma_spec_from(memo.specs@, spec, 0);
                lemma_entry_from(memo.entries(spec), text, 0);
            }
        }
        memo
    }

    fn spec_place(&self, spec: &[u8; SPEC_BYTES]) -> (place: Option<usize>)
        ensures
            match spec_from(self.specs@, spec@, 0) {
                Some(n) => place == Some(n as usize) && 0 <= n < self.specs.len(),
                None => place is None,
            },
    {
        let mut i: usize = 0;
        while i < self.specs.len()
            invariant
                i <= self.specs.len(),
                spec_from(self.specs@, spec@, 0) == spec_from(self.specs@, spec@, i as int),
            decreases self.specs.len() - i,
        {
            if same_spec(&self.specs[i].spec, spec) {
                return Some(i);
            }
            i = i + 1;
        }
        None
    }

    /// Where the query kept for settings and a text is.
    fn place(&self, spec: &[u8; SPEC_BYTES], text: &str) -> (place: Option<(usize, usize)>)
        ensures
            match place {
                Some((s, e)) => {
                    &&& spec_from(self.specs@, spec@, 0) == Some(s as int)
                    &&& s < self.specs.len()
                    &&& entry_from(self.specs[s as int].entries@, text@, 0) == Some(e as int)
                    &&& e < self.specs[s as int].entries.len()
                },
                None => self.at(spec@, text@) is None,
            },
    {
        let s: usize = match self.spec_place(spec) {
            Some(s) => s,
            None => {
                proof {
                    lemma_entry_from(self.entries(spec@), text@, 0);
                }
                return None;
            },
        };
        let entries = &self.specs[s].entries;
        let mut i: usize = 0;
        while i < entries.len()
            invariant
                s < self.specs.len(),
                spec_from(self.specs@, spec@, 0) == Some(s as int),
                *entries == self.specs[s as int].entries,
                i <= entries.len(),
                entry_from(entries@, text@, 0) == entry_from(entries@, text@, i as int),
            decreases entries.len() - i,
        {
            if same(entries[i].text.as_str(), text) {
                return Some((s, i));
            }
            i = i + 1;
        }
        None
    }

    /// Keeps a query that was not kept yet. When as many are kept for the
    /// settings as can be, those are dropped first.
    fn keep(&mut self, spec: [u8; SPEC_BYTES], text: &str, query: Q) -> (place: (usize, usize))
        requires
            old(self).at(spec@, text@) is None,
        ensures
            place.0 < final(self).specs.len(),
            place.1 < final(self).specs[place.0 as int].entries.len(),
            final(self).specs[place.0 as int].entries[place.1 as int].query == query,
            final(self).keeps(*old(self), spec@, text@, query),
            forall|other: Seq<u8>, t: Seq<char>|
                other != spec@ ==> #[trigger] final(self).at(other, t) == old(self).at(other, t),
    {
        let ghost before = self.specs@;
        let s: usize = match self.spec_place(&spec) {
            Some(s) => s,
            None => {
                self.specs.push(SpecQueries { spec, entries: Vec::new() });
                self.specs.len() - 1
            },
        };
        let ghost middle = self.specs@;
        let ghost kept = middle[s as int].entries@;
        proof {
            lemma_spec_from(before, spec@, 0);
            lemma_spec_found(middle, spec@, s as int);
            assert(kept == old(self).entries(spec@));
        }
        if self.specs[s].entries.len() >= QUERY_MEMO_LIMIT {
            self.specs[s].entries.clear();
        }
        let ghost dropped = self.specs@[s as int].entries@;
        let entry = MemoEntry { text: String::from_str(text), query };
        self.specs[s].entries.push(entry);
        let e: usize = self.specs[s].entries.len() - 1;
        proof {
            let now = self.specs@;
            let entries = now[s as int].entries@;
            assert(entries == dropped.push(entry));
            assert forall|j: int| 0 <= j < now.len() && j != s implies #[trigger] now[j]
                == middle[j] by {}
            assert(now[s as int].spec@ == spec@);
            assert forall|j: int| 0 <= j < s implies (#[trigger] now[j]).spec@ != spec@ by {
                assert(middle[j].spec@ != spec@);
            }
            lemma_spec_found(now, spec@, s as int);
            lemma_entry_from(kept, text@, 0);
            assert forall|j: int| 0 <= j < e implies (#[trigger] entries[j]).text@ != text@ by {
                assert(dropped[j].text@ != text@);
            }
            lemma_entry_found(entries, text@, e as int);
            assert forall|other: Seq<u8>, t: Seq<char>| other != spec@ implies #[trigger] self.at(
                other,
                t,
            ) == old(self).at(other, t) by {
                self.lemma_other_spec(*old(self), other, s as int);
            }
            assert forall|t: Seq<char>| t != text@ implies #[trigger] self.at(spec@, t) == (if kept.len()
                >= QUERY_MEMO_LIMIT {
                None
            } else {
                old(self).at(spec@, t)
            }) by {
                lemma_entry_pushed(dropped, entry, t);
                lemma_entry_from(dropped, t, 0);
            }
        }
        (s, e)
    }

    /// The queries of other settings are as before.
    proof fn lemma_other_spec(self, before: Self, other: Seq<u8>, s: int)
        requires
            0 <= s < self.specs.len(),
            s <= before.specs.len(),
            self.specs.len() == if s < before.specs.len() {
                before.specs.len() as int
            } else {
                s + 1
            },
            self.specs[s].spec@ != other,
            s < before.specs.len() ==> before.specs[s].spec@ != other,
            forall|j: int|
                0 <= j < before.specs.len() && j != s ==> #[trigger] self.specs@[j]
                    == before.specs@[j],
        ensures
            self.entries(other) == before.entries(other),
    {
        lemma_spec_from(before.specs@, other, 0);
        lemma_spec_from(self.specs@, other, 0);
        match spec_from(before.specs@, other, 0) {
            Some(n) => {
                assert(n != s);
                assert(self.specs@[n] == before.specs@[n]);
                assert forall|j: int| 0 <= j < n implies (#[trigger] self.specs@[j]).spec@
                    != other by {
                    if j != s {
                        assert(before.specs@[j].spec@ != other);
                    }
                }
                lemma_spec_found(self.specs@, other, n);
            },
            None => {
                if let Some(n) = spec_from(self.specs@, other, 0) {
                    assert(n != s);
                    assert(before.specs@[n].spec@ != other);
                }
            },
        }
    }
}

proof fn lemma_entry_pushed<Q>(entries: Seq<MemoEntry<Q>>, entry: MemoEntry<Q>, text: Seq<char>)
    requires
        entry.text@ != text,
    ensures
        entry_from(entries.push(entry), text, 0) == entry_from(entries, text, 0),
{
    let all = entries.push(entry);
    lemma_entry_from(entries, text, 0);
    lemma_entry_from(all, text, 0);
    match entry_from(entries, text, 0) {
        Some(n) => {
            assert(all[n] == entries[n]);
            assert forall|j: int| 0 <= j < n implies (#[trigger] all[j]).text@ != text by {
                assert(entries[j].text@ != text);
            }
            lemma_entry_found(all, text, n);
        },
        None => {
            if let Some(n) = entry_from(all, text, 0) {
                if n < entries.len() {
                    assert(entries[n].text@ != text);
                }
            }
        },
    }
}

/// The query engine: how a text is parsed with a tokenizer, and whether a
/// document analyzed with it matches the parsed query.
pub struct Engine<P, E> {
    pub parse: P,
    pub evaluate: E,
}

impl<P, E> Engine<P, E> {
    /// The engine takes any text, query and document.
    pub open spec fn total<Q>(self) -> bool where
        P: Fn(&str) -> Result<Q, String>,
        E: Fn(&Q, &str) -> Result<bool, String>,
     {
        &&& forall|text: &str| #[trigger] call_requires(self.parse, (text,))
        &&& forall|query: &Q, document: &str| #[trigger]
            call_requires(self.evaluate, (query, document))
    }

    /// The query is one that the engine parses the text to.
    pub open spec fn parses<Q>(self, text: Seq<char>, query: Q) -> bool where
        P: Fn(&str) -> Result<Q, String>,
        E: Fn(&Q, &str) -> Result<bool, String>,
     {
        exists|s: &str| s@ == text && #[trigger] call_ensures(self.parse, (s,), Ok(query))
    }

    /// What comes of evaluating a query on a document: the query that is kept
    /// for the settings is used, and one that is not is parsed and then kept.
    pub open spec fn evaluated<Q>(
        self,
        before: QueryMemo<Q>,
        after: QueryMemo<Q>,
        spec: Seq<u8>,
        query: &str,
        document: &str,
        matched: Result<bool, String>,
    ) -> bool where P: Fn(&str) -> Result<Q, String>, E: Fn(&Q, &str) -> Result<bool, String> {
        match before.at(spec, query@) {
            Some(parsed) => after == before && call_ensures(
                self.evaluate,
                (&parsed, document),
                matched,
            ),
            None => exists|parsed: Result<Q, String>| #[trigger]
                call_ensures(self.parse, (query,), parsed) && match parsed {
                    Ok(found) => after.keeps(before, spec, query@, found) && call_ensures(
                        self.evaluate,
                        (&found, document),
                        matched,
                    ),
                    Err(message) => after == before && matched == Err::<bool, String>(message),
                },
        }
    }
}

/// What the operator gives: an error is told in words.
pub open spec fn answered(matched: Result<bool, String>, answer: Result<bool, String>) -> bool {
    match matched {
        Ok(matched) => answer == Ok::<bool, String>(matched),
        Err(error) => answer matches Err(message) && message@ == "invalid ==> query: "@ + error@,
    }
}

impl<Q> QueryMemo<Q> {
    /// Every query kept for the settings is one that the engine parses its
    /// text to.
    pub open spec fn coherent<P, E>(self, spec: Seq<u8>, engine: Engine<P, E>) -> bool where
        P: Fn(&str) -> Result<Q, String>,
        E: Fn(&Q, &str) -> Result<bool, String>,
     {
        forall|text: Seq<char>| #[trigger]
            self.at(spec, text) is Some ==> engine.parses(text, self.at(spec, text)->0)
    }
}

/// Whether a document matches a query, analyzed with the tokenizer that
/// `spec` stores the settings of. Each query is parsed once.
pub fn evaluate_with<Q, P, E>(
    memo: &mut QueryMemo<Q>,
    document: &str,
    query: &str,
    spec: [u8; SPEC_BYTES],
    engine: &Engine<P, E>,
) -> (matched: Result<bool, String>) where
    P: Fn(&str) -> Result<Q, String>,
    E: Fn(&Q, &str) -> Result<bool, String>,

    requires
        engine.total::<Q>(),
        old(memo).coherent(spec@, *engine),
    ensures
        final(memo).coherent(spec@, *engine),
        forall|other: Seq<u8>, text: Seq<char>|
            other != spec@ ==> #[trigger] final(memo).at(other, text) == old(memo).at(other, text),
        engine.evaluated(*old(memo), *final(memo), spec@, query, document, matched),
{
    let place = match memo.place(&spec, query) {
        Some(place) => place,
        None => {
            let parsed = (engine.parse)(query);
            match parsed {
                Ok(found) => {
                    let ghost before = *memo;
                    let place = memo.keep(spec, query, found);
                    proof {
                        assert(call_ensures(engine.parse, (query,), Ok::<Q, String>(found)));
                        assert forall|text: Seq<char>| #[trigger]
                            memo.at(spec@, text) is Some implies engine.parses(
                            text,
                            memo.at(spec@, text)->0,
                        ) by {
                            if text == query@ {
                                assert(engine.parses(query@, found));
                            } else {
                                assert(before.at(spec@, text) is Some);
                            }
                        }
                    }
                    place
                },
                Err(message) => {
                    return Err(message);
                },
            }
        },
    };
    (engine.evaluate)(&memo.specs[place.0].entries[place.1].query, document)
}

/// The stored form of the default settings.
pub fn default_spec() -> (spec: [u8; SPEC_BYTES])
    ensures
        spec@ == encoded(default_settings()),
{
    encode_spec(&TokenizerPipelineSpec::stannum_default())
}

/// `text ==> text`: the default tokenizer settings, which the engine is of.
pub fn evaluate_text<Q, P, E>(
    memo: &mut QueryMemo<Q>,
    document: &str,
    query_text: &str,
    engine: &Engine<P, E>,
) -> (matched: Result<bool, String>) where
    P: Fn(&str) -> Result<Q, String>,
    E: Fn(&Q, &str) -> Result<bool, String>,

    requires
        engine.total::<Q>(),
        old(memo).coherent(encoded(default_settings()), *engine),
    ensures
        final(memo).coherent(encoded(default_settings()), *engine),
        forall|other: Seq<u8>, text: Seq<char>|
            other != encoded(default_settings()) ==> #[trigger] final(memo).at(other, text) == old(
                memo,
            ).at(other, text),
        engine.evaluated(
            *old(memo),
            *final(memo),
            encoded(default_settings()),
            query_text,
            document,
            matched,
        ),
{
    evaluate_with(memo, document, query_text, default_spec(), engine)
}

/// What the user is told of a query that is none.
pub fn invalid_query(error: &str) -> (message: String)
    ensures
        message@ == "invalid ==> query: "@ + error@,
{
    let mut message = String::from_str("invalid ==> query: ");
    message.append(error);
    message
}

/// `text ==> text`: the default tokenizer settings, which the engine is of.
pub fn stannum_text_cmpfunc<Q, P, E>(
    memo: &mut QueryMemo<Q>,
    document: &str,
    query: &str,
    engine: &Engine<P, E>,
) -> (answer: Result<bool, String>) where
    P: Fn(&str) -> Result<Q, String>,
    E: Fn(&Q, &str) -> Result<bool, String>,

    requires
        engine.total::<Q>(),
        old(memo).coherent(encoded(default_settings()), *engine),
    ensures
        final(memo).coherent(encoded(default_settings()), *engine),
        exists|matched: Result<bool, String>| #[trigger]
            engine.evaluated(
                *old(memo),
                *final(memo),
                encoded(default_settings()),
                query,
                document,
                matched,
            ) && answered(matched, answer),
{
    match evaluate_text(memo, document, query, engine) {
        Ok(matched) => Ok(matched),
        Err(error) => Err(invalid_query(error.as_str())),
    }
}

/// `text ==> indexed_query`: the settings of the index that the query is bound
/// to, `spec`, which the engine is of.
pub fn stannum_text_cmpfunc_indexed<Q, P, E>(
    memo: &mut QueryMemo<Q>,
    document: &str,
    query: &indexed_query,
    spec: [u8; SPEC_BYTES],
    engine: &Engine<P, E>,
) -> (answer: Result<bool, String>) where
    P: Fn(&str) -> Result<Q, String>,
    E: Fn(&Q, &str) -> Result<bool, String>,

    requires
        engine.total::<Q>(),
        old(memo).coherent(spec@, *engine),
    ensures
        final(memo).coherent(spec@, *engine),
        exists|matched: Result<bool, String>, text: &str|
            text@ == query.query@ && #[trigger] engine.evaluated(
                *old(memo),
                *final(memo),
                spec@,
                text,
                document,
                matched,
            ) && answered(matched, answer),
{
    match evaluate_with(memo, document, query.query.as_str(), spec, engine) {
        Ok(matched) => Ok(matched),
        Err(error) => Err(invalid_query(error.as_str())),
    }
}

} // verus!
