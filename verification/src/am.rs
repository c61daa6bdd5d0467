//! Index scans: what a scan's keys ask for.

use crate::laws::requests::{keys_planned, lemma_keys_planned};
use crate::query::Query;
use vstd::prelude::*;

verus! {

/// Operator class strategy of the bound form; the text form is the first.
pub const BOUND_STRATEGY: u16 = 2;

/// A key of an index scan.
#[derive(Debug)]
pub struct ScanKey {
    pub null: bool,
    /// Anything else that is said of the key.
    pub other_flags: bool,
    /// The settings of the index that the query is bound to, in the bound
    /// form.
    pub bound: Option<u64>,
    /// What the parser made of the query's text.
    pub parsed: Result<Query, String>,
}

/// What a rescan compiled from its scan keys.
#[derive(Debug)]
pub enum ScanPlan {
    /// A NULL key: nothing can match.
    Inactive,
    /// Queries analyzed with the index's own tokenizer, one per key.
    Queries(Vec<Query>),
    /// Every heap page is a candidate.
    Fallback,
}

/// How the keys from the `i`-th on are read.
pub enum Reading {
    /// Each is a query that the index can answer.
    Queries,
    /// One is not known, or bound to other settings.
    Fallback,
    /// One is no query.
    Invalid(String),
}

/// Reads the keys from the `i`-th on, in order. `own` are the index's
/// settings, when it is read selectively.
pub open spec fn reading_from(keys: Seq<ScanKey>, own: Option<u64>, i: int) -> Reading
    decreases keys.len() - i,
{
    if i < 0 || i >= keys.len() {
        Reading::Queries
    } else if keys[i].other_flags {
        Reading::Fallback
    } else if own matches Some(settings) && keys[i].bound matches Some(bound) && bound != settings {
        Reading::Fallback
    } else {
        match keys[i].parsed {
            Err(message) => Reading::Invalid(message),
            Ok(_) => reading_from(keys, own, i + 1),
        }
    }
}

/// Some key is NULL.
pub open spec fn has_null(keys: Seq<ScanKey>) -> bool {
    exists|i: int| 0 <= i < keys.len() && (#[trigger] keys[i]).null
}

/// The queries of keys that all are queries.
pub open spec fn key_queries(keys: Seq<ScanKey>) -> Seq<Query> {
    keys.map_values(|key: ScanKey| key.parsed->Ok_0)
}

/// What the keys of a scan ask for: an error is that of the first key that is
/// no query, unless a key before it makes every page a candidate. A key whose
/// flags are not known, or that is bound to an index with other settings, can
/// only be answered by rechecking every row.
pub fn amrescan(keys: Vec<ScanKey>, own: Option<u64>) -> (plan: Result<ScanPlan, String>)
    ensures
        if keys.len() == 0 || has_null(keys@) {
            plan == Ok::<ScanPlan, String>(ScanPlan::Inactive)
        } else {
            match reading_from(keys@, own, 0) {
                Reading::Invalid(message) => plan == Err::<ScanPlan, String>(message),
                Reading::Fallback => plan == Ok::<ScanPlan, String>(ScanPlan::Fallback),
                Reading::Queries => if own is Some {
                    plan matches Ok(ScanPlan::Queries(queries)) && queries@ == key_queries(keys@)
                } else {
                    plan == Ok::<ScanPlan, String>(ScanPlan::Fallback)
                },
            }
        },
        keys_planned(keys@, own, plan),
{
    proof {
        lemma_keys_planned(keys@, own);
    }
    if keys.len() == 0 || any_null(&keys) {
        return Ok(ScanPlan::Inactive);
    }
    let ghost all = keys@;
    let len: usize = keys.len();
    let mut rest = keys;
    let mut queries: Vec<Query> = Vec::new();
    let mut i: usize = 0;
    proof {
        assert(all.skip(0) =~= all);
    }
    while rest.len() > 0
        invariant
            all == keys@,
            all.len() == len,
            len > 0,
            !has_null(all),
            i + rest.len() == len,
            rest@ == all.skip(i as int),
            reading_from(all, own, 0) == reading_from(all, own, i as int),
            queries@ == key_queries(all).take(i as int),
            match reading_from(all, own, 0) {
                Reading::Invalid(message) => keys_planned(
                    all,
                    own,
                    Err::<ScanPlan, String>(message),
                ),
                Reading::Fallback => keys_planned(
                    all,
                    own,
                    Ok::<ScanPlan, String>(ScanPlan::Fallback),
                ),
                Reading::Queries => true,
            },
        decreases rest.len(),
    {
        let key = rest.remove(0);
        proof {
            assert(key == all[i as int]);
            assert(rest@ =~= all.skip(i + 1));
        }
        if key.other_flags {
            return Ok(ScanPlan::Fallback);
        }
        if let (Some(settings), Some(bound)) = (own, key.bound) {
            if bound != settings {
                return Ok(ScanPlan::Fallback);
            }
        }
        match key.parsed {
            Ok(query) => {
                queries.push(query);
                proof {
                    assert(queries@ =~= key_queries(all).take(i + 1));
                }
            },
            Err(message) => {
                return Err(message);
            },
        }
        i = i + 1;
    }
    proof {
        assert(key_queries(all).take(i as int) =~= key_queries(all));
    }
    if own.is_some() {
        Ok(ScanPlan::Queries(queries))
    } else {
        Ok(ScanPlan::Fallback)
    }
}

fn any_null(keys: &Vec<ScanKey>) -> (any: bool)
    ensures
        any == has_null(keys@),
{
    let mut i: usize = 0;
    while i < keys.len()
        invariant
            i <= keys.len(),
            forall|j: int| 0 <= j < i ==> !(#[trigger] keys[j]).null,
        decreases keys.len() - i,
    {
        if keys[i].null {
            return true;
        }
        i = i + 1;
    }
    false
}

/// How many rows a scan reports that makes every one of `blocks` pages a
/// candidate: ten to a page, for statistics only.
pub fn fallback_rows(blocks: u32) -> (rows: i64)
    ensures
        rows == blocks * 10,
{
    blocks as i64 * 10
}

} // verus!
