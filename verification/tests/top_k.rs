use stannum::query::Query;
use stannum::ranking::{larger, offer, rank, sort_rows, Row};
use stannum::scorer::KnownScores;
use stannum::scoring::{Block, Scoring};
use stannum::source::{Document, Posting, Source, TermPostings};
use stannum::tid::{successor, Tid};
use stannum::top_k::{PrunedScan, WalkEvent, PRUNE_MAX_K};

const MAX_OFFSET: u16 = 291;

fn tid(n: u32) -> Tid {
    Tid { block: n / 3, offset: (n % 3) as u16 + 1 }
}

/// Postings of one block: pairs of a frequency and the shortest document that
/// has it.
type Summaries = Vec<Vec<(u32, u32)>>;

fn contribution(slot: usize, frequency: u32, length: u32) -> f32 {
    let boost = [1.5f32, 0.7, 2.25, 1.0][slot % 4];
    let frequency = frequency as f32;
    boost * (frequency * 2.2) / (frequency + 1.2 * (0.25 + 0.75 * length as f32 / 6.0))
}

struct Numbers(u64);

impl Numbers {
    fn next(&mut self, below: u64) -> u64 {
        self.0 = self.0.wrapping_mul(6364136223846793005).wrapping_add(1442695040888963407);
        (self.0 >> 33) % below
    }
}

/// A source over documents `from..to`, with blocks of at most three postings.
fn source(numbers: &mut Numbers, from: u32, to: u32, slots: usize, summaries: &mut Summaries) -> Source {
    let documents: Vec<Document> = (from..to)
        .map(|n| Document { tid: tid(n), length: 1 + numbers.next(12) as u32 })
        .collect();
    let mut terms = Vec::new();
    for slot in 0..slots {
        let mut postings = Vec::new();
        let mut lengths = Vec::new();
        for document in &documents {
            if numbers.next(slots as u64 + 1) > 0 {
                postings.push(Posting { tid: document.tid, frequency: 1 + numbers.next(5) as u32 });
                lengths.push(document.length);
            }
        }
        if postings.is_empty() {
            continue;
        }
        let mut summarize = |range: std::ops::Range<usize>| {
            summaries.push(
                range.clone().map(|i| (postings[i].frequency, lengths[i])).collect(),
            );
            Block {
                last: postings[range.end - 1].tid,
                shortest: range.map(|i| lengths[i]).min().unwrap(),
                summary: summaries.len() as u64 - 1,
            }
        };
        let blocks = (0..postings.len())
            .step_by(3)
            .map(|i| summarize(i..(i + 3).min(postings.len())))
            .collect();
        let whole = summarize(0..postings.len());
        let count = postings.len() as u32;
        terms.push(TermPostings { slot, postings, blocks, whole, count });
    }
    let dead = documents
        .iter()
        .map(|document| document.tid)
        .filter(|_| numbers.next(6) == 0)
        .collect();
    Source { documents, terms, dead }
}

fn leaves(all: bool, slots: usize) -> (Query, Vec<String>) {
    let terms: Vec<String> = (0..slots).map(|slot| format!("t{slot}")).collect();
    let children: Vec<Query> = terms.iter().map(|term| Query::Term(term.clone())).collect();
    if all {
        (Query::Conjunction(children), terms)
    } else {
        (Query::Disjunction { min: 1, children }, terms)
    }
}

/// Every live candidate, scored one by one.
fn exhaustive(scan: &PrunedScan, all: bool) -> Vec<Row> {
    let mut rows = Vec::new();
    for source in &scan.sources {
        if all && source.terms.len() < scan.terms.len() {
            continue;
        }
        for document in &source.documents {
            if source.dead.contains(&document.tid) {
                continue;
            }
            let found: Vec<Option<Posting>> = source
                .terms
                .iter()
                .map(|term| term.postings.iter().copied().find(|p| p.tid == document.tid))
                .collect();
            let selected = if all {
                found.iter().all(Option::is_some)
            } else {
                found.iter().any(Option::is_some)
            };
            if !selected {
                continue;
            }
            let mut score = 0.0f32;
            for (term, posting) in source.terms.iter().zip(&found) {
                if let Some(posting) = posting {
                    score += contribution(term.slot, posting.frequency, document.length);
                }
            }
            rows.push(Row { score: score.to_bits(), tid: document.tid });
        }
    }
    rows.sort_by(|a, b| {
        f32::from_bits(b.score)
            .total_cmp(&f32::from_bits(a.score))
            .then((a.tid.block, a.tid.offset).cmp(&(b.tid.block, b.tid.offset)))
    });
    rows
}

fn check(seed: u64, all: bool, slots: usize, documents: u32, k: usize) -> usize {
    let mut numbers = Numbers(seed);
    let mut summaries = Summaries::new();
    let (query, terms) = leaves(all, slots);
    let sources = vec![
        source(&mut numbers, 0, documents, slots, &mut summaries),
        source(&mut numbers, documents, documents + 7, slots, &mut summaries),
    ];
    let scan = PrunedScan {
        query,
        held: terms.clone(),
        terms,
        fields: None,
        sources,
        immutable_sources: 1,
        max_offset: MAX_OFFSET,
    };
    let most = |values: Vec<f32>| values.into_iter().fold(0.0f32, f32::max).to_bits();
    let scoring = Scoring {
        plus: |a: u32, b: u32| (f32::from_bits(a) + f32::from_bits(b)).to_bits(),
        exact: |slot: usize, frequency: u32, length: u32| {
            contribution(slot, frequency, length).to_bits()
        },
        bound: |slot: usize, block: Block| {
            let summary = &summaries[block.summary as usize];
            most(summary.iter().map(|(f, n)| contribution(slot, *f, *n)).collect())
        },
        at_length: |slot: usize, block: Block, length: u32| {
            let summary = &summaries[block.summary as usize];
            most(summary.iter().map(|(f, _)| contribution(slot, *f, length)).collect())
        },
        from_length: |slot: usize, block: Block, length: u32| {
            let summary = &summaries[block.summary as usize];
            most(summary.iter().map(|(f, n)| contribution(slot, *f, (*n).max(length))).collect())
        },
    };
    let mut events = Vec::new();
    let top = scan.top_k(&scoring, k, &mut events).unwrap();
    let expected = exhaustive(&scan, all);
    assert_eq!(top.rows, expected[..k.min(expected.len())]);
    assert_eq!(top.complete, expected.len() < k);
    assert_eq!(top.rows.len(), k.min(top.scored));
    let opened: Vec<&WalkEvent> =
        events.iter().filter(|event| matches!(event, WalkEvent::SourceOpened { .. })).collect();
    if k > 0 {
        assert_eq!(
            opened,
            vec![
                &WalkEvent::SourceOpened { immutable: true },
                &WalkEvent::SourceOpened { immutable: false },
            ]
        );
    }
    assert_eq!(scan.pruned_top_k(&scoring, k).unwrap().rows, top.rows);
    assert!(scan.pruned_top_k(&scoring, PRUNE_MAX_K + 1).is_none());

    // What the scan is scored by afterwards.
    let known = KnownScores::of_rows(&top.rows);
    let tids: Vec<Tid> = expected.iter().map(|row| row.tid).collect();
    let scored = scan.score_matching_tids(&scoring, &known, &tids, &tids);
    assert_eq!(scored, expected);
    for row in &expected {
        assert_eq!(scan.score_listed(&scoring, row.tid), Some(row.score));
        assert_eq!(known.get(row.tid).is_some(), top.rows.contains(row));
    }
    let mut max = None;
    let most = expected.first().map_or(0, |row| row.score);
    assert_eq!(scan.max_score(&scoring, &known, &tids, &tids, &mut max), most);
    assert_eq!(scan.max_score(&scoring, &known, &vec![], &vec![], &mut max), most);
    top.scored
}

#[test]
fn a_pruned_disjunction_is_the_exhaustive_top() {
    for seed in 0..60 {
        for k in [0, 1, 2, 5, 30, 200] {
            check(seed, false, 1 + seed as usize % 4, 40, k);
        }
    }
}

#[test]
fn a_pruned_conjunction_is_the_exhaustive_top() {
    for seed in 100..160 {
        for k in [0, 1, 2, 5, 30, 200] {
            check(seed, true, 1 + seed as usize % 4, 40, k);
        }
    }
}

#[test]
fn pruning_leaves_candidates_unscored() {
    let mut pruned = 0;
    for seed in 0..20 {
        if check(seed, false, 2, 300, 2) < check(seed, false, 2, 300, 4_000) {
            pruned += 1;
        }
    }
    assert!(pruned > 10, "{pruned}");
}

#[test]
fn a_scan_without_block_bounds_is_not_pruned() {
    let mut numbers = Numbers(3);
    let mut summaries = Summaries::new();
    let mut unbounded = source(&mut numbers, 0, 9, 1, &mut summaries);
    unbounded.terms[0].blocks.clear();
    let scan = |query: Query, terms: Vec<&str>, held: Vec<&str>| PrunedScan {
        query,
        terms: terms.into_iter().map(str::to_owned).collect(),
        fields: None,
        held: held.into_iter().map(str::to_owned).collect(),
        sources: vec![],
        immutable_sources: 0,
        max_offset: MAX_OFFSET,
    };
    let scoring = Scoring {
        plus: |a: u32, b: u32| (f32::from_bits(a) + f32::from_bits(b)).to_bits(),
        exact: |slot: usize, f: u32, n: u32| contribution(slot, f, n).to_bits(),
        bound: |_: usize, _: Block| u32::MAX >> 1,
        at_length: |_: usize, _: Block, _: u32| u32::MAX >> 1,
        from_length: |_: usize, _: Block, _: u32| u32::MAX >> 1,
    };
    let mut events = Vec::new();
    let (query, _) = leaves(false, 1);
    let refused = PrunedScan { sources: vec![unbounded], ..scan(query, vec!["t0"], vec!["t0"]) };
    assert!(refused.top_k(&scoring, 3, &mut events).is_none());
    // A scoring term that is no leaf, and a leaf that is held but not scored.
    let (query, _) = leaves(false, 1);
    assert!(scan(query, vec!["t0", "added"], vec!["t0"]).top_k(&scoring, 3, &mut events).is_none());
    let (query, _) = leaves(false, 2);
    assert!(scan(query, vec!["t0"], vec!["t0", "t1"]).top_k(&scoring, 3, &mut events).is_none());
    // A leaf that no source holds empties a conjunction.
    let (query, _) = leaves(true, 2);
    let nothing = scan(query, vec!["t0"], vec!["t0"]).top_k(&scoring, 3, &mut events).unwrap();
    assert!(nothing.rows.is_empty() && nothing.complete);
    assert!(scan(Query::MatchAll, vec![], vec![]).top_k(&scoring, 3, &mut events).is_none());
}

#[test]
fn a_location_in_two_sources_is_not_pruned() {
    let one = || Source {
        documents: vec![Document { tid: tid(4), length: 2 }],
        terms: vec![TermPostings {
            slot: 0,
            postings: vec![Posting { tid: tid(4), frequency: 1 }],
            blocks: vec![Block { last: tid(4), shortest: 2, summary: 0 }],
            whole: Block { last: tid(4), shortest: 2, summary: 0 },
            count: 1,
        }],
        dead: vec![],
    };
    let scoring = Scoring {
        plus: |a: u32, b: u32| (f32::from_bits(a) + f32::from_bits(b)).to_bits(),
        exact: |slot: usize, f: u32, n: u32| contribution(slot, f, n).to_bits(),
        bound: |slot: usize, _: Block| contribution(slot, 1, 2).to_bits(),
        at_length: |slot: usize, _: Block, _: u32| contribution(slot, 1, 2).to_bits(),
        from_length: |slot: usize, _: Block, _: u32| contribution(slot, 1, 2).to_bits(),
    };
    let mut scan = PrunedScan {
        query: Query::Term("t0".to_owned()),
        terms: vec!["t0".to_owned()],
        fields: None,
        held: vec!["t0".to_owned()],
        sources: vec![one(), one()],
        immutable_sources: 2,
        max_offset: MAX_OFFSET,
    };
    assert!(scan.top_k(&scoring, 2, &mut Vec::new()).is_none());
    scan.sources[0].dead.push(tid(4));
    let mut events = Vec::new();
    let top = scan.top_k(&scoring, 2, &mut events).unwrap();
    assert_eq!(top.rows, vec![Row { score: contribution(0, 1, 2).to_bits(), tid: tid(4) }]);
    let opened = WalkEvent::SourceOpened { immutable: true };
    assert_eq!(events, vec![opened, WalkEvent::DeadSkipped, opened]);
    assert_eq!(top.scored, 1);
    // What the walk did is reported although its rows are of no use.
    scan.sources[0].dead.clear();
    let mut events = vec![WalkEvent::DeadSkipped];
    assert!(scan.top_k(&scoring, 2, &mut events).is_none());
    assert_eq!(events, vec![WalkEvent::DeadSkipped, opened, opened]);
}

/// Documents of equal length in blocks of two, each with a frequency.
fn steps(frequencies: &[u32], dead: &[u32], bounded: bool) -> Source {
    let n = frequencies.len() as u32;
    let most = |range: std::ops::Range<usize>| Block {
        last: tid(range.end as u32 - 1),
        shortest: 2,
        summary: u64::from(*frequencies[range].iter().max().unwrap()),
    };
    let blocks = if bounded {
        (0..frequencies.len())
            .step_by(2)
            .map(|i| most(i..(i + 2).min(frequencies.len())))
            .collect()
    } else {
        vec![]
    };
    Source {
        documents: (0..n).map(|i| Document { tid: tid(i), length: 2 }).collect(),
        terms: vec![TermPostings {
            slot: 0,
            postings: (0..n)
                .map(|i| Posting { tid: tid(i), frequency: frequencies[i as usize] })
                .collect(),
            blocks,
            whole: most(0..frequencies.len()),
            count: n,
        }],
        dead: dead.iter().map(|i| tid(*i)).collect(),
    }
}

#[test]
fn a_walk_tells_what_it_scored_and_dropped() {
    let walk = |sources: Vec<Source>, k: usize| {
        let scan = PrunedScan {
            query: Query::Term("t0".to_owned()),
            terms: vec!["t0".to_owned()],
            fields: None,
            held: vec!["t0".to_owned()],
            sources,
            immutable_sources: 1,
            max_offset: MAX_OFFSET,
        };
        let bound = |slot: usize, block: Block| {
            contribution(slot, block.summary as u32, 2).to_bits()
        };
        let scoring = Scoring {
            plus: |a: u32, b: u32| (f32::from_bits(a) + f32::from_bits(b)).to_bits(),
            exact: |slot: usize, f: u32, n: u32| contribution(slot, f, n).to_bits(),
            bound,
            at_length: |slot: usize, block: Block, _: u32| bound(slot, block),
            from_length: |slot: usize, block: Block, _: u32| bound(slot, block),
        };
        let mut events = Vec::new();
        let scored = scan.top_k(&scoring, k, &mut events).map(|top| top.scored);
        (scored, events)
    };
    let first = WalkEvent::SourceOpened { immutable: true };
    let second = WalkEvent::SourceOpened { immutable: false };
    let dead = WalkEvent::DeadSkipped;
    // The second block cannot enter, but the third can.
    assert_eq!(walk(vec![steps(&[3, 1, 2, 2, 1, 4], &[], true)], 1), (Some(3), vec![first]));
    // Everything is scored until there are enough rows.
    assert_eq!(walk(vec![steps(&[3, 1, 2, 2, 1, 4], &[], true)], 9), (Some(6), vec![first]));
    // A deleted document is dropped where the walk comes by, and only there.
    assert_eq!(
        walk(vec![steps(&[3, 1, 2, 2, 1, 4], &[0, 2, 5], true)], 1),
        (Some(3), vec![first, dead, dead, dead])
    );
    assert_eq!(
        walk(vec![steps(&[3, 1, 2, 2], &[2, 3], true), steps(&[5, 1], &[1], true)], 1),
        (Some(2), vec![first, second])
    );
    // The walk stops at a source that cannot be pruned.
    assert_eq!(
        walk(
            vec![
                steps(&[3, 1], &[0], true),
                steps(&[1], &[0], false),
                steps(&[1], &[0], true),
            ],
            1
        ),
        (None, vec![first, dead, second])
    );
    assert_eq!(walk(vec![steps(&[3], &[0], true)], 0), (Some(0), vec![]));
}

#[test]
fn negative_scores_rank_below_positive_ones() {
    let row = |score: f32, n: u32| Row { score: score.to_bits(), tid: tid(n) };
    assert!(rank(row(1.0, 9), row(-1.0, 1)));
    assert!(!rank(row(-1.0, 1), row(1.0, 9)));
    assert!(rank(row(-1.0, 9), row(-2.0, 1)));
    assert!(rank(row(0.0, 9), row(-0.0, 1)));
    assert!(rank(row(-1.0, 1), row(-1.0, 2)));
    assert!(rank(row(f32::NAN, 9), row(f32::INFINITY, 1)));
    assert!(rank(row(f32::NEG_INFINITY, 9), row(-f32::NAN, 1)));
    let rows = vec![row(-2.0, 1), row(0.5, 2), row(-1.0, 3), row(3.0, 4), row(-1.0, 0)];
    let mut expected = rows.clone();
    expected.sort_by(|a, b| {
        f32::from_bits(b.score)
            .total_cmp(&f32::from_bits(a.score))
            .then((a.tid.block, a.tid.offset).cmp(&(b.tid.block, b.tid.offset)))
    });
    assert_eq!(sort_rows(&rows), expected);
    let larger = |a: f32, b: f32| f32::from_bits(larger(a.to_bits(), b.to_bits()));
    assert_eq!(larger(1.0, 2.0), 2.0);
    assert_eq!(larger(1.0, -2.0), 1.0);
    assert_eq!(larger(0.0, -2.0), 0.0);
    assert_eq!(larger(0.5, f32::NAN), 0.5);
    assert_eq!(larger(0.5, f32::INFINITY), f32::INFINITY);
}

#[test]
fn no_score_is_below_the_largest_of_negative_ones() {
    let scan = PrunedScan {
        query: Query::Term("t0".to_owned()),
        terms: vec!["t0".to_owned()],
        fields: None,
        held: vec!["t0".to_owned()],
        sources: vec![steps(&[1, 2, 3], &[], true)],
        immutable_sources: 1,
        max_offset: MAX_OFFSET,
    };
    let scored = |sign: f32| {
        let scoring = Scoring {
            plus: |a: u32, b: u32| (f32::from_bits(a) + f32::from_bits(b)).to_bits(),
            exact: |_: usize, f: u32, _: u32| (sign * (f as f32 - 1.5)).to_bits(),
            bound: |_: usize, _: Block| 0,
            at_length: |_: usize, _: Block, _: u32| 0,
            from_length: |_: usize, _: Block, _: u32| 0,
        };
        let tids = vec![tid(0), tid(1), tid(2)];
        let known = KnownScores::new();
        let mut max = None;
        f32::from_bits(scan.max_score(&scoring, &known, &tids, &tids, &mut max))
    };
    assert_eq!(scored(1.0), 1.5);
    assert_eq!(scored(-1.0), 0.5);
    assert_eq!(scored(-0.0), 0.0);
}

#[test]
fn a_row_is_scored_at_the_root_of_its_chain() {
    let scan = PrunedScan {
        query: Query::Term("t0".to_owned()),
        terms: vec!["t0".to_owned()],
        fields: None,
        held: vec!["t0".to_owned()],
        sources: vec![Source {
            documents: vec![Document { tid: tid(4), length: 2 }],
            terms: vec![TermPostings {
                slot: 0,
                postings: vec![Posting { tid: tid(4), frequency: 3 }],
                blocks: vec![],
                whole: Block { last: tid(4), shortest: 2, summary: 0 },
                count: 1,
            }],
            dead: vec![],
        }],
        immutable_sources: 1,
        max_offset: MAX_OFFSET,
    };
    let scoring = Scoring {
        plus: |a: u32, b: u32| (f32::from_bits(a) + f32::from_bits(b)).to_bits(),
        exact: |slot: usize, f: u32, n: u32| contribution(slot, f, n).to_bits(),
        bound: |_: usize, _: Block| 0,
        at_length: |_: usize, _: Block, _: u32| 0,
        from_length: |_: usize, _: Block, _: u32| 0,
    };
    let none = KnownScores::new();
    let score = contribution(0, 3, 2).to_bits();
    assert_eq!(scan.score(&scoring, &none, tid(4), tid(4)), score);
    assert_eq!(scan.score(&scoring, &none, tid(9), tid(4)), score);
    assert_eq!(scan.score(&scoring, &none, tid(9), tid(8)), 0);
    assert!(scan.needs_root(&scoring, &none, tid(9)));
    assert!(!scan.needs_root(&scoring, &none, tid(4)));
    let known = KnownScores::of_rows(&vec![Row { score: 77, tid: tid(8) }]);
    assert_eq!(scan.score(&scoring, &known, tid(9), tid(8)), 77);
    assert_eq!(scan.score(&scoring, &known, tid(8), tid(4)), 77);
}

#[test]
fn rows_rank_by_score_then_location() {
    let row = |score: f32, n: u32| Row { score: score.to_bits(), tid: tid(n) };
    assert!(rank(row(2.0, 9), row(1.0, 1)));
    assert!(rank(row(2.0, 1), row(2.0, 9)));
    assert!(!rank(row(2.0, 9), row(2.0, 1)));
    let rows = vec![row(1.0, 4), row(3.0, 2), row(1.0, 1), row(0.0, 7), row(3.0, 0)];
    let sorted = vec![row(3.0, 0), row(3.0, 2), row(1.0, 1), row(1.0, 4), row(0.0, 7)];
    assert_eq!(sort_rows(&rows), sorted);
    let mut other = rows.clone();
    other.reverse();
    assert_eq!(sort_rows(&other), sorted);
    let mut best = Vec::new();
    for r in &rows {
        offer(3, &mut best, *r);
    }
    assert_eq!(best, sorted[..3]);
}

#[test]
fn the_successor_moves_on_to_the_next_block() {
    let at = |block: u32, offset: u16| Tid { block, offset };
    assert_eq!(successor(at(4, 7), MAX_OFFSET), at(4, 8));
    assert_eq!(successor(at(4, MAX_OFFSET), MAX_OFFSET), at(5, 1));
    assert!(at(4, 9).before(at(5, 1)) && !at(5, 1).before(at(5, 1)));
}
