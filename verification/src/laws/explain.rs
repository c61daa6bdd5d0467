//! What EXPLAIN says of a scan.

use crate::explain::{Line, Shown, Surroundings};
use crate::scan::ScanExec;
use vstd::prelude::*;

verus! {

/// EXPLAIN has a line with this number under this name.
pub open spec fn tells(lines: Seq<Line>, name: Seq<char>, n: int) -> bool {
    lines.contains(Line { name, value: Shown::Integer(n) })
}

/// EXPLAIN has a line with this text under this name.
pub open spec fn says(lines: Seq<Line>, name: Seq<char>, text: Seq<char>) -> bool {
    lines.contains(Line { name, value: Shown::Text(text) })
}

/// One if it is so.
pub open spec fn one_if(so: bool) -> int {
    if so {
        1
    } else {
        0
    }
}

proof fn lemma_in<X>(a: Seq<X>, b: Seq<X>)
    ensures
        forall|x: X| #[trigger] (a + b).contains(x) <==> a.contains(x) || b.contains(x),
        (a + b).len() == a.len() + b.len(),
{
    assert forall|x: X| #[trigger] (a + b).contains(x) <==> a.contains(x) || b.contains(x) by {
        let all = a + b;
        if a.contains(x) {
            let i = choose|i: int| 0 <= i < a.len() && a[i] == x;
            assert(all[i] == x);
        }
        if b.contains(x) {
            let i = choose|i: int| 0 <= i < b.len() && b[i] == x;
            assert(all[a.len() + i] == x);
        }
        if all.contains(x) {
            let i = choose|i: int| 0 <= i < all.len() && all[i] == x;
            if i < a.len() {
                assert(a[i] == x);
            } else {
                assert(b[i - a.len()] == x);
            }
        }
    }
}

proof fn lemma_one<X>(x: X)
    ensures
        seq![x].contains(x),
        seq![x].len() == 1,
{
    assert(seq![x][0] == x);
}

proof fn lemma_two<X>(x: X, y: X)
    ensures
        seq![x, y].contains(x),
        seq![x, y].contains(y),
        seq![x, y].len() == 2,
{
    assert(seq![x, y][0] == x && seq![x, y][1] == y);
}

/// The plan of a scan is told whether it ran or not: the index, the query, the
/// order and its bound, the segments of the index and its analysis, each where
/// there is one, and nothing else.
pub proof fn law_explain_tells_the_plan(scan: ScanExec, around: Surroundings)
    requires
        around.directory matches Some((immutable, _)) ==> immutable < i64::MAX && immutable
            < usize::MAX,
        scan.top_k matches Some(k) ==> k <= i64::MAX,
    ensures
        ({
            let lines = scan.plan_lines(around);
            &&& says(lines, "Query"@, around.query@)
            &&& around.index matches Some(name) ==> says(lines, "Index"@, name@)
            &&& scan.ordered ==> says(lines, "Order"@, "score DESC"@)
            &&& scan.ordered ==> (scan.top_k matches Some(k) ==> tells(lines, "Top K"@, k as int))
            &&& around.directory matches Some((immutable, buffered)) ==> tells(
                lines,
                "Segments"@,
                immutable + one_if(buffered > 0),
            ) && (around.analysis matches Some(text) ==> says(lines, "Analysis"@, text@))
            &&& lines.len() == 1 + one_if(around.index is Some) + one_if(scan.ordered) + one_if(
                scan.ordered && scan.top_k is Some,
            ) + one_if(around.directory is Some) + one_if(
                around.directory is Some && around.analysis is Some,
            )
            &&& !around.analyze ==> scan.explained(around) == lines
        }),
{
    let e = Seq::<Line>::empty();
    let index = match around.index {
        Some(name) => seq![crate::explain::text_line("Index"@, name@)],
        None => e,
    };
    let query = seq![crate::explain::text_line("Query"@, around.query@)];
    let top = match scan.top_k {
        Some(k) => seq![crate::explain::number_line("Top K"@, k)],
        None => e,
    };
    let score = seq![crate::explain::text_line("Order"@, "score DESC"@)];
    let order = if scan.ordered {
        score + top
    } else {
        e
    };
    let directory = around.directory_lines();
    lemma_in(index, query);
    lemma_in(score, top);
    lemma_in(index + query, order);
    lemma_in(index + query + order, directory);
    lemma_one(query[0]);
    if index.len() > 0 {
        lemma_one(index[0]);
    }
    lemma_one(score[0]);
    if top.len() > 0 {
        lemma_one(top[0]);
    }
    if let Some((immutable, buffered)) = around.directory {
        let segments = seq![
            crate::explain::number_line(
                "Segments"@,
                (immutable + if buffered > 0 {
                    1int
                } else {
                    0int
                }) as usize,
            ),
        ];
        let analysis = match around.analysis {
            Some(text) => seq![crate::explain::text_line("Analysis"@, text@)],
            None => e,
        };
        lemma_in(segments, analysis);
        lemma_one(segments[0]);
        if analysis.len() > 0 {
            lemma_one(analysis[0]);
        }
        assert(directory == segments + analysis);
    }
    assert(scan.plan_lines(around) == index + query + order + directory);
    if !around.analyze {
        assert(scan.explained(around) =~= scan.plan_lines(around));
    }
}

/// What a scan did is told once it ran, each part of it: how candidates were come
/// by, how a count was taken, how many candidates there were and how many were
/// scored, the segments visited, the pages read, what was scored beyond the bound,
/// and what was fetched. Workers do not report, and then that is told instead.
pub proof fn law_explain_tells_all_parts(scan: ScanExec, around: Surroundings, line: Line)
    requires
        around.analyze,
    ensures
        scan.started || !around.workers ==> (scan.explained(around).contains(line)
            <==> scan.plan_lines(around).contains(line) || scan.stream_lines(around).contains(line)
            || scan.count_lines().contains(line) || scan.pruning_lines().contains(line)
            || scan.segment_lines().contains(line) || around.page_lines().contains(line)
            || scan.scoring_lines().contains(line) || scan.heap_lines().contains(line)),
        scan.started || !around.workers ==> scan.explained(around).len() == scan.plan_lines(
            around,
        ).len() + scan.stream_lines(around).len() + scan.count_lines().len()
            + scan.pruning_lines().len() + scan.segment_lines().len() + around.page_lines().len()
            + scan.scoring_lines().len() + scan.heap_lines().len(),
        !scan.started && around.workers ==> says(
            scan.explained(around),
            "Execution Counters"@,
            "Unavailable from parallel workers"@,
        ) && scan.explained(around).len() == scan.plan_lines(around).len() + 1,
{
    let stream = scan.stream_lines(around);
    let count = scan.count_lines();
    let pruning = scan.pruning_lines();
    let segments = scan.segment_lines();
    let pages = around.page_lines();
    let scoring = scan.scoring_lines();
    let heap = scan.heap_lines();
    let plan = scan.plan_lines(around);
    lemma_in(stream, count);
    lemma_in(stream + count, pruning);
    lemma_in(stream + count + pruning, segments);
    lemma_in(stream + count + pruning + segments, pages);
    lemma_in(stream + count + pruning + segments + pages, scoring);
    lemma_in(stream + count + pruning + segments + pages + scoring, heap);
    lemma_in(plan, scan.run_lines(around));
    let note = seq![
        crate::explain::text_line("Execution Counters"@, "Unavailable from parallel workers"@),
    ];
    lemma_one(note[0]);
    lemma_in(plan, note);
}

/// How candidates were streamed and how a count was taken is told where there was
/// a stream or a count, and what was scored beyond the bound for a scan in order.
pub proof fn law_explain_tells_the_strategies(scan: ScanExec, around: Surroundings)
    requires
        scan.counters.stream_visits <= i64::MAX,
        scan.counters.exhaustive_score_calls <= i64::MAX,
        scan.counters.top_k_completions <= i64::MAX,
    ensures
        scan.stream is Some ==> tells(
            scan.stream_lines(around),
            "Candidates Visited"@,
            scan.counters.stream_visits as int,
        ) && says(
            scan.stream_lines(around),
            "Candidate Strategy"@,
            if around.stream_pages {
                "streaming page bitmaps"@
            } else {
                "streaming scalar"@
            },
        ),
        scan.stream_lines(around).len() == 2 * one_if(scan.stream is Some),
        scan.page_masks matches Some(pages) ==> says(
            scan.count_lines(),
            "Count Strategy"@,
            if pages {
                "page bitmaps"@
            } else {
                "scalar"@
            },
        ),
        scan.count_lines().len() == one_if(scan.page_masks is Some),
        scan.ordered ==> tells(
            scan.scoring_lines(),
            "Exhaustive Score Calls"@,
            scan.counters.exhaustive_score_calls as int,
        ) && tells(
            scan.scoring_lines(),
            "Top-K Completions"@,
            scan.counters.top_k_completions as int,
        ),
        scan.scoring_lines().len() == 2 * one_if(scan.ordered),
{
    let stream = scan.stream_lines(around);
    let count = scan.count_lines();
    let scoring = scan.scoring_lines();
    if scan.stream is Some {
        lemma_two(stream[0], stream[1]);
        assert(stream =~= seq![stream[0], stream[1]]);
    }
    if scan.page_masks is Some {
        lemma_one(count[0]);
        assert(count =~= seq![count[0]]);
    }
    if scan.ordered {
        lemma_two(scoring[0], scoring[1]);
        assert(scoring =~= seq![scoring[0], scoring[1]]);
    }
}

/// The candidates, those that were scored and those that pruning spared are told
/// where they are known.
pub proof fn law_explain_tells_the_pruning(scan: ScanExec)
    requires
        scan.candidates matches Some(n) ==> n <= i64::MAX,
        scan.scored matches Some(n) ==> n <= i64::MAX,
    ensures
        ({
            let lines = scan.pruning_lines();
            &&& scan.candidates matches Some(n) ==> tells(lines, "Candidates"@, n as int)
            &&& scan.scored matches Some(n) ==> tells(lines, "Scored Candidates"@, n as int)
                && says(lines, "Pruning"@, "block-max"@)
            &&& scan.candidates is Some && scan.scored is Some && scan.scored->0
                <= scan.candidates->0 ==> tells(
                lines,
                "Pruned by Block-Max"@,
                scan.candidates->0 - scan.scored->0,
            )
            &&& lines.len() == one_if(scan.candidates is Some) + 2 * one_if(scan.scored is Some)
                + one_if(scan.candidates is Some && scan.scored is Some)
        }),
{
    let e = Seq::<Line>::empty();
    let all = match scan.candidates {
        Some(n) => seq![crate::explain::number_line("Candidates"@, n)],
        None => e,
    };
    let scored = match scan.scored {
        Some(n) => seq![
            crate::explain::text_line("Pruning"@, "block-max"@),
            crate::explain::number_line("Scored Candidates"@, n),
        ],
        None => e,
    };
    let pruned = match (scan.candidates, scan.scored) {
        (Some(all), Some(scored)) => seq![
            crate::explain::number_line(
                "Pruned by Block-Max"@,
                if scored < all {
                    (all - scored) as usize
                } else {
                    0
                },
            ),
        ],
        _ => e,
    };
    lemma_in(all, scored);
    lemma_in(all + scored, pruned);
    if all.len() > 0 {
        lemma_one(all[0]);
    }
    if scored.len() > 0 {
        lemma_two(scored[0], scored[1]);
    }
    if pruned.len() > 0 {
        lemma_one(pruned[0]);
    }
    assert(scan.pruning_lines() == all + scored + pruned);
}

/// The segments visited are told, in all and by kind where there were any.
pub proof fn law_explain_tells_the_segments(scan: ScanExec)
    requires
        scan.counters.segments_visited_immutable + scan.counters.segments_visited_buffer
            <= i64::MAX,
        scan.counters.segments_visited_immutable + scan.counters.segments_visited_buffer
            <= usize::MAX,
    ensures
        ({
            let lines = scan.segment_lines();
            let counters = scan.counters;
            &&& tells(
                lines,
                "Segments Visited"@,
                counters.segments_visited_immutable + counters.segments_visited_buffer,
            )
            &&& counters.segments_visited_immutable > 0 ==> tells(
                lines,
                "Immutable Segments"@,
                counters.segments_visited_immutable as int,
            )
            &&& counters.segments_visited_buffer > 0 ==> tells(
                lines,
                "Write-Buffer Segments"@,
                counters.segments_visited_buffer as int,
            )
            &&& lines.len() == 1 + one_if(counters.segments_visited_immutable > 0) + one_if(
                counters.segments_visited_buffer > 0,
            )
        }),
{
    let counters = scan.counters;
    let first = seq![
        crate::explain::number_line(
            "Segments Visited"@,
            (counters.segments_visited_immutable + counters.segments_visited_buffer) as usize,
        ),
    ];
    let fixed = crate::explain::number_line(
        "Immutable Segments"@,
        counters.segments_visited_immutable,
    );
    let buffer = crate::explain::number_line(
        "Write-Buffer Segments"@,
        counters.segments_visited_buffer,
    );
    let second = crate::explain::shown_if(counters.segments_visited_immutable > 0, fixed);
    let third = crate::explain::shown_if(counters.segments_visited_buffer > 0, buffer);
    lemma_one(first[0]);
    lemma_one(fixed);
    lemma_one(buffer);
    lemma_in(first, second);
    lemma_in(first + second, third);
    assert(scan.segment_lines() == first + second + third);
}

/// The pages read are told where there were any.
pub proof fn law_explain_tells_the_pages(around: Surroundings)
    requires
        around.pages matches Some((a, b)) ==> a <= i64::MAX && b <= i64::MAX,
    ensures
        around.pages matches Some((dictionary, postings)) ==> (dictionary > 0 ==> tells(
            around.page_lines(),
            "Dictionary Pages Read"@,
            dictionary as int,
        )) && (postings > 0 ==> tells(
            around.page_lines(),
            "Postings Blocks Read"@,
            postings as int,
        )),
        around.page_lines().len() == one_if(around.pages matches Some((a, _)) && a > 0) + one_if(
            around.pages matches Some((_, b)) && b > 0,
        ),
{
    if let Some((dictionary, postings)) = around.pages {
        let a = Line {
            name: "Dictionary Pages Read"@,
            value: Shown::Integer(dictionary as i64 as int),
        };
        let b = Line {
            name: "Postings Blocks Read"@,
            value: Shown::Integer(postings as i64 as int),
        };
        lemma_one(a);
        lemma_one(b);
        lemma_in(
            crate::explain::shown_if(dictionary > 0, a),
            crate::explain::shown_if(postings > 0, b),
        );
    }
}

/// What was fetched, rechecked, dropped and skipped is told; the last two where
/// there was any.
pub proof fn law_explain_tells_the_fetches(scan: ScanExec)
    requires
        scan.counters.fetched <= i64::MAX,
        scan.counters.heap_rechecks <= i64::MAX,
        scan.counters.dead_skipped <= i64::MAX,
        scan.counters.skipped_pages <= i64::MAX,
    ensures
        ({
            let lines = scan.heap_lines();
            let counters = scan.counters;
            &&& tells(lines, "Heap Fetches"@, counters.fetched as int)
            &&& tells(lines, "Heap Rechecks"@, counters.heap_rechecks as int)
            &&& counters.dead_skipped > 0 ==> tells(
                lines,
                "Dead Skipped"@,
                counters.dead_skipped as int,
            )
            &&& counters.skipped_pages > 0 ==> tells(
                lines,
                "All-Visible Pages"@,
                counters.skipped_pages as int,
            )
            &&& lines.len() == 2 + one_if(counters.dead_skipped > 0) + one_if(
                counters.skipped_pages > 0,
            )
        }),
{
    let counters = scan.counters;
    let a = crate::explain::number_line("Heap Fetches"@, counters.fetched);
    let b = crate::explain::number_line("Heap Rechecks"@, counters.heap_rechecks);
    let c = crate::explain::number_line("Dead Skipped"@, counters.dead_skipped);
    let d = crate::explain::number_line("All-Visible Pages"@, counters.skipped_pages);
    let first = seq![a, b];
    let second = crate::explain::shown_if(counters.dead_skipped > 0, c);
    let third = crate::explain::shown_if(counters.skipped_pages > 0, d);
    lemma_two(a, b);
    lemma_one(c);
    lemma_one(d);
    lemma_in(first, second);
    lemma_in(first + second, third);
    assert(scan.heap_lines() == first + second + third);
}

} // verus!
