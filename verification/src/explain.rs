//! What EXPLAIN shows of a scan.

use crate::scan::ScanExec;
use vstd::prelude::*;

verus! {

/// A property that EXPLAIN shows.
#[derive(Debug)]
pub struct Property {
    pub name: &'static str,
    pub value: PropertyValue,
}

/// The value of a property.
#[derive(Debug)]
pub enum PropertyValue {
    Text(String),
    Integer(i64),
}

/// What a property shows.
pub enum Shown {
    Text(Seq<char>),
    Integer(int),
}

/// A property and what it shows.
pub struct Line {
    pub name: Seq<char>,
    pub value: Shown,
}

impl View for Property {
    type V = Line;

    open spec fn view(&self) -> Line {
        Line {
            name: self.name@,
            value: match self.value {
                PropertyValue::Text(text) => Shown::Text(text@),
                PropertyValue::Integer(n) => Shown::Integer(n as int),
            },
        }
    }
}

/// What each property shows.
pub open spec fn lines(properties: Seq<Property>) -> Seq<Line> {
    properties.map_values(|property: Property| property@)
}

/// A property with a text.
pub open spec fn text_line(name: Seq<char>, text: Seq<char>) -> Line {
    Line { name, value: Shown::Text(text) }
}

/// A property with a number.
pub open spec fn number_line(name: Seq<char>, n: usize) -> Line {
    Line { name, value: Shown::Integer(n as i64 as int) }
}

/// `line`, if `shown`.
pub open spec fn shown_if(shown: bool, line: Line) -> Seq<Line> {
    if shown {
        seq![line]
    } else {
        Seq::empty()
    }
}

/// What the index and the executor add to what the scan knows.
#[derive(Debug)]
pub struct Surroundings {
    /// The index's name, if it still has one.
    pub index: Option<String>,
    pub query: String,
    /// The immutable segments and the buffered documents of an index that
    /// is there.
    pub directory: Option<(usize, u64)>,
    /// The identity of the index's analysis, where it has one to show.
    pub analysis: Option<String>,
    pub analyze: bool,
    /// Workers ran the scan and report for it.
    pub workers: bool,
    /// The stream of candidates reads page bitmaps.
    pub stream_pages: bool,
    /// Pages read of the dictionary and of the postings, if they are counted.
    pub pages: Option<(u64, u64)>,
}

impl Surroundings {
    /// The directory's shape and the analysis identity.
    pub open spec fn directory_lines(self) -> Seq<Line> {
        match self.directory {
            Some((immutable, buffered)) => seq![
                number_line(
                    "Segments"@,
                    (immutable + if buffered > 0 {
                        1int
                    } else {
                        0int
                    }) as usize,
                ),
            ] + match self.analysis {
                Some(analysis) => seq![text_line("Analysis"@, analysis@)],
                None => Seq::empty(),
            },
            None => Seq::empty(),
        }
    }
}

impl Surroundings {
    /// The pages that were read.
    pub open spec fn page_lines(self) -> Seq<Line> {
        match self.pages {
            Some((dictionary, postings)) => shown_if(
                dictionary > 0,
                Line {
                    name: "Dictionary Pages Read"@,
                    value: Shown::Integer(dictionary as i64 as int),
                },
            ) + shown_if(
                postings > 0,
                Line {
                    name: "Postings Blocks Read"@,
                    value: Shown::Integer(postings as i64 as int),
                },
            ),
            None => Seq::empty(),
        }
    }
}

impl ScanExec {
    /// What the plan is, with or without ANALYZE.
    pub open spec fn plan_lines(self, around: Surroundings) -> Seq<Line> {
        (match around.index {
            Some(name) => seq![text_line("Index"@, name@)],
            None => Seq::empty(),
        }) + seq![text_line("Query"@, around.query@)] + (if self.ordered {
            seq![text_line("Order"@, "score DESC"@)] + match self.top_k {
                Some(k) => seq![number_line("Top K"@, k)],
                None => Seq::empty(),
            }
        } else {
            Seq::empty()
        }) + around.directory_lines()
    }

    /// How a stream of candidates was read.
    pub open spec fn stream_lines(self, around: Surroundings) -> Seq<Line> {
        if self.stream is Some {
            seq![
                text_line(
                    "Candidate Strategy"@,
                    if around.stream_pages {
                        "streaming page bitmaps"@
                    } else {
                        "streaming scalar"@
                    },
                ),
                number_line("Candidates Visited"@, self.counters.stream_visits),
            ]
        } else {
            Seq::empty()
        }
    }

    /// How the candidates were counted.
    pub open spec fn count_lines(self) -> Seq<Line> {
        match self.page_masks {
            Some(pages) => seq![
                text_line(
                    "Count Strategy"@,
                    if pages {
                        "page bitmaps"@
                    } else {
                        "scalar"@
                    },
                ),
            ],
            None => Seq::empty(),
        }
    }

    /// How many candidates there were, how many of them a pruned walk scored,
    /// and how many it never did.
    pub open spec fn pruning_lines(self) -> Seq<Line> {
        (match self.candidates {
            Some(n) => seq![number_line("Candidates"@, n)],
            None => Seq::empty(),
        }) + (match self.scored {
            Some(n) => seq![
                text_line("Pruning"@, "block-max"@),
                number_line("Scored Candidates"@, n),
            ],
            None => Seq::empty(),
        }) + (match (self.candidates, self.scored) {
            (Some(all), Some(scored)) => seq![
                number_line(
                    "Pruned by Block-Max"@,
                    if scored < all {
                        (all - scored) as usize
                    } else {
                        0
                    },
                ),
            ],
            _ => Seq::empty(),
        })
    }

    /// The sources that were visited.
    pub open spec fn segment_lines(self) -> Seq<Line> {
        let counters = self.counters;
        seq![
            number_line(
                "Segments Visited"@,
                (counters.segments_visited_immutable + counters.segments_visited_buffer) as usize,
            ),
        ] + shown_if(
            counters.segments_visited_immutable > 0,
            number_line("Immutable Segments"@, counters.segments_visited_immutable),
        ) + shown_if(
            counters.segments_visited_buffer > 0,
            number_line("Write-Buffer Segments"@, counters.segments_visited_buffer),
        )
    }

    /// The scoring that was done besides pruning.
    pub open spec fn scoring_lines(self) -> Seq<Line> {
        if self.ordered {
            seq![
                number_line("Exhaustive Score Calls"@, self.counters.exhaustive_score_calls),
                number_line("Top-K Completions"@, self.counters.top_k_completions),
            ]
        } else {
            Seq::empty()
        }
    }

    /// The rows that were fetched, and those that were not.
    pub open spec fn heap_lines(self) -> Seq<Line> {
        seq![
            number_line("Heap Fetches"@, self.counters.fetched),
            number_line("Heap Rechecks"@, self.counters.heap_rechecks),
        ] + shown_if(
            self.counters.dead_skipped > 0,
            number_line("Dead Skipped"@, self.counters.dead_skipped),
        ) + shown_if(
            self.counters.skipped_pages > 0,
            number_line("All-Visible Pages"@, self.counters.skipped_pages),
        )
    }

    /// How the candidates were found, and the work that was done.
    pub open spec fn run_lines(self, around: Surroundings) -> Seq<Line> {
        self.stream_lines(around) + self.count_lines() + self.pruning_lines() + self.segment_lines()
            + around.page_lines() + self.scoring_lines() + self.heap_lines()
    }

    /// All that EXPLAIN shows of the scan. The counters of a scan that only
    /// workers ran are not those of this process.
    pub open spec fn explained(self, around: Surroundings) -> Seq<Line> {
        self.plan_lines(around) + if !around.analyze {
            Seq::empty()
        } else if !self.started && around.workers {
            seq![text_line("Execution Counters"@, "Unavailable from parallel workers"@)]
        } else {
            self.run_lines(around)
        }
    }

    /// What EXPLAIN shows of the scan, in order.
    pub fn explain(&self, around: &Surroundings) -> (properties: Vec<Property>)
        requires
            self.counters.segments_visited_immutable + self.counters.segments_visited_buffer
                <= usize::MAX,
            around.directory matches Some((immutable, _)) ==> immutable < usize::MAX,
        ensures
            lines(properties@) == self.explained(*around),
    {
        let mut out: Vec<Property> = Vec::new();
        self.explain_plan(around, &mut out);
        let ghost planned = lines(out@);
        proof {
            assert(planned =~= self.plan_lines(*around));
        }
        if !around.analyze {
            proof {
                assert(planned + Seq::<Line>::empty() =~= planned);
            }
            return out;
        }
        if !self.started && around.workers {
            push_text(&mut out, "Execution Counters", "Unavailable from parallel workers");
            proof {
                let line = text_line("Execution Counters"@, "Unavailable from parallel workers"@);
                assert(planned.push(line) =~= planned + seq![line]);
            }
            return out;
        }
        self.explain_run(around, &mut out);
        out
    }

    fn explain_run(&self, around: &Surroundings, out: &mut Vec<Property>)
        requires
            self.counters.segments_visited_immutable + self.counters.segments_visited_buffer
                <= usize::MAX,
        ensures
            lines(final(out)@) == lines(old(out)@) + self.run_lines(*around),
    {
        let ghost before = lines(out@);
        self.explain_stream(around, out);
        self.explain_count(out);
        self.explain_pruning(out);
        self.explain_segments(out);
        explain_pages(around, out);
        self.explain_scoring(out);
        self.explain_heap(out);
        proof {
            lemma_joined(
                before,
                self.stream_lines(*around),
                self.count_lines(),
                self.pruning_lines(),
                self.segment_lines(),
                around.page_lines(),
                self.scoring_lines(),
                self.heap_lines(),
            );
        }
    }

    fn explain_plan(&self, around: &Surroundings, out: &mut Vec<Property>)
        requires
            around.directory matches Some((immutable, _)) ==> immutable < usize::MAX,
        ensures
            lines(final(out)@) == lines(old(out)@) + self.plan_lines(*around),
    {
        let ghost before = lines(out@);
        if let Some(name) = &around.index {
            push_text(out, "Index", name.as_str());
        }
        push_text(out, "Query", around.query.as_str());
        if self.ordered {
            push_text(out, "Order", "score DESC");
            if let Some(k) = self.top_k {
                push_number(out, "Top K", k);
            }
        }
        if let Some((immutable, buffered)) = around.directory {
            let segments: usize = if buffered > 0 {
                immutable + 1
            } else {
                immutable
            };
            push_number(out, "Segments", segments);
            if let Some(analysis) = &around.analysis {
                push_text(out, "Analysis", analysis.as_str());
            }
        }
        proof {
            assert(lines(out@) =~= before + self.plan_lines(*around));
        }
    }

    fn explain_stream(&self, around: &Surroundings, out: &mut Vec<Property>)
        ensures
            lines(final(out)@) == lines(old(out)@) + self.stream_lines(*around),
    {
        let ghost before = lines(out@);
        if self.stream.is_some() {
            if around.stream_pages {
                push_text(out, "Candidate Strategy", "streaming page bitmaps");
            } else {
                push_text(out, "Candidate Strategy", "streaming scalar");
            }
            push_number(out, "Candidates Visited", self.counters.stream_visits);
        }
        proof {
            assert(lines(out@) =~= before + self.stream_lines(*around));
        }
    }

    fn explain_count(&self, out: &mut Vec<Property>)
        ensures
            lines(final(out)@) == lines(old(out)@) + self.count_lines(),
    {
        let ghost before = lines(out@);
        if let Some(pages) = self.page_masks {
            if pages {
                push_text(out, "Count Strategy", "page bitmaps");
            } else {
                push_text(out, "Count Strategy", "scalar");
            }
        }
        proof {
            assert(lines(out@) =~= before + self.count_lines());
        }
    }

    fn explain_pruning(&self, out: &mut Vec<Property>)
        ensures
            lines(final(out)@) == lines(old(out)@) + self.pruning_lines(),
    {
        let ghost before = lines(out@);
        if let Some(n) = self.candidates {
            push_number(out, "Candidates", n);
        }
        if let Some(n) = self.scored {
            push_text(out, "Pruning", "block-max");
            push_number(out, "Scored Candidates", n);
        }
        if let (Some(all), Some(scored)) = (self.candidates, self.scored) {
            let skipped: usize = if scored < all {
                all - scored
            } else {
                0
            };
            push_number(out, "Pruned by Block-Max", skipped);
        }
        proof {
            assert(lines(out@) =~= before + self.pruning_lines());
        }
    }

    fn explain_segments(&self, out: &mut Vec<Property>)
        requires
            self.counters.segments_visited_immutable + self.counters.segments_visited_buffer
                <= usize::MAX,
        ensures
            lines(final(out)@) == lines(old(out)@) + self.segment_lines(),
    {
        let ghost before = lines(out@);
        let counters = self.counters;
        push_number(
            out,
            "Segments Visited",
            counters.segments_visited_immutable + counters.segments_visited_buffer,
        );
        if counters.segments_visited_immutable > 0 {
            push_number(out, "Immutable Segments", counters.segments_visited_immutable);
        }
        if counters.segments_visited_buffer > 0 {
            push_number(out, "Write-Buffer Segments", counters.segments_visited_buffer);
        }
        proof {
            assert(lines(out@) =~= before + self.segment_lines());
        }
    }

    fn explain_scoring(&self, out: &mut Vec<Property>)
        ensures
            lines(final(out)@) == lines(old(out)@) + self.scoring_lines(),
    {
        let ghost before = lines(out@);
        if self.ordered {
            push_number(out, "Exhaustive Score Calls", self.counters.exhaustive_score_calls);
            push_number(out, "Top-K Completions", self.counters.top_k_completions);
        }
        proof {
            assert(lines(out@) =~= before + self.scoring_lines());
        }
    }

    fn explain_heap(&self, out: &mut Vec<Property>)
        ensures
            lines(final(out)@) == lines(old(out)@) + self.heap_lines(),
    {
        let ghost before = lines(out@);
        push_number(out, "Heap Fetches", self.counters.fetched);
        push_number(out, "Heap Rechecks", self.counters.heap_rechecks);
        if self.counters.dead_skipped > 0 {
            push_number(out, "Dead Skipped", self.counters.dead_skipped);
        }
        if self.counters.skipped_pages > 0 {
            push_number(out, "All-Visible Pages", self.counters.skipped_pages);
        }
        proof {
            assert(lines(out@) =~= before + self.heap_lines());
        }
    }
}

fn explain_pages(around: &Surroundings, out: &mut Vec<Property>)
    ensures
        lines(final(out)@) == lines(old(out)@) + around.page_lines(),
{
    let ghost before = lines(out@);
    if let Some((dictionary, postings)) = around.pages {
        if dictionary > 0 {
            push_integer(out, "Dictionary Pages Read", dictionary as i64);
        }
        if postings > 0 {
            push_integer(out, "Postings Blocks Read", postings as i64);
        }
    }
    proof {
        assert(lines(out@) =~= before + around.page_lines());
    }
}

proof fn lemma_joined(
    all: Seq<Line>,
    a: Seq<Line>,
    b: Seq<Line>,
    c: Seq<Line>,
    d: Seq<Line>,
    e: Seq<Line>,
    f: Seq<Line>,
    g: Seq<Line>,
)
    ensures
        all + a + b + c + d + e + f + g == all + (a + b + c + d + e + f + g),
{
    assert(all + a + b + c + d + e + f + g =~= all + (a + b + c + d + e + f + g));
}

fn push_text(out: &mut Vec<Property>, name: &'static str, text: &str)
    ensures
        lines(final(out)@) == lines(old(out)@).push(text_line(name@, text@)),
{
    let ghost before = lines(out@);
    out.push(Property { name, value: PropertyValue::Text(String::from_str(text)) });
    proof {
        assert(lines(out@) =~= before.push(text_line(name@, text@)));
    }
}

fn push_number(out: &mut Vec<Property>, name: &'static str, n: usize)
    ensures
        lines(final(out)@) == lines(old(out)@).push(number_line(name@, n)),
{
    push_integer(out, name, n as i64);
}

fn push_integer(out: &mut Vec<Property>, name: &'static str, n: i64)
    ensures
        lines(final(out)@) == lines(old(out)@).push(
            Line { name: name@, value: Shown::Integer(n as int) },
        ),
{
    let ghost before = lines(out@);
    out.push(Property { name, value: PropertyValue::Integer(n) });
    proof {
        assert(lines(out@) =~= before.push(
            Line { name: name@, value: Shown::Integer(n as int) },
        ));
    }
}

} // verus!
