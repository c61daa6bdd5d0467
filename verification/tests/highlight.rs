use rustc_hash::FxHasher;
use stannum::clause::{BoundOperand, Expression, ResultType};
use stannum::highlight::{
    highlight_text, highlight_text_ansi, html_escape_in_place, named_ansi_color, palette_color,
    push_ansi_highlighted_text, query_label, render_ansi_begin, render_begin_tag, rewrap_text,
};
use stannum::highlight_udfs::{
    ansi_text, column_field_name, combined_query, highlight_function, render_highlight,
    render_highlight_ansi, unknown_field, ArgumentType, CombinedQuery, HighlightCall,
    HighlightFunction,
};
use stannum::marks::{
    byte_ranges_for_positions, merge_overlapping_ranges, ByteRange, HighlightError, HighlightRange,
    TokenSpan,
};
use stannum::match_positions::{positions_from_query, EvaluatedMatch, MatchPosition};
use stannum::operator::indexed_query;
use stannum::query::FieldMeta;
use std::hash::{Hash, Hasher};

/// The stretches of letters and digits.
fn tokens(text: &str) -> Vec<TokenSpan> {
    let mut found = Vec::new();
    let mut start = None;
    for (at, c) in text.char_indices().chain([(text.len(), ' ')]) {
        match (c.is_alphanumeric(), start) {
            (true, None) => start = Some(at),
            (false, Some(from)) => {
                found.push(TokenSpan::Source(ByteRange { start: from, end: at }));
                start = None;
            }
            _ => {}
        }
    }
    found
}

fn point(part: &str, position: u32) -> MatchPosition {
    MatchPosition::point(part.to_owned(), position)
}

fn span(part: &str, start: u32, end: u32) -> MatchPosition {
    MatchPosition::span(part.to_owned(), start, end, 0)
}

fn html(text: &str, positions: Vec<MatchPosition>) -> String {
    highlight_text(&tokens(text), text, "<b>", "</b>", &positions).unwrap()
}

fn owned(texts: &[&str]) -> Vec<String> {
    texts.iter().map(|text| (*text).to_owned()).collect()
}

#[test]
fn explicit_html_and_ansi_highlighting_render_matches() {
    let text = "Hi there";
    assert_eq!(
        render_highlight(Some(text), "<b>", "</b>", Some((tokens(text), vec![point("hi", 0)]))),
        Ok(Some("<b>Hi</b> there".to_owned()))
    );
    let text = "hi there";
    let ansi = render_highlight_ansi(text, &tokens(text), &vec![point("hi", 0)]).unwrap().unwrap();
    assert!(ansi.contains("\x1b["));
    assert!(ansi.contains("hi"));
}

#[test]
fn field_overload_confines_marks_to_the_named_field() {
    // What evaluating the query on the named field reports decides the marks.
    let text = "needle pad";
    let rendered = |reported: Option<Vec<EvaluatedMatch>>| {
        let positions = positions_from_query(reported, 0);
        render_highlight(Some(text), "<b>", "</b>", Some((tokens(text), positions))).unwrap()
    };
    let needle = || EvaluatedMatch { part: "needle".to_owned(), start: 0, end: 0 };
    assert_eq!(rendered(Some(vec![needle()])), Some("<b>needle</b> pad".to_owned()));
    assert_eq!(rendered(Some(vec![])), Some("needle pad".to_owned()));
    assert_eq!(rendered(None), Some("needle pad".to_owned()));
}

#[test]
fn touching_marks_become_one() {
    assert_eq!(html("a b c d", vec![point("c", 2), point("a", 0)]), "<b>a</b> b <b>c</b> d");
    assert_eq!(html("a b c d", vec![span("x", 0, 2), span("y", 1, 3)]), "<b>a b c d</b>");
    assert_eq!(html("a b", vec![point("a", 0), point("a", 0)]), "<b>a</b> b");
    assert_eq!(html("née über", vec![point("x", 1)]), "née <b>über</b>");
    assert_eq!(html("", vec![point("x", 0)]), "");
    assert_eq!(html("a b", vec![]), "a b");
}

#[test]
fn merged_marks_list_each_query_part_once() {
    let ranges = byte_ranges_for_positions(
        &tokens("a b c"),
        &vec![span("z", 0, 1), point("b", 1), point("z", 1), point("c", 2)],
    )
    .unwrap();
    let merged = merge_overlapping_ranges(ranges);
    assert_eq!(merged.len(), 2);
    assert_eq!(merged[0].bytes, ByteRange { start: 0, end: 3 });
    assert_eq!(merged[0].query_parts, owned(&["b", "z"]));
    assert!(merged[0].has_span);
    assert_eq!(merged[1].bytes, ByteRange { start: 4, end: 5 });
    assert!(!merged[1].has_span);
    // Ranges that only touch are one mark.
    let range = |start: usize, end: usize| HighlightRange {
        bytes: ByteRange { start, end },
        query_parts: vec![],
        has_span: false,
    };
    let merged = merge_overlapping_ranges(vec![range(3, 5), range(0, 3), range(6, 7)]);
    assert_eq!(merged.len(), 2);
    assert_eq!(merged[0].bytes, ByteRange { start: 0, end: 5 });
}

#[test]
fn marks_without_tags_leave_the_text() {
    let text = "one, two — three\nfour";
    for positions in [vec![point("a", 0)], vec![span("a", 1, 2), point("b", 3)]] {
        assert_eq!(highlight_text(&tokens(text), text, "", "", &positions).unwrap(), text);
    }
}

#[test]
fn positions_outside_the_tokens_are_errors() {
    let text = "a b";
    for (start, end) in [(0, 2), (2, 2), (1, 0), (-1, 0), (0, -1)] {
        let position = MatchPosition { part: "x".to_owned(), start, end, field: 0 };
        assert_eq!(
            highlight_text(&tokens(text), text, "<b>", "</b>", &vec![position]),
            Err(HighlightError::InvalidPositionRange { start, end, token_count: 2 })
        );
    }
    assert_eq!(
        HighlightError::InvalidPositionRange { start: -1, end: 7, token_count: 2 }.message(),
        "highlight position range -1..=7 is invalid for a token stream of length 2"
    );
    let transformed = vec![TokenSpan::Source(ByteRange { start: 0, end: 1 }), TokenSpan::Transformed];
    assert_eq!(
        highlight_text(&transformed, text, "<b>", "</b>", &vec![point("x", 0)]),
        Err(HighlightError::TransformedTokenText)
    );
    assert_eq!(
        HighlightError::TransformedTokenText.message(),
        "highlight cannot recover byte offsets when tokenization transforms token text"
    );
    assert_eq!(
        render_highlight(Some(text), "", "", Some((tokens(text), vec![point("x", 9)]))),
        Err("highlight position range 9..=9 is invalid for a token stream of length 2".to_owned())
    );
}

#[test]
fn a_position_past_the_signed_range_wraps() {
    assert_eq!(point("x", 3_000_000_000).start, 3_000_000_000u32 as i32);
    let wrapped = span("x", 1, u32::MAX);
    assert_eq!((wrapped.start, wrapped.end), (1, -1));
}

#[test]
fn a_highlight_call_needs_a_text_and_a_query() {
    assert_eq!(render_highlight(None, "<b>", "</b>", None), Ok(None));
    assert_eq!(
        render_highlight(Some("a"), "<b>", "</b>", None),
        Err("stannum.highlight() requires an explicit query or a matching stannum index scan"
            .to_owned())
    );
}

#[test]
fn text_is_wrapped_by_words() {
    assert_eq!(rewrap_text("one two three four", 9), "one two\nthree\nfour");
    assert_eq!(rewrap_text("  one\t two\n", 7), "one two");
    assert_eq!(rewrap_text("über alles", 10), "über alles");
    assert_eq!(rewrap_text("extraordinary a b", 3), "extraordinary\na b");
    assert_eq!(rewrap_text(" \n ", 5), " \n ");
    let shown = |width: Option<i32>| ansi_text(Some("a  b"), width, true);
    assert_eq!(shown(None), Ok(Some("a  b".to_owned())));
    assert_eq!(shown(Some(80)), Ok(Some("a b".to_owned())));
    assert_eq!(shown(Some(0)), Err("wrap_to must be positive".to_owned()));
    assert_eq!(shown(Some(-3)), Err("wrap_to must be positive".to_owned()));
    assert_eq!(ansi_text(None, Some(0), false), Ok(None));
    assert_eq!(
        ansi_text(Some("a"), Some(0), false),
        Err("stannum.highlight_ansi() requires an explicit query or a matching stannum index scan"
            .to_owned())
    );
}

#[test]
fn tags_name_the_query_parts() {
    assert_eq!(render_begin_tag("<b>", &owned(&["x"])), "<b>");
    assert_eq!(
        render_begin_tag("<b title=\"$QUERY_PART\">", &owned(&["a<b", "c & 'd'"])),
        "<b title=\"a&lt;b; c &amp; &#39;d&#39;\">"
    );
    assert_eq!(
        render_begin_tag("<b class=\"$QUERY_LABEL\" id=$QUERY_LABEL>", &owned(&["Zed!", "a b", "A--B"])),
        "<b class=\"a-b zed\" id=a-b zed>"
    );
    assert_eq!(
        render_begin_tag("$QUERY_PART/$QUERY_LABEL", &owned(&["$QUERY_LABEL"])),
        "query-label/query-label"
    );
}

#[test]
fn labels_are_words_joined_by_hyphens() {
    assert_eq!(query_label("Craft  Beer!"), "craft-beer");
    assert_eq!(query_label("2 pints"), "qpart-2-pints");
    assert_eq!(query_label("!?"), "qpart");
    assert_eq!(query_label(""), "qpart");
    assert_eq!(query_label("jalapeño"), "jalape-o");
}

#[test]
fn html_is_escaped() {
    let mut text = "<a href=\"x\">'&é".to_owned();
    html_escape_in_place(&mut text);
    assert_eq!(text, "&lt;a href=&quot;x&quot;&gt;&#39;&amp;é");
}

#[test]
fn terminal_colors_stop_at_line_breaks() {
    let mut out = "> ".to_owned();
    push_ansi_highlighted_text(&mut out, "[", "ab\r\ncd\n\re");
    assert_eq!(out, "> [ab\x1b[0m\r\n[cd\x1b[0m\n\r[e\x1b[0m");
    let mut out = String::new();
    push_ansi_highlighted_text(&mut out, "[", "\n");
    assert_eq!(out, "\n");
}

#[test]
fn named_colors_come_first() {
    assert_eq!(named_ansi_color("  Red ", false), Some("\x1b[1;31m"));
    assert_eq!(named_ansi_color("grey", true), Some("\x1b[97;100m"));
    assert_eq!(named_ansi_color("beer", true), None);
    assert_eq!(render_ansi_begin(&owned(&["beer", "BLUE", "red"]), true), "\x1b[97;44m");
    let text = "red beer";
    assert_eq!(
        highlight_text_ansi(&tokens(text), text, &vec![point("red", 0)]).unwrap(),
        "\x1b[1;31mred\x1b[0m beer"
    );
}

#[test]
fn other_parts_are_colored_by_their_hash() {
    for parts in [
        owned(&["beer"]),
        owned(&["craft", "beer"]),
        owned(&["craf", "tbeer"]),
        owned(&["a", "b", "c"]),
        owned(&["a phrase of more than sixteen bytes", ""]),
        owned(&[]),
    ] {
        let mut hasher = FxHasher::default();
        for part in &parts {
            part.hash(&mut hasher);
            0xff_u8.hash(&mut hasher);
        }
        for has_span in [false, true] {
            assert_eq!(render_ansi_begin(&parts, has_span), palette_color(hasher.finish(), has_span));
        }
    }
    assert_eq!(palette_color(0, false), "\x1b[1;31m");
    assert_eq!(palette_color(7, true), "\x1b[97;104m");
    assert_eq!(palette_color(14, false), "\x1b[1;91m");
}

fn text(value: &str) -> Expression {
    Expression::TextConstant(Some(value.to_owned()))
}

fn variable() -> Expression {
    Expression::Variable { varno: 1, level: 0, result: ResultType::Text }
}

fn call(query: Expression) -> HighlightCall {
    HighlightCall {
        function: highlight_function("highlight"),
        arguments: 4,
        query,
        document: variable(),
        on_table: true,
        clauses: vec![],
        bound: vec![],
        binds_to: Some(7),
    }
}

#[test]
fn a_highlight_call_is_bound_to_the_index_of_its_clause() {
    let bound = call(text("beer")).highlight_support().unwrap();
    assert_eq!(bound.function, HighlightFunction::Html);
    assert_eq!(bound.index, 7);
    assert!(matches!(
        bound.operand,
        BoundOperand::Constant(indexed_query { index: 7, query }) if query == "beer"
    ));
    let mut implicit = call(Expression::TextConstant(None));
    assert!(implicit.highlight_support().is_none());
    implicit.clauses = vec![text("a"), text("b OR c")];
    implicit.bound = vec![None, Some(9)];
    let bound = implicit.highlight_support().unwrap();
    assert!(matches!(
        bound.operand,
        BoundOperand::Constant(indexed_query { index: 9, query }) if query == "(a) OR (b OR c)"
    ));
    implicit.clauses = vec![variable(), text("b")];
    assert!(matches!(implicit.highlight_support().unwrap().operand, BoundOperand::Call));
}

#[test]
fn other_highlight_calls_are_left_alone() {
    let unbound = HighlightCall { binds_to: None, ..call(text("beer")) };
    assert!(unbound.highlight_support().is_none());
    let short = HighlightCall { arguments: 3, ..call(text("beer")) };
    assert!(short.highlight_support().is_none());
    let other = HighlightCall { function: highlight_function("upper"), ..call(text("beer")) };
    assert!(other.highlight_support().is_none());
    let constant = HighlightCall { document: text("document"), ..call(text("beer")) };
    assert!(constant.highlight_support().is_none());
    let view = HighlightCall { on_table: false, ..call(text("beer")) };
    assert!(view.highlight_support().is_none());
    assert!(call(Expression::OtherConstant).highlight_support().is_none());
}

#[test]
fn bound_overloads_take_an_indexed_query() {
    let (text, integer, query) = (ArgumentType::Text, ArgumentType::Integer, ArgumentType::IndexedQuery);
    let html = highlight_function("highlight").unwrap();
    let ansi = highlight_function("highlight_ansi").unwrap();
    assert_eq!((html.query_position(), ansi.query_position()), (3, 2));
    assert_eq!(html.bound_overload(false), vec![text, text, text, query]);
    assert_eq!(html.bound_overload(true), vec![text, text, text, query, text]);
    assert_eq!(ansi.bound_overload(false), vec![text, integer, query]);
}

#[test]
fn constant_queries_are_combined() {
    let bound = Expression::BoundConstant(Some(indexed_query { index: 3, query: "b".to_owned() }));
    assert!(matches!(
        combined_query(&vec![text("a"), bound]),
        CombinedQuery::Text(text) if text == "(a) OR (b)"
    ));
    assert!(matches!(combined_query(&vec![text("a")]), CombinedQuery::First));
    assert!(matches!(combined_query(&vec![text("a"), variable()]), CombinedQuery::First));
}

#[test]
fn columns_name_fields() {
    let plan = Some(FieldMeta {
        names: owned(&["title", "body"]),
        weights: vec![2.0f32.to_bits(), 1.0f32.to_bits()],
    });
    assert_eq!(column_field_name(&vec![4, 2], 2, &plan), Some("body".to_owned()));
    assert_eq!(column_field_name(&vec![4, 2], 3, &plan), None);
    assert_eq!(column_field_name(&vec![4, 0], 0, &plan), None);
    assert_eq!(column_field_name(&vec![4, 2, 9], 9, &plan), None);
    assert_eq!(column_field_name(&vec![4], 4, &None), None);
    assert_eq!(unknown_field("body", &plan), None);
    assert_eq!(
        unknown_field("author", &plan),
        Some("stannum.highlight(): unknown field 'author'".to_owned())
    );
    assert!(unknown_field("body", &None).is_some());
}

#[test]
fn wrapped_lines_fit_and_stay_as_they_are() {
    let text = "a fine  pint of\textraordinary stout, poured by hand\nin Łódź";
    for width in 1..60 {
        let wrapped = rewrap_text(text, width);
        let lines: Vec<&str> = wrapped.split('\n').collect();
        for (i, line) in lines.iter().enumerate() {
            assert!(line.chars().count() <= width || !line.contains(' '), "{line}");
            if let Some(next) = lines.get(i + 1) {
                let word = next.split(' ').next().unwrap();
                assert!(line.chars().count() + 1 + word.chars().count() > width, "{line}|{next}");
            }
        }
        assert_eq!(rewrap_text(&wrapped, width), wrapped);
        let words = |text: &str| -> Vec<String> {
            text.split_whitespace().map(str::to_owned).collect()
        };
        assert_eq!(words(&wrapped), words(text));
    }
}

#[test]
fn a_label_is_its_own_label() {
    for part in ["", "!?", "--a--", "2 pints", "Craft  Beer!", "jalapeño", "q-", "-9", "A1 b2"] {
        let label = query_label(part);
        assert_eq!(query_label(&label), label);
        assert!(label.starts_with(|c: char| c.is_ascii_lowercase()), "{label}");
        assert!(!label.ends_with('-') && !label.contains("--"), "{label}");
        assert!(
            label.chars().all(|c| c == '-' || c.is_ascii_lowercase() || c.is_ascii_digit()),
            "{label}"
        );
    }
}
