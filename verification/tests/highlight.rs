use hoover_search::highlight::{
    _do_decompose_text_into_spans, count_highlighted, decompose_text_into_spans,
    decompose_with_markers, number_spans, HighlightTextSpan,
};

fn span(text: &str, is_highlighted: bool, index: u64) -> HighlightTextSpan {
    HighlightTextSpan { text: text.to_string(), is_highlighted, index }
}

#[test]
fn quick_fox_splits_into_three_spans() {
    let spans = decompose_with_markers("the <<HIT>>quick<</HIT>> fox", "<<HIT>>", "<</HIT>>");
    assert_eq!(
        spans,
        vec![span("the ", false, 0), span("quick", true, 0), span(" fox", false, 0)]
    );
}

#[test]
fn backend_markers_split_into_three_spans() {
    let spans = decompose_text_into_spans(
        "the <hoover4_strong>quick</hoover4_strong> fox".to_string(),
    );
    assert_eq!(
        spans,
        vec![span("the ", false, 0), span("quick", true, 0), span(" fox", false, 0)]
    );
}

#[test]
fn stray_closer_stays_literal() {
    let spans = decompose_with_markers("oops<</HIT>> end", "<<HIT>>", "<</HIT>>");
    assert_eq!(spans, vec![span("oops<</HIT>> end", false, 0)]);
}

#[test]
fn stray_backend_closer_stays_literal() {
    let spans = decompose_text_into_spans("oops</hoover4_strong> end".to_string());
    assert_eq!(spans, vec![span("oops</hoover4_strong> end", false, 0)]);
}

#[test]
fn stray_closer_before_an_opener_stays_literal() {
    let spans = decompose_with_markers("a<</HIT>>b<<HIT>>c<</HIT>>d", "<<HIT>>", "<</HIT>>");
    assert_eq!(
        spans,
        vec![span("a<</HIT>>b", false, 0), span("c", true, 0), span("d", false, 0)]
    );
}

#[test]
fn empty_and_blank_text_give_no_span() {
    assert_eq!(decompose_text_into_spans(String::new()), vec![]);
    assert_eq!(decompose_text_into_spans("  \n\t ".to_string()), vec![]);
}

#[test]
fn highlighted_spans_are_numbered_from_the_left() {
    let spans = decompose_with_markers("<b>a</b> x <b>c</b> y <b>e</b>", "<b>", "</b>");
    assert_eq!(
        spans,
        vec![
            span("a", true, 0),
            span(" x ", false, 0),
            span("c", true, 1),
            span(" y ", false, 0),
            span("e", true, 2),
        ]
    );
    assert_eq!(count_highlighted(&spans), 3);
}

#[test]
fn adjacent_matches_merge_into_one_span() {
    let spans = decompose_with_markers("<b>a</b><b>b</b>c", "<b>", "</b>");
    assert_eq!(spans, vec![span("ab", true, 0), span("c", false, 0)]);
}

#[test]
fn nested_openers_keep_the_text_highlighted() {
    let spans = decompose_with_markers("x<b>a<b>b</b>c</b>y", "<b>", "</b>");
    assert_eq!(spans, vec![span("x", false, 0), span("abc", true, 0), span("y", false, 0)]);
}

#[test]
fn unclosed_opener_highlights_the_rest() {
    let spans = decompose_with_markers("x<b>rest", "<b>", "</b>");
    assert_eq!(spans, vec![span("x", false, 0), span("rest", true, 0)]);
}

#[test]
fn text_is_cleaned_before_it_is_split() {
    let spans = decompose_with_markers("  a  b \u{fffd}\u{fffd}\u{fffd} c\u{fffd}\u{fffd}  ", "<b>", "</b>");
    assert_eq!(spans, vec![span("a b \u{fffd} c\u{fffd}", false, 0)]);
}

#[test]
fn doubled_spaces_collapse_once_from_the_left() {
    let spans = decompose_with_markers("a    b   c", "<b>", "</b>");
    assert_eq!(spans, vec![span("a  b  c", false, 0)]);
}

#[test]
fn unnumbered_decomposition_leaves_every_index_zero() {
    let text = "<hoover4_strong>a</hoover4_strong> b <hoover4_strong>c</hoover4_strong>";
    let plain = _do_decompose_text_into_spans(text.to_string());
    assert_eq!(plain, vec![span("a", true, 0), span(" b ", false, 0), span("c", true, 0)]);
    let numbered = number_spans(plain);
    assert_eq!(numbered, vec![span("a", true, 0), span(" b ", false, 0), span("c", true, 1)]);
    assert_eq!(numbered, decompose_text_into_spans(text.to_string()));
}

#[test]
fn joined_spans_spell_the_text_without_markers() {
    let spans = decompose_with_markers("one <b>two</b> three <b>four</b>", "<b>", "</b>");
    let joined: String = spans.iter().map(|s| s.text.clone()).collect();
    assert_eq!(joined, "one two three four");
}

#[test]
fn empty_markers_match_nowhere() {
    let spans = decompose_with_markers("plain text", "", "");
    assert_eq!(spans, vec![span("plain text", false, 0)]);
}

#[test]
fn closing_marker_wins_where_both_stand() {
    let spans = decompose_with_markers("a|b|c", "|", "|");
    assert_eq!(spans, vec![span("a|b|c", false, 0)]);
}
