use hoover_search::html_preview::{count_matches, count_page_hits, HtmlToken, TextExtractor};
use hoover_search::search_query::SearchQuery;
use hoover_search::search_sql::{search_facet_sql, search_mva_facet_sql, search_string_facet_sql};

fn chars(s: &str) -> Vec<char> {
    s.chars().collect()
}

#[test]
fn script_and_style_text_does_not_count() {
    let mut extractor = TextExtractor::new();
    let tokens = vec![
        HtmlToken::StartTag("p".to_string()),
        HtmlToken::Characters("Hello".to_string()),
        HtmlToken::StartTag("script".to_string()),
        HtmlToken::Characters("var hello;".to_string()),
        HtmlToken::StartTag("style".to_string()),
        HtmlToken::EndTag("style".to_string()),
        HtmlToken::Characters("still hidden".to_string()),
        HtmlToken::EndTag("script".to_string()),
        HtmlToken::Other,
        HtmlToken::EndTag("script".to_string()),
        HtmlToken::Characters("world".to_string()),
        HtmlToken::EndTag("p".to_string()),
    ];
    for token in &tokens {
        extractor.process_token(token);
    }
    assert_eq!(extractor.text, "Hello world ");
    assert_eq!(extractor.in_skip_tag, 0);
}

#[test]
fn skip_depth_stops_at_its_bounds() {
    let mut extractor = TextExtractor { text: String::new(), in_skip_tag: u32::MAX };
    extractor.process_token(&HtmlToken::StartTag("style".to_string()));
    assert_eq!(extractor.in_skip_tag, u32::MAX);
    extractor.process_token(&HtmlToken::EndTag("style".to_string()));
    assert_eq!(extractor.in_skip_tag, u32::MAX - 1);
    let mut extractor = TextExtractor::new();
    extractor.process_token(&HtmlToken::EndTag("script".to_string()));
    assert_eq!(extractor.in_skip_tag, 0);
}

#[test]
fn matches_are_counted_without_overlap() {
    for (text, pat) in [("aaaa", "aa"), ("aaa", "aa"), ("abcabc", "bc"), ("abc", "abcd"), ("", "a"), ("abc", ""), ("", "")] {
        assert_eq!(
            count_matches(&chars(text), &chars(pat)),
            text.matches(pat).count() as u32,
            "{:?} in {:?}",
            pat,
            text
        );
    }
}

#[test]
fn page_hits_ignore_case() {
    assert_eq!(count_page_hits("The Quick fox, the QUICK dog", "quick"), 2);
    assert_eq!(count_page_hits("\u{c9}t\u{e9} \u{e9}T\u{c9}", "\u{c9}T\u{c9}"), 2);
    assert_eq!(count_page_hits("nothing here", "fox"), 0);
}

#[test]
fn facet_query_takes_the_shape_of_the_field() {
    let query = SearchQuery::new("fox".to_string());
    assert_eq!(search_facet_sql(&query, "tags", true), search_mva_facet_sql(&query, "tags"));
    assert_eq!(search_facet_sql(&query, "tags", false), search_string_facet_sql(&query, "tags"));
}
