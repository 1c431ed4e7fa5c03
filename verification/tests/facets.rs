use hoover_search::manticore_utils::{
    aggregation_buckets, RawSarchResult, RawSearchResultAggregation,
    RawSearchResultAggregationBucket, RawSearchResultHits,
};
use hoover_search::search_facets::{
    aggregate_facet, classify, collect_buckets, display_string, facet_less, facet_term_ids,
    missing_display_string, own_display_string, reconcile_selected, sort_facet_items, term_for,
    FacetError, RawFacetBucket, RawFacetKey,
};
use hoover_search::search_sql::{
    build_sql_where_clause, facet_request, search_mva_facet_sql, search_string_facet_sql,
};
use hoover_search::search_query::{FacetOriginalValue, SearchQuery};
use hoover_search::search_result::SearchResultFacetItem;

fn text(s: &str) -> FacetOriginalValue {
    FacetOriginalValue::String(s.to_string())
}

fn bucket_text(s: &str, n: u64) -> RawFacetBucket {
    RawFacetBucket { key: RawFacetKey::Text(s.to_string()), doc_count: n }
}

fn bucket_int(v: u64, n: u64) -> RawFacetBucket {
    RawFacetBucket { key: RawFacetKey::Number(Some(v)), doc_count: n }
}

fn item(display: &str, value: FacetOriginalValue, count: u64) -> SearchResultFacetItem {
    SearchResultFacetItem { display_string: display.to_string(), original_value: value, count }
}

#[test]
fn selected_value_that_is_no_longer_reported_is_kept_with_count_zero() {
    let mut query = SearchQuery::new("q".to_string());
    query.facet_filters.insert("F", text("V"));
    query.facet_filters.insert("G", text("stays"));
    let rows = vec![bucket_text("a", 9), bucket_text("b", 4)];
    let facets = aggregate_facet(query, "F", &rows, None).unwrap();
    assert_eq!(facets.facet_field, "F");
    assert_eq!(
        facets.facet_values,
        vec![
            item("a", text("a"), 9),
            item("b", text("b"), 4),
            item("Missing: String(\"V\")", text("V"), 0)
        ]
    );
    let entries_for_v = facets.facet_values.iter().filter(|i| i.original_value == text("V")).count();
    assert_eq!(entries_for_v, 1);
    assert!(!facets.query.facet_filters.contains_field("F"));
    assert_eq!(facets.query.facet_filters.values("G"), vec![text("stays")]);
    assert_eq!(facets.query.query_string, "q");
}

#[test]
fn selected_value_that_is_reported_keeps_its_count() {
    let mut query = SearchQuery::new("q".to_string());
    query.facet_filters.insert("F", text("b"));
    let rows = vec![bucket_text("a", 9), bucket_text("b", 4)];
    let facets = aggregate_facet(query, "F", &rows, None).unwrap();
    assert_eq!(facets.facet_values, vec![item("a", text("a"), 9), item("b", text("b"), 4)]);
}

#[test]
fn no_buckets_still_list_what_is_selected() {
    let mut query = SearchQuery::new("q".to_string());
    query.facet_filters.insert("F", FacetOriginalValue::Int(12));
    query.facet_filters.insert("F", text("x"));
    let facets = aggregate_facet(query, "F", &vec![], None).unwrap();
    assert_eq!(
        facets.facet_values,
        vec![
            item("Missing: Int(12)", FacetOriginalValue::Int(12), 0),
            item("Missing: String(\"x\")", text("x"), 0)
        ]
    );
}

#[test]
fn duplicate_values_keep_the_highest_count() {
    let rows = vec![bucket_text("a", 3), bucket_text("b", 8), bucket_text("a", 5), bucket_text("a", 1)];
    let facets = aggregate_facet(SearchQuery::new(String::new()), "F", &rows, None).unwrap();
    assert_eq!(facets.facet_values, vec![item("b", text("b"), 8), item("a", text("a"), 5)]);
}

#[test]
fn entries_are_sorted_by_count_then_display_then_value() {
    let rows = vec![
        bucket_text("pear", 2),
        bucket_text("apple", 2),
        bucket_int(5, 7),
        bucket_text("5", 7),
        bucket_text("zebra", 10),
    ];
    let facets = aggregate_facet(SearchQuery::new(String::new()), "F", &rows, None).unwrap();
    assert_eq!(
        facets.facet_values,
        vec![
            item("zebra", text("zebra"), 10),
            item("5", text("5"), 7),
            item("5", FacetOriginalValue::Int(5), 7),
            item("apple", text("apple"), 2),
            item("pear", text("pear"), 2),
        ]
    );
}

#[test]
fn unexpected_value_type_fails_the_facet() {
    let rows = vec![bucket_text("a", 3), RawFacetBucket { key: RawFacetKey::Other, doc_count: 1 }];
    assert_eq!(
        aggregate_facet(SearchQuery::new(String::new()), "F", &rows, None),
        Err(FacetError::UnexpectedValueType)
    );
    assert_eq!(collect_buckets(&rows, None), Err(FacetError::UnexpectedValueType));
}

#[test]
fn numbers_without_integer_value_count_as_zero() {
    assert_eq!(classify(&RawFacetKey::Number(None)), Some(FacetOriginalValue::Int(0)));
    assert_eq!(classify(&RawFacetKey::Number(Some(4))), Some(FacetOriginalValue::Int(4)));
    assert_eq!(classify(&RawFacetKey::Text("t".to_string())), Some(text("t")));
    assert_eq!(classify(&RawFacetKey::Other), None);
    let rows = vec![
        RawFacetBucket { key: RawFacetKey::Number(None), doc_count: 2 },
        bucket_int(0, 6),
    ];
    let facets = aggregate_facet(SearchQuery::new(String::new()), "F", &rows, None).unwrap();
    assert_eq!(facets.facet_values, vec![item("0", FacetOriginalValue::Int(0), 6)]);
}

#[test]
fn term_mapping_names_integers_and_keeps_their_values() {
    let terms = vec![
        (1u64, "old name".to_string()),
        (2u64, "pdf".to_string()),
        (1u64, "email".to_string()),
    ];
    let mut query = SearchQuery::new("q".to_string());
    query.facet_filters.insert("file_types", FacetOriginalValue::Int(2));
    query.facet_filters.insert("file_types", FacetOriginalValue::Int(9));
    let rows = vec![bucket_int(1, 5), bucket_int(3, 5), bucket_int(2, 1)];
    assert_eq!(facet_term_ids(&rows), vec![1, 3, 2]);
    let facets = aggregate_facet(query, "file_types", &rows, Some(&terms)).unwrap();
    assert_eq!(
        facets.facet_values,
        vec![
            item("3", FacetOriginalValue::Int(3), 5),
            item("email", FacetOriginalValue::Int(1), 5),
            item("pdf", FacetOriginalValue::Int(2), 1),
            item("Missing: Int(9)", FacetOriginalValue::Int(9), 0),
        ]
    );
    assert_eq!(term_for(&terms, 1), Some("email".to_string()));
    assert_eq!(term_for(&terms, 7), None);
    assert_eq!(display_string(&FacetOriginalValue::Int(2), Some(&terms)), "pdf");
    assert_eq!(display_string(&FacetOriginalValue::Int(2), None), "2");
    assert_eq!(display_string(&text("2"), Some(&terms)), "2");
    assert_eq!(own_display_string(&FacetOriginalValue::Int(u64::MAX)), "18446744073709551615");
}

#[test]
fn steps_of_the_facet_can_be_taken_one_by_one() {
    let rows = vec![bucket_text("b", 1), bucket_text("a", 1)];
    let mut items = collect_buckets(&rows, None).unwrap();
    assert_eq!(items, vec![item("b", text("b"), 1), item("a", text("a"), 1)]);
    reconcile_selected(&mut items, &vec![text("a"), text("c"), text("c")]);
    assert_eq!(
        items,
        vec![
            item("b", text("b"), 1),
            item("a", text("a"), 1),
            item("Missing: String(\"c\")", text("c"), 0)
        ]
    );
    let sorted = sort_facet_items(items);
    assert_eq!(
        sorted,
        vec![
            item("a", text("a"), 1),
            item("b", text("b"), 1),
            item("Missing: String(\"c\")", text("c"), 0)
        ]
    );
    assert!(facet_less(&sorted[0], &sorted[1]));
    assert!(!facet_less(&sorted[1], &sorted[0]));
    assert!(!facet_less(&sorted[1], &sorted[1]));
}

#[test]
fn buckets_are_read_from_the_named_aggregation() {
    let bucket = |s: &str, dup: u64, n: u64| RawSearchResultAggregationBucket {
        key: RawFacetKey::Text(s.to_string()),
        _duplicate_count: dup,
        doc_count: n,
    };
    let answer: RawSarchResult<u8> = RawSarchResult {
        hits: RawSearchResultHits { hits: vec![], total: 0, total_relation: "eq".to_string() },
        timed_out: false,
        took: 1,
        aggregations: Some(vec![
            ("other".to_string(), RawSearchResultAggregation { buckets: vec![bucket("x", 1, 1)] }),
            (
                "file_types".to_string(),
                RawSearchResultAggregation { buckets: vec![bucket("a", 30, 3), bucket("b", 20, 2)] },
            ),
            ("file_types".to_string(), RawSearchResultAggregation { buckets: vec![] }),
        ]),
    };
    assert_eq!(
        aggregation_buckets(&answer, "file_types"),
        vec![bucket_text("a", 3), bucket_text("b", 2)]
    );
    assert_eq!(aggregation_buckets(&answer, "missing"), vec![]);
    let bare: RawSarchResult<u8> = RawSarchResult { aggregations: None, ..answer };
    assert_eq!(aggregation_buckets(&bare, "file_types"), vec![]);
}

#[test]
fn missing_values_are_shown_in_their_debug_form() {
    assert_eq!(missing_display_string(&FacetOriginalValue::Int(7)), "Missing: Int(7)");
    assert_eq!(missing_display_string(&text("abc")), "Missing: String(\"abc\")");
    assert_eq!(
        missing_display_string(&text("a\"b\\c\n")),
        format!("Missing: {:?}", text("a\"b\\c\n"))
    );
    for value in [text(""), text("\u{e9}\t'"), FacetOriginalValue::Int(0), FacetOriginalValue::Int(u64::MAX)] {
        assert_eq!(missing_display_string(&value), format!("Missing: {:?}", value));
    }
}

#[test]
fn missing_entries_sort_among_the_entries_without_documents() {
    let mut query = SearchQuery::new("q".to_string());
    query.facet_filters.insert("F", text("zz"));
    query.facet_filters.insert("F", FacetOriginalValue::Int(3));
    let rows = vec![bucket_text("Zebra", 0), bucket_text("a", 0), bucket_text("top", 2)];
    let facets = aggregate_facet(query, "F", &rows, None).unwrap();
    assert_eq!(
        facets.facet_values,
        vec![
            item("top", text("top"), 2),
            item("Missing: Int(3)", FacetOriginalValue::Int(3), 0),
            item("Missing: String(\"zz\")", text("zz"), 0),
            item("Zebra", text("Zebra"), 0),
            item("a", text("a"), 0),
        ]
    );
}

#[test]
fn facet_request_compiles_the_query_without_the_filter_on_its_own_field() {
    let mut query = SearchQuery::new("fox".to_string());
    query.collection_datasets.push("c1".to_string());
    query.facet_filters.insert("file_types", FacetOriginalValue::Int(4));
    query.facet_filters.insert("lang", text("en"));
    let mut expected = SearchQuery::new("fox".to_string());
    expected.collection_datasets.push("c1".to_string());
    expected.facet_filters.insert("lang", text("en"));
    for multi_valued in [false, true] {
        let (working, sql) = facet_request(query.clone(), "file_types", multi_valued);
        assert_eq!(working, expected);
        let condition = build_sql_where_clause(&working);
        assert_eq!(
            condition,
            "\n        WHERE MATCH('fox', doc_text_pages)\n    \n        AND lang IN ('en')"
        );
        assert!(sql.contains(&condition));
        assert!(!sql.contains("file_types IN"));
        assert!(sql.contains("LIMIT 21"));
        if multi_valued {
            assert_eq!(sql, search_mva_facet_sql(&expected, "file_types"));
        } else {
            assert_eq!(sql, search_string_facet_sql(&expected, "file_types"));
        }
    }
    let (same, _) = facet_request(expected.clone(), "file_types", false);
    assert_eq!(same, expected);
}
