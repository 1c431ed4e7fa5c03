use hoover_search::search_query::{FacetFilters, FacetOriginalValue, SearchQuery};
use hoover_search::search_sql::{
    build_sql_where_clause, search_for_results_hit_count_sql, search_for_results_sql,
    search_mva_facet_sql, search_string_facet_sql, SQL_FROM_CLAUSE, SQL_OPTIONS_CLAUSE,
};
use hoover_search::pagination::PageWindow;

fn text(s: &str) -> FacetOriginalValue {
    FacetOriginalValue::String(s.to_string())
}

#[test]
fn query_without_filters_compiles_to_the_match_clause() {
    let query = SearchQuery::new("hello".to_string());
    assert_eq!(
        build_sql_where_clause(&query),
        "\n        WHERE MATCH('hello', doc_text_pages)\n    "
    );
}

#[test]
fn free_text_is_trimmed_and_its_selectors_escaped() {
    let query = SearchQuery::new("  a@b 'c' \\ ".to_string());
    assert_eq!(
        build_sql_where_clause(&query),
        "\n        WHERE MATCH('a\\\\@b ''c'' \\\\', doc_text_pages)\n    "
    );
}

#[test]
fn filters_compile_to_membership_clauses() {
    let mut query = SearchQuery::new("x".to_string());
    query.facet_filters.insert("file_types", FacetOriginalValue::Int(7));
    query.facet_filters.insert("file_types", FacetOriginalValue::Int(12));
    query.facet_filters.insert("collection_dataset", text("it's"));
    assert_eq!(
        build_sql_where_clause(&query),
        "\n        WHERE MATCH('x', doc_text_pages)\n    \n        AND collection_dataset IN ('it''s')\n        AND file_types IN (7, 12)"
    );
}

#[test]
fn compile_does_not_depend_on_insertion_order() {
    let mut a = SearchQuery::new("q".to_string());
    a.facet_filters.insert("b", FacetOriginalValue::Int(2));
    a.facet_filters.insert("a", text("z"));
    a.facet_filters.insert("b", text("y"));
    a.facet_filters.insert("b", FacetOriginalValue::Int(1));
    a.facet_filters.insert("a", text("x"));
    let mut b = SearchQuery::new("q".to_string());
    b.facet_filters.insert("a", text("x"));
    b.facet_filters.insert("b", FacetOriginalValue::Int(1));
    b.facet_filters.insert("a", text("z"));
    b.facet_filters.insert("b", FacetOriginalValue::Int(2));
    b.facet_filters.insert("b", text("y"));
    b.facet_filters.insert("b", text("y"));
    assert_eq!(a, b);
    assert_eq!(build_sql_where_clause(&a), build_sql_where_clause(&b));
    assert_eq!(
        build_sql_where_clause(&a),
        "\n        WHERE MATCH('q', doc_text_pages)\n    \n        AND a IN ('x', 'z')\n        AND b IN ('y', 1, 2)"
    );
}

#[test]
fn field_without_values_gets_no_clause() {
    let mut query = SearchQuery::new("q".to_string());
    query.facet_filters.select_field("empty");
    query.facet_filters.insert("full", FacetOriginalValue::Int(0));
    assert!(query.facet_filters.contains_field("empty"));
    assert_eq!(
        build_sql_where_clause(&query),
        "\n        WHERE MATCH('q', doc_text_pages)\n    \n        AND full IN (0)"
    );
}

#[test]
fn integers_are_written_in_decimal() {
    let mut query = SearchQuery::new("q".to_string());
    query.facet_filters.insert("n", FacetOriginalValue::Int(u64::MAX));
    query.facet_filters.insert("n", FacetOriginalValue::Int(10));
    query.facet_filters.insert("n", FacetOriginalValue::Int(905));
    assert_eq!(
        build_sql_where_clause(&query),
        "\n        WHERE MATCH('q', doc_text_pages)\n    \n        AND n IN (10, 905, 18446744073709551615)"
    );
}

#[test]
fn filters_keep_fields_and_values_in_order() {
    let mut filters = FacetFilters::new();
    filters.insert("zeta", text("b"));
    filters.insert("alpha", FacetOriginalValue::Int(3));
    filters.insert("zeta", text("a"));
    filters.insert("zeta", text("ab"));
    filters.insert("zeta", FacetOriginalValue::Int(1));
    assert_eq!(filters.fields(), vec!["alpha".to_string(), "zeta".to_string()]);
    assert_eq!(filters.len(), 2);
    assert_eq!(
        filters.values("zeta"),
        vec![text("a"), text("ab"), text("b"), FacetOriginalValue::Int(1)]
    );
    assert_eq!(filters.values("missing"), vec![]);
}

#[test]
fn removing_a_field_drops_its_values() {
    let mut filters = FacetFilters::new();
    filters.insert("a", text("x"));
    filters.insert("b", text("y"));
    filters.remove("a");
    filters.remove("never there");
    assert!(!filters.contains_field("a"));
    assert_eq!(filters.fields(), vec!["b".to_string()]);
}

#[test]
fn value_order_matches_the_derived_order() {
    let values = vec![
        text(""),
        text("a"),
        text("ab"),
        text("b"),
        text("\u{e9}"),
        text("\u{10000}"),
        FacetOriginalValue::Int(0),
        FacetOriginalValue::Int(9),
    ];
    for x in &values {
        for y in &values {
            assert_eq!(x.before(y), x < y);
            assert_eq!(x.same_as(y), x == y);
        }
    }
}

#[test]
fn default_query_is_empty() {
    let query = SearchQuery::default();
    assert_eq!(query.query_string, "");
    assert!(query.collection_datasets.is_empty());
    assert_eq!(query.facet_filters.len(), 0);
}

#[test]
fn results_query_holds_window_and_clauses() {
    let query = SearchQuery::new("fox".to_string());
    let sql = search_for_results_sql(&query, PageWindow { offset: 9, limit: 12, drop_first: true });
    assert!(sql.starts_with("\n    SELECT collection_dataset,\n        file_hash,"));
    assert!(sql.contains("before_match='<hoover4_strong>',"));
    assert!(sql.contains(SQL_FROM_CLAUSE));
    assert!(sql.contains("WHERE MATCH('fox', doc_text_pages)"));
    assert!(sql.ends_with(&format!(
        "\n\n    GROUP BY file_hash\n    LIMIT 12 OFFSET 9\n\n    {}\n    ;",
        SQL_OPTIONS_CLAUSE
    )));
}

#[test]
fn hit_count_query_is_exact() {
    let query = SearchQuery::new("fox".to_string());
    let expected = format!(
        "\n        SELECT count(distinct file_hash) as total_count\n        {}\n        {}\n        {}\n        ;",
        SQL_FROM_CLAUSE,
        build_sql_where_clause(&query),
        SQL_OPTIONS_CLAUSE
    );
    assert_eq!(search_for_results_hit_count_sql(&query), expected);
}

#[test]
fn facet_queries_are_exact() {
    let query = SearchQuery::new("fox".to_string());
    let condition = build_sql_where_clause(&query);
    assert_eq!(
        search_string_facet_sql(&query, "file_types"),
        format!(
            "\n        SELECT file_hash\n        {}\n        {}\n        LIMIT 0\n\n        {}\n        \n        FACET file_types DISTINCT file_hash ORDER BY count(distinct file_hash) DESC LIMIT 21\n        ;",
            SQL_FROM_CLAUSE, condition, SQL_OPTIONS_CLAUSE
        )
    );
    assert_eq!(
        search_mva_facet_sql(&query, "file_types"),
        format!(
            "\n        SELECT groupby() term, count(distinct file_hash) as doc_count\n        {}\n        {}\n\n        GROUP BY file_types\n        ORDER BY doc_count DESC LIMIT 21\n        ;",
            SQL_FROM_CLAUSE, condition
        )
    );
}

#[test]
fn filters_are_gathered_from_entries_in_any_order() {
    let entries = vec![
        ("b".to_string(), vec![FacetOriginalValue::Int(2), text("y")]),
        ("empty".to_string(), vec![]),
        ("a".to_string(), vec![text("z"), text("x"), text("z")]),
        ("b".to_string(), vec![FacetOriginalValue::Int(1), FacetOriginalValue::Int(2)]),
    ];
    let filters = FacetFilters::from_entries(&entries);
    assert!(filters.is_wf());
    assert_eq!(filters.fields(), vec!["a".to_string(), "b".to_string(), "empty".to_string()]);
    assert_eq!(filters.values("a"), vec![text("x"), text("z")]);
    assert_eq!(
        filters.values("b"),
        vec![text("y"), FacetOriginalValue::Int(1), FacetOriginalValue::Int(2)]
    );
    assert_eq!(filters.values("empty"), vec![]);
    let mut by_hand = FacetFilters::new();
    by_hand.insert("a", text("x"));
    by_hand.insert("b", FacetOriginalValue::Int(1));
    by_hand.select_field("empty");
    by_hand.insert("b", text("y"));
    by_hand.insert("a", text("z"));
    by_hand.insert("b", FacetOriginalValue::Int(2));
    assert_eq!(filters, by_hand);
    assert_eq!(FacetFilters::from_entries(&vec![]), FacetFilters::new());
}
