use hoover_search::highlight::HighlightTextSpan;
use hoover_search::pagination::{
    assemble_page, item_from_row, page_window, search_for_results_page, total_hit_count,
    PageWindow, SearchForResultsHitCountResponse, SearchForResultsResponse,
};
use hoover_search::search_query::SearchQuery;
use hoover_search::search_result::{DocumentIdentifier, SearchResultDocumentItem};

fn row(n: u32) -> SearchForResultsResponse {
    SearchForResultsResponse {
        collection_dataset: "col".to_string(),
        file_hash: format!("hash{}", n),
        page_ids: "1".to_string(),
        filenames: format!("file{}.txt\nother{}.txt", n, n),
        highlight_text: format!("doc <hoover4_strong>{}</hoover4_strong>", n),
        highlight_filenames: String::new(),
        file_types: vec![],
    }
}

fn id(n: u32) -> DocumentIdentifier {
    DocumentIdentifier { collection_dataset: "col".to_string(), file_hash: format!("hash{}", n) }
}

fn rows(from: u32, to: u32) -> Vec<SearchForResultsResponse> {
    (from..=to).map(row).collect()
}

#[test]
fn first_page_of_six_matches_has_five_items_and_a_next_neighbour() {
    let window = page_window(0, 5).unwrap();
    assert_eq!(window, PageWindow { offset: 0, limit: 6, drop_first: false });
    let page = search_for_results_page(SearchQuery::new("q".to_string()), &rows(1, 6), 0, 5);
    assert_eq!(page.results.len(), 5);
    assert_eq!(page.prev_hash, None);
    assert_eq!(page.next_hash, Some(id(6)));
    assert_eq!(page.page_number, 0);
    let hashes: Vec<String> = page.results.iter().map(|r| r.file_hash.clone()).collect();
    assert_eq!(hashes, vec!["hash1", "hash2", "hash3", "hash4", "hash5"]);
    let places: Vec<u64> = page.results.iter().map(|r| r.result_index_in_page).collect();
    assert_eq!(places, vec![0, 1, 2, 3, 4]);
}

#[test]
fn second_page_of_six_matches_has_one_item_and_a_previous_neighbour() {
    let window = page_window(1, 5).unwrap();
    assert_eq!(window, PageWindow { offset: 4, limit: 7, drop_first: true });
    let page = search_for_results_page(SearchQuery::new("q".to_string()), &rows(5, 6), 1, 5);
    assert_eq!(page.results.len(), 1);
    assert_eq!(page.results[0].file_hash, "hash6");
    assert_eq!(page.results[0].result_index_in_page, 0);
    assert_eq!(page.prev_hash, Some(id(5)));
    assert_eq!(page.next_hash, None);
    assert_eq!(page.page_number, 1);
}

#[test]
fn middle_page_has_both_neighbours() {
    let page = search_for_results_page(SearchQuery::new("q".to_string()), &rows(5, 11), 1, 5);
    assert_eq!(page.results.len(), 5);
    assert_eq!(page.prev_hash, Some(id(5)));
    assert_eq!(page.next_hash, Some(id(11)));
    assert_eq!(page.results[0].file_hash, "hash6");
    assert_eq!(page.results[4].file_hash, "hash10");
    assert_eq!(page.results[4].result_index_in_page, 4);
}

#[test]
fn no_rows_give_an_empty_page_without_neighbours() {
    for page_index in [0u64, 3u64] {
        let page = search_for_results_page(SearchQuery::new("q".to_string()), &vec![], page_index, 5);
        assert!(page.results.is_empty());
        assert_eq!(page.prev_hash, None);
        assert_eq!(page.next_hash, None);
        assert_eq!(page.page_number, page_index);
    }
}

#[test]
fn page_never_exceeds_the_page_size() {
    let page = search_for_results_page(SearchQuery::new("q".to_string()), &rows(1, 20), 2, 5);
    assert_eq!(page.results.len(), 5);
    assert_eq!(page.prev_hash, Some(id(1)));
    assert_eq!(page.next_hash, Some(id(7)));
    let page = search_for_results_page(SearchQuery::new("q".to_string()), &rows(1, 3), 0, 0);
    assert!(page.results.is_empty());
    assert_eq!(page.next_hash, Some(id(1)));
}

#[test]
fn window_is_exact_at_the_edges() {
    assert_eq!(page_window(7, 10), Some(PageWindow { offset: 69, limit: 12, drop_first: true }));
    assert_eq!(page_window(0, u64::MAX), None);
    assert_eq!(
        page_window(0, u64::MAX - 1),
        Some(PageWindow { offset: 0, limit: u64::MAX, drop_first: false })
    );
    assert_eq!(page_window(1, u64::MAX - 1), None);
    assert_eq!(page_window(3, 0), None);
    assert_eq!(page_window(u64::MAX, 2), None);
    assert_eq!(
        page_window(1 << 32, 1 << 32),
        Some(PageWindow { offset: u64::MAX, limit: (1 << 32) + 2, drop_first: true })
    );
    assert_eq!(page_window((1 << 32) + 1, 1 << 32), None);
}

#[test]
fn row_becomes_an_item_with_title_and_spans() {
    let item = item_from_row(&row(3));
    assert_eq!(
        item,
        SearchResultDocumentItem {
            title: "file3.txt".to_string(),
            highlight_text_spans: vec![
                HighlightTextSpan { text: "doc ".to_string(), is_highlighted: false, index: 0 },
                HighlightTextSpan { text: "3".to_string(), is_highlighted: true, index: 0 },
            ],
            highlight_filenames_spans: vec![HighlightTextSpan {
                text: "file3.txt".to_string(),
                is_highlighted: false,
                index: 0
            }],
            file_hash: "hash3".to_string(),
            collection_dataset: "col".to_string(),
            result_index_in_page: 0,
        }
    );
    assert_eq!(item.document_identifier(), id(3));
}

#[test]
fn last_file_name_with_emphasis_is_the_one_shown() {
    let mut r = row(1);
    r.filenames = "plain.txt\na <strong>b</strong>.txt\nc <strong>d</strong>.txt\nlast.txt".to_string();
    let item = item_from_row(&r);
    assert_eq!(item.title, "plain.txt");
    assert_eq!(item.highlight_filenames_spans.len(), 1);
    assert_eq!(item.highlight_filenames_spans[0].text, "c <strong>d</strong>.txt");
    r.filenames = String::new();
    let item = item_from_row(&r);
    assert_eq!(item.title, "");
    assert!(item.highlight_filenames_spans.is_empty());
}

#[test]
fn assembling_moves_the_query_into_the_page() {
    let mut query = SearchQuery::new("kept".to_string());
    query.collection_datasets.push("a".to_string());
    let items: Vec<SearchResultDocumentItem> = rows(1, 2).iter().map(item_from_row).collect();
    let page = assemble_page(query.clone(), items, 0, 5);
    assert_eq!(page.query, query);
    assert_eq!(page.results.len(), 2);
    assert_eq!(page.next_hash, None);
}

#[test]
fn hit_count_is_the_first_row_or_zero() {
    assert_eq!(total_hit_count(&vec![]), 0);
    let counted = vec![
        SearchForResultsHitCountResponse { total_count: 42 },
        SearchForResultsHitCountResponse { total_count: 7 },
    ];
    assert_eq!(total_hit_count(&counted), 42);
}
