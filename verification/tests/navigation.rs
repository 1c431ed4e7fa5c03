use hoover_search::document_text_sources::{DocumentTextSourceHitCount, DocumentTextSourceItem};
use hoover_search::navigation::{
    best_text_page, next_document, previous_document, title_ellipsis, DocumentStep,
};
use hoover_search::search_query::SearchQuery;
use hoover_search::search_result::{
    DocumentIdentifier, SearchResultDocumentItem, SearchResultDocuments,
};

fn id(n: u32) -> DocumentIdentifier {
    DocumentIdentifier { collection_dataset: "col".to_string(), file_hash: format!("hash{}", n) }
}

fn item(n: u32) -> SearchResultDocumentItem {
    SearchResultDocumentItem {
        title: format!("doc {}", n),
        highlight_text_spans: vec![],
        highlight_filenames_spans: vec![],
        file_hash: format!("hash{}", n),
        collection_dataset: "col".to_string(),
        result_index_in_page: 0,
    }
}

fn page(items: Vec<u32>, prev: Option<u32>, next: Option<u32>, page_number: u64) -> SearchResultDocuments {
    SearchResultDocuments {
        query: SearchQuery::new("q".to_string()),
        results: items.into_iter().map(item).collect(),
        prev_hash: prev.map(id),
        next_hash: next.map(id),
        page_number,
    }
}

#[test]
fn steps_inside_a_page_select_the_neighbour_on_it() {
    let p = page(vec![6, 7, 8], Some(5), Some(9), 1);
    assert_eq!(previous_document(&p, &Some(id(7))), DocumentStep::Select(id(6)));
    assert_eq!(previous_document(&p, &Some(id(8))), DocumentStep::Select(id(7)));
    assert_eq!(next_document(&p, &Some(id(6))), DocumentStep::Select(id(7)));
    assert_eq!(next_document(&p, &Some(id(7))), DocumentStep::Select(id(8)));
}

#[test]
fn steps_over_the_edge_of_a_page_lead_to_the_neighbouring_page() {
    let p = page(vec![6, 7, 8], Some(5), Some(9), 1);
    assert_eq!(
        previous_document(&p, &Some(id(6))),
        DocumentStep::SelectOnPage { document: id(5), page: 0 }
    );
    assert_eq!(
        next_document(&p, &Some(id(8))),
        DocumentStep::SelectOnPage { document: id(9), page: 2 }
    );
}

#[test]
fn steps_stay_where_nothing_leads_on() {
    let first = page(vec![1, 2], None, None, 0);
    assert_eq!(previous_document(&first, &Some(id(1))), DocumentStep::Stay);
    assert_eq!(next_document(&first, &Some(id(2))), DocumentStep::Stay);
    assert_eq!(previous_document(&first, &None), DocumentStep::Stay);
    assert_eq!(next_document(&first, &None), DocumentStep::Stay);
    assert_eq!(previous_document(&first, &Some(id(9))), DocumentStep::Stay);
    assert_eq!(next_document(&first, &Some(id(9))), DocumentStep::Stay);
    let odd = page(vec![1], Some(0), Some(2), 0);
    assert_eq!(previous_document(&odd, &Some(id(1))), DocumentStep::Stay);
    let last = page(vec![1], Some(0), Some(2), u64::MAX);
    assert_eq!(next_document(&last, &Some(id(1))), DocumentStep::Stay);
    assert_eq!(
        previous_document(&last, &Some(id(1))),
        DocumentStep::SelectOnPage { document: id(0), page: u64::MAX - 1 }
    );
    let empty = page(vec![], Some(0), Some(2), 3);
    assert_eq!(next_document(&empty, &Some(id(1))), DocumentStep::Stay);
}

#[test]
fn first_of_equal_documents_is_the_selected_one() {
    let p = page(vec![4, 5, 4, 6], None, None, 0);
    assert_eq!(next_document(&p, &Some(id(4))), DocumentStep::Select(id(5)));
    assert_eq!(previous_document(&p, &Some(id(4))), DocumentStep::Stay);
}

fn count(layer: &str, page_id: u32, hit_count: u64) -> DocumentTextSourceHitCount {
    DocumentTextSourceHitCount { extracted_by: layer.to_string(), page_id, hit_count }
}

#[test]
fn page_with_the_most_matches_is_opened() {
    let sources = vec![DocumentTextSourceItem {
        extracted_by: "raw".to_string(),
        min_page: 2,
        max_page: 9,
    }];
    let hits = vec![count("ocr", 1, 3), count("raw", 4, 7), count("ocr", 5, 7), count("raw", 6, 0)];
    assert_eq!(best_text_page(&hits, &sources), Some(("raw".to_string(), 4)));
    assert_eq!(best_text_page(&vec![count("ocr", 8, 0)], &sources), Some(("ocr".to_string(), 8)));
    assert_eq!(best_text_page(&vec![], &sources), Some(("raw".to_string(), 2)));
    assert_eq!(best_text_page(&vec![], &vec![]), None);
    assert_eq!(best_text_page(&hits, &vec![]), Some(("raw".to_string(), 4)));
}

#[test]
fn long_titles_are_cut_and_short_ones_kept() {
    assert_eq!(title_ellipsis("short".to_string()), "short");
    assert_eq!(title_ellipsis("exactly twenty bytes".to_string()), "exactly twenty bytes");
    assert_eq!(
        title_ellipsis("a title of more than twenty bytes".to_string()),
        "a title of more th..."
    );
    assert_eq!(title_ellipsis("0123456789012345678901".to_string()), "012345678901234567...");
    let accented = "\u{e9}\u{e9}\u{e9}\u{e9}\u{e9}\u{e9}\u{e9}\u{e9}\u{e9}\u{e9}\u{e9}".to_string();
    assert_eq!(
        title_ellipsis(accented),
        "\u{e9}\u{e9}\u{e9}\u{e9}\u{e9}\u{e9}\u{e9}\u{e9}\u{e9}..."
    );
}
