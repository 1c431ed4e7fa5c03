//! Result pages with their neighbours.
//!
//! A page is fetched together with the row before it and the row after it,
//! so that the neighbours a caller is told of are the ones that the backend
//! ranked beside the page in that same answer.

use crate::highlight::{close_marker, decompose_text_into_spans, decomposed, open_marker};
use crate::search_query::SearchQuery;
use crate::search_result::{
    identifier_of, items_view, optional_identifier, DocumentIdentifier, IdentifierModel, ItemModel,
    SearchResultDocumentItem, SearchResultDocuments,
};
use crate::text::{
    contains, from_chars, last_line_with, lines_of, lines_view, split_lines, to_chars,
};
use vstd::prelude::*;

verus! {

/// The rows to ask the backend for.
#[derive(Debug, Clone, Copy, PartialEq, Eq)]
pub struct PageWindow {
    pub offset: u64,
    pub limit: u64,
    pub drop_first: bool,
}

/// The first row to fetch for page `page_index`: the row before the page,
/// but for the first page, which has none.
pub open spec fn window_offset(page_index: nat, page_size: nat) -> int {
    if page_index > 0 {
        page_index * page_size - 1
    } else {
        0
    }
}

/// The number of rows to fetch for page `page_index`: the page and one row
/// behind it, and one row before it but for the first page.
pub open spec fn window_limit(page_index: nat, page_size: nat) -> nat {
    if page_index > 0 {
        page_size + 2
    } else {
        page_size + 1
    }
}

/// Whether the window of page `page_index` can be written in 64 bits.
pub open spec fn window_fits(page_index: nat, page_size: nat) -> bool {
    &&& 0 <= window_offset(page_index, page_size) <= u64::MAX
    &&& window_limit(page_index, page_size) <= u64::MAX
}

/// The rows to fetch for page `page_index` of pages of `page_size` rows, or
/// `None` where offset or limit cannot be written in 64 bits.
pub fn page_window(page_index: u64, page_size: u64) -> (window: Option<PageWindow>)
    ensures
        window is Some <==> window_fits(page_index as nat, page_size as nat),
        window matches Some(w) ==> {
            &&& w.offset == window_offset(page_index as nat, page_size as nat)
            &&& w.limit == window_limit(page_index as nat, page_size as nat)
            &&& w.drop_first == (page_index > 0)
        },
{
    if page_index == 0 {
        return match page_size.checked_add(1) {
            Some(limit) => Some(PageWindow { offset: 0, limit, drop_first: false }),
            None => None,
        };
    }
    if page_size == 0 {
        assert(page_index * page_size == 0) by (nonlinear_arith)
            requires
                page_size == 0,
        ;
        return None;
    }
    assert(page_index * page_size - 1 == (page_index - 1) * page_size + (page_size - 1))
        by (nonlinear_arith);
    assert((page_index - 1) * page_size >= 0) by (nonlinear_arith)
        requires
            page_index >= 1,
            page_size >= 0,
    ;
    let before = page_index - 1;
    match (before.checked_mul(page_size), page_size.checked_add(2)) {
        (Some(base), Some(limit)) => match base.checked_add(page_size - 1) {
            Some(offset) => Some(PageWindow { offset, limit, drop_first: true }),
            None => None,
        },
        _ => None,
    }
}

/// Whether the first of the fetched rows is the row before the page.
pub open spec fn has_previous(items: Seq<ItemModel>, page_index: nat) -> bool {
    page_index > 0 && items.len() > 0
}

/// The fetched rows from the first row of the page on.
pub open spec fn page_body(items: Seq<ItemModel>, page_index: nat) -> Seq<ItemModel> {
    if has_previous(items, page_index) {
        items.skip(1)
    } else {
        items
    }
}

/// The document before the page: the first fetched row of any page but the
/// first page.
pub open spec fn previous_neighbour(items: Seq<ItemModel>, page_index: nat) -> Option<
    IdentifierModel,
> {
    if has_previous(items, page_index) {
        Some(identifier_of(items[0]))
    } else {
        None
    }
}

/// The document behind the page: the row that follows `page_size` rows of
/// the page, where there is one.
pub open spec fn next_neighbour(items: Seq<ItemModel>, page_index: nat, page_size: nat) -> Option<
    IdentifierModel,
> {
    let body = page_body(items, page_index);
    if body.len() > page_size {
        Some(identifier_of(body[page_size as int]))
    } else {
        None
    }
}

/// `item` as the row at place `i` of its page.
pub open spec fn placed(item: ItemModel, i: nat) -> ItemModel {
    ItemModel {
        title: item.title,
        highlight_text_spans: item.highlight_text_spans,
        highlight_filenames_spans: item.highlight_filenames_spans,
        file_hash: item.file_hash,
        collection_dataset: item.collection_dataset,
        result_index_in_page: i,
    }
}

/// The rows of the page: at most `page_size` rows of the body, each
/// numbered by its place.
pub open spec fn page_items(items: Seq<ItemModel>, page_index: nat, page_size: nat) -> Seq<
    ItemModel,
> {
    let body = page_body(items, page_index);
    let kept = if body.len() > page_size {
        body.take(page_size as int)
    } else {
        body
    };
    Seq::new(kept.len(), |i: int| placed(kept[i], i as nat))
}

/// Makes the page `page_index` out of the rows fetched for it.
///
/// On every page but the first the first row is the document before the
/// page: it leaves the list and is named as the previous neighbour. If more
/// than `page_size` rows are left, the row behind the page is named as the
/// next neighbour and the list ends before it. The rows that stay are
/// numbered from zero. No rows give an empty page without neighbours.
pub fn assemble_page(
    query: SearchQuery,
    items: Vec<SearchResultDocumentItem>,
    page_index: u64,
    page_size: u64,
) -> (page: SearchResultDocuments)
    ensures
        page.query == query,
        page.page_number == page_index,
        items_view(page.results@) == page_items(
            items_view(items@),
            page_index as nat,
            page_size as nat,
        ),
        optional_identifier(page.prev_hash) == previous_neighbour(
            items_view(items@),
            page_index as nat,
        ),
        optional_identifier(page.next_hash) == next_neighbour(
            items_view(items@),
            page_index as nat,
            page_size as nat,
        ),
        page.results@.len() <= page_size,
        page_index == 0 ==> page.prev_hash is None,
        items@.len() <= page_size ==> page.next_hash is None,
{
    let ghost given = items_view(items@);
    let ghost body = page_body(given, page_index as nat);
    let mut results = items;
    let mut prev_hash: Option<DocumentIdentifier> = None;
    if page_index > 0 && results.len() > 0 {
        prev_hash = Some(results[0].document_identifier());
        results.remove(0);
    }
    assert(items_view(results@) =~= body);
    let mut next_hash: Option<DocumentIdentifier> = None;
    if results.len() as u64 > page_size {
        let keep = page_size as usize;
        next_hash = Some(results[keep].document_identifier());
        results.truncate(keep);
        assert(items_view(results@) =~= body.take(page_size as int));
    }
    let ghost kept = items_view(results@);
    let mut i: usize = 0;
    while i < results.len()
        invariant
            i <= results.len(),
            results@.len() == kept.len(),
            forall|k: int| 0 <= k < i ==> (#[trigger] results@[k])@ == placed(kept[k], k as nat),
            forall|k: int| i <= k < results.len() ==> (#[trigger] results@[k])@ == kept[k],
        decreases results.len() - i,
    {
        let ghost held = results@;
        results[i].result_index_in_page = i as u64;
        proof {
            assert(forall|k: int| 0 <= k < results.len() && k != i ==> results@[k] == held[k]);
            assert(results@[i as int]@ == placed(held[i as int]@, i as nat));
        }
        i += 1;
    }
    proof {
        assert(items_view(results@) =~= page_items(given, page_index as nat, page_size as nat));
    }
    SearchResultDocuments { query, results, prev_hash, next_hash, page_number: page_index }
}

/// One row of the backend's answer to a results query.
#[derive(Debug, Clone, PartialEq, Eq)]
pub struct SearchForResultsResponse {
    pub collection_dataset: String,
    pub file_hash: String,
    pub page_ids: String,
    pub filenames: String,
    pub highlight_text: String,
    pub highlight_filenames: String,
    pub file_types: Vec<u64>,
}

/// The title of a document: the first of its file names, which stand one
/// to a line.
pub open spec fn document_title(filenames: Seq<char>) -> Seq<char> {
    lines_of(filenames)[0]
}

/// The file name that is shown with its matches: the last one that holds
/// emphasis markup, or the title where none does.
pub open spec fn shown_title(filenames: Seq<char>) -> Seq<char> {
    let lines = lines_of(filenames);
    last_line_with(lines, lines.len() as int, "<strong>"@, lines[0])
}

/// The result document that the row `row` stands for, not yet placed on a
/// page.
pub open spec fn item_of(row: SearchForResultsResponse) -> ItemModel {
    ItemModel {
        title: document_title(row.filenames@),
        highlight_text_spans: decomposed(row.highlight_text@, open_marker(), close_marker()),
        highlight_filenames_spans: decomposed(
            shown_title(row.filenames@),
            open_marker(),
            close_marker(),
        ),
        file_hash: row.file_hash@,
        collection_dataset: row.collection_dataset@,
        result_index_in_page: 0,
    }
}

/// Turns one row of the backend's answer into a result document.
pub fn item_from_row(row: &SearchForResultsResponse) -> (item: SearchResultDocumentItem)
    ensures
        item@ == item_of(*row),
{
    let lines = split_lines(&to_chars(row.filenames.as_str()));
    let emphasis = to_chars("<strong>");
    let ghost all = lines_of(row.filenames@);
    let mut shown: usize = 0;
    let mut found = false;
    let mut k: usize = 0;
    while k < lines.len()
        invariant
            k <= lines.len(),
            lines@.len() >= 1,
            all == lines_view(lines@),
            emphasis@ == "<strong>"@,
            shown < lines.len(),
            !found ==> shown == 0,
            all[shown as int] == last_line_with(all, k as int, "<strong>"@, all[0]),
        decreases lines.len() - k,
    {
        assert(all[k as int] == lines@[k as int]@);
        if contains(&lines[k], &emphasis) {
            shown = k;
            found = true;
        }
        k += 1;
    }
    assert(all[0] == lines@[0]@);
    assert(all[shown as int] == lines@[shown as int]@);
    SearchResultDocumentItem {
        title: from_chars(&lines[0]),
        highlight_text_spans: decompose_text_into_spans(row.highlight_text.clone()),
        highlight_filenames_spans: decompose_text_into_spans(from_chars(&lines[shown])),
        file_hash: row.file_hash.clone(),
        collection_dataset: row.collection_dataset.clone(),
        result_index_in_page: 0,
    }
}

/// The result documents that the rows `rows` stand for.
pub open spec fn items_of(rows: Seq<SearchForResultsResponse>) -> Seq<ItemModel> {
    rows.map_values(|row: SearchForResultsResponse| item_of(row))
}

/// Makes the page `page_index` of `query` out of the rows that the backend
/// returned for the window of that page.
pub fn search_for_results_page(
    query: SearchQuery,
    rows: &Vec<SearchForResultsResponse>,
    page_index: u64,
    page_size: u64,
) -> (page: SearchResultDocuments)
    ensures
        page.query == query,
        page.page_number == page_index,
        items_view(page.results@) == page_items(
            items_of(rows@),
            page_index as nat,
            page_size as nat,
        ),
        optional_identifier(page.prev_hash) == previous_neighbour(
            items_of(rows@),
            page_index as nat,
        ),
        optional_identifier(page.next_hash) == next_neighbour(
            items_of(rows@),
            page_index as nat,
            page_size as nat,
        ),
        page.results@.len() <= page_size,
        page_index == 0 ==> page.prev_hash is None,
        rows@.len() <= page_size ==> page.next_hash is None,
{
    let mut items: Vec<SearchResultDocumentItem> = Vec::new();
    let mut k: usize = 0;
    while k < rows.len()
        invariant
            k <= rows.len(),
            items@.len() == k,
            items_view(items@) == items_of(rows@).take(k as int),
        decreases rows.len() - k,
    {
        let ghost held = items@;
        items.push(item_from_row(&rows[k]));
        proof {
            assert forall|i: int| 0 <= i < k implies items_view(items@)[i] == items_of(rows@)[i] by {
                assert(items@[i] == held[i]);
                assert(items_view(held)[i] == items_of(rows@).take(k as int)[i]);
            }
            assert(items_view(items@) =~= items_of(rows@).take(k + 1));
        }
        k += 1;
    }
    proof {
        assert(items_of(rows@).take(rows.len() as int) =~= items_of(rows@));
    }
    assemble_page(query, items, page_index, page_size)
}

/// One row of the backend's answer to a count query.
#[derive(Debug, Clone, PartialEq, Eq)]
pub struct SearchForResultsHitCountResponse {
    pub total_count: u64,
}

/// The number of documents that match, as the backend counted them: the
/// count of the first row, or zero where it sent no row.
pub fn total_hit_count(rows: &Vec<SearchForResultsHitCountResponse>) -> (count: u64)
    ensures
        count == if rows@.len() == 0 {
            0
        } else {
            rows@[0].total_count
        },
{
    if rows.len() == 0 {
        0
    } else {
        rows[0].total_count
    }
}

} // verus!
