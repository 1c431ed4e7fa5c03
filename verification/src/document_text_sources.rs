//! The text layers of a document and the matches found in them.

use crate::highlight::{
    close_marker, count_highlighted, decompose_text_into_spans, decomposed, highlighted_count,
    open_marker, spans_view, HighlightTextSpan,
};
use vstd::prelude::*;

verus! {

/// One text layer of a document and the pages it covers.
#[derive(Debug, Clone, PartialEq, Eq)]
pub struct DocumentTextSourceItem {
    pub extracted_by: String,
    pub min_page: u32,
    pub max_page: u32,
}

/// The decomposed text of one page of one text layer.
#[derive(Debug, Clone, PartialEq, Eq)]
pub struct DocumentTextSourceHit {
    pub extracted_by: String,
    pub page_id: u32,
    pub highlight_text_spans: Vec<HighlightTextSpan>,
}

/// The number of matches on one page of one text layer.
#[derive(Debug, Clone, PartialEq, Eq)]
pub struct DocumentTextSourceHitCount {
    pub extracted_by: String,
    pub page_id: u32,
    pub hit_count: u64,
}

/// One row of the backend's answer to a query for the matches inside a
/// document.
#[derive(Debug, Clone, PartialEq, Eq)]
pub struct DocumentHits {
    pub extracted_by: String,
    pub page_id: u32,
    pub text: String,
}

/// The decomposed text of the page that `row` holds.
pub fn document_hit(row: &DocumentHits) -> (hit: DocumentTextSourceHit)
    ensures
        hit.extracted_by@ == row.extracted_by@,
        hit.page_id == row.page_id,
        spans_view(hit.highlight_text_spans@) == decomposed(
            row.text@,
            open_marker(),
            close_marker(),
        ),
{
    DocumentTextSourceHit {
        extracted_by: row.extracted_by.clone(),
        page_id: row.page_id,
        highlight_text_spans: decompose_text_into_spans(row.text.clone()),
    }
}

/// The number of matches on the page that `hit` holds: the number of its
/// highlighted spans.
pub fn document_hit_count(hit: &DocumentTextSourceHit) -> (count: DocumentTextSourceHitCount)
    ensures
        count.extracted_by@ == hit.extracted_by@,
        count.page_id == hit.page_id,
        count.hit_count == highlighted_count(spans_view(hit.highlight_text_spans@)),
{
    DocumentTextSourceHitCount {
        extracted_by: hit.extracted_by.clone(),
        page_id: hit.page_id,
        hit_count: count_highlighted(&hit.highlight_text_spans),
    }
}

/// The decomposed text of each page in `rows`, in their order.
pub fn document_hits(rows: &Vec<DocumentHits>) -> (hits: Vec<DocumentTextSourceHit>)
    ensures
        hits@.len() == rows@.len(),
        forall|i: int|
            0 <= i < rows@.len() ==> {
                &&& (#[trigger] hits@[i]).extracted_by@ == rows@[i].extracted_by@
                &&& hits@[i].page_id == rows@[i].page_id
                &&& spans_view(hits@[i].highlight_text_spans@) == decomposed(
                    rows@[i].text@,
                    open_marker(),
                    close_marker(),
                )
            },
{
    let mut hits: Vec<DocumentTextSourceHit> = Vec::new();
    let mut k: usize = 0;
    while k < rows.len()
        invariant
            k <= rows.len(),
            hits@.len() == k,
            forall|i: int|
                0 <= i < k ==> {
                    &&& (#[trigger] hits@[i]).extracted_by@ == rows@[i].extracted_by@
                    &&& hits@[i].page_id == rows@[i].page_id
                    &&& spans_view(hits@[i].highlight_text_spans@) == decomposed(
                        rows@[i].text@,
                        open_marker(),
                        close_marker(),
                    )
                },
        decreases rows.len() - k,
    {
        hits.push(document_hit(&rows[k]));
        k += 1;
    }
    hits
}

/// The number of matches on each page in `rows`, in their order.
pub fn document_hit_counts(rows: &Vec<DocumentHits>) -> (counts: Vec<DocumentTextSourceHitCount>)
    ensures
        counts@.len() == rows@.len(),
        forall|i: int|
            0 <= i < rows@.len() ==> {
                &&& (#[trigger] counts@[i]).extracted_by@ == rows@[i].extracted_by@
                &&& counts@[i].page_id == rows@[i].page_id
                &&& counts@[i].hit_count == highlighted_count(
                    decomposed(rows@[i].text@, open_marker(), close_marker()),
                )
            },
{
    let mut counts: Vec<DocumentTextSourceHitCount> = Vec::new();
    let mut k: usize = 0;
    while k < rows.len()
        invariant
            k <= rows.len(),
            counts@.len() == k,
            forall|i: int|
                0 <= i < k ==> {
                    &&& (#[trigger] counts@[i]).extracted_by@ == rows@[i].extracted_by@
                    &&& counts@[i].page_id == rows@[i].page_id
                    &&& counts@[i].hit_count == highlighted_count(
                        decomposed(rows@[i].text@, open_marker(), close_marker()),
                    )
                },
        decreases rows.len() - k,
    {
        let hit = document_hit(&rows[k]);
        counts.push(document_hit_count(&hit));
        k += 1;
    }
    counts
}

} // verus!
