//! Steps through what a search has found: from one document to its
//! neighbour, and to the page of a document that shows the most matches.

use crate::document_text_sources::{DocumentTextSourceHitCount, DocumentTextSourceItem};
use crate::search_result::{
    identifier_of, items_view, optional_identifier, DocumentIdentifier, IdentifierModel, ItemModel,
    SearchResultDocuments,
};
use crate::text::same_text;
use vstd::prelude::*;
use vstd::string::StringSliceAdditionalSpecFns;
use vstd::utf8::{encode_utf8, is_char_boundary};

verus! {

/// Where a step from the selected document leads.
#[derive(Debug, Clone, PartialEq, Eq)]
pub enum DocumentStep {
    /// Nowhere: the selection stays as it is.
    Stay,
    /// To another document of the same page.
    Select(DocumentIdentifier),
    /// To a document of another page.
    SelectOnPage { document: DocumentIdentifier, page: u64 },
}

/// A step as plain values.
pub ghost enum StepModel {
    Stay,
    Select(IdentifierModel),
    SelectOnPage { document: IdentifierModel, page: nat },
}

impl View for DocumentStep {
    type V = StepModel;

    open spec fn view(&self) -> StepModel {
        match self {
            DocumentStep::Stay => StepModel::Stay,
            DocumentStep::Select(id) => StepModel::Select(id@),
            DocumentStep::SelectOnPage { document, page } => StepModel::SelectOnPage {
                document: document@,
                page: *page as nat,
            },
        }
    }
}

/// The place of the first of `items` that is the document `id`, or the
/// number of items where none is.
pub open spec fn place_of(items: Seq<ItemModel>, id: IdentifierModel) -> int
    decreases items.len(),
{
    if items.len() == 0 {
        0
    } else if identifier_of(items[0]) == id {
        0
    } else {
        1 + place_of(items.skip(1), id)
    }
}

/// The step to the document before the selected one: the one before it
/// on the page, or from the first of the page to the previous neighbour on
/// the page before. No step where nothing is selected, where the selected
/// document is not on the page, or where nothing comes before it.
pub open spec fn previous_step(
    items: Seq<ItemModel>,
    prev: Option<IdentifierModel>,
    page_number: nat,
    chosen: Option<IdentifierModel>,
) -> StepModel {
    match chosen {
        None => StepModel::Stay,
        Some(id) => {
            let place = place_of(items, id);
            if place >= items.len() {
                StepModel::Stay
            } else if place > 0 {
                StepModel::Select(identifier_of(items[place - 1]))
            } else {
                match prev {
                    Some(neighbour) => if page_number > 0 {
                        StepModel::SelectOnPage {
                            document: neighbour,
                            page: (page_number - 1) as nat,
                        }
                    } else {
                        StepModel::Stay
                    },
                    None => StepModel::Stay,
                }
            }
        },
    }
}

/// The step to the document behind the selected one: the one behind it on
/// the page, or from the last of the page to the next neighbour on the
/// page behind. No step where nothing is selected, where the selected
/// document is not on the page, or where nothing comes behind it; none
/// either from the last page that a page number can name.
pub open spec fn next_step(
    items: Seq<ItemModel>,
    next: Option<IdentifierModel>,
    page_number: nat,
    chosen: Option<IdentifierModel>,
) -> StepModel {
    match chosen {
        None => StepModel::Stay,
        Some(id) => {
            let place = place_of(items, id);
            if place >= items.len() {
                StepModel::Stay
            } else if place + 1 < items.len() {
                StepModel::Select(identifier_of(items[place + 1]))
            } else {
                match next {
                    Some(neighbour) => if page_number < u64::MAX {
                        StepModel::SelectOnPage { document: neighbour, page: page_number + 1 }
                    } else {
                        StepModel::Stay
                    },
                    None => StepModel::Stay,
                }
            }
        },
    }
}

/// Skipping documents that are not the one looked for does not change the
/// place that is found.
proof fn lemma_place_of(items: Seq<ItemModel>, id: IdentifierModel, k: int)
    requires
        0 <= k <= items.len(),
        forall|i: int| 0 <= i < k ==> identifier_of(#[trigger] items[i]) != id,
    ensures
        place_of(items, id) == k + place_of(items.skip(k), id),
    decreases k,
{
    if k == 0 {
        assert(items.skip(0) =~= items);
    } else {
        lemma_place_of(items.skip(1), id, k - 1);
        assert(items.skip(1).skip(k - 1) =~= items.skip(k));
    }
}

/// The place of the document `id` on `page`.
fn find_document(page: &SearchResultDocuments, id: &DocumentIdentifier) -> (place: usize)
    ensures
        place == place_of(items_view(page.results@), id@),
        place <= page.results@.len(),
{
    let ghost items = items_view(page.results@);
    let mut k: usize = 0;
    while k < page.results.len()
        invariant
            k <= page.results.len(),
            items == items_view(page.results@),
            forall|i: int| 0 <= i < k ==> identifier_of(#[trigger] items[i]) != id@,
        decreases page.results.len() - k,
    {
        let item = &page.results[k];
        assert(items[k as int] == item@);
        if same_text(item.collection_dataset.as_str(), id.collection_dataset.as_str())
            && same_text(item.file_hash.as_str(), id.file_hash.as_str()) {
            proof {
                lemma_place_of(items, id@, k as int);
                assert(items.skip(k as int)[0] == items[k as int]);
            }
            return k;
        }
        k += 1;
    }
    proof {
        lemma_place_of(items, id@, k as int);
        assert(items.skip(k as int).len() == 0);
    }
    k
}

/// A copy of `id`.
fn copy_identifier(id: &DocumentIdentifier) -> (copy: DocumentIdentifier)
    ensures
        copy@ == id@,
{
    DocumentIdentifier {
        collection_dataset: id.collection_dataset.clone(),
        file_hash: id.file_hash.clone(),
    }
}

/// The step from the selected document to the one before it.
pub fn previous_document(page: &SearchResultDocuments, chosen: &Option<DocumentIdentifier>) -> (step:
    DocumentStep)
    ensures
        step@ == previous_step(
            items_view(page.results@),
            optional_identifier(page.prev_hash),
            page.page_number as nat,
            optional_identifier(*chosen),
        ),
{
    let id = match chosen {
        Some(id) => id,
        None => {
            return DocumentStep::Stay;
        },
    };
    let place = find_document(page, id);
    if place >= page.results.len() {
        return DocumentStep::Stay;
    }
    if place > 0 {
        assert(items_view(page.results@)[place - 1] == page.results@[place - 1]@);
        return DocumentStep::Select(page.results[place - 1].document_identifier());
    }
    match &page.prev_hash {
        Some(neighbour) => {
            if page.page_number > 0 {
                DocumentStep::SelectOnPage {
                    document: copy_identifier(neighbour),
                    page: page.page_number - 1,
                }
            } else {
                DocumentStep::Stay
            }
        },
        None => DocumentStep::Stay,
    }
}

/// The step from the selected document to the one behind it.
pub fn next_document(page: &SearchResultDocuments, chosen: &Option<DocumentIdentifier>) -> (step:
    DocumentStep)
    ensures
        step@ == next_step(
            items_view(page.results@),
            optional_identifier(page.next_hash),
            page.page_number as nat,
            optional_identifier(*chosen),
        ),
{
    let id = match chosen {
        Some(id) => id,
        None => {
            return DocumentStep::Stay;
        },
    };
    let place = find_document(page, id);
    if place >= page.results.len() {
        return DocumentStep::Stay;
    }
    if place + 1 < page.results.len() {
        assert(items_view(page.results@)[place + 1] == page.results@[place + 1]@);
        return DocumentStep::Select(page.results[place + 1].document_identifier());
    }
    match &page.next_hash {
        Some(neighbour) => {
            if page.page_number < u64::MAX {
                DocumentStep::SelectOnPage {
                    document: copy_identifier(neighbour),
                    page: page.page_number + 1,
                }
            } else {
                DocumentStep::Stay
            }
        },
        None => DocumentStep::Stay,
    }
}

/// The place of the first of the first `n` counts that is the greatest
/// among them.
pub open spec fn best_place(hits: Seq<DocumentTextSourceHitCount>, n: int) -> int
    decreases n,
{
    if n <= 1 || n > hits.len() {
        0
    } else {
        let before = best_place(hits, n - 1);
        if hits[n - 1].hit_count > hits[before].hit_count {
            n - 1
        } else {
            before
        }
    }
}

/// The text layer and page to open for a document: the page with the most
/// matches, of several such the first; where no page has matches to
/// count, the first page of the first text layer; none where the document
/// has no text layer either.
pub open spec fn best_page(
    hits: Seq<DocumentTextSourceHitCount>,
    sources: Seq<DocumentTextSourceItem>,
) -> Option<(Seq<char>, u32)> {
    if hits.len() > 0 {
        let best = hits[best_place(hits, hits.len() as int)];
        Some((best.extracted_by@, best.page_id))
    } else if sources.len() > 0 {
        Some((sources[0].extracted_by@, sources[0].min_page))
    } else {
        None
    }
}

/// A text layer and page as plain values.
pub open spec fn page_view(page: Option<(String, u32)>) -> Option<(Seq<char>, u32)> {
    match page {
        Some(p) => Some((p.0@, p.1)),
        None => None,
    }
}

/// Chooses the text layer and page to open for a document.
pub fn best_text_page(
    hits: &Vec<DocumentTextSourceHitCount>,
    sources: &Vec<DocumentTextSourceItem>,
) -> (chosen: Option<(String, u32)>)
    ensures
        page_view(chosen) == best_page(hits@, sources@),
{
    if hits.len() == 0 {
        if sources.len() == 0 {
            return None;
        }
        return Some((sources[0].extracted_by.clone(), sources[0].min_page));
    }
    let mut best: usize = 0;
    let mut k: usize = 1;
    while k < hits.len()
        invariant
            1 <= k <= hits.len(),
            best < k,
            best == best_place(hits@, k as int),
        decreases hits.len() - k,
    {
        if hits[k].hit_count > hits[best].hit_count {
            best = k;
        }
        k += 1;
    }
    Some((hits[best].extracted_by.clone(), hits[best].page_id))
}

/// The chosen page holds the greatest count, and every page before it
/// holds less.
pub proof fn lemma_best_place(hits: Seq<DocumentTextSourceHitCount>, n: int)
    requires
        1 <= n <= hits.len(),
    ensures
        0 <= best_place(hits, n) < n,
        forall|i: int|
            0 <= i < n ==> (#[trigger] hits[i]).hit_count <= hits[best_place(hits, n)].hit_count,
        forall|i: int|
            0 <= i < best_place(hits, n) ==> (#[trigger] hits[i]).hit_count < hits[best_place(
                hits,
                n,
            )].hit_count,
    decreases n,
{
    if n > 1 {
        lemma_best_place(hits, n - 1);
    }
}

/// The number of bytes that `text` takes, as its length is measured.
pub open spec fn byte_len(text: Seq<char>) -> usize {
    encode_utf8(text).len() as usize
}

/// Shortens a title for a narrow place: one of more than 20 bytes is cut
/// behind its 18th byte and gets three dots; a shorter one stays whole.
///
/// A title can only be cut between two characters, so where it is longer
/// than 20 bytes its 18th byte must end a character.
pub fn title_ellipsis(title: String) -> (short: String)
    requires
        byte_len(title@) > 20 ==> is_char_boundary(encode_utf8(title@), 18),
    ensures
        byte_len(title@) <= 20 ==> short == title,
        byte_len(title@) > 20 ==> {
            &&& short@.len() >= 3
            &&& short@.skip(short@.len() - 3) == "..."@
            &&& encode_utf8(short@.take(short@.len() - 3)) == encode_utf8(title@).subrange(0, 18)
        },
{
    let whole = title.as_str();
    assert(whole.spec_bytes() == encode_utf8(title@));
    if whole.len() > 20 {
        let (head, _tail) = whole.split_at(18);
        let mut short = String::from_str(head);
        short.append("...");
        proof {
            reveal_strlit("...");
            assert(head.spec_bytes() == encode_utf8(head@));
            assert(encode_utf8(head@) == encode_utf8(title@).subrange(0, 18));
            assert(short@.skip(short@.len() - 3) =~= "..."@);
            assert(short@.take(short@.len() - 3) =~= head@);
        }
        short
    } else {
        title
    }
}

} // verus!
