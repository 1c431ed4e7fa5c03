//! What the search functions hand back.

use crate::highlight::{spans_view, HighlightTextSpan, SpanModel};
use crate::search_query::{FacetOriginalValue, FacetValue, SearchQuery};
use vstd::prelude::*;

verus! {

/// The key of one version of a document: the collection it belongs to and
/// the hash of its content.
#[derive(Debug, Clone, PartialEq, Eq, Hash, PartialOrd, Ord)]
pub struct DocumentIdentifier {
    pub collection_dataset: String,
    pub file_hash: String,
}

/// A document identifier as plain values.
pub ghost struct IdentifierModel {
    pub collection_dataset: Seq<char>,
    pub file_hash: Seq<char>,
}

impl View for DocumentIdentifier {
    type V = IdentifierModel;

    open spec fn view(&self) -> IdentifierModel {
        IdentifierModel {
            collection_dataset: self.collection_dataset@,
            file_hash: self.file_hash@,
        }
    }
}

/// One document of a result page.
#[derive(Debug, Clone, PartialEq, Eq)]
pub struct SearchResultDocumentItem {
    pub title: String,
    pub highlight_text_spans: Vec<HighlightTextSpan>,
    pub highlight_filenames_spans: Vec<HighlightTextSpan>,
    pub file_hash: String,
    pub collection_dataset: String,
    pub result_index_in_page: u64,
}

/// A result document as plain values.
pub ghost struct ItemModel {
    pub title: Seq<char>,
    pub highlight_text_spans: Seq<SpanModel>,
    pub highlight_filenames_spans: Seq<SpanModel>,
    pub file_hash: Seq<char>,
    pub collection_dataset: Seq<char>,
    pub result_index_in_page: nat,
}

impl View for SearchResultDocumentItem {
    type V = ItemModel;

    open spec fn view(&self) -> ItemModel {
        ItemModel {
            title: self.title@,
            highlight_text_spans: spans_view(self.highlight_text_spans@),
            highlight_filenames_spans: spans_view(self.highlight_filenames_spans@),
            file_hash: self.file_hash@,
            collection_dataset: self.collection_dataset@,
            result_index_in_page: self.result_index_in_page as nat,
        }
    }
}

/// The identifier of the document that the model `item` stands for.
pub open spec fn identifier_of(item: ItemModel) -> IdentifierModel {
    IdentifierModel { collection_dataset: item.collection_dataset, file_hash: item.file_hash }
}

impl SearchResultDocumentItem {
    /// The identifier of this document.
    pub fn document_identifier(&self) -> (id: DocumentIdentifier)
        ensures
            id@ == identifier_of(self@),
    {
        DocumentIdentifier {
            collection_dataset: self.collection_dataset.clone(),
            file_hash: self.file_hash.clone(),
        }
    }
}

/// One page of result documents with the neighbours of the page.
#[derive(Debug, Clone, PartialEq, Eq)]
pub struct SearchResultDocuments {
    pub query: SearchQuery,
    pub results: Vec<SearchResultDocumentItem>,
    pub prev_hash: Option<DocumentIdentifier>,
    pub next_hash: Option<DocumentIdentifier>,
    pub page_number: u64,
}

/// The models of a list of result documents.
pub open spec fn items_view(items: Seq<SearchResultDocumentItem>) -> Seq<ItemModel> {
    items.map_values(|item: SearchResultDocumentItem| item@)
}

/// An optional identifier as plain values.
pub open spec fn optional_identifier(id: Option<DocumentIdentifier>) -> Option<IdentifierModel> {
    match id {
        Some(id) => Some(id@),
        None => None,
    }
}

/// One value of a facet with the number of documents that have it.
#[derive(Debug, Clone, PartialEq, Eq)]
pub struct SearchResultFacetItem {
    pub display_string: String,
    pub original_value: FacetOriginalValue,
    pub count: u64,
}

/// A facet entry as plain values.
pub ghost struct FacetItemModel {
    pub display_string: Seq<char>,
    pub original_value: FacetValue,
    pub count: nat,
}

impl View for SearchResultFacetItem {
    type V = FacetItemModel;

    open spec fn view(&self) -> FacetItemModel {
        FacetItemModel {
            display_string: self.display_string@,
            original_value: self.original_value@,
            count: self.count as nat,
        }
    }
}

/// The models of a list of facet entries.
pub open spec fn facet_items_view(items: Seq<SearchResultFacetItem>) -> Seq<FacetItemModel> {
    items.map_values(|item: SearchResultFacetItem| item@)
}

/// The values of one facet field with their document counts.
#[derive(Debug, Clone, PartialEq, Eq)]
pub struct SearchResultFacets {
    pub query: SearchQuery,
    pub facet_field: String,
    pub facet_values: Vec<SearchResultFacetItem>,
}

} // verus!
