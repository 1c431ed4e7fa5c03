//! What the document viewer shows.

use vstd::prelude::*;

verus! {

/// The state of the document viewer: what is searched for inside the
/// document, and which page of which text layer is open.
#[derive(Debug, Clone, PartialEq, Eq)]
pub struct DocViewerState {
    pub find_query: String,
    pub selected_text_extracted_by: Option<String>,
    pub selected_text_page: u32,
}

impl DocViewerState {
    /// The state of a viewer that was opened with `find_query`: no text
    /// layer chosen yet, on the first page.
    pub fn from_find_query(find_query: String) -> (state: DocViewerState)
        ensures
            state.find_query == find_query,
            state.selected_text_extracted_by is None,
            state.selected_text_page == 0,
    {
        DocViewerState { find_query, selected_text_extracted_by: None, selected_text_page: 0 }
    }
}

} // verus!
