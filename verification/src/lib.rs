//! Search-result shaping for a full-text document search service.
//!
//! The crate compiles structured queries into backend query text, pages
//! through ranked results with stable neighbours, splits highlighted
//! snippets into typed spans and reconciles facet counts with the caller's
//! selection. Every function carries a contract that Verus checks; the few
//! calls into other crates stand behind small functions whose contracts are
//! stated and not proved, and say so.

pub mod cache;
pub mod doc_viewer_state;
pub mod document_metadata;
pub mod document_text_sources;
pub mod download_document;
pub mod highlight;
pub mod html_preview;
pub mod manticore_utils;
pub mod navigation;
pub mod order;
pub mod pagination;
pub mod search_facets;
pub mod search_query;
pub mod search_result;
pub mod search_sql;
pub mod text;
pub mod url_param;
