//! Where the raw metadata of a document is kept.

use vstd::prelude::*;

verus! {

/// A metadata table: its name, the column that holds the document hash,
/// and the columns whose text is itself structured data.
#[derive(Debug, Clone, PartialEq, Eq, Hash, PartialOrd, Ord)]
pub struct DocumentMetadataTableInfo {
    pub table_name: String,
    pub hash_column_name: String,
    pub json_columns: Vec<String>,
}

impl DocumentMetadataTableInfo {
    /// A table without structured columns.
    pub fn new(table_name: &str, hash_column_name: &str) -> (info: DocumentMetadataTableInfo)
        ensures
            info.table_name@ == table_name@,
            info.hash_column_name@ == hash_column_name@,
            info.json_columns@.len() == 0,
    {
        DocumentMetadataTableInfo {
            table_name: String::from_str(table_name),
            hash_column_name: String::from_str(hash_column_name),
            json_columns: Vec::new(),
        }
    }

    /// A table with the structured columns `json_columns`.
    pub fn new3(table_name: &str, hash_column_name: &str, json_columns: Vec<String>) -> (info:
        DocumentMetadataTableInfo)
        ensures
            info.table_name@ == table_name@,
            info.hash_column_name@ == hash_column_name@,
            info.json_columns == json_columns,
    {
        DocumentMetadataTableInfo {
            table_name: String::from_str(table_name),
            hash_column_name: String::from_str(hash_column_name),
            json_columns,
        }
    }
}

} // verus!
