//! Where the bytes of a document are kept.

use crate::text::{from_chars, replace_all, replaced, to_chars};
use vstd::prelude::*;

verus! {

/// Where one blob is stored and how large it is.
#[derive(Debug, Clone, PartialEq, Eq)]
pub struct BlobInfo {
    pub blob_size_bytes: u64,
    pub s3_path: String,
    pub stored_in_clickhouse: bool,
}

/// The bytes of a blob that is stored in the database.
#[derive(Debug, Clone, PartialEq, Eq)]
pub struct BlobValue {
    pub blob_value: Vec<u8>,
    pub blob_length: u64,
}

/// The store to read a blob from.
#[derive(Debug, Clone, PartialEq, Eq)]
pub enum BlobSource {
    /// The database holds the bytes.
    Database,
    /// The object store holds the bytes under this key.
    ObjectStore { key: String },
}

/// The prefix that names the bucket in the path of a stored object.
pub open spec fn bucket_prefix() -> Seq<char> {
    "s3://hoover4-blobs/"@
}

/// The key of an object inside its bucket: its path without the prefix
/// that names the bucket.
pub open spec fn object_key(s3_path: Seq<char>) -> Seq<char> {
    replaced(s3_path, bucket_prefix(), Seq::empty())
}

/// The store to read the blob `info` from, as its stored flag says.
pub fn blob_source(info: &BlobInfo) -> (source: BlobSource)
    ensures
        info.stored_in_clickhouse ==> source == BlobSource::Database,
        !info.stored_in_clickhouse ==> (source matches BlobSource::ObjectStore { key } && key@
            == object_key(info.s3_path@)),
{
    if info.stored_in_clickhouse {
        BlobSource::Database
    } else {
        let nothing: Vec<char> = Vec::new();
        assert(nothing@ =~= Seq::<char>::empty());
        let key = replace_all(
            &to_chars(info.s3_path.as_str()),
            &to_chars("s3://hoover4-blobs/"),
            &nothing,
        );
        BlobSource::ObjectStore { key: from_chars(&key) }
    }
}

/// The part of `path` behind its last `/`, or all of it where it has none.
pub open spec fn file_name_of(path: Seq<char>) -> Seq<char>
    decreases path.len(),
{
    if path.len() == 0 {
        Seq::empty()
    } else if path.last() == '/' {
        Seq::empty()
    } else {
        file_name_of(path.drop_last()).push(path.last())
    }
}

/// The file name at the end of `path`.
pub fn blob_file_name(path: &str) -> (name: String)
    ensures
        name@ == file_name_of(path@),
{
    let chars = to_chars(path);
    let mut start: usize = chars.len();
    proof {
        assert(chars@.subrange(start as int, chars.len() as int) =~= Seq::<char>::empty());
    }
    while start > 0 && chars[start - 1] != '/'
        invariant
            start <= chars.len(),
            forall|k: int| start <= k < chars.len() ==> chars@[k] != '/',
        decreases start,
    {
        start -= 1;
    }
    let mut name: Vec<char> = Vec::new();
    let mut k: usize = start;
    proof {
        assert(chars@.take(start as int).len() == 0 || chars@.take(start as int).last() == '/');
    }
    while k < chars.len()
        invariant
            start <= k <= chars.len(),
            start == 0 || chars@[start - 1] == '/',
            forall|j: int| start <= j < chars.len() ==> chars@[j] != '/',
            name@ == file_name_of(chars@.take(k as int)),
        decreases chars.len() - k,
    {
        proof {
            assert(chars@.take(k + 1).drop_last() =~= chars@.take(k as int));
        }
        name.push(chars[k]);
        k += 1;
    }
    proof {
        assert(chars@.take(chars.len() as int) =~= chars@);
    }
    from_chars(&name)
}

} // verus!
