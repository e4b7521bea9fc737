//! The record that makes an interrupted download resumable.
use vstd::prelude::*;
use crate::text::push_str;

verus! {

/// What is kept beside a file being downloaded: where it comes from, its size,
/// how it is cut into chunks, and which chunks are already on disk.
pub struct MetaData {
    pub url: String,
    pub file: String,
    pub size: u64,
    pub chunk_size: u64,
    pub chunks: usize,
    pub progress: Vec<bool>,
}

/// The path of the metadata file kept beside `path`.
pub open spec fn meta_path_of(path: Seq<char>) -> Seq<char> {
    path + ".meta.json"@
}

/// The path of the metadata file kept beside `path`: `path` followed by `.meta.json`.
pub fn meta_path(path: &str) -> (r: String)
    ensures
        r@ == meta_path_of(path@),
{
    let mut out = path.to_owned();
    push_str(&mut out, ".meta.json");
    out
}

} // verus!
