//! The socket query protocol: one request per line, one response per line.
use vstd::prelude::*;

verus! {

/// A request from a client to the daemon.
pub enum Request {
    /// The files carrying `key: value` as tagged by `tagger`.
    FilesByQualifiedTag { tagger: String, key: String, value: String },
}

/// A response from the daemon: files alongside the mtime each had when it
/// was tagged.
pub struct FilesResponse {
    pub files: Vec<FileMatch>,
}

/// One file of a response.
pub struct FileMatch {
    pub path: String,
    pub mtime_at_tag: i64,
}

} // verus!
