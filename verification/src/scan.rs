//! Which files in the tagger directory are taggers.
use vstd::prelude::*;

use crate::strutil::{contains_char, starts_with};

verus! {

/// A name with the `tagger-` prefix.
pub open spec fn has_tagger_prefix(name: Seq<char>) -> bool {
    "tagger-"@.len() <= name.len() && name.take("tagger-"@.len() as int) == "tagger-"@
}

/// Whether a directory entry is a candidate for the registry: its name starts
/// with `tagger-`.
pub fn is_tagger_name(name: &str) -> (b: bool)
    ensures
        b == has_tagger_prefix(name@),
{
    starts_with(name, "tagger-")
}

/// The stricter filter of the plain scan: the name starts with `tagger-` and
/// holds no `.`, which keeps out build artefacts such as `tagger-x.d`.
pub fn is_tagger_file_name(name: &str) -> (b: bool)
    ensures
        b == (has_tagger_prefix(name@) && !name@.contains('.')),
{
    starts_with(name, "tagger-") && !contains_char(name, '.')
}

/// A file mode with any execute bit set.
pub open spec fn mode_executable(mode: Option<u32>) -> bool {
    match mode {
        Some(m) => m & 0o111 != 0,
        None => false,
    }
}

/// Whether a file with this mode (`None` when its metadata could not be read)
/// is executable by anyone.
pub fn is_executable(mode: Option<u32>) -> (b: bool)
    ensures
        b == mode_executable(mode),
{
    match mode {
        Some(m) => m & 0o111 != 0,
        None => false,
    }
}

/// A file is a tagger when it is executable and answers `--tagd-info`
/// successfully.
pub fn is_tagger(mode: Option<u32>, answers_info: bool) -> (b: bool)
    ensures
        b == (mode_executable(mode) && answers_info),
{
    is_executable(mode) && answers_info
}

/// A tagger found by the plain scan.
pub struct Tagger {
    pub path: String,
}

impl Tagger {
    /// The tagger at `path`, if the file is one: executable and answering
    /// `--tagd-info`.
    pub fn new(path: String, mode: Option<u32>, answers_info: bool) -> (r: Option<Tagger>)
        ensures
            r is Some <==> (mode_executable(mode) && answers_info),
            r matches Some(t) ==> t.path@ == path@,
    {
        if is_tagger(mode, answers_info) {
            Some(Tagger { path })
        } else {
            None
        }
    }
}

} // verus!
