//! MIME type by libmagic.
use vstd::prelude::*;

use crate::strutil::starts_with;
use crate::tagger::{dep_views, key_texts, tag, tag_views, tagger_info, Dependency, TaggerInfo};

verus! {

/// Why libmagic's answer was refused.
pub enum MimeError {
    /// libmagic reported that it could not open the file rather than failing.
    FileMissing,
}

/// libmagic answers `cannot open ...` for a missing file instead of failing.
pub open spec fn reports_missing(answer: Seq<char>) -> bool {
    "cannot open"@.len() <= answer.len() && answer.take("cannot open"@.len() as int) == "cannot open"@
}

/// The tag for libmagic's MIME answer, refusing its "cannot open" answer.
pub fn mime_tags(answer: String) -> (r: Result<Vec<(String, String)>, MimeError>)
    ensures
        r is Err <==> reports_missing(answer@),
        r matches Ok(tags) ==> tag_views(tags@) == seq![("mime"@, answer@)],
{
    if starts_with(answer.as_str(), "cannot open") {
        return Err(MimeError::FileMissing);
    }
    let mut tags: Vec<(String, String)> = Vec::new();
    tags.push(tag("mime", answer));
    assert(tag_views(tags@) =~= seq![("mime"@, answer@)]);
    Ok(tags)
}

/// What this tagger reports for `--tagd-info`: the `mime` key, no
/// dependencies.
pub fn info(version: &str) -> (i: TaggerInfo)
    ensures
        i.name@ == "std-mime"@,
        i.version@ == version@,
        dep_views(i.dependencies@) == Seq::<(Seq<char>, Option<Seq<char>>)>::empty(),
        key_texts(i.keys@) == seq!["mime"@],
{
    let deps: Vec<Dependency> = Vec::new();
    assert(dep_views(deps@) =~= Seq::<(Seq<char>, Option<Seq<char>>)>::empty());
    let i = tagger_info("std-mime", version, deps, &["mime"]);
    assert(key_texts(i.keys@) =~= seq!["mime"@]);
    i
}

} // verus!
