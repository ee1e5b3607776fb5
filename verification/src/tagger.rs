//! The data exchanged between the daemon and its taggers.
use vstd::prelude::*;

use crate::glob::{glob_matches, wildcard_match};
use crate::strutil::{same_text, strings};

verus! {

/// Metadata a tagger reports for `--tagd-info`: the keys it provides and the
/// keys it depends on.
pub struct TaggerInfo {
    pub name: String,
    pub version: String,
    /// Keys that must be produced before this tagger runs, each optionally
    /// filtered by a glob on the upstream value.
    pub dependencies: Vec<Dependency>,
    /// Keys that this tagger provides.
    pub keys: Vec<String>,
}

/// A tag key a tagger depends on. The key must be produced by an earlier
/// tagger, and if `matches` is set the upstream value must match that glob for
/// this tagger to run.
pub struct Dependency {
    pub key: String,
    /// Glob (`*`, `?`) the upstream value must match. `None` accepts any value.
    pub matches: Option<String>,
}

impl Dependency {
    /// Whether an upstream `value` passes this dependency's filter.
    pub open spec fn admits(&self, value: Seq<char>) -> bool {
        match self.matches {
            Some(pattern) => glob_matches(pattern@, value),
            None => true,
        }
    }

    /// Depend on a key with no value filter.
    pub fn on(key: &str) -> (d: Dependency)
        ensures
            d.key@ == key@,
            d.matches.is_none(),
    {
        Dependency { key: key.to_owned(), matches: None }
    }

    /// Depend on a key whose value must match `pattern` (glob: `*`, `?`).
    pub fn matching(key: &str, pattern: &str) -> (d: Dependency)
        ensures
            d.key@ == key@,
            d.matches matches Some(p) && p@ == pattern@,
    {
        Dependency { key: key.to_owned(), matches: Some(pattern.to_owned()) }
    }

    /// Whether an upstream `value` satisfies this dependency's filter. A
    /// dependency with no filter accepts any value.
    pub fn accepts(&self, value: &str) -> (b: bool)
        ensures
            b == self.admits(value@),
            self.matches.is_none() ==> b,
    {
        match &self.matches {
            Some(pattern) => wildcard_match(pattern.as_str(), value),
            None => true,
        }
    }
}

/// The characters of each key.
pub open spec fn key_texts(keys: Seq<String>) -> Seq<Seq<char>> {
    keys.map_values(|k: String| k@)
}

/// Each dependency's key and filter, as characters.
pub open spec fn dep_views(deps: Seq<Dependency>) -> Seq<(Seq<char>, Option<Seq<char>>)> {
    deps.map_values(|d: Dependency| (d.key@, opt_view(d.matches)))
}

/// Tagger metadata from its name, version, dependencies and provided keys.
pub fn tagger_info(name: &str, version: &str, dependencies: Vec<Dependency>, keys: &[&str]) -> (i:
    TaggerInfo)
    ensures
        i.name@ == name@,
        i.version@ == version@,
        dep_views(i.dependencies@) == dep_views(dependencies@),
        key_texts(i.keys@) == keys@.map_values(|k: &str| k@),
{
    let owned = strings(keys);
    let i = TaggerInfo { name: name.to_owned(), version: version.to_owned(), dependencies, keys: owned };
    assert(key_texts(i.keys@) =~= keys@.map_values(|k: &str| k@));
    i
}

/// The characters of each key and value of a list of tags.
pub open spec fn tag_views(tags: Seq<(String, String)>) -> Seq<(Seq<char>, Seq<char>)> {
    tags.map_values(|t: (String, String)| (t.0@, t.1@))
}

/// A `(key, value)` tag.
pub fn tag(key: &str, value: String) -> (t: (String, String))
    ensures
        t.0@ == key@,
        t.1@ == value@,
{
    (key.to_owned(), value)
}

/// The characters of an optional string.
pub open spec fn opt_view(o: Option<String>) -> Option<Seq<char>> {
    match o {
        Some(s) => Some(s@),
        None => None,
    }
}

/// The tag `(key, value)` when there is a value, nothing otherwise.
pub open spec fn opt_tag(key: Seq<char>, value: Option<Seq<char>>) -> Seq<(Seq<char>, Seq<char>)> {
    match value {
        Some(v) => seq![(key, v)],
        None => Seq::empty(),
    }
}

/// Appends `(key, value)` when there is a value.
pub fn push_some(tags: &mut Vec<(String, String)>, key: &str, value: Option<String>)
    ensures
        tag_views(final(tags)@) == tag_views(old(tags)@) + opt_tag(key@, opt_view(value)),
{
    let ghost before = tags@;
    if let Some(v) = value {
        tags.push(tag(key, v));
        assert(tag_views(tags@) =~= tag_views(before) + opt_tag(key@, opt_view(value)));
    } else {
        assert(tag_views(tags@) =~= tag_views(before) + opt_tag(key@, opt_view(value)));
    }
}

/// The unit of work sent to a tagger: the file to tag and the resolved values
/// of the keys it declared as dependencies, one entry per key.
pub struct TagRequest {
    pub path: String,
    pub deps: Vec<(String, String)>,
}

impl TagRequest {
    /// The resolved value of a dependency key, if present: the value of the
    /// first entry with that key.
    pub fn dep(&self, key: &str) -> (r: Option<&str>)
        ensures
            r is None <==> forall|j: int| 0 <= j < self.deps@.len() ==> #[trigger] self.deps@[j].0@ != key@,
            r matches Some(v) ==> exists|j: int|
                0 <= j < self.deps@.len() && #[trigger] self.deps@[j].0@ == key@ && v@ == self.deps@[j].1@
                    && forall|j2: int| 0 <= j2 < j ==> self.deps@[j2].0@ != key@,
    {
        let mut j: usize = 0;
        while j < self.deps.len()
            invariant
                j <= self.deps@.len(),
                forall|j2: int| 0 <= j2 < j ==> #[trigger] self.deps@[j2].0@ != key@,
            decreases self.deps.len() - j,
        {
            if same_text(self.deps[j].0.as_str(), key) {
                return Some(self.deps[j].1.as_str());
            }
            j += 1;
        }
        None
    }
}

/// The result of tagging one file.
pub struct TaggerResponse {
    pub tagger: String,
    pub tags: Vec<(String, String)>,
    pub mtime_at_tag: i64,
}

/// A tagger's unique logic, for each tagger to implement. `info` is static
/// and cheap; `new` builds heavy, reusable state exactly once; `tag` runs per
/// file and receives the request, so a tagger can read the path and the
/// resolved values of its declared dependencies. An error carries its message.
pub trait Tagger {
    fn info() -> TaggerInfo where Self: Sized;

    fn new() -> Result<Self, String> where Self: Sized;

    fn tag(&mut self, req: &TagRequest) -> Result<Vec<(String, String)>, String>;
}

/// How a tagger binary was invoked.
pub enum Invocation {
    /// `--tagd-info`: report the tagger's metadata.
    Info,
    /// A bare path argument, for manual runs: a request with no dependency
    /// values.
    Manual(TagRequest),
    /// No argument: the daemon writes a `TagRequest` to stdin.
    Stdin,
    /// Anything else: show usage for the named program.
    Usage(String),
}

/// Decides what a tagger binary was asked to do from its arguments (the
/// program name first).
pub fn invocation(args: &Vec<String>) -> (r: Invocation)
    ensures
        args@.len() == 2 && args@[1]@ == "--tagd-info"@ ==> r is Info,
        args@.len() == 2 && args@[1]@ != "--tagd-info"@ ==> (r matches Invocation::Manual(req)
            && req.path@ == args@[1]@ && req.deps@.len() == 0),
        args@.len() == 1 ==> r is Stdin,
        args@.len() != 1 && args@.len() != 2 ==> (r matches Invocation::Usage(prog) && prog@ == (
        if args@.len() > 0 {
            args@[0]@
        } else {
            "tagger"@
        })),
{
    if args.len() == 2 && same_text(args[1].as_str(), "--tagd-info") {
        Invocation::Info
    } else if args.len() == 2 {
        Invocation::Manual(TagRequest { path: args[1].clone(), deps: Vec::new() })
    } else if args.len() == 1 {
        Invocation::Stdin
    } else if args.len() > 0 {
        Invocation::Usage(args[0].clone())
    } else {
        Invocation::Usage("tagger".to_owned())
    }
}

/// Why tagging a file failed the consistency check.
pub enum TagFileError {
    /// The file's modification time changed while it was being tagged.
    Modified,
}

/// The response for one tagged file, given its modification time before and
/// after tagging: the tags only count if the file did not change meanwhile.
pub fn tag_file_response(name: &str, tags: Vec<(String, String)>, mtime_before: i64, mtime_after: i64) -> (r:
    Result<TaggerResponse, TagFileError>)
    ensures
        r is Err <==> mtime_before != mtime_after,
        r matches Ok(resp) ==> resp.tagger@ == name@ && resp.tags@ == tags@ && resp.mtime_at_tag
            == mtime_before,
{
    if mtime_before != mtime_after {
        return Err(TagFileError::Modified);
    }
    Ok(TaggerResponse { tagger: name.to_owned(), tags, mtime_at_tag: mtime_before })
}

} // verus!
