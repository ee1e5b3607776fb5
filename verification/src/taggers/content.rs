//! File-type identification: what the content is, and whether the file's
//! extension agrees.
use vstd::prelude::*;

use crate::strutil::{
    bool_text, chars_of, eq_ascii_ci, eq_ignore_ascii_case, file_name, file_name_bounds, fmt_bool,
    last_index_of, lemma_last_index_of, lowercase, to_lowercase,
};
use crate::tagger::{dep_views, key_texts, tagger_info, Dependency, TaggerInfo, tag, tag_views};

verus! {

/// `Path::extension`: the part of the file name after its last `.`; `None`
/// without a file name, without a `.`, or when the only `.` leads the name.
pub open spec fn extension(path: Seq<char>) -> Option<Seq<char>> {
    match file_name(path) {
        Some(name) => {
            let d = last_index_of(name, '.');
            if d < 1 {
                None
            } else {
                Some(name.skip(d + 1))
            }
        },
        None => None,
    }
}

/// `yes` or `no` for whether the extension, lower-cased, is one of
/// `expected` ignoring ASCII case; `none` when the path has no extension or
/// nothing is expected.
pub open spec fn ext_match_of(path: Seq<char>, expected: Seq<Seq<char>>) -> Seq<char> {
    match extension(path) {
        Some(ext) => if expected.len() == 0 {
            "none"@
        } else {
            if exists|i: int| 0 <= i < expected.len() && eq_ascii_ci(#[trigger] expected[i], lowercase(ext)) {
                "yes"@
            } else {
                "no"@
            }
        },
        None => "none"@,
    }
}

/// An extension is checked against every expected extension: when the path
/// has an extension and magika expects some, the answer is `yes` exactly when
/// at least one of them, at any position, equals the lower-cased extension
/// ignoring ASCII case, and `no` otherwise; `none` when there is no extension
/// or nothing is expected. Reordering the expected list changes nothing.
pub proof fn lemma_ext_match_any_expected(path: Seq<char>, expected: Seq<Seq<char>>, reordered: Seq<Seq<char>>)
    ensures
        extension(path) is None || expected.len() == 0 ==> ext_match_of(path, expected) == "none"@,
        extension(path) is Some && expected.len() > 0 ==> (ext_match_of(path, expected) == "yes"@ <==> exists|i: int|
            0 <= i < expected.len() && eq_ascii_ci(#[trigger] expected[i], lowercase(extension(path).unwrap()))),
        extension(path) is Some && expected.len() > 0 ==> (ext_match_of(path, expected) == "no"@ <==> forall|i: int|
            0 <= i < expected.len() ==> !eq_ascii_ci(#[trigger] expected[i], lowercase(extension(path).unwrap()))),
        expected.to_multiset() == reordered.to_multiset() ==> ext_match_of(path, expected) == ext_match_of(
            path,
            reordered,
        ),
{
    reveal_strlit("yes");
    reveal_strlit("no");
    reveal_strlit("none");
    assert("yes"@.len() == 3 && "no"@.len() == 2 && "none"@.len() == 4);
    if expected.to_multiset() == reordered.to_multiset() {
        expected.to_multiset_ensures();
        reordered.to_multiset_ensures();
        assert(expected.len() == reordered.len());
        if let Some(e) = extension(path) {
            let le = lowercase(e);
            if exists|i: int| 0 <= i < expected.len() && eq_ascii_ci(#[trigger] expected[i], le) {
                let i = choose|i: int| 0 <= i < expected.len() && eq_ascii_ci(#[trigger] expected[i], le);
                assert(expected.contains(expected[i]));
                assert(expected.to_multiset().count(expected[i]) > 0);
                assert(reordered.to_multiset().count(expected[i]) > 0);
                assert(reordered.contains(expected[i]));
                let k = choose|k: int| 0 <= k < reordered.len() && reordered[k] == expected[i];
                assert(eq_ascii_ci(reordered[k], le));
            }
            if exists|i: int| 0 <= i < reordered.len() && eq_ascii_ci(#[trigger] reordered[i], le) {
                let i = choose|i: int| 0 <= i < reordered.len() && eq_ascii_ci(#[trigger] reordered[i], le);
                assert(reordered.contains(reordered[i]));
                assert(reordered.to_multiset().count(reordered[i]) > 0);
                assert(expected.to_multiset().count(reordered[i]) > 0);
                assert(expected.contains(reordered[i]));
                let k = choose|k: int| 0 <= k < expected.len() && expected[k] == reordered[i];
                assert(eq_ascii_ci(expected[k], le));
            }
        }
    }
}

/// The extension of `path`, as bounds into its characters.
fn extension_bounds(v: &Vec<char>) -> (r: Option<(usize, usize)>)
    ensures
        r is None ==> extension(v@) is None,
        r matches Some(b) ==> b.0 <= b.1 <= v@.len() && extension(v@) == Some(
            v@.subrange(b.0 as int, b.1 as int),
        ),
{
    let (a, b) = match file_name_bounds(v) {
        Some(bounds) => bounds,
        None => {
            return None;
        },
    };
    let ghost name = v@.subrange(a as int, b as int);
    let mut d = b;
    while d > a && v[d - 1] != '.'
        invariant
            a <= d <= b <= v@.len(),
            forall|j: int| d <= j < b ==> v@[j] != '.',
        decreases d,
    {
        d -= 1;
    }
    proof {
        lemma_last_index_of(name, '.', d - a - 1);
    }
    if d - a <= 1 {
        return None;
    }
    assert(name.skip(d - a) =~= v@.subrange(d as int, b as int));
    Some((d, b))
}

/// Whether the file's extension is one magika expects for the content it
/// found: `yes`, `no`, or `none` when the file has no extension or magika
/// lists none for the type.
pub fn ext_match(path: &str, expected: &Vec<String>) -> (r: String)
    ensures
        r@ == ext_match_of(path@, expected@.map_values(|e: String| e@)),
{
    let ghost exp = expected@.map_values(|e: String| e@);
    let v = chars_of(path);
    let (a, b) = match extension_bounds(&v) {
        Some(bounds) => bounds,
        None => {
            return "none".to_owned();
        },
    };
    if expected.len() == 0 {
        return "none".to_owned();
    }
    let ext = to_lowercase(path.substring_char(a, b));
    let mut i: usize = 0;
    while i < expected.len()
        invariant
            i <= expected@.len(),
            exp == expected@.map_values(|e: String| e@),
            v@ == path@,
            a <= b <= v@.len(),
            expected@.len() > 0,
            extension(path@) == Some(v@.subrange(a as int, b as int)),
            ext@ == lowercase(v@.subrange(a as int, b as int)),
            forall|j: int| 0 <= j < i ==> !eq_ascii_ci(#[trigger] exp[j], ext@),
        decreases expected.len() - i,
    {
        if eq_ignore_ascii_case(expected[i].as_str(), ext.as_str()) {
            assert(eq_ascii_ci(exp[i as int], ext@));
            return "yes".to_owned();
        }
        i += 1;
    }
    "no".to_owned()
}

/// The tags of an identified file.
pub open spec fn content_tags_of(
    mime: Seq<char>,
    label: Seq<char>,
    group: Seq<char>,
    is_text: bool,
    ext_match: Seq<char>,
    score: Seq<char>,
) -> Seq<(Seq<char>, Seq<char>)> {
    seq![
        ("mime"@, mime),
        ("label"@, label),
        ("group"@, group),
        ("is-text"@, bool_text(is_text)),
        ("ext-match"@, ext_match),
        ("magika-score"@, score),
    ]
}

/// The tags of an identified file, from magika's content type and its score
/// as text.
pub fn content_tags(
    mime: String,
    label: String,
    group: String,
    is_text: bool,
    ext_match: String,
    score: String,
) -> (tags: Vec<(String, String)>)
    ensures
        tag_views(tags@) == content_tags_of(mime@, label@, group@, is_text, ext_match@, score@),
{
    let mut tags: Vec<(String, String)> = Vec::new();
    tags.push(tag("mime", mime));
    tags.push(tag("label", label));
    tags.push(tag("group", group));
    tags.push(tag("is-text", fmt_bool(is_text)));
    tags.push(tag("ext-match", ext_match));
    tags.push(tag("magika-score", score));
    assert(tag_views(tags@) =~= content_tags_of(mime@, label@, group@, is_text, ext_match@, score@));
    tags
}

/// What this tagger reports for `--tagd-info`.
pub fn info(version: &str) -> (i: TaggerInfo)
    ensures
        i.name@ == "magika"@,
        i.version@ == version@,
        dep_views(i.dependencies@) == Seq::<(Seq<char>, Option<Seq<char>>)>::empty(),
        key_texts(i.keys@) == seq!["mime"@, "label"@, "group"@, "is-text"@, "ext-match"@, "magika-score"@],
{
    let deps: Vec<Dependency> = Vec::new();
    assert(dep_views(deps@) =~= Seq::<(Seq<char>, Option<Seq<char>>)>::empty());
    let i = tagger_info("magika", version, deps, &["mime", "label", "group", "is-text", "ext-match", "magika-score"]);
    assert(key_texts(i.keys@) =~= seq!["mime"@, "label"@, "group"@, "is-text"@, "ext-match"@, "magika-score"@]);
    i
}

} // verus!
