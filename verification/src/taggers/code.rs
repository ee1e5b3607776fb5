//! Source-file facts that need no language parser: size, leftover markers, and
//! the declared license.
use vstd::prelude::*;

use crate::strutil::{
    bool_text, chars_of, contains_text, decimal, find_in, first_occurrence, fmt_bool, fmt_u64,
    line_ranges, lines, range_texts, ranges_within, trim, trim_bounds, trim_end_comment,
    word_ranges, words,
};
use crate::tagger::{dep_views, key_texts, tagger_info, Dependency, TaggerInfo, tag, tag_views};

verus! {

/// How far into a file to look for an SPDX identifier.
pub const LICENSE_SCAN_LINES: usize = 30;

/// `tiny`, `small`, `medium`, `large` below 50, 200, 600 and 2000 non-blank
/// lines, `huge` from there on.
pub open spec fn size_class_name(lines: nat) -> Seq<char> {
    if lines < 50 {
        "tiny"@
    } else if lines < 200 {
        "small"@
    } else if lines < 600 {
        "medium"@
    } else if lines < 2000 {
        "large"@
    } else {
        "huge"@
    }
}

/// The size bucket for a count of non-blank lines.
pub fn size_class(lines: usize) -> (r: &'static str)
    ensures
        r@ == size_class_name(lines as nat),
{
    if lines < 50 {
        "tiny"
    } else if lines < 200 {
        "small"
    } else if lines < 600 {
        "medium"
    } else if lines < 2000 {
        "large"
    } else {
        "huge"
    }
}

/// A line holding one of the conventional "come back to this" markers.
pub open spec fn has_marker(line: Seq<char>) -> bool {
    contains_text(line, "TODO"@) || contains_text(line, "FIXME"@) || contains_text(line, "XXX"@)
        || contains_text(line, "HACK"@)
}

/// How many lines are not blank.
pub open spec fn count_code_lines(ls: Seq<Seq<char>>) -> nat
    decreases ls.len(),
{
    if ls.len() == 0 {
        0
    } else {
        count_code_lines(ls.drop_last()) + if trim(ls.last(), false).len() > 0 {
            1nat
        } else {
            0nat
        }
    }
}

/// How many lines hold a marker: a line with two markers counts once.
pub open spec fn count_marked(ls: Seq<Seq<char>>) -> nat
    decreases ls.len(),
{
    if ls.len() == 0 {
        0
    } else {
        count_marked(ls.drop_last()) + if has_marker(ls.last()) {
            1nat
        } else {
            0nat
        }
    }
}

/// Each line holding `TODO`, `FIXME`, `XXX` or `HACK` adds one to the count of
/// marked lines, and any other line adds nothing.
pub proof fn lemma_marked_lines_counted(ls: Seq<Seq<char>>, line: Seq<char>)
    ensures
        count_marked(Seq::empty()) == 0,
        count_marked(ls.push(line)) == count_marked(ls) + if contains_text(line, "TODO"@) || contains_text(
            line,
            "FIXME"@,
        ) || contains_text(line, "XXX"@) || contains_text(line, "HACK"@) {
            1int
        } else {
            0int
        },
{
    assert(ls.push(line).drop_last() =~= ls);
}

/// A source with a line holding `TODO`, `FIXME`, `XXX` or `HACK` is tagged as
/// having markers, with at least one marked line.
pub proof fn lemma_marker_line_tagged(source: Seq<char>, j: int)
    requires
        0 <= j < lines(source).len(),
        contains_text(lines(source)[j], "TODO"@) || contains_text(lines(source)[j], "FIXME"@)
            || contains_text(lines(source)[j], "XXX"@) || contains_text(lines(source)[j], "HACK"@),
    ensures
        count_marked(lines(source)) >= 1,
        code_tags_of(source)[3] == ("code-has-markers"@, "true"@),
{
    lemma_marked_at_least_one(lines(source), j);
    reveal_strlit("true");
}

proof fn lemma_marked_at_least_one(ls: Seq<Seq<char>>, j: int)
    requires
        0 <= j < ls.len(),
        contains_text(ls[j], "TODO"@) || contains_text(ls[j], "FIXME"@) || contains_text(ls[j], "XXX"@)
            || contains_text(ls[j], "HACK"@),
    ensures
        count_marked(ls) >= 1,
    decreases ls.len(),
{
    if j < ls.len() - 1 {
        lemma_marked_at_least_one(ls.drop_last(), j);
    }
}

/// The index of the first line containing `pat`.
pub open spec fn first_line_with(ls: Seq<Seq<char>>, pat: Seq<char>) -> Option<int>
    decreases ls.len(),
{
    if ls.len() == 0 {
        None
    } else if contains_text(ls[0], pat) {
        Some(0)
    } else {
        match first_line_with(ls.drop_first(), pat) {
            Some(j) => Some(j + 1),
            None => None,
        }
    }
}

proof fn lemma_first_line_with(ls: Seq<Seq<char>>, pat: Seq<char>, k: int)
    requires
        0 <= k <= ls.len(),
        forall|j: int| 0 <= j < k ==> !contains_text(#[trigger] ls[j], pat),
    ensures
        k < ls.len() && contains_text(ls[k], pat) ==> first_line_with(ls, pat) == Some(k),
        k == ls.len() ==> first_line_with(ls, pat) is None,
    decreases k,
{
    if k > 0 {
        assert forall|j: int| 0 <= j < k - 1 implies !contains_text(#[trigger] ls.drop_first()[j], pat) by {
            assert(ls.drop_first()[j] == ls[j + 1]);
        }
        lemma_first_line_with(ls.drop_first(), pat, k - 1);
        assert(!contains_text(ls[0], pat));
    }
}

/// The lines searched for a license header.
pub open spec fn license_lines(source: Seq<char>) -> Seq<Seq<char>> {
    if lines(source).len() > 30 {
        lines(source).take(30)
    } else {
        lines(source)
    }
}

/// The identifier a license line names: its first word after
/// `SPDX-License-Identifier:`, stripped of any trailing `*` and `/`.
pub open spec fn license_id(line: Seq<char>) -> Seq<char> {
    let marker = "SPDX-License-Identifier:"@;
    let rest = line.skip(first_occurrence(line, marker) + marker.len());
    let ws = words(rest);
    if ws.len() == 0 {
        "none"@
    } else if trim_end_comment(ws[0]).len() == 0 {
        "none"@
    } else {
        trim_end_comment(ws[0])
    }
}

/// The SPDX identifier from a `SPDX-License-Identifier:` header within the
/// first lines, or `none`.
pub open spec fn license_text(source: Seq<char>) -> Seq<char> {
    match first_line_with(license_lines(source), "SPDX-License-Identifier:"@) {
        Some(j) => license_id(license_lines(source)[j]),
        None => "none"@,
    }
}

/// The SPDX identifier from a `SPDX-License-Identifier:` header, or `none`.
/// Only the first word after the colon is taken, so `Apache-2.0 OR MIT` is
/// recorded as its first term; a comment closer run up against it (`MIT*/`)
/// is stripped, but `-` is kept (`MIT-0` stays `MIT-0`).
pub fn license(source: &str) -> (r: String)
    ensures
        r@ == license_text(source@),
{
    let v = chars_of(source);
    let ranges = line_ranges(&v);
    let marker = chars_of("SPDX-License-Identifier:");
    let ghost ls = lines(source@);
    let scan = if ranges.len() > LICENSE_SCAN_LINES {
        LICENSE_SCAN_LINES
    } else {
        ranges.len()
    };
    let ghost scanned = license_lines(source@);
    assert(range_texts(v@, ranges@).len() == ranges@.len());
    let mut j: usize = 0;
    while j < scan
        invariant
            v@ == source@,
            ls == lines(source@),
            range_texts(v@, ranges@) == ls,
            ranges_within(ranges@, 0, v@.len() as int),
            scan <= ranges@.len(),
            scanned == license_lines(source@),
            scanned.len() == scan,
            forall|j2: int| 0 <= j2 < scan ==> scanned[j2] == ls[j2],
            marker@ == "SPDX-License-Identifier:"@,
            j <= scan,
            forall|j2: int| 0 <= j2 < j ==> !contains_text(#[trigger] scanned[j2], marker@),
        decreases scan - j,
    {
        let (a, b) = ranges[j];
        assert(scanned[j as int] == v@.subrange(a as int, b as int));
        match find_in(&v, &marker, a, b) {
            Some(i) => {
                proof {
                    lemma_first_line_with(scanned, marker@, j as int);
                }
                return license_at(source, &v, a, b, i, marker.len());
            },
            None => {},
        }
        j += 1;
    }
    proof {
        lemma_first_line_with(scanned, marker@, scan as int);
    }
    "none".to_owned()
}

/// The first word of `v[lo..hi]` with trailing `*` and `/` stripped, when
/// that leaves something.
fn first_word_id(v: &Vec<char>, lo: usize, hi: usize) -> (r: Option<(usize, usize)>)
    requires
        lo <= hi <= v@.len(),
    ensures
        r is None <==> (words(v@.subrange(lo as int, hi as int)).len() == 0 || trim_end_comment(
            words(v@.subrange(lo as int, hi as int))[0],
        ).len() == 0),
        r matches Some(p) ==> p.0 <= p.1 <= v@.len() && v@.subrange(p.0 as int, p.1 as int)
            == trim_end_comment(words(v@.subrange(lo as int, hi as int))[0]),
{
    let found = word_ranges(v, lo, hi);
    if found.len() == 0 {
        return None;
    }
    let (wa, wb0) = found[0];
    assert(words(v@.subrange(lo as int, hi as int))[0] == v@.subrange(wa as int, wb0 as int));
    let mut wb = wb0;
    while wb > wa && (v[wb - 1] == '*' || v[wb - 1] == '/')
        invariant
            wa <= wb <= wb0 <= v@.len(),
            trim_end_comment(v@.subrange(wa as int, wb0 as int)) == trim_end_comment(
                v@.subrange(wa as int, wb as int),
            ),
        decreases wb,
    {
        assert(v@.subrange(wa as int, wb as int).drop_last() =~= v@.subrange(wa as int, wb - 1));
        wb -= 1;
    }
    if wb == wa {
        return None;
    }
    Some((wa, wb))
}

/// `license_id` of the line `v[a..b]`, whose first license marker starts at `i`.
fn license_at(source: &str, v: &Vec<char>, a: usize, b: usize, i: usize, m: usize) -> (r: String)
    requires
        v@ == source@,
        a <= i,
        a <= b <= v@.len(),
        m == "SPDX-License-Identifier:"@.len(),
        i - a == first_occurrence(v@.subrange(a as int, b as int), "SPDX-License-Identifier:"@),
        crate::strutil::occurs_at(v@.subrange(a as int, b as int), "SPDX-License-Identifier:"@, i - a),
    ensures
        r@ == license_id(v@.subrange(a as int, b as int)),
{
    let start = i + m;
    assert(v@.subrange(a as int, b as int).skip((i - a) + m) =~= v@.subrange(start as int, b as int));
    match first_word_id(v, start, b) {
        Some((wa, wb)) => source.substring_char(wa, wb).to_owned(),
        None => "none".to_owned(),
    }
}

/// Whether `v[a..b]` holds a marker.
fn line_has_marker(v: &Vec<char>, a: usize, b: usize) -> (r: bool)
    requires
        a <= b <= v@.len(),
    ensures
        r == has_marker(v@.subrange(a as int, b as int)),
{
    let todo = chars_of("TODO");
    let fixme = chars_of("FIXME");
    let xxx = chars_of("XXX");
    let hack = chars_of("HACK");
    find_in(v, &todo, a, b).is_some() || find_in(v, &fixme, a, b).is_some() || find_in(
        v,
        &xxx,
        a,
        b,
    ).is_some() || find_in(v, &hack, a, b).is_some()
}

/// The tags of a source file.
pub open spec fn code_tags_of(source: Seq<char>) -> Seq<(Seq<char>, Seq<char>)> {
    let code_lines = count_code_lines(lines(source));
    let markers = count_marked(lines(source));
    seq![
        ("code-lines"@, decimal(code_lines)),
        ("code-size-class"@, size_class_name(code_lines)),
        ("code-markers"@, decimal(markers)),
        ("code-has-markers"@, bool_text(markers > 0)),
        ("code-license"@, license_text(source)),
    ]
}

/// The tags of a source file: non-blank lines, their size bucket, lines with
/// markers, and the declared license.
pub fn code_tags(source: &str) -> (tags: Vec<(String, String)>)
    ensures
        tag_views(tags@) == code_tags_of(source@),
{
    let v = chars_of(source);
    let ranges = line_ranges(&v);
    let ghost ls = lines(source@);
    let mut code_lines: usize = 0;
    let mut markers: usize = 0;
    let mut j: usize = 0;
    while j < ranges.len()
        invariant
            v@ == source@,
            range_texts(v@, ranges@) == ls,
            ls == lines(source@),
            ranges_within(ranges@, 0, v@.len() as int),
            j <= ranges@.len(),
            code_lines <= j,
            markers <= j,
            code_lines == count_code_lines(ls.take(j as int)),
            markers == count_marked(ls.take(j as int)),
        decreases ranges.len() - j,
    {
        let (a, b) = ranges[j];
        let ghost line = v@.subrange(a as int, b as int);
        assert(ls[j as int] == line);
        assert(ls.take(j + 1).drop_last() =~= ls.take(j as int));
        let (ta, tb) = trim_bounds(&v, a, b, false);
        if ta < tb {
            code_lines += 1;
        }
        if line_has_marker(&v, a, b) {
            markers += 1;
        }
        j += 1;
    }
    assert(ls.take(ranges@.len() as int) =~= ls);
    let mut tags: Vec<(String, String)> = Vec::new();
    tags.push(tag("code-lines", fmt_u64(code_lines as u64)));
    tags.push(tag("code-size-class", size_class(code_lines).to_owned()));
    tags.push(tag("code-markers", fmt_u64(markers as u64)));
    tags.push(tag("code-has-markers", fmt_bool(markers > 0)));
    tags.push(tag("code-license", license(source)));
    assert(tag_views(tags@) =~= code_tags_of(source@));
    tags
}

/// What this tagger reports for `--tagd-info`.
pub fn info(version: &str) -> (i: TaggerInfo)
    ensures
        i.name@ == "code"@,
        i.version@ == version@,
        dep_views(i.dependencies@) == seq![("group"@, Some("code"@)), ("text-lines"@, None)],
        key_texts(i.keys@) == seq!["code-lines"@, "code-size-class"@, "code-markers"@, "code-has-markers"@, "code-license"@],
{
    let mut deps: Vec<Dependency> = Vec::new();
    deps.push(Dependency::matching("group", "code"));
    deps.push(Dependency::on("text-lines"));
    assert(dep_views(deps@) =~= seq![("group"@, Some("code"@)), ("text-lines"@, None)]);
    let i = tagger_info("code", version, deps, &["code-lines", "code-size-class", "code-markers", "code-has-markers", "code-license"]);
    assert(key_texts(i.keys@) =~= seq!["code-lines"@, "code-size-class"@, "code-markers"@, "code-has-markers"@, "code-license"@]);
    i
}

} // verus!
