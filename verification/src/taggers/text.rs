//! Whole-file hygiene facts about text: line endings, indentation, encoding,
//! and the small things that show up in diffs and code review.
use vstd::prelude::*;
use vstd::utf8::{decode_utf8, valid_utf8};

use crate::strutil::{
    base_name, basename, bool_text, chars_of, decimal, fmt_bool, fmt_u64, same_text, utf8_text,
    word_ranges, words, range_texts, ranges_within,
};
use crate::tagger::{dep_views, key_texts, tagger_info, Dependency, TaggerInfo, tag, tag_views};

verus! {

/// Files larger than this many bytes are reported as `text-truncated: yes`
/// and nothing else: a partial read would give confidently wrong answers.
pub const MAX_BYTES: u64 = 16777216;

/// How a line of text ended.
pub enum Ending {
    Lf,
    Crlf,
    Cr,
    /// The last line, with no terminator.
    Open,
}

/// `\n` (LF) or `\r` (CR).
pub open spec fn is_break(b: u8) -> bool {
    b == 10 || b == 13
}

/// `u8::is_ascii_whitespace`: space, tab, LF, form feed, CR.
pub open spec fn ascii_ws(b: u8) -> bool {
    b == 32 || b == 9 || b == 10 || b == 12 || b == 13
}

/// The index of the first LF or CR in `b`, or `b.len()`.
pub open spec fn first_break(b: Seq<u8>) -> int
    decreases b.len(),
{
    if b.len() == 0 || is_break(b[0]) {
        0
    } else {
        1 + first_break(b.drop_first())
    }
}

pub proof fn lemma_first_break(b: Seq<u8>, k: int)
    requires
        0 <= k <= b.len(),
        forall|j: int| 0 <= j < k ==> !is_break(b[j]),
        k == b.len() || is_break(b[k]),
    ensures
        first_break(b) == k,
    decreases b.len(),
{
    if b.len() > 0 && k > 0 {
        lemma_first_break(b.drop_first(), k - 1);
    }
}

pub proof fn lemma_first_break_bounds(b: Seq<u8>)
    ensures
        0 <= first_break(b) <= b.len(),
    decreases b.len(),
{
    if b.len() > 0 {
        lemma_first_break_bounds(b.drop_first());
    }
}

/// The lines of `b`, split at LF, CRLF or a lone CR, each with how it ended.
/// Trailing bytes with no terminator are still a line.
pub open spec fn text_lines(b: Seq<u8>) -> Seq<(Seq<u8>, Ending)>
    decreases b.len(),
{
    if b.len() == 0 {
        Seq::empty()
    } else {
        let i = first_break(b);
        proof {
            lemma_first_break_bounds(b);
        }
        if i >= b.len() {
            seq![(b, Ending::Open)]
        } else if b[i] == 10 {
            seq![(b.take(i), Ending::Lf)] + text_lines(b.skip(i + 1))
        } else if i + 1 < b.len() && b[i + 1] == 10 {
            seq![(b.take(i), Ending::Crlf)] + text_lines(b.skip(i + 2))
        } else {
            seq![(b.take(i), Ending::Cr)] + text_lines(b.skip(i + 1))
        }
    }
}

/// How many of the lines ended with `e`.
pub open spec fn count_ending(ls: Seq<(Seq<u8>, Ending)>, e: Ending) -> nat
    decreases ls.len(),
{
    if ls.len() == 0 {
        0
    } else {
        count_ending(ls.drop_last(), e) + if ls.last().1 == e {
            1nat
        } else {
            0nat
        }
    }
}

/// The line starts with `lead` and is not all whitespace.
pub open spec fn indented_by(line: Seq<u8>, lead: u8) -> bool {
    line.len() > 0 && line[0] == lead && exists|j: int| 0 <= j < line.len() && !ascii_ws(#[trigger] line[j])
}

/// How many of the lines are indented by `lead`.
pub open spec fn count_indented(ls: Seq<(Seq<u8>, Ending)>, lead: u8) -> nat
    decreases ls.len(),
{
    if ls.len() == 0 {
        0
    } else {
        count_indented(ls.drop_last(), lead) + if indented_by(ls.last().0, lead) {
            1nat
        } else {
            0nat
        }
    }
}

/// The length of the longest line.
pub open spec fn longest(ls: Seq<(Seq<u8>, Ending)>) -> nat
    decreases ls.len(),
{
    if ls.len() == 0 {
        0
    } else {
        let rest = longest(ls.drop_last());
        if ls.last().0.len() > rest {
            ls.last().0.len()
        } else {
            rest
        }
    }
}

/// The line ends in a space or a tab.
pub open spec fn ends_blank(line: Seq<u8>) -> bool {
    line.len() > 0 && (line.last() == 32 || line.last() == 9)
}

/// Counts gathered in one pass over a text body.
pub struct LineStats {
    pub lines: usize,
    pub lf: usize,
    pub crlf: usize,
    pub cr: usize,
    pub tab_indented: usize,
    pub space_indented: usize,
    pub longest_line: usize,
    pub trailing_whitespace: bool,
    pub final_newline: bool,
}

/// The stats of a sequence of lines, before the final-newline flag.
pub open spec fn stats_match(s: LineStats, ls: Seq<(Seq<u8>, Ending)>) -> bool {
    &&& s.lines == ls.len()
    &&& s.lf == count_ending(ls, Ending::Lf)
    &&& s.crlf == count_ending(ls, Ending::Crlf)
    &&& s.cr == count_ending(ls, Ending::Cr)
    &&& s.tab_indented == count_indented(ls, 9)
    &&& s.space_indented == count_indented(ls, 32)
    &&& s.longest_line == longest(ls)
    &&& s.trailing_whitespace == exists|j: int| 0 <= j < ls.len() && ends_blank(#[trigger] ls[j].0)
}

/// Whether the body's last line is terminated (an empty body counts as such).
pub open spec fn ends_with_break(b: Seq<u8>) -> bool {
    b.len() == 0 || is_break(b.last())
}

proof fn lemma_counts_bounded(ls: Seq<(Seq<u8>, Ending)>)
    ensures
        count_ending(ls, Ending::Lf) <= ls.len(),
        count_ending(ls, Ending::Crlf) <= ls.len(),
        count_ending(ls, Ending::Cr) <= ls.len(),
        count_indented(ls, 9) <= ls.len(),
        count_indented(ls, 32) <= ls.len(),
    decreases ls.len(),
{
    if ls.len() > 0 {
        lemma_counts_bounded(ls.drop_last());
    }
}

proof fn lemma_stats_step(
    a: LineStats,
    b: LineStats,
    done: Seq<(Seq<u8>, Ending)>,
    line: Seq<u8>,
    e: Ending,
)
    requires
        stats_match(a, done),
        b.lines == a.lines + 1,
        b.lf == a.lf + if e == Ending::Lf {
            1int
        } else {
            0int
        },
        b.crlf == a.crlf + if e == Ending::Crlf {
            1int
        } else {
            0int
        },
        b.cr == a.cr + if e == Ending::Cr {
            1int
        } else {
            0int
        },
        b.longest_line == if line.len() > a.longest_line {
            line.len() as int
        } else {
            a.longest_line as int
        },
        b.tab_indented == a.tab_indented + if indented_by(line, 9) {
            1int
        } else {
            0int
        },
        b.space_indented == a.space_indented + if indented_by(line, 32) {
            1int
        } else {
            0int
        },
        b.trailing_whitespace == (a.trailing_whitespace || ends_blank(line)),
    ensures
        stats_match(b, done.push((line, e))),
{
    let ls = done.push((line, e));
    assert(ls.drop_last() =~= done);
    assert(ls.last() == (line, e));
    if b.trailing_whitespace {
        if ends_blank(line) {
            assert(ends_blank(ls[done.len() as int].0));
        } else {
            let j = choose|j: int| 0 <= j < done.len() && ends_blank(#[trigger] done[j].0);
            assert(ls[j] == done[j]);
        }
    }
    if exists|j: int| 0 <= j < ls.len() && ends_blank(#[trigger] ls[j].0) {
        let j = choose|j: int| 0 <= j < ls.len() && ends_blank(#[trigger] ls[j].0);
        if j < done.len() {
            assert(ls[j] == done[j]);
        }
    }
}

impl LineStats {
    fn new() -> (s: LineStats)
        ensures
            stats_match(s, Seq::empty()),
            !s.final_newline,
    {
        LineStats {
            lines: 0,
            lf: 0,
            crlf: 0,
            cr: 0,
            tab_indented: 0,
            space_indented: 0,
            longest_line: 0,
            trailing_whitespace: false,
            final_newline: false,
        }
    }

    /// One pass over the bytes. Splits on any of LF, CRLF or lone CR so a
    /// mixed-ending file is still measured line by line.
    pub fn of(body: &[u8]) -> (s: LineStats)
        ensures
            stats_match(s, text_lines(body@)),
            s.final_newline == ends_with_break(body@),
    {
        let mut stats = LineStats::new();
        if body.len() == 0 {
            stats.final_newline = true;
            return stats;
        }
        let ghost mut done: Seq<(Seq<u8>, Ending)> = Seq::empty();
        let mut start: usize = 0;
        let mut i: usize = 0;
        assert(body@.skip(0) =~= body@);
        while i < body.len()
            invariant
                start <= i <= body@.len(),
                text_lines(body@) == done + text_lines(body@.skip(start as int)),
                forall|j: int| start <= j < i ==> !is_break(body@[j]),
                stats_match(stats, done),
                done.len() <= start,
                !stats.final_newline,
                start > 0 ==> is_break(body@[start - 1]),
            decreases body@.len() - i,
        {
            let c = body[i];
            proof {
                lemma_counts_bounded(done);
            }
            if c == 10u8 || c == 13u8 {
                let ghost rest = body@.skip(start as int);
                proof {
                    lemma_first_break(rest, i - start);
                    assert(rest.take(i - start) =~= body@.subrange(start as int, i as int));
                }
                let ghost before = stats;
                let len: usize = if c == 10u8 {
                    stats.lf += 1;
                    proof {
                        assert(rest.skip(i - start + 1) =~= body@.skip(i + 1));
                    }
                    1
                } else if i + 1 < body.len() && body[i + 1] == 10u8 {
                    stats.crlf += 1;
                    proof {
                        assert(rest.skip(i - start + 2) =~= body@.skip(i + 2));
                    }
                    2
                } else {
                    stats.cr += 1;
                    proof {
                        assert(rest.skip(i - start + 1) =~= body@.skip(i + 1));
                    }
                    1
                };
                let ghost ending = if c == 10u8 {
                    Ending::Lf
                } else if len == 2 {
                    Ending::Crlf
                } else {
                    Ending::Cr
                };
                let ghost line = body@.subrange(start as int, i as int);
                stats.record_line(&body[start..i]);
                proof {
                    lemma_stats_step(before, stats, done, line, ending);
                    assert(done + (seq![(line, ending)] + text_lines(body@.skip(i + len))) =~= done.push(
                        (line, ending),
                    ) + text_lines(body@.skip(i + len)));
                    done = done.push((line, ending));
                }
                i = i + len;
                start = i;
            } else {
                i += 1;
            }
        }
        if start < body.len() {
            let ghost rest = body@.skip(start as int);
            let ghost line = body@.subrange(start as int, body@.len() as int);
            proof {
                lemma_first_break(rest, rest.len() as int);
                assert(rest =~= line);
                lemma_counts_bounded(done);
            }
            let ghost before = stats;
            stats.record_line(&body[start..body.len()]);
            proof {
                lemma_stats_step(before, stats, done, line, Ending::Open);
                assert(done + seq![(line, Ending::Open)] =~= done.push((line, Ending::Open)));
                done = done.push((line, Ending::Open));
                assert(!is_break(body@.last()));
            }
        } else {
            stats.final_newline = true;
            assert(body@.skip(start as int) =~= Seq::<u8>::empty());
            assert(done + Seq::<(Seq<u8>, Ending)>::empty() =~= done);
        }
        stats
    }

    /// Counts one line.
    pub fn record_line(&mut self, line: &[u8])
        requires
            old(self).lines < usize::MAX,
            old(self).tab_indented < usize::MAX,
            old(self).space_indented < usize::MAX,
        ensures
            final(self).lines == old(self).lines + 1,
            final(self).lf == old(self).lf,
            final(self).crlf == old(self).crlf,
            final(self).cr == old(self).cr,
            final(self).final_newline == old(self).final_newline,
            final(self).longest_line == if line@.len() > old(self).longest_line {
                line@.len() as usize
            } else {
                old(self).longest_line
            },
            final(self).tab_indented == old(self).tab_indented + if indented_by(line@, 9) {
                1int
            } else {
                0int
            },
            final(self).space_indented == old(self).space_indented + if indented_by(line@, 32) {
                1int
            } else {
                0int
            },
            final(self).trailing_whitespace == (old(self).trailing_whitespace || ends_blank(line@)),
    {
        self.lines += 1;
        if line.len() > self.longest_line {
            self.longest_line = line.len();
        }
        if line.len() > 0 && (line[0] == 9u8 || line[0] == 32u8) {
            let mut any = false;
            let mut j: usize = 0;
            while j < line.len()
                invariant
                    j <= line@.len(),
                    any == exists|k: int| 0 <= k < j && !ascii_ws(#[trigger] line@[k]),
                decreases line.len() - j,
            {
                let b = line[j];
                if !(b == 32u8 || b == 9u8 || b == 10u8 || b == 12u8 || b == 13u8) {
                    any = true;
                }
                j += 1;
            }
            if any {
                if line[0] == 9u8 {
                    self.tab_indented += 1;
                } else {
                    self.space_indented += 1;
                }
            }
        }
        if line.len() > 0 && (line[line.len() - 1] == 32u8 || line[line.len() - 1] == 9u8) {
            self.trailing_whitespace = true;
        }
    }
}

/// `lf`, `crlf` or `cr` when only that ending occurs, `none` when no line is
/// terminated, `mixed` otherwise.
pub open spec fn ending_name(lf: nat, crlf: nat, cr: nat) -> Seq<char> {
    if lf == 0 && crlf == 0 && cr == 0 {
        "none"@
    } else if crlf == 0 && cr == 0 {
        "lf"@
    } else if lf == 0 && cr == 0 {
        "crlf"@
    } else if lf == 0 && crlf == 0 {
        "cr"@
    } else {
        "mixed"@
    }
}

/// The line-ending name says which terminators occur: `none` when there are
/// none, the one kind's name (`lf`, `crlf`, `cr`) when only that kind occurs,
/// and `mixed` exactly when at least two kinds occur.
pub proof fn lemma_line_ending_names(lf: nat, crlf: nat, cr: nat)
    ensures
        lf == 0 && crlf == 0 && cr == 0 ==> ending_name(lf, crlf, cr) == "none"@,
        lf > 0 && crlf == 0 && cr == 0 ==> ending_name(lf, crlf, cr) == "lf"@,
        lf == 0 && crlf > 0 && cr == 0 ==> ending_name(lf, crlf, cr) == "crlf"@,
        lf == 0 && crlf == 0 && cr > 0 ==> ending_name(lf, crlf, cr) == "cr"@,
        ending_name(lf, crlf, cr) == "mixed"@ <==> (lf > 0 && crlf > 0) || (lf > 0 && cr > 0) || (crlf
            > 0 && cr > 0),
{
    reveal_strlit("none");
    reveal_strlit("lf");
    reveal_strlit("crlf");
    reveal_strlit("cr");
    reveal_strlit("mixed");
    assert("mixed"@.len() == 5 && "none"@.len() == 4 && "lf"@.len() == 2 && "crlf"@.len() == 4
        && "cr"@.len() == 2);
}

/// The indentation name says which indentation occurs: `none` when no line is
/// indented, `tabs` or `spaces` when only that kind occurs, and `mixed`
/// exactly when both occur.
pub proof fn lemma_indent_names(tabs: nat, spaces: nat)
    ensures
        tabs == 0 && spaces == 0 ==> indent_name(tabs, spaces) == "none"@,
        tabs > 0 && spaces == 0 ==> indent_name(tabs, spaces) == "tabs"@,
        tabs == 0 && spaces > 0 ==> indent_name(tabs, spaces) == "spaces"@,
        indent_name(tabs, spaces) == "mixed"@ <==> tabs > 0 && spaces > 0,
{
    reveal_strlit("none");
    reveal_strlit("tabs");
    reveal_strlit("spaces");
    reveal_strlit("mixed");
    assert("mixed"@.len() == 5 && "none"@.len() == 4 && "tabs"@.len() == 4 && "spaces"@.len() == 6);
}

/// `tabs` or `spaces` when only that indentation occurs, `none` or `mixed`.
pub open spec fn indent_name(tabs: nat, spaces: nat) -> Seq<char> {
    if tabs == 0 && spaces == 0 {
        "none"@
    } else if spaces == 0 {
        "tabs"@
    } else if tabs == 0 {
        "spaces"@
    } else {
        "mixed"@
    }
}

impl LineStats {
    /// The line endings seen.
    pub fn line_ending(&self) -> (r: &'static str)
        ensures
            r@ == ending_name(self.lf as nat, self.crlf as nat, self.cr as nat),
    {
        if self.lf == 0 && self.crlf == 0 && self.cr == 0 {
            "none"
        } else if self.crlf == 0 && self.cr == 0 {
            "lf"
        } else if self.lf == 0 && self.cr == 0 {
            "crlf"
        } else if self.lf == 0 && self.crlf == 0 {
            "cr"
        } else {
            "mixed"
        }
    }

    /// The indentation seen: "mixed" means both appear, not that either is
    /// inconsistent.
    pub fn indent(&self) -> (r: &'static str)
        ensures
            r@ == indent_name(self.tab_indented as nat, self.space_indented as nat),
    {
        if self.tab_indented == 0 && self.space_indented == 0 {
            "none"
        } else if self.space_indented == 0 {
            "tabs"
        } else if self.tab_indented == 0 {
            "spaces"
        } else {
            "mixed"
        }
    }
}

/// `ascii`, else `utf-8` for valid UTF-8, else `non-utf8`.
pub open spec fn encoding_name(body: Seq<u8>) -> Seq<char> {
    if forall|i: int| 0 <= i < body.len() ==> body[i] < 128 {
        "ascii"@
    } else if valid_utf8(body) {
        "utf-8"@
    } else {
        "non-utf8"@
    }
}

/// The body's encoding: `ascii` is called out separately from `utf-8`.
pub fn encoding(body: &[u8]) -> (r: &'static str)
    ensures
        r@ == encoding_name(body@),
{
    if crate::strutil::bytes_are_ascii(body) {
        "ascii"
    } else if utf8_text(body).is_some() {
        "utf-8"
    } else {
        "non-utf8"
    }
}

/// A word that starts with `-`.
pub open spec fn is_option(w: Seq<char>) -> bool {
    w.len() > 0 && w[0] == '-'
}

/// The first word that is not an option.
pub open spec fn first_non_option(ws: Seq<Seq<char>>) -> Option<Seq<char>>
    decreases ws.len(),
{
    if ws.len() == 0 {
        None
    } else if !is_option(ws[0]) {
        Some(ws[0])
    } else {
        first_non_option(ws.drop_first())
    }
}

/// The interpreter a `#!` line names: the base name of its first word, or,
/// when that is `env`, of the first later word that is not an option.
pub open spec fn interpreter(line: Seq<char>) -> Option<Seq<char>> {
    let ws = words(line);
    if ws.len() == 0 {
        None
    } else {
        let first = ws[0];
        let chosen = if base_name(first) == "env"@ {
            match first_non_option(ws.drop_first()) {
                Some(w) => w,
                None => first,
            }
        } else {
            first
        };
        Some(base_name(chosen))
    }
}

/// The index, at or after `from`, of the first word of `v` that is not an
/// option, or `ranges.len()`.
fn first_non_option_at(v: &Vec<char>, ranges: &Vec<(usize, usize)>, from: usize) -> (k: usize)
    requires
        from <= ranges@.len(),
        ranges_within(ranges@, 0, v@.len() as int),
    ensures
        from <= k <= ranges@.len(),
        k < ranges@.len() ==> first_non_option(range_texts(v@, ranges@).skip(from as int)) == Some(
            range_texts(v@, ranges@)[k as int],
        ),
        k == ranges@.len() ==> first_non_option(range_texts(v@, ranges@).skip(from as int)) is None,
{
    let ghost ws = range_texts(v@, ranges@);
    let mut k = from;
    while k < ranges.len()
        invariant
            from <= k <= ranges@.len(),
            ranges_within(ranges@, 0, v@.len() as int),
            ws == range_texts(v@, ranges@),
            first_non_option(ws.skip(from as int)) == first_non_option(ws.skip(k as int)),
        decreases ranges.len() - k,
    {
        let (a, b) = ranges[k];
        assert(ws[k as int] == v@.subrange(a as int, b as int));
        assert(ws.skip(k as int).drop_first() =~= ws.skip(k + 1));
        assert(ws.skip(k as int)[0] == ws[k as int]);
        if !(b > a && v[a] == '-') {
            return k;
        }
        k += 1;
    }
    assert(ws.skip(k as int) =~= Seq::<Seq<char>>::empty());
    k
}

/// The interpreter of the body's `#!` line, or `none`.
pub open spec fn shebang_text(body: Seq<u8>) -> Seq<char> {
    if body.len() >= 2 && body[0] == 35 && body[1] == 33 {
        let rest = body.skip(2);
        let line = rest.take(first_break(rest));
        if valid_utf8(line) {
            match interpreter(decode_utf8(line)) {
                Some(n) => n,
                None => "none"@,
            }
        } else {
            "none"@
        }
    } else {
        "none"@
    }
}

/// The interpreter a `#!` line names, unwrapping `/usr/bin/env foo` to `foo`;
/// `none` when there is no shebang, so the tag is always present.
pub fn shebang(body: &[u8]) -> (r: String)
    ensures
        r@ == shebang_text(body@),
{
    if body.len() < 2 || body[0] != 35u8 || body[1] != 33u8 {
        return "none".to_owned();
    }
    let mut j: usize = 2;
    while j < body.len() && body[j] != 10u8 && body[j] != 13u8
        invariant
            2 <= j <= body@.len(),
            forall|k: int| 2 <= k < j ==> !is_break(body@[k]),
        decreases body.len() - j,
    {
        j += 1;
    }
    let ghost rest = body@.skip(2);
    proof {
        lemma_first_break(rest, j - 2);
        assert(rest.take(j - 2) =~= body@.subrange(2, j as int));
    }
    let line = match utf8_text(&body[2..j]) {
        Some(line) => line,
        None => {
            return "none".to_owned();
        },
    };
    let v = chars_of(line);
    let ranges = word_ranges(&v, 0, v.len());
    let ghost ws = words(line@);
    proof {
        assert(v@.subrange(0, v@.len() as int) =~= line@);
    }
    if ranges.len() == 0 {
        return "none".to_owned();
    }
    let first = line.substring_char(ranges[0].0, ranges[0].1);
    assert(first@ == ws[0]);
    let chosen = if same_text(basename(first), "env") {
        assert(ws.skip(1) =~= ws.drop_first());
        let k = first_non_option_at(&v, &ranges, 1);
        if k < ranges.len() {
            line.substring_char(ranges[k].0, ranges[k].1)
        } else {
            first
        }
    } else {
        first
    };
    basename(chosen).to_owned()
}

/// The BOM, when the bytes start with one.
pub open spec fn has_bom(b: Seq<u8>) -> bool {
    b.len() >= 3 && b[0] == 0xEF && b[1] == 0xBB && b[2] == 0xBF
}

/// The bytes after any BOM.
pub open spec fn text_body(b: Seq<u8>) -> Seq<u8> {
    if has_bom(b) {
        b.skip(3)
    } else {
        b
    }
}

/// The tags of a text file read in full, sorted by key.
pub open spec fn text_tags(bytes: Seq<u8>) -> Seq<(Seq<char>, Seq<char>)> {
    let body = text_body(bytes);
    let ls = text_lines(body);
    seq![
        ("text-bom"@, bool_text(has_bom(bytes))),
        ("text-encoding"@, encoding_name(body)),
        ("text-final-newline"@, bool_text(ends_with_break(body))),
        ("text-indent"@, indent_name(count_indented(ls, 9), count_indented(ls, 32))),
        ("text-line-ending"@, ending_name(
            count_ending(ls, Ending::Lf),
            count_ending(ls, Ending::Crlf),
            count_ending(ls, Ending::Cr),
        )),
        ("text-lines"@, decimal(ls.len())),
        ("text-longest-line"@, decimal(longest(ls))),
        ("text-shebang"@, shebang_text(body)),
        ("text-trailing-whitespace"@, bool_text(
            exists|j: int| 0 <= j < ls.len() && ends_blank(#[trigger] ls[j].0),
        )),
        ("text-truncated"@, bool_text(false)),
    ]
}

/// The tags of a text file read in full.
pub fn analyze(bytes: &[u8]) -> (tags: Vec<(String, String)>)
    ensures
        tag_views(tags@) == text_tags(bytes@),
{
    let bom = bytes.len() >= 3 && bytes[0] == 0xEFu8 && bytes[1] == 0xBBu8 && bytes[2] == 0xBFu8;
    let body = if bom {
        &bytes[3..bytes.len()]
    } else {
        bytes
    };
    assert(body@ == text_body(bytes@));
    let stats = LineStats::of(body);
    let mut tags: Vec<(String, String)> = Vec::new();
    tags.push(tag("text-bom", fmt_bool(bom)));
    tags.push(tag("text-encoding", encoding(body).to_owned()));
    tags.push(tag("text-final-newline", fmt_bool(stats.final_newline)));
    tags.push(tag("text-indent", stats.indent().to_owned()));
    tags.push(tag("text-line-ending", stats.line_ending().to_owned()));
    tags.push(tag("text-lines", fmt_u64(stats.lines as u64)));
    tags.push(tag("text-longest-line", fmt_u64(stats.longest_line as u64)));
    tags.push(tag("text-shebang", shebang(body)));
    tags.push(tag("text-trailing-whitespace", fmt_bool(stats.trailing_whitespace)));
    tags.push(tag("text-truncated", fmt_bool(false)));
    assert(tag_views(tags@) =~= text_tags(bytes@));
    tags
}

/// For a file larger than `MAX_BYTES`, the one tag reported instead of an
/// analysis; `None` when the file is small enough to read in full.
pub fn oversize_tags(len: u64) -> (r: Option<Vec<(String, String)>>)
    ensures
        r is Some <==> len > MAX_BYTES,
        r matches Some(tags) ==> tag_views(tags@) == seq![("text-truncated"@, "yes"@)],
{
    if len > MAX_BYTES {
        let mut tags: Vec<(String, String)> = Vec::new();
        tags.push(tag("text-truncated", "yes".to_owned()));
        assert(tag_views(tags@) =~= seq![("text-truncated"@, "yes"@)]);
        Some(tags)
    } else {
        None
    }
}

/// What this tagger reports for `--tagd-info`.
pub fn info(version: &str) -> (i: TaggerInfo)
    ensures
        i.name@ == "text"@,
        i.version@ == version@,
        dep_views(i.dependencies@) == seq![("is-text"@, Some("true"@))],
        key_texts(i.keys@) == seq!["text-truncated"@, "text-lines"@, "text-line-ending"@, "text-indent"@, "text-final-newline"@, "text-trailing-whitespace"@, "text-longest-line"@, "text-encoding"@, "text-bom"@, "text-shebang"@],
{
    let mut deps: Vec<Dependency> = Vec::new();
    deps.push(Dependency::matching("is-text", "true"));
    assert(dep_views(deps@) =~= seq![("is-text"@, Some("true"@))]);
    let i = tagger_info("text", version, deps, &["text-truncated", "text-lines", "text-line-ending", "text-indent", "text-final-newline", "text-trailing-whitespace", "text-longest-line", "text-encoding", "text-bom", "text-shebang"]);
    assert(key_texts(i.keys@) =~= seq!["text-truncated"@, "text-lines"@, "text-line-ending"@, "text-indent"@, "text-final-newline"@, "text-trailing-whitespace"@, "text-longest-line"@, "text-encoding"@, "text-bom"@, "text-shebang"@]);
    i
}

/// `a` sorts before `b`, comparing character by character (for ASCII keys
/// this is the order of `String`'s `Ord`).
pub open spec fn sorts_before(a: Seq<char>, b: Seq<char>) -> bool
    decreases a.len(),
{
    if a.len() == 0 {
        b.len() > 0
    } else if b.len() == 0 {
        false
    } else if a[0] != b[0] {
        a[0] < b[0]
    } else {
        sorts_before(a.drop_first(), b.drop_first())
    }
}

/// The text tags come out sorted by key.
pub proof fn lemma_text_tags_sorted(bytes: Seq<u8>)
    ensures
        forall|i: int|
            0 <= i < text_tags(bytes).len() - 1 ==> sorts_before(
                #[trigger] text_tags(bytes)[i].0,
                text_tags(bytes)[i + 1].0,
            ),
{
    reveal_strlit("text-bom");
    reveal_strlit("text-encoding");
    reveal_strlit("text-final-newline");
    reveal_strlit("text-indent");
    reveal_strlit("text-line-ending");
    reveal_strlit("text-lines");
    reveal_strlit("text-longest-line");
    reveal_strlit("text-shebang");
    reveal_strlit("text-trailing-whitespace");
    reveal_strlit("text-truncated");
    reveal_with_fuel(sorts_before, 20);
    assert(sorts_before("text-bom"@, "text-encoding"@));
    assert(sorts_before("text-encoding"@, "text-final-newline"@));
    assert(sorts_before("text-final-newline"@, "text-indent"@));
    assert(sorts_before("text-indent"@, "text-line-ending"@));
    assert(sorts_before("text-line-ending"@, "text-lines"@));
    assert(sorts_before("text-lines"@, "text-longest-line"@));
    assert(sorts_before("text-longest-line"@, "text-shebang"@));
    assert(sorts_before("text-shebang"@, "text-trailing-whitespace"@));
    assert(sorts_before("text-trailing-whitespace"@, "text-truncated"@));
}

} // verus!
