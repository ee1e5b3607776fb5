//! Text helpers shared by the taggers, stated over character sequences.
use vstd::prelude::*;
use vstd::utf8::{decode_utf8, valid_utf8};

verus! {

/// Whether two strings hold the same characters.
pub fn same_text(a: &str, b: &str) -> (r: bool)
    ensures
        r == (a@ == b@),
{
    let a: String = a.to_owned();
    let b: String = b.to_owned();
    a == b
}

/// The characters of `s`, in order.
pub fn chars_of(s: &str) -> (v: Vec<char>)
    ensures
        v@ == s@,
{
    let mut v: Vec<char> = Vec::new();
    for c in it: s.chars()
        invariant
            it.seq() == s@,
            v@ == it.seq().take(it.index() as int),
    {
        v.push(c);
    }
    assert(s@.take(s@.len() as int) =~= s@);
    v
}

/// Unicode `White_Space`, the property `char::is_whitespace` and `str::trim`
/// go by.
pub open spec fn is_ws(c: char) -> bool {
    ||| '\t' <= c <= '\r'
    ||| c == ' '
    ||| c == '\u{85}'
    ||| c == '\u{A0}'
    ||| c == '\u{1680}'
    ||| '\u{2000}' <= c <= '\u{200A}'
    ||| c == '\u{2028}'
    ||| c == '\u{2029}'
    ||| c == '\u{202F}'
    ||| c == '\u{205F}'
    ||| c == '\u{3000}'
}

/// Whether `c` is Unicode whitespace.
pub fn is_whitespace(c: char) -> (b: bool)
    ensures
        b == is_ws(c),
{
    ('\t' <= c && c <= '\r') || c == ' ' || c == '\u{85}' || c == '\u{A0}' || c == '\u{1680}' || (
    '\u{2000}' <= c && c <= '\u{200A}') || c == '\u{2028}' || c == '\u{2029}' || c == '\u{202F}'
        || c == '\u{205F}' || c == '\u{3000}'
}

/// What a trim strips: whitespace, or NUL padding.
pub open spec fn strips(c: char, nul: bool) -> bool {
    if nul {
        c == '\0'
    } else {
        is_ws(c)
    }
}

/// Whether a trim strips `c`.
pub fn strips_char(c: char, nul: bool) -> (b: bool)
    ensures
        b == strips(c, nul),
{
    if nul {
        c == '\0'
    } else {
        is_whitespace(c)
    }
}

/// `s` without its leading characters that `strips`.
pub open spec fn trim_start(s: Seq<char>, nul: bool) -> Seq<char>
    decreases s.len(),
{
    if s.len() > 0 && strips(s[0], nul) {
        trim_start(s.drop_first(), nul)
    } else {
        s
    }
}

/// `s` without its trailing characters that `strips`.
pub open spec fn trim_end(s: Seq<char>, nul: bool) -> Seq<char>
    decreases s.len(),
{
    if s.len() > 0 && strips(s.last(), nul) {
        trim_end(s.drop_last(), nul)
    } else {
        s
    }
}

/// `str::trim` (whitespace) or `str::trim_matches('\0')` (NUL).
pub open spec fn trim(s: Seq<char>, nul: bool) -> Seq<char> {
    trim_end(trim_start(s, nul), nul)
}

/// Whitespace, then NUL padding, then whitespace again, trimmed from both
/// ends: tag frames are full of padding and stray whitespace.
pub open spec fn clean_text(s: Seq<char>) -> Seq<char> {
    trim(trim(trim(s, false), true), false)
}

/// The bounds within `lo..hi` of `v` that remain once `trim` is applied to
/// that range.
pub fn trim_bounds(v: &Vec<char>, lo: usize, hi: usize, nul: bool) -> (r: (usize, usize))
    requires
        lo <= hi <= v@.len(),
    ensures
        lo <= r.0 <= r.1 <= hi,
        v@.subrange(r.0 as int, r.1 as int) == trim(v@.subrange(lo as int, hi as int), nul),
{
    let mut a = lo;
    while a < hi && strips_char(v[a], nul)
        invariant
            lo <= a <= hi <= v@.len(),
            trim_start(v@.subrange(lo as int, hi as int), nul) == trim_start(
                v@.subrange(a as int, hi as int),
                nul,
            ),
        decreases hi - a,
    {
        assert(v@.subrange(a as int, hi as int).drop_first() =~= v@.subrange(a + 1, hi as int));
        a += 1;
    }
    assert(trim_start(v@.subrange(a as int, hi as int), nul) == v@.subrange(a as int, hi as int));
    let mut b = hi;
    while b > a && strips_char(v[b - 1], nul)
        invariant
            lo <= a <= b <= hi <= v@.len(),
            trim_end(v@.subrange(a as int, hi as int), nul) == trim_end(v@.subrange(a as int, b as int), nul),
        decreases b - a,
    {
        assert(v@.subrange(a as int, b as int).drop_last() =~= v@.subrange(a as int, b - 1));
        b -= 1;
    }
    (a, b)
}

/// The text of `s` with whitespace, then NUL padding, then whitespace trimmed
/// from both ends.
pub fn clean(s: &str) -> (r: String)
    ensures
        r@ == clean_text(s@),
{
    let v = chars_of(s);
    let (a1, b1) = trim_bounds(&v, 0, v.len(), false);
    assert(v@.subrange(0, v@.len() as int) =~= s@);
    let (a2, b2) = trim_bounds(&v, a1, b1, true);
    let (a3, b3) = trim_bounds(&v, a2, b2, false);
    s.substring_char(a3, b3).to_owned()
}

/// The decimal digit for `d < 10`.
pub open spec fn digit_char(d: nat) -> char {
    if d == 0 {
        '0'
    } else if d == 1 {
        '1'
    } else if d == 2 {
        '2'
    } else if d == 3 {
        '3'
    } else if d == 4 {
        '4'
    } else if d == 5 {
        '5'
    } else if d == 6 {
        '6'
    } else if d == 7 {
        '7'
    } else if d == 8 {
        '8'
    } else {
        '9'
    }
}

/// The decimal numeral of `n`, as `to_string` writes it: no sign, no leading
/// zeros.
pub open spec fn decimal(n: nat) -> Seq<char>
    decreases n,
{
    if n < 10 {
        seq![digit_char(n)]
    } else {
        decimal(n / 10).push(digit_char(n % 10))
    }
}

/// The decimal numeral of `n`.
pub fn fmt_u64(n: u64) -> (r: String)
    ensures
        r@ == decimal(n as nat),
    decreases n,
{
    let digits = "0123456789";
    proof {
        reveal_strlit("0123456789");
    }
    let d = (n % 10) as usize;
    let last = digits.substring_char(d, d + 1);
    assert(last@ =~= seq![digit_char(d as nat)]);
    if n < 10 {
        last.to_owned()
    } else {
        let mut s = fmt_u64(n / 10);
        s.append(last);
        assert(s@ =~= decimal(n as nat));
        s
    }
}

/// `"true"` or `"false"`, as `bool::to_string` writes it.
pub open spec fn bool_text(b: bool) -> Seq<char> {
    if b {
        seq!['t', 'r', 'u', 'e']
    } else {
        seq!['f', 'a', 'l', 's', 'e']
    }
}

/// `"true"` or `"false"`.
pub fn fmt_bool(b: bool) -> (r: String)
    ensures
        r@ == bool_text(b),
{
    if b {
        let s = "true";
        proof {
            reveal_strlit("true");
        }
        s.to_owned()
    } else {
        let s = "false";
        proof {
            reveal_strlit("false");
        }
        s.to_owned()
    }
}

/// The texts that `ranges` pick out of `v`.
pub open spec fn range_texts(v: Seq<char>, ranges: Seq<(usize, usize)>) -> Seq<Seq<char>> {
    ranges.map_values(|r: (usize, usize)| v.subrange(r.0 as int, r.1 as int))
}

/// Every range lies within `lo..hi`.
pub open spec fn ranges_within(ranges: Seq<(usize, usize)>, lo: int, hi: int) -> bool {
    forall|j: int| 0 <= j < ranges.len() ==> lo <= #[trigger] ranges[j].0 <= ranges[j].1 <= hi
}

/// The index of the first `c` in `s`, or `s.len()` when there is none.
pub open spec fn index_of(s: Seq<char>, c: char) -> int
    decreases s.len(),
{
    if s.len() == 0 {
        0
    } else if s[0] == c {
        0
    } else {
        1 + index_of(s.drop_first(), c)
    }
}

pub proof fn lemma_index_of(s: Seq<char>, c: char, k: int)
    requires
        0 <= k <= s.len(),
        forall|j: int| 0 <= j < k ==> s[j] != c,
        k == s.len() || s[k] == c,
    ensures
        index_of(s, c) == k,
    decreases s.len(),
{
    if s.len() > 0 && k > 0 {
        lemma_index_of(s.drop_first(), c, k - 1);
    }
}

pub proof fn lemma_index_of_bounds(s: Seq<char>, c: char)
    ensures
        0 <= index_of(s, c) <= s.len(),
    decreases s.len(),
{
    if s.len() > 0 {
        lemma_index_of_bounds(s.drop_first(), c);
    }
}

/// `s` without one trailing carriage return.
pub open spec fn strip_cr(s: Seq<char>) -> Seq<char> {
    if s.len() > 0 && s.last() == '\r' {
        s.drop_last()
    } else {
        s
    }
}

/// `str::lines`: the text split at each `\n`, a `\r` right before it
/// dropped too, with no empty last line after a final `\n`.
pub open spec fn lines(s: Seq<char>) -> Seq<Seq<char>>
    decreases s.len(),
{
    if s.len() == 0 {
        Seq::empty()
    } else {
        let n = index_of(s, '\n');
        proof {
            lemma_index_of_bounds(s, '\n');
        }
        if n < s.len() {
            seq![strip_cr(s.take(n))] + lines(s.skip(n + 1))
        } else {
            seq![s]
        }
    }
}

/// The ranges of the lines of `v`, in order.
pub fn line_ranges(v: &Vec<char>) -> (r: Vec<(usize, usize)>)
    ensures
        ranges_within(r@, 0, v@.len() as int),
        range_texts(v@, r@) == lines(v@),
{
    let mut out: Vec<(usize, usize)> = Vec::new();
    let mut start: usize = 0;
    let mut i: usize = 0;
    assert(v@.skip(0) =~= v@);
    while i < v.len()
        invariant
            start <= i <= v@.len(),
            ranges_within(out@, 0, v@.len() as int),
            lines(v@) == range_texts(v@, out@) + lines(v@.skip(start as int)),
            forall|j: int| start <= j < i ==> v@[j] != '\n',
        decreases v@.len() - i,
    {
        if v[i] == '\n' {
            let end = if i > start && v[i - 1] == '\r' {
                i - 1
            } else {
                i
            };
            let ghost rest = v@.skip(start as int);
            let ghost before = out@;
            proof {
                lemma_index_of(rest, '\n', i - start);
                assert(rest.take(i - start) =~= v@.subrange(start as int, i as int));
                assert(rest.skip(i - start + 1) =~= v@.skip(i + 1));
                assert(strip_cr(v@.subrange(start as int, i as int)) =~= v@.subrange(
                    start as int,
                    end as int,
                ));
            }
            out.push((start, end));
            proof {
                assert(range_texts(v@, out@) =~= range_texts(v@, before).push(
                    v@.subrange(start as int, end as int),
                ));
            }
            start = i + 1;
        }
        i += 1;
    }
    if start < v.len() {
        let ghost rest = v@.skip(start as int);
        let ghost before = out@;
        proof {
            lemma_index_of(rest, '\n', rest.len() as int);
            assert(rest =~= v@.subrange(start as int, v@.len() as int));
        }
        out.push((start, v.len()));
        proof {
            assert(range_texts(v@, out@) =~= range_texts(v@, before).push(rest));
        }
    } else {
        assert(v@.skip(start as int) =~= Seq::<char>::empty());
        assert(range_texts(v@, out@) + Seq::<Seq<char>>::empty() =~= range_texts(v@, out@));
    }
    out
}

/// The number of leading characters of `s` that are not whitespace.
pub open spec fn word_len(s: Seq<char>) -> int
    decreases s.len(),
{
    if s.len() == 0 || is_ws(s[0]) {
        0
    } else {
        1 + word_len(s.drop_first())
    }
}

pub proof fn lemma_word_len(s: Seq<char>, k: int)
    requires
        0 <= k <= s.len(),
        forall|j: int| 0 <= j < k ==> !is_ws(s[j]),
        k == s.len() || is_ws(s[k]),
    ensures
        word_len(s) == k,
    decreases s.len(),
{
    if s.len() > 0 && k > 0 {
        lemma_word_len(s.drop_first(), k - 1);
    }
}

pub proof fn lemma_word_len_bounds(s: Seq<char>)
    ensures
        0 <= word_len(s) <= s.len(),
        s.len() > 0 && !is_ws(s[0]) ==> word_len(s) >= 1,
    decreases s.len(),
{
    if s.len() > 0 {
        lemma_word_len_bounds(s.drop_first());
    }
}

/// `str::split_whitespace`: the maximal runs of non-whitespace characters.
pub open spec fn words(s: Seq<char>) -> Seq<Seq<char>>
    decreases s.len(),
{
    if s.len() == 0 {
        Seq::empty()
    } else if is_ws(s[0]) {
        words(s.drop_first())
    } else {
        let n = word_len(s);
        proof {
            lemma_word_len_bounds(s);
        }
        seq![s.take(n)] + words(s.skip(n))
    }
}

/// The ranges of the words of `v[lo..hi]`, in order.
pub fn word_ranges(v: &Vec<char>, lo: usize, hi: usize) -> (r: Vec<(usize, usize)>)
    requires
        lo <= hi <= v@.len(),
    ensures
        ranges_within(r@, lo as int, hi as int),
        range_texts(v@, r@) == words(v@.subrange(lo as int, hi as int)),
{
    let mut out: Vec<(usize, usize)> = Vec::new();
    let mut i: usize = lo;
    while i < hi
        invariant
            lo <= i <= hi <= v@.len(),
            ranges_within(out@, lo as int, hi as int),
            words(v@.subrange(lo as int, hi as int)) == range_texts(v@, out@) + words(
                v@.subrange(i as int, hi as int),
            ),
        decreases hi - i,
    {
        if is_whitespace(v[i]) {
            assert(v@.subrange(i as int, hi as int).drop_first() =~= v@.subrange(i + 1, hi as int));
            i += 1;
        } else {
            let mut j = i + 1;
            while j < hi && !is_whitespace(v[j])
                invariant
                    i < j <= hi <= v@.len(),
                    forall|k: int| i <= k < j ==> !is_ws(v@[k]),
                decreases hi - j,
            {
                j += 1;
            }
            let ghost rest = v@.subrange(i as int, hi as int);
            let ghost before = out@;
            proof {
                lemma_word_len(rest, j - i);
                assert(rest.take(j - i) =~= v@.subrange(i as int, j as int));
                assert(rest.skip(j - i) =~= v@.subrange(j as int, hi as int));
            }
            out.push((i, j));
            proof {
                assert(range_texts(v@, out@) =~= range_texts(v@, before).push(
                    v@.subrange(i as int, j as int),
                ));
            }
            i = j;
        }
    }
    assert(v@.subrange(i as int, hi as int) =~= Seq::<char>::empty());
    assert(range_texts(v@, out@) + Seq::<Seq<char>>::empty() =~= range_texts(v@, out@));
    out
}

/// `pat` occurs in `s` starting at index `i`.
pub open spec fn occurs_at(s: Seq<char>, pat: Seq<char>, i: int) -> bool {
    0 <= i && i + pat.len() <= s.len() && s.subrange(i, i + pat.len()) == pat
}

/// `pat` occurs somewhere in `s`.
pub open spec fn contains_text(s: Seq<char>, pat: Seq<char>) -> bool {
    exists|i: int| occurs_at(s, pat, i)
}

/// The index of the first occurrence of `pat` in `s`, when there is one.
pub open spec fn first_occurrence(s: Seq<char>, pat: Seq<char>) -> int {
    choose|i: int| occurs_at(s, pat, i) && forall|j: int| 0 <= j < i ==> !#[trigger] occurs_at(s, pat, j)
}

/// Occurrences within a range are occurrences in the text cut down to it.
pub proof fn lemma_occurs_within(v: Seq<char>, pat: Seq<char>, a: int, b: int, i: int)
    requires
        0 <= a <= i,
        a <= b <= v.len(),
    ensures
        occurs_at(v.subrange(0, b), pat, i) == occurs_at(v.subrange(a, b), pat, i - a),
{
    if i + pat.len() <= b {
        assert(v.subrange(0, b).subrange(i, i + pat.len()) =~= v.subrange(a, b).subrange(
            i - a,
            i - a + pat.len(),
        ));
    }
}

/// The first occurrence of `pat` in `v[lo..hi]`, as an index into `v`.
pub fn find_in(v: &Vec<char>, pat: &Vec<char>, lo: usize, hi: usize) -> (r: Option<usize>)
    requires
        lo <= hi <= v@.len(),
    ensures
        r is None <==> !contains_text(v@.subrange(lo as int, hi as int), pat@),
        r matches Some(i) ==> lo <= i && i - lo == first_occurrence(
            v@.subrange(lo as int, hi as int),
            pat@,
        ) && occurs_at(v@.subrange(lo as int, hi as int), pat@, i - lo),
{
    let ghost s = v@.subrange(lo as int, hi as int);
    let r = find_from(v, pat, lo, hi);
    proof {
        assert forall|j: int| 0 <= j < (match r {
            Some(i) => i - lo,
            None => hi - lo + 1,
        }) implies !#[trigger] occurs_at(s, pat@, j) by {
            lemma_occurs_within(v@, pat@, lo as int, hi as int, j + lo);
        }
        match r {
            Some(i) => {
                lemma_occurs_within(v@, pat@, lo as int, hi as int, i as int);
                let k = first_occurrence(s, pat@);
                assert(occurs_at(s, pat@, k) && forall|j: int| 0 <= j < k ==> !#[trigger] occurs_at(s, pat@, j));
                if k < i - lo {
                } else if k > i - lo {
                    assert(!occurs_at(s, pat@, i - lo));
                }
            },
            None => {
                if contains_text(s, pat@) {
                    let k = choose|k: int| occurs_at(s, pat@, k);
                    assert(k <= hi - lo);
                }
            },
        }
    }
    r
}

/// Whether `pat` occurs in `v` at index `i`.
pub fn matches_at(v: &Vec<char>, pat: &Vec<char>, i: usize, hi: usize) -> (b: bool)
    requires
        i <= hi <= v@.len(),
    ensures
        b == occurs_at(v@.subrange(0, hi as int), pat@, i as int),
{
    if pat.len() > hi - i {
        return false;
    }
    let mut k: usize = 0;
    while k < pat.len()
        invariant
            i + pat@.len() <= hi <= v@.len(),
            k <= pat@.len(),
            forall|k2: int| 0 <= k2 < k ==> v@[i + k2] == pat@[k2],
        decreases pat.len() - k,
    {
        if v[i + k] != pat[k] {
            assert(v@.subrange(0, hi as int).subrange(i as int, i + pat@.len())[k as int] != pat@[k as int]);
            return false;
        }
        k += 1;
    }
    assert(v@.subrange(0, hi as int).subrange(i as int, i + pat@.len()) =~= pat@);
    true
}

/// The first index at or after `lo` at which `pat` occurs in `v[..hi]`.
pub fn find_from(v: &Vec<char>, pat: &Vec<char>, lo: usize, hi: usize) -> (r: Option<usize>)
    requires
        lo <= hi <= v@.len(),
    ensures
        r matches Some(i) ==> lo <= i && occurs_at(v@.subrange(0, hi as int), pat@, i as int),
        forall|j: int|
            lo <= j < (match r {
                Some(i) => i as int,
                None => hi as int + 1,
            }) ==> !#[trigger] occurs_at(v@.subrange(0, hi as int), pat@, j),
{
    let mut i = lo;
    while i < hi
        invariant
            lo <= i <= hi,
            hi <= v@.len(),
            forall|j: int| lo <= j < i ==> !#[trigger] occurs_at(v@.subrange(0, hi as int), pat@, j),
        decreases hi - i,
    {
        if matches_at(v, pat, i, hi) {
            return Some(i);
        }
        i += 1;
    }
    if matches_at(v, pat, hi, hi) {
        Some(hi)
    } else {
        None
    }
}

/// Whether `s` begins with `pat`.
pub fn starts_with(s: &str, pat: &str) -> (b: bool)
    ensures
        b == (pat@.len() <= s@.len() && s@.take(pat@.len() as int) == pat@),
{
    let v = chars_of(s);
    let p = chars_of(pat);
    let b = matches_at(&v, &p, 0, v.len());
    assert(v@.subrange(0, v@.len() as int) =~= v@);
    proof {
        if pat@.len() <= s@.len() {
            assert(s@.take(pat@.len() as int) =~= s@.subrange(0, pat@.len() as int));
        }
    }
    b
}

/// Whether `s` ends with `pat`.
pub fn ends_with(s: &str, pat: &str) -> (b: bool)
    ensures
        b == (pat@.len() <= s@.len() && s@.skip(s@.len() - pat@.len()) == pat@),
{
    let v = chars_of(s);
    let p = chars_of(pat);
    if p.len() > v.len() {
        return false;
    }
    let b = matches_at(&v, &p, v.len() - p.len(), v.len());
    assert(v@.subrange(0, v@.len() as int) =~= v@);
    assert(s@.skip(s@.len() - pat@.len()) =~= s@.subrange(s@.len() - pat@.len(), s@.len() as int));
    b
}

/// `s` without its trailing `*` and `/` characters.
pub open spec fn trim_end_comment(s: Seq<char>) -> Seq<char>
    decreases s.len(),
{
    if s.len() > 0 && (s.last() == '*' || s.last() == '/') {
        trim_end_comment(s.drop_last())
    } else {
        s
    }
}

/// Whether `c` occurs in `s`.
pub fn contains_char(s: &str, c: char) -> (b: bool)
    ensures
        b == s@.contains(c),
{
    let v = chars_of(s);
    let mut i: usize = 0;
    while i < v.len()
        invariant
            v@ == s@,
            i <= v@.len(),
            forall|j: int| 0 <= j < i ==> v@[j] != c,
        decreases v.len() - i,
    {
        if v[i] == c {
            return true;
        }
        i += 1;
    }
    false
}

/// `std::str::from_utf8(bytes).ok()`: the text the bytes encode when they are
/// valid UTF-8, `None` otherwise. The contract claims std's notion of valid
/// UTF-8 is vstd's `valid_utf8` and that the text is `decode_utf8` of the bytes.
#[verifier::external_body]
pub(crate) fn utf8_text(bytes: &[u8]) -> (r: Option<&str>)
    ensures
        r is Some <==> valid_utf8(bytes@),
        r matches Some(s) ==> s@ == decode_utf8(bytes@),
{
    std::str::from_utf8(bytes).ok()
}

/// What `String::from_utf8_lossy` makes of `bytes`.
pub uninterp spec fn utf8_lossy(bytes: Seq<u8>) -> Seq<char>;

/// `String::from_utf8_lossy(bytes)`: the bytes decoded as UTF-8, each invalid
/// sequence replaced by U+FFFD. The contract names the result and claims only
/// what std documents: valid UTF-8 comes through unchanged.
#[verifier::external_body]
pub(crate) fn lossy_text(bytes: &[u8]) -> (r: String)
    ensures
        r@ == utf8_lossy(bytes@),
        valid_utf8(bytes@) ==> r@ == decode_utf8(bytes@),
{
    String::from_utf8_lossy(bytes).into_owned()
}

/// The index, at or after `lo`, of the first `c` in `v[lo..hi]`, or `hi`.
pub fn find_char(v: &Vec<char>, c: char, lo: usize, hi: usize) -> (r: usize)
    requires
        lo <= hi <= v@.len(),
    ensures
        lo <= r <= hi,
        r - lo == index_of(v@.subrange(lo as int, hi as int), c),
{
    let mut i = lo;
    while i < hi && v[i] != c
        invariant
            lo <= i <= hi <= v@.len(),
            forall|j: int| lo <= j < i ==> v@[j] != c,
        decreases hi - i,
    {
        i += 1;
    }
    proof {
        lemma_index_of(v@.subrange(lo as int, hi as int), c, i - lo);
    }
    i
}

/// What `str::to_lowercase` makes of `s`.
pub uninterp spec fn lowercase(s: Seq<char>) -> Seq<char>;

/// `str::to_lowercase(s)`: the Unicode lowercase of `s`. The contract only
/// names the result; the Unicode case tables are not restated here.
#[verifier::external_body]
pub(crate) fn to_lowercase(s: &str) -> (r: String)
    ensures
        r@ == lowercase(s@),
{
    s.to_lowercase()
}

/// `c` with ASCII upper case mapped to lower case, as a code point.
pub open spec fn ascii_fold(c: char) -> int {
    if 'A' <= c <= 'Z' {
        (c as u32) + 32
    } else {
        (c as u32) as int
    }
}

/// `str::eq_ignore_ascii_case`: equal once ASCII letters are case-folded.
pub open spec fn eq_ascii_ci(a: Seq<char>, b: Seq<char>) -> bool {
    a.len() == b.len() && forall|i: int| 0 <= i < a.len() ==> ascii_fold(#[trigger] a[i]) == ascii_fold(b[i])
}

/// Whether `a` and `b` are equal ignoring ASCII case.
pub fn eq_ignore_ascii_case(a: &str, b: &str) -> (r: bool)
    ensures
        r == eq_ascii_ci(a@, b@),
{
    broadcast use vstd::utf8::char_is_scalar;

    let va = chars_of(a);
    let vb = chars_of(b);
    if va.len() != vb.len() {
        return false;
    }
    let mut i: usize = 0;
    while i < va.len()
        invariant
            va@ == a@,
            vb@ == b@,
            va@.len() == vb@.len(),
            i <= va@.len(),
            forall|j: int| 0 <= j < i ==> ascii_fold(#[trigger] va@[j]) == ascii_fold(vb@[j]),
        decreases va.len() - i,
    {
        let x = va[i];
        let y = vb[i];
        let fx: u32 = if 'A' <= x && x <= 'Z' {
            (x as u32) + 32
        } else {
            x as u32
        };
        let fy: u32 = if 'A' <= y && y <= 'Z' {
            (y as u32) + 32
        } else {
            y as u32
        };
        if fx != fy {
            assert(ascii_fold(a@[i as int]) != ascii_fold(b@[i as int]));
            return false;
        }
        i += 1;
    }
    true
}

/// The strings of `items`, owned.
pub fn strings(items: &[&str]) -> (r: Vec<String>)
    ensures
        r@.len() == items@.len(),
        forall|i: int| 0 <= i < items@.len() ==> #[trigger] r@[i]@ == items@[i]@,
{
    let mut r: Vec<String> = Vec::new();
    let mut i: usize = 0;
    while i < items.len()
        invariant
            i <= items@.len(),
            r@.len() == i,
            forall|j: int| 0 <= j < i ==> #[trigger] r@[j]@ == items@[j]@,
        decreases items.len() - i,
    {
        r.push(items[i].to_owned());
        i += 1;
    }
    r
}

/// Whether every byte is ASCII.
pub fn bytes_are_ascii(bytes: &[u8]) -> (b: bool)
    ensures
        b == forall|i: int| 0 <= i < bytes@.len() ==> bytes@[i] < 128,
{
    let mut i: usize = 0;
    while i < bytes.len()
        invariant
            i <= bytes@.len(),
            forall|j: int| 0 <= j < i ==> bytes@[j] < 128,
        decreases bytes.len() - i,
    {
        if bytes[i] >= 128 {
            return false;
        }
        i += 1;
    }
    true
}

/// The index of the last `c` in `s`, or `-1` when there is none.
pub open spec fn last_index_of(s: Seq<char>, c: char) -> int
    decreases s.len(),
{
    if s.len() == 0 {
        -1
    } else if s.last() == c {
        s.len() - 1
    } else {
        last_index_of(s.drop_last(), c)
    }
}

pub proof fn lemma_last_index_of(s: Seq<char>, c: char, k: int)
    requires
        -1 <= k < s.len(),
        k >= 0 ==> s[k] == c,
        forall|j: int| k < j < s.len() ==> s[j] != c,
    ensures
        last_index_of(s, c) == k,
    decreases s.len(),
{
    if s.len() > 0 && k < s.len() - 1 {
        lemma_last_index_of(s.drop_last(), c, k);
    }
}

/// `Path::file_name` on a Unix path: its last component, with empty and `.`
/// components skipped, or `None` when that component is `..` or there is
/// none (as for `/` or `.`).
pub open spec fn file_name(p: Seq<char>) -> Option<Seq<char>>
    decreases p.len(),
{
    if p.len() == 0 {
        None
    } else if p.last() == '/' {
        file_name(p.drop_last())
    } else {
        let start = last_index_of(p, '/') + 1;
        if 0 <= start < p.len() && p.skip(start) == seq!['.'] {
            file_name(p.take(start))
        } else if p.skip(start) == seq!['.', '.'] {
            None
        } else {
            Some(p.skip(start))
        }
    }
}

/// The last component of `path` (`Path::file_name`), or the whole of `path`
/// when it has none.
pub open spec fn base_name(path: Seq<char>) -> Seq<char> {
    match file_name(path) {
        Some(n) => n,
        None => path,
    }
}

/// The bounds of `file_name(path)` within `path`, if it has one.
pub fn file_name_bounds(v: &Vec<char>) -> (r: Option<(usize, usize)>)
    ensures
        r is None ==> file_name(v@) is None,
        r matches Some(b) ==> b.0 <= b.1 <= v@.len() && file_name(v@) == Some(
            v@.subrange(b.0 as int, b.1 as int),
        ),
{
    let mut hi = v.len();
    assert(v@.take(hi as int) =~= v@);
    loop
        invariant
            hi <= v@.len(),
            file_name(v@) == file_name(v@.take(hi as int)),
        decreases hi,
    {
        if hi == 0 {
            return None;
        }
        if v[hi - 1] == '/' {
            assert(v@.take(hi as int).drop_last() =~= v@.take(hi - 1));
            hi -= 1;
        } else {
            let mut start = hi;
            while start > 0 && v[start - 1] != '/'
                invariant
                    start <= hi <= v@.len(),
                    forall|j: int| start <= j < hi ==> v@[j] != '/',
                decreases start,
            {
                start -= 1;
            }
            let ghost p = v@.take(hi as int);
            proof {
                lemma_last_index_of(p, '/', start - 1);
                assert(p.skip(start as int) =~= v@.subrange(start as int, hi as int));
            }
            if hi - start == 1 && v[start] == '.' {
                assert(p.skip(start as int) =~= seq!['.']);
                assert(p.take(start as int) =~= v@.take(start as int));
                hi = start;
            } else if hi - start == 2 && v[start] == '.' && v[start + 1] == '.' {
                assert(p.skip(start as int) =~= seq!['.', '.']);
                return None;
            } else {
                proof {
                    if p.skip(start as int) == seq!['.'] {
                        assert(p.skip(start as int)[0] == v@[start as int]);
                    }
                    if p.skip(start as int) == seq!['.', '.'] {
                        assert(p.skip(start as int)[0] == v@[start as int]);
                        assert(p.skip(start as int)[1] == v@[start + 1]);
                    }
                }
                return Some((start, hi));
            }
        }
    }
}

/// The last component of `path`, or `path` itself when it has none.
pub fn basename(path: &str) -> (r: &str)
    ensures
        r@ == base_name(path@),
{
    let v = chars_of(path);
    match file_name_bounds(&v) {
        Some((a, b)) => path.substring_char(a, b),
        None => path,
    }
}

} // verus!
