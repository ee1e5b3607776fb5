//! Wildcard patterns on tag values, as used by dependency filters.
use vstd::prelude::*;
use wildmatch::WildMatch;

verus! {

/// `pattern` matches the whole of `value`: `?` matches exactly one character,
/// `*` matches any run of characters (the empty run included), and every
/// other character matches only itself. There are no escapes.
pub open spec fn glob_matches(pattern: Seq<char>, value: Seq<char>) -> bool
    decreases pattern.len() + value.len(),
{
    if pattern.len() == 0 {
        value.len() == 0
    } else if pattern[0] == '*' {
        glob_matches(pattern.drop_first(), value) || (value.len() > 0 && glob_matches(
            pattern,
            value.drop_first(),
        ))
    } else {
        value.len() > 0 && (pattern[0] == '?' || pattern[0] == value[0]) && glob_matches(
            pattern.drop_first(),
            value.drop_first(),
        )
    }
}

/// `wildmatch::WildMatch::new(pattern).matches(value)`: the case-sensitive
/// wildcard match of the crate, whose documentation gives `?` as exactly one
/// character and `*` as any number of characters (none included), the match
/// covering the whole input. This contract claims the crate computes exactly
/// `glob_matches`.
#[verifier::external_body]
pub(crate) fn wildcard_match(pattern: &str, value: &str) -> (b: bool)
    ensures
        b == glob_matches(pattern@, value@),
{
    WildMatch::new(pattern).matches(value)
}

/// A pattern without wildcards matches exactly itself.
pub proof fn lemma_literal_pattern(pattern: Seq<char>, value: Seq<char>)
    requires
        forall|i: int| 0 <= i < pattern.len() ==> pattern[i] != '*' && pattern[i] != '?',
    ensures
        glob_matches(pattern, value) <==> pattern == value,
    decreases pattern.len(),
{
    if pattern.len() > 0 && value.len() > 0 {
        assert(pattern[0] != '*' && pattern[0] != '?');
        lemma_literal_pattern(pattern.drop_first(), value.drop_first());
        if pattern[0] == value[0] && pattern.drop_first() == value.drop_first() {
            assert forall|i: int| 0 <= i < pattern.len() implies pattern[i] == value[i] by {
                if i > 0 {
                    assert(pattern[i] == pattern.drop_first()[i - 1]);
                    assert(value[i] == value.drop_first()[i - 1]);
                }
            }
            assert(pattern =~= value);
        }
        if pattern == value {
            assert(pattern.drop_first() =~= value.drop_first());
        }
    } else if pattern.len() == 0 && value.len() == 0 {
        assert(pattern =~= value);
    }
}

/// A lone `*` matches every value.
pub proof fn lemma_star_matches_all(value: Seq<char>)
    ensures
        glob_matches(seq!['*'], value),
    decreases value.len(),
{
    let p = seq!['*'];
    assert(p.drop_first() =~= Seq::<char>::empty());
    assert(p.len() == 1 && p[0] == '*');
    if value.len() > 0 {
        lemma_star_matches_all(value.drop_first());
        assert(glob_matches(p, value.drop_first()));
    } else {
        assert(glob_matches(p.drop_first(), value));
    }
}

/// A pattern ending in `*` matches every value that starts with the part
/// before the star, when that part has no wildcards: `image/*` matches every
/// value beginning `image/`.
pub proof fn lemma_prefix_pattern(prefix: Seq<char>, value: Seq<char>)
    requires
        forall|i: int| 0 <= i < prefix.len() ==> prefix[i] != '*' && prefix[i] != '?',
    ensures
        glob_matches(prefix.push('*'), value) <==> value.len() >= prefix.len() && value.take(
            prefix.len() as int,
        ) == prefix,
    decreases prefix.len(),
{
    if prefix.len() == 0 {
        assert(prefix.push('*') =~= seq!['*']);
        lemma_star_matches_all(value);
        assert(value.take(0) =~= prefix);
    } else {
        assert(prefix.push('*').drop_first() =~= prefix.drop_first().push('*'));
        lemma_prefix_pattern(prefix.drop_first(), value.drop_first());
        if value.len() >= prefix.len() && value.take(prefix.len() as int) == prefix {
            assert(value[0] == prefix[0]);
            assert(value.drop_first().take(prefix.len() - 1) =~= prefix.drop_first());
        }
        if glob_matches(prefix.push('*'), value) {
            assert(value.take(prefix.len() as int) =~= seq![value[0]] + value.drop_first().take(
                prefix.len() - 1,
            ));
            assert(prefix =~= seq![prefix[0]] + prefix.drop_first());
        }
    }
}

} // verus!
