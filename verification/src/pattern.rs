//! Normalization of ownership-rule patterns.
//!
//! A pattern that ends in `/` names a directory; it is rewritten to end in
//! `/**` so that it matches everything beneath that directory recursively.
//! A pattern already ending in `*/` or `**/` is left alone, as is every
//! other pattern.

use vstd::prelude::*;

verus! {

/// What normalization yields: a pattern ending in `/` whose previous
/// character is not `*` gains a trailing `**`; all others are unchanged.
/// (A pattern ending in `**/` also ends in `*/`, so excluding `*/` excludes
/// both globbed forms.)
pub open spec fn normalize_pattern_spec(p: Seq<char>) -> Seq<char> {
    if p.len() >= 1 && p[p.len() - 1] == '/' && !(p.len() >= 2 && p[p.len() - 2] == '*') {
        p + seq!['*', '*']
    } else {
        p
    }
}

/// Rewrites a bare directory pattern (ending in `/`, but not `*/` or `**/`)
/// to append `**`; leaves every other pattern unchanged.
pub fn normalize_codeowners_pattern(pattern: &str) -> (r: String)
    ensures
        r@ == normalize_pattern_spec(pattern@),
{
    let n = pattern.unicode_len();
    let needs_glob = if n >= 1 {
        if pattern.get_char(n - 1) == '/' {
            if n >= 2 {
                pattern.get_char(n - 2) != '*'
            } else {
                true
            }
        } else {
            false
        }
    } else {
        false
    };
    let mut r = String::from_str(pattern);
    if needs_glob {
        proof {
            reveal_strlit("**");
        }
        r.append("**");
        proof {
            assert(r@ =~= normalize_pattern_spec(pattern@));
        }
    }
    r
}

/// Normalization is idempotent: applying it to an already normalized
/// pattern changes nothing.
pub proof fn lemma_normalize_pattern_idempotent(p: Seq<char>)
    ensures
        normalize_pattern_spec(normalize_pattern_spec(p)) == normalize_pattern_spec(p),
{
    let q = normalize_pattern_spec(p);
    if q != p {
        assert(q[q.len() - 1] == '*');
    }
}

} // verus!
