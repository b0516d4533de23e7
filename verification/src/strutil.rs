//! Character-level string utilities shared by the rule and marker parsers:
//! conversions between strings and character vectors, whitespace
//! tokenization, substring search, and ASCII case-insensitive comparison.

use vstd::prelude::*;

verus! {

/// Relies on `String::push`: appends the given character to the end of the
/// string.
pub assume_specification[ String::push ](s: &mut String, c: char)
    ensures
        final(s)@ == old(s)@.push(c),
;

/// The characters this library treats as token-separating whitespace.
pub open spec fn is_space(c: char) -> bool {
    c == ' ' || c == '\t' || c == '\n' || c == '\r' || c == '\u{b}' || c == '\u{c}'
}

/// Runtime test for [`is_space`].
pub fn is_space_char(c: char) -> (r: bool)
    ensures
        r == is_space(c),
{
    c == ' ' || c == '\t' || c == '\n' || c == '\r' || c == '\u{b}' || c == '\u{c}'
}

/// Collects the characters of a string slice into a vector.
pub fn str_to_chars(s: &str) -> (r: Vec<char>)
    ensures
        r@ == s@,
{
    let n = s.unicode_len();
    let mut r: Vec<char> = Vec::new();
    let mut i: usize = 0;
    while i < n
        invariant
            i <= n,
            n == s@.len(),
            r@ == s@.take(i as int),
        decreases n - i,
    {
        r.push(s.get_char(i));
        i = i + 1;
        proof {
            assert(r@ =~= s@.take(i as int));
        }
    }
    proof {
        assert(s@.take(n as int) =~= s@);
    }
    r
}

/// Builds a string from a vector of characters.
pub fn chars_to_string(cs: &Vec<char>) -> (r: String)
    ensures
        r@ == cs@,
{
    let mut r = String::new();
    let mut i: usize = 0;
    while i < cs.len()
        invariant
            i <= cs.len(),
            r@ == cs@.take(i as int),
        decreases cs.len() - i,
    {
        r.push(cs[i]);
        i = i + 1;
        proof {
            assert(r@ =~= cs@.take(i as int));
        }
    }
    proof {
        assert(cs@.take(cs@.len() as int) =~= cs@);
    }
    r
}

/// Builds a string from a range of a character vector.
pub fn chars_range_to_string(cs: &Vec<char>, from: usize, to: usize) -> (r: String)
    requires
        from <= to <= cs@.len(),
    ensures
        r@ == cs@.subrange(from as int, to as int),
{
    let mut r = String::new();
    let mut i: usize = from;
    while i < to
        invariant
            from <= i <= to <= cs@.len(),
            r@ == cs@.subrange(from as int, i as int),
        decreases to - i,
    {
        r.push(cs[i]);
        i = i + 1;
        proof {
            assert(r@ =~= cs@.subrange(from as int, i as int));
        }
    }
    r
}

/// Character-wise equality of a string and a literal.
pub fn string_eq_str(s: &String, lit: &str) -> (r: bool)
    ensures
        r == (s@ == lit@),
{
    let a = s.as_str();
    let n = a.unicode_len();
    if n != lit.unicode_len() {
        return false;
    }
    let mut i: usize = 0;
    while i < n
        invariant
            i <= n,
            n == a@.len() == lit@.len(),
            a@ == s@,
            forall|j: int| 0 <= j < i ==> a@[j] == lit@[j],
        decreases n - i,
    {
        if a.get_char(i) != lit.get_char(i) {
            return false;
        }
        i = i + 1;
    }
    proof {
        assert(s@ =~= lit@);
    }
    true
}

/// Number of occurrences of `c` in `s`.
pub open spec fn count_char(s: Seq<char>, c: char) -> nat
    decreases s.len(),
{
    if s.len() == 0 {
        0
    } else {
        (if s[0] == c {
            1nat
        } else {
            0nat
        }) + count_char(s.drop_first(), c)
    }
}

/// A character occurs at most once per position.
pub proof fn lemma_count_char_bound(s: Seq<char>, c: char)
    ensures
        count_char(s, c) <= s.len(),
    decreases s.len(),
{
    if s.len() > 0 {
        lemma_count_char_bound(s.drop_first(), c);
    }
}

/// Occurrences of `c` in the suffix of `cs` starting at `from`.
pub fn count_char_from(cs: &Vec<char>, from: usize, c: char) -> (n: usize)
    requires
        from <= cs@.len(),
    ensures
        n == count_char(cs@.skip(from as int), c),
    decreases cs@.len() - from,
{
    if from == cs.len() {
        proof {
            assert(cs@.skip(from as int) =~= Seq::<char>::empty());
        }
        0
    } else {
        let rest = count_char_from(cs, from + 1, c);
        proof {
            assert(cs@.skip(from as int).drop_first() =~= cs@.skip(from as int + 1));
            assert(cs@.skip(from as int)[0] == cs@[from as int]);
            lemma_count_char_bound(cs@.skip(from as int + 1), c);
        }
        if cs[from] == c {
            rest + 1
        } else {
            rest
        }
    }
}

/// The ASCII-lowercase code of a character: `A`..`Z` map to `a`..`z`, all
/// other characters are unchanged.
pub open spec fn ascii_lower(c: char) -> u32 {
    if 'A' <= c && c <= 'Z' {
        (c as u32 + 32) as u32
    } else {
        c as u32
    }
}

/// Runtime computation of [`ascii_lower`].
pub fn ascii_lower_code(c: char) -> (r: u32)
    ensures
        r == ascii_lower(c),
{
    let v = c as u32;
    if 65 <= v && v <= 90 {
        v + 32
    } else {
        v
    }
}

/// Equality up to ASCII case.
pub open spec fn eq_ignore_ascii_case(a: Seq<char>, b: Seq<char>) -> bool {
    a.len() == b.len() && forall|i: int| 0 <= i < a.len() ==> ascii_lower(a[i]) == ascii_lower(b[i])
}

/// Character-wise ASCII case-insensitive comparison of a string range with a
/// literal.
pub fn range_eq_ignore_case(cs: &Vec<char>, from: usize, to: usize, lit: &str) -> (r: bool)
    requires
        from <= to <= cs@.len(),
    ensures
        r == eq_ignore_ascii_case(cs@.subrange(from as int, to as int), lit@),
{
    let n = lit.unicode_len();
    if to - from != n {
        return false;
    }
    let mut i: usize = 0;
    while i < n
        invariant
            i <= n,
            from + n <= to + n,
            to == from + n,
            to <= cs@.len(),
            n == lit@.len(),
            forall|j: int|
                0 <= j < i ==> ascii_lower(cs@.subrange(from as int, to as int)[j]) == ascii_lower(
                    lit@[j],
                ),
        decreases n - i,
    {
        proof {
            assert(cs@.subrange(from as int, to as int)[i as int] == cs@[from + i]);
        }
        if ascii_lower_code(cs[from + i]) != ascii_lower_code(lit.get_char(i)) {
            return false;
        }
        i = i + 1;
    }
    true
}

/// Whitespace tokenization, processing `s` left to right with `cur` the
/// token accumulated so far: tokens are the maximal runs of non-space
/// characters.
pub open spec fn split_ws_acc(s: Seq<char>, cur: Seq<char>) -> Seq<Seq<char>>
    decreases s.len(),
{
    if s.len() == 0 {
        if cur.len() == 0 {
            Seq::empty()
        } else {
            seq![cur]
        }
    } else if is_space(s[0]) {
        if cur.len() == 0 {
            split_ws_acc(s.drop_first(), Seq::empty())
        } else {
            seq![cur] + split_ws_acc(s.drop_first(), Seq::empty())
        }
    } else {
        split_ws_acc(s.drop_first(), cur.push(s[0]))
    }
}

/// The whitespace-separated tokens of `s`.
pub open spec fn split_ws(s: Seq<char>) -> Seq<Seq<char>> {
    split_ws_acc(s, Seq::empty())
}

/// Splits a character vector into its whitespace-separated tokens.
pub fn split_whitespace(cs: &Vec<char>) -> (r: Vec<String>)
    ensures
        r.deep_view() == split_ws(cs@),
{
    let mut r: Vec<String> = Vec::new();
    let mut cur: Vec<char> = Vec::new();
    let mut i: usize = 0;
    proof {
        assert(cs@.skip(0) =~= cs@);
        assert(r.deep_view() + split_ws_acc(cs@, cur@) =~= split_ws(cs@));
    }
    while i < cs.len()
        invariant
            i <= cs@.len(),
            r.deep_view() + split_ws_acc(cs@.skip(i as int), cur@) =~= split_ws(cs@),
        decreases cs@.len() - i,
    {
        let ghost pre = cs@.skip(i as int);
        let ghost r0 = r.deep_view();
        let ghost cur0 = cur@;
        proof {
            assert(pre[0] == cs@[i as int]);
            assert(pre.drop_first() =~= cs@.skip(i as int + 1));
        }
        let c = cs[i];
        if is_space_char(c) {
            if cur.len() > 0 {
                let tok = chars_to_string(&cur);
                r.push(tok);
                cur = Vec::new();
                proof {
                    assert(cur@ =~= Seq::<char>::empty());
                    assert(r.deep_view() =~= r0.push(cur0));
                    assert(split_ws_acc(pre, cur0) == seq![cur0] + split_ws_acc(
                        cs@.skip(i as int + 1),
                        cur@,
                    ));
                    assert(r0.push(cur0) + split_ws_acc(cs@.skip(i as int + 1), cur@) =~= r0 + (
                    seq![cur0] + split_ws_acc(cs@.skip(i as int + 1), cur@)));
                }
            } else {
                proof {
                    assert(cur0 =~= Seq::<char>::empty());
                    assert(split_ws_acc(pre, cur0) == split_ws_acc(
                        cs@.skip(i as int + 1),
                        Seq::empty(),
                    ));
                    assert(cur@ =~= Seq::<char>::empty());
                }
            }
        } else {
            cur.push(c);
            proof {
                assert(cur@ =~= cur0.push(c));
                assert(split_ws_acc(pre, cur0) == split_ws_acc(
                    cs@.skip(i as int + 1),
                    cur0.push(c),
                ));
            }
        }
        i = i + 1;
    }
    proof {
        assert(cs@.skip(cs@.len() as int) =~= Seq::<char>::empty());
    }
    if cur.len() > 0 {
        let tok = chars_to_string(&cur);
        r.push(tok);
    }
    proof {
        assert(r.deep_view() =~= split_ws(cs@));
    }
    r
}

/// Element-wise equality of two byte vectors.
pub fn bytes_eq(a: &Vec<u8>, b: &Vec<u8>) -> (r: bool)
    ensures
        r == (a@ == b@),
{
    if a.len() != b.len() {
        return false;
    }
    let mut i: usize = 0;
    while i < a.len()
        invariant
            i <= a@.len(),
            a@.len() == b@.len(),
            forall|j: int| 0 <= j < i ==> a@[j] == b@[j],
        decreases a@.len() - i,
    {
        if a[i] != b[i] {
            return false;
        }
        i = i + 1;
    }
    proof {
        assert(a@ =~= b@);
    }
    true
}

/// Number of characters in a string.
pub fn string_len(s: &String) -> (n: usize)
    ensures
        n == s@.len(),
{
    s.as_str().unicode_len()
}

/// Whether the string starts with the character `c`.
pub fn first_char_is(s: &String, c: char) -> (r: bool)
    ensures
        r == (s@.len() > 0 && s@[0] == c),
{
    let a = s.as_str();
    if a.unicode_len() == 0 {
        false
    } else {
        a.get_char(0) == c
    }
}

/// `pat` occurs in `s` at position `i`.
pub open spec fn occurs_at(s: Seq<char>, pat: Seq<char>, i: int) -> bool {
    0 <= i && i + pat.len() <= s.len() && s.subrange(i, i + pat.len()) == pat
}

/// Position of the first occurrence of `pat` in `cs`, if any.
pub fn find_first(cs: &Vec<char>, pat: &str) -> (r: Option<usize>)
    ensures
        match r {
            Some(i) => occurs_at(cs@, pat@, i as int) && forall|j: int|
                0 <= j < i ==> !occurs_at(cs@, pat@, j),
            None => forall|j: int| !occurs_at(cs@, pat@, j),
        },
{
    let m = pat.unicode_len();
    if m > cs.len() {
        return None;
    }
    let mut i: usize = 0;
    while i <= cs.len() - m
        invariant
            m == pat@.len(),
            m <= cs@.len() <= usize::MAX,
            i <= cs@.len() - m + 1,
            forall|j: int| 0 <= j < i ==> !occurs_at(cs@, pat@, j),
        decreases cs@.len() - m + 1 - i,
    {
        let mut k: usize = 0;
        let mut hit = true;
        while k < m
            invariant
                m == pat@.len(),
                i + m <= cs@.len() <= usize::MAX,
                k <= m,
                hit == (forall|t: int| 0 <= t < k ==> cs@[i + t] == pat@[t]),
            decreases m - k,
        {
            if cs[i + k] != pat.get_char(k) {
                hit = false;
                proof {
                    assert(cs@[i + k as int] != pat@[k as int]);
                }
                k = m;
            } else {
                k = k + 1;
            }
        }
        if hit {
            proof {
                assert(cs@.subrange(i as int, i + pat@.len()) =~= pat@);
            }
            return Some(i);
        }
        proof {
            assert(!occurs_at(cs@, pat@, i as int)) by {
                if occurs_at(cs@, pat@, i as int) {
                    assert(forall|t: int|
                        0 <= t < m ==> #[trigger] cs@.subrange(i as int, i + pat@.len())[t] == cs@[i
                            + t]);
                }
            }
        }
        i = i + 1;
    }
    proof {
        assert(forall|j: int| !occurs_at(cs@, pat@, j) ==> true);
        assert forall|j: int| !occurs_at(cs@, pat@, j) by {
            if occurs_at(cs@, pat@, j) {
                assert(0 <= j < i);
            }
        }
    }
    None
}

} // verus!
