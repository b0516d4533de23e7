//! The rule parser: classifies owner tokens and turns the lines of a rule
//! file into [`CodeownersEntry`] values.
//!
//! A rule line reads `<pattern> <owner>... [#tag...] [# free comment]`.
//! Blank lines and lines whose first token starts with `#` declare nothing.

use vstd::prelude::*;

use crate::strutil::chars_range_to_string;
use crate::strutil::chars_to_string;
use crate::strutil::count_char;
use crate::strutil::count_char_from;
use crate::strutil::eq_ignore_ascii_case;
use crate::strutil::first_char_is;
use crate::strutil::range_eq_ignore_case;
use crate::strutil::split_whitespace;
use crate::strutil::split_ws;
use crate::strutil::str_to_chars;
use crate::strutil::string_len;
use crate::types::CodeownersEntry;
use crate::types::EntryV;
use crate::types::Error;
use crate::types::Owner;
use crate::types::OwnerType;
use crate::types::OwnerV;
use crate::types::Tag;

verus! {

/// The token that marks a file as deliberately unowned, in any ASCII case.
pub open spec fn is_noowner(t: Seq<char>) -> bool {
    eq_ignore_ascii_case(t, "NOOWNER"@)
}

/// The derived classification of an owner token: the unowned marker; `@name`
/// with exactly one `/` after the `@` names a team and any other `@name` a
/// user; a token containing `@` elsewhere is an email address; everything
/// else is unknown.
pub open spec fn classify_owner(t: Seq<char>) -> OwnerType {
    if is_noowner(t) {
        OwnerType::Unowned
    } else if t.len() > 0 && t[0] == '@' {
        if count_char(t.drop_first(), '/') == 1 {
            OwnerType::Team
        } else {
            OwnerType::User
        }
    } else if count_char(t, '@') > 0 {
        OwnerType::Email
    } else {
        OwnerType::Unknown
    }
}

/// The owner an owner token denotes: the verbatim token and its
/// classification.
pub open spec fn owner_of(t: Seq<char>) -> OwnerV {
    OwnerV { identifier: t, owner_type: classify_owner(t) }
}

/// Classification is a total function with disjoint outcomes: each
/// classification holds exactly on its own condition, the conditions are
/// mutually exclusive, and together they cover every token.
pub proof fn lemma_owner_classification_disjoint(t: Seq<char>)
    ensures
        (classify_owner(t) == OwnerType::Unowned) <==> is_noowner(t),
        (classify_owner(t) == OwnerType::Team) <==> (!is_noowner(t) && t.len() > 0 && t[0] == '@'
            && count_char(t.drop_first(), '/') == 1),
        (classify_owner(t) == OwnerType::User) <==> (!is_noowner(t) && t.len() > 0 && t[0] == '@'
            && count_char(t.drop_first(), '/') != 1),
        (classify_owner(t) == OwnerType::Email) <==> (!is_noowner(t) && !(t.len() > 0 && t[0]
            == '@') && count_char(t, '@') > 0),
        (classify_owner(t) == OwnerType::Unknown) <==> (!is_noowner(t) && !(t.len() > 0 && t[0]
            == '@') && count_char(t, '@') == 0),
{
}

/// Classifies one owner token. Never fails: a token that fits no other
/// class is an unknown owner, kept verbatim.
pub fn parse_owner(owner_str: &str) -> (r: Result<Owner, Error>)
    ensures
        r matches Ok(o) && o@ == owner_of(owner_str@),
{
    let cs = str_to_chars(owner_str);
    let n = cs.len();
    let owner_type: OwnerType = if range_eq_ignore_case(&cs, 0, n, "NOOWNER") {
        proof {
            assert(cs@.subrange(0, n as int) =~= owner_str@);
        }
        OwnerType::Unowned
    } else {
        proof {
            assert(cs@.subrange(0, n as int) =~= owner_str@);
        }
        if n > 0 && cs[0] == '@' {
            let slashes = count_char_from(&cs, 1, '/');
            proof {
                assert(cs@.skip(1) =~= owner_str@.drop_first());
            }
            if slashes == 1 {
                OwnerType::Team
            } else {
                OwnerType::User
            }
        } else {
            let ats = count_char_from(&cs, 0, '@');
            proof {
                assert(cs@.skip(0) =~= owner_str@);
            }
            if ats > 0 {
                OwnerType::Email
            } else {
                OwnerType::Unknown
            }
        }
    };
    Ok(Owner { identifier: String::from_str(owner_str), owner_type })
}

/// Whether a token starts with `#` (tokens are never empty, but the test is
/// stated for every sequence).
pub open spec fn starts_hash(t: Seq<char>) -> bool {
    t.len() > 0 && t[0] == '#'
}

/// How many leading tokens are owner tokens: every token up to the first
/// one starting with `#`.
pub open spec fn owner_token_count(ts: Seq<Seq<char>>) -> nat
    decreases ts.len(),
{
    if ts.len() == 0 || starts_hash(ts[0]) {
        0
    } else {
        1 + owner_token_count(ts.drop_first())
    }
}

/// `owner_token_count` is the first index at which a `#`-token stands.
pub proof fn lemma_owner_token_count(ts: Seq<Seq<char>>, k: int)
    requires
        0 <= k <= ts.len(),
        forall|j: int| 0 <= j < k ==> !starts_hash(ts[j]),
        k == ts.len() || starts_hash(ts[k]),
    ensures
        owner_token_count(ts) == k,
    decreases k,
{
    if k == 0 {
    } else {
        assert(!starts_hash(ts[0]));
        lemma_owner_token_count(ts.drop_first(), k - 1);
    }
}

/// The tags collected from the tokens after the owners: `#name` tokens are
/// tags, with one token of lookahead — a `#name` immediately followed by a
/// token not starting with `#` opens a free comment and is not a tag, and a
/// bare `#` always ends tag collection.
pub open spec fn line_tags(ts: Seq<Seq<char>>) -> Seq<Seq<char>>
    decreases ts.len(),
{
    if ts.len() == 0 {
        Seq::empty()
    } else if !starts_hash(ts[0]) {
        Seq::empty()
    } else if ts[0].len() == 1 {
        Seq::empty()
    } else if ts.len() > 1 && !starts_hash(ts[1]) {
        Seq::empty()
    } else {
        seq![ts[0].drop_first()] + line_tags(ts.drop_first())
    }
}

/// The owners denoted by a run of owner tokens.
pub open spec fn owner_views_of(ts: Seq<Seq<char>>) -> Seq<OwnerV> {
    ts.map_values(|t: Seq<char>| owner_of(t))
}

/// What one rule line declares: nothing for a blank or comment line;
/// otherwise the first token is the pattern, the following tokens up to the
/// first `#`-token are the owners, and tags follow per [`line_tags`].
pub open spec fn parse_line_spec(line: Seq<char>, line_num: usize, source: Seq<char>) -> Option<
    EntryV,
> {
    let ts = split_ws(line);
    if ts.len() == 0 {
        None
    } else if starts_hash(ts[0]) {
        None
    } else {
        let k = owner_token_count(ts.drop_first()) as int;
        Some(
            EntryV {
                source_file: source,
                line_number: line_num,
                pattern: ts[0],
                owners: owner_views_of(ts.subrange(1, 1 + k)),
                tags: line_tags(ts.skip(1 + k)),
            },
        )
    }
}

/// Parses one line of a rule file. Returns no entry for a blank or comment
/// line; never fails on malformed content.
pub fn parse_line(line: &str, line_num: usize, source_path: &str) -> (r: Result<
    Option<CodeownersEntry>,
    Error,
>)
    ensures
        r matches Ok(e) && e.deep_view() == parse_line_spec(line@, line_num, source_path@),
{
    let cs = str_to_chars(line);
    let toks = split_whitespace(&cs);
    let ghost tv = toks.deep_view();
    if toks.len() == 0 {
        return Ok(None);
    }
    if first_char_is(&toks[0], '#') {
        return Ok(None);
    }
    let pattern = toks[0].clone();

    let mut owners: Vec<Owner> = Vec::new();
    let mut i: usize = 1;
    while i < toks.len()
        invariant_except_break
            1 <= i <= tv.len(),
            tv == toks.deep_view(),
            forall|j: int| 1 <= j < i ==> !starts_hash(tv[j]),
            owners.deep_view() =~= owner_views_of(tv.subrange(1, i as int)),
        ensures
            1 <= i <= tv.len(),
            tv == toks.deep_view(),
            forall|j: int| 1 <= j < i ==> !starts_hash(tv[j]),
            owners.deep_view() =~= owner_views_of(tv.subrange(1, i as int)),
            i == tv.len() || starts_hash(tv[i as int]),
        decreases tv.len() - i,
    {
        if first_char_is(&toks[i], '#') {
            break ;
        }
        let o = match parse_owner(toks[i].as_str()) {
            Ok(o) => o,
            Err(e) => {
                return Err(e);
            },
        };
        let ghost odv = owners.deep_view();
        owners.push(o);
        proof {
            assert(owners.deep_view() =~= odv.push(o@));
            let pre = tv.subrange(1, i as int);
            let post = tv.subrange(1, i as int + 1);
            assert forall|j: int| 0 <= j < pre.len() implies post[j] == pre[j] by {
                assert(post[j] == tv[1 + j]);
                assert(pre[j] == tv[1 + j]);
            }
            assert(post =~= pre.push(tv[i as int]));
            assert(owner_views_of(post) =~= owner_views_of(pre).push(owner_of(tv[i as int])));
            assert(owners.deep_view() =~= owner_views_of(post));
        }
        i = i + 1;
    }
    proof {
        assert forall|j: int| 0 <= j < i - 1 implies !starts_hash(tv.skip(1)[j]) by {
            assert(tv.skip(1)[j] == tv[j + 1]);
        }
        if i < tv.len() {
            assert(tv.skip(1)[i - 1] == tv[i as int]);
        }
        lemma_owner_token_count(tv.skip(1), i - 1);
        assert(tv.subrange(1, i as int) =~= tv.skip(1).subrange(0, i - 1));
        assert(tv.subrange(1, i as int) =~= tv.subrange(
            1,
            1 + owner_token_count(tv.skip(1)) as int,
        ));
    }

    let ghost tag_suffix = tv.skip(i as int);
    let mut tags: Vec<Tag> = Vec::new();
    let mut t: usize = i;
    while t < toks.len()
        invariant_except_break
            i <= t <= tv.len(),
            tv == toks.deep_view(),
            tags.deep_view() + line_tags(tv.skip(t as int)) =~= line_tags(tag_suffix),
        ensures
            tv == toks.deep_view(),
            tags.deep_view() =~= line_tags(tag_suffix),
        decreases tv.len() - t,
    {
        let ghost rem = tv.skip(t as int);
        proof {
            assert(rem[0] == tv[t as int]);
            assert(rem.drop_first() =~= tv.skip(t as int + 1));
        }
        if !first_char_is(&toks[t], '#') {
            break ;
        }
        let tok_len = string_len(&toks[t]);
        if tok_len == 1 {
            break ;
        }
        if t + 1 < toks.len() && !first_char_is(&toks[t + 1], '#') {
            proof {
                assert(rem[1] == tv[t + 1]);
            }
            break ;
        }
        let tok_chars = str_to_chars(toks[t].as_str());
        let tag_text = chars_range_to_string(&tok_chars, 1, tok_len);
        proof {
            assert(tag_text@ =~= tv[t as int].drop_first());
        }
        tags.push(Tag(tag_text));
        t = t + 1;
        proof {
            assert(tags.deep_view() + line_tags(tv.skip(t as int)) =~= line_tags(tag_suffix));
        }
    }
    proof {
        if t == tv.len() {
            assert(tv.skip(t as int) =~= Seq::<Seq<char>>::empty());
        }
    }

    let entry = CodeownersEntry {
        source_file: String::from_str(source_path),
        line_number: line_num,
        pattern,
        owners,
        tags,
    };
    proof {
        let ts = split_ws(line@);
        assert(ts == tv);
        let k = owner_token_count(ts.drop_first()) as int;
        assert(ts.drop_first() =~= tv.skip(1));
        assert(k == i - 1);
        assert(entry@.owners =~= owner_views_of(ts.subrange(1, 1 + k)));
        assert(entry@.tags =~= line_tags(ts.skip(1 + k)));
    }
    Ok(Some(entry))
}

/// A line with its trailing carriage return removed, as a line ending of
/// `\r\n` contributes only the `\r`-free part.
pub open spec fn strip_cr(l: Seq<char>) -> Seq<char> {
    if l.len() > 0 && l.last() == '\r' {
        l.drop_last()
    } else {
        l
    }
}

/// Division of text into lines, processing `s` left to right with `cur` the
/// line accumulated so far: lines end at `\n` (consuming a preceding `\r`),
/// and a final line ending produces no further empty line.
pub open spec fn lines_acc(s: Seq<char>, cur: Seq<char>) -> Seq<Seq<char>>
    decreases s.len(),
{
    if s.len() == 0 {
        if cur.len() == 0 {
            Seq::empty()
        } else {
            seq![cur]
        }
    } else if s[0] == '\n' {
        seq![strip_cr(cur)] + lines_acc(s.drop_first(), Seq::empty())
    } else {
        lines_acc(s.drop_first(), cur.push(s[0]))
    }
}

/// The lines of a text.
pub open spec fn split_lines(s: Seq<char>) -> Seq<Seq<char>> {
    lines_acc(s, Seq::empty())
}

/// Splits a character vector into its lines.
pub fn split_into_lines(cs: &Vec<char>) -> (r: Vec<String>)
    ensures
        r.deep_view() == split_lines(cs@),
{
    let mut r: Vec<String> = Vec::new();
    let mut cur: Vec<char> = Vec::new();
    let mut i: usize = 0;
    proof {
        assert(cs@.skip(0) =~= cs@);
        assert(r.deep_view() + lines_acc(cs@, cur@) =~= split_lines(cs@));
    }
    while i < cs.len()
        invariant
            i <= cs@.len(),
            r.deep_view() + lines_acc(cs@.skip(i as int), cur@) =~= split_lines(cs@),
        decreases cs@.len() - i,
    {
        let ghost pre = cs@.skip(i as int);
        let ghost r0 = r.deep_view();
        let ghost cur0 = cur@;
        proof {
            assert(pre[0] == cs@[i as int]);
            assert(pre.drop_first() =~= cs@.skip(i as int + 1));
        }
        let c = cs[i];
        if c == '\n' {
            let line = if cur.len() > 0 && cur[cur.len() - 1] == '\r' {
                let l = chars_range_to_string(&cur, 0, cur.len() - 1);
                proof {
                    assert(l@ =~= strip_cr(cur0));
                }
                l
            } else {
                let l = chars_range_to_string(&cur, 0, cur.len());
                proof {
                    assert(cur0.subrange(0, cur0.len() as int) =~= cur0);
                    assert(l@ =~= strip_cr(cur0));
                }
                l
            };
            r.push(line);
            cur = Vec::new();
            proof {
                assert(cur@ =~= Seq::<char>::empty());
                assert(r.deep_view() =~= r0.push(strip_cr(cur0)));
                assert(lines_acc(pre, cur0) == seq![strip_cr(cur0)] + lines_acc(
                    cs@.skip(i as int + 1),
                    cur@,
                ));
                assert(r0.push(strip_cr(cur0)) + lines_acc(cs@.skip(i as int + 1), cur@) =~= r0 + (
                seq![strip_cr(cur0)] + lines_acc(cs@.skip(i as int + 1), cur@)));
            }
        } else {
            cur.push(c);
            proof {
                assert(cur@ =~= cur0.push(c));
                assert(lines_acc(pre, cur0) == lines_acc(cs@.skip(i as int + 1), cur0.push(c)));
            }
        }
        i = i + 1;
    }
    proof {
        assert(cs@.skip(cs@.len() as int) =~= Seq::<char>::empty());
    }
    if cur.len() > 0 {
        let line = chars_to_string(&cur);
        r.push(line);
    }
    proof {
        assert(r.deep_view() =~= split_lines(cs@));
    }
    r
}

/// The entries declared by a list of lines, the first carrying line number
/// `k`.
pub open spec fn collect_entries(ls: Seq<Seq<char>>, k: usize, source: Seq<char>) -> Seq<EntryV>
    decreases ls.len(),
{
    if ls.len() == 0 {
        Seq::empty()
    } else {
        (match parse_line_spec(ls[0], k, source) {
            Some(e) => seq![e],
            None => Seq::empty(),
        }) + collect_entries(ls.drop_first(), (k + 1) as usize, source)
    }
}

/// What a whole rule file declares: the entries of its lines in order, with
/// zero-based line numbers.
pub open spec fn parse_codeowners_spec(content: Seq<char>, source: Seq<char>) -> Seq<EntryV> {
    collect_entries(split_lines(content), 0, source)
}

/// Parses the text of one rule file into its entries, in line order.
/// Never fails on malformed content.
pub fn parse_codeowners(content: &str, source_path: &str) -> (r: Result<Vec<CodeownersEntry>, Error>)
    ensures
        r matches Ok(es) && es.deep_view() == parse_codeowners_spec(content@, source_path@),
{
    let cs = str_to_chars(content);
    let lines = split_into_lines(&cs);
    let ghost lv = lines.deep_view();
    let mut entries: Vec<CodeownersEntry> = Vec::new();
    let mut i: usize = 0;
    let line_count = lines.len();
    proof {
        assert(lv.len() == lines@.len());
        assert(lv.len() <= usize::MAX);
        assert(lv.skip(0) =~= lv);
        assert(entries.deep_view() + collect_entries(lv, 0, source_path@) =~= parse_codeowners_spec(
            content@,
            source_path@,
        ));
    }
    while i < line_count
        invariant
            i <= lv.len(),
            line_count == lv.len(),
            lv == lines.deep_view(),
            lv.len() <= usize::MAX,
            entries.deep_view() + collect_entries(lv.skip(i as int), i, source_path@)
                =~= parse_codeowners_spec(content@, source_path@),
        decreases lv.len() - i,
    {
        let ghost rem = lv.skip(i as int);
        let ghost e0 = entries.deep_view();
        proof {
            assert(rem[0] == lv[i as int]);
            assert(rem.drop_first() =~= lv.skip(i as int + 1));
        }
        let parsed = match parse_line(lines[i].as_str(), i, source_path) {
            Ok(p) => p,
            Err(e) => {
                return Err(e);
            },
        };
        match parsed {
            Some(entry) => {
                entries.push(entry);
                proof {
                    assert(entries.deep_view() =~= e0.push(entry@));
                    assert(e0.push(entry@) + collect_entries(lv.skip(i as int + 1), (i
                        + 1) as usize, source_path@) =~= e0 + (seq![entry@] + collect_entries(
                        lv.skip(i as int + 1),
                        (i + 1) as usize,
                        source_path@,
                    )));
                }
            },
            None => {},
        }
        i = i + 1;
    }
    proof {
        assert(lv.skip(lv.len() as int) =~= Seq::<Seq<char>>::empty());
        assert(entries.deep_view() =~= parse_codeowners_spec(content@, source_path@));
    }
    Ok(entries)
}

} // verus!
