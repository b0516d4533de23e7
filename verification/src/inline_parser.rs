//! The inline marker scanner: a file may declare its own ownership with a
//! `!!!CODEOWNERS @owner... #tag...` marker inside a comment in its first
//! fifty lines. The first line containing the marker wins; an entry is
//! produced only if at least one owner follows the marker.

use vstd::prelude::*;

use crate::parser::owner_token_count;
use crate::parser::owner_views_of;
use crate::parser::parse_owner;
use crate::parser::starts_hash;
use crate::strutil::chars_range_to_string;
use crate::strutil::find_first;
use crate::strutil::first_char_is;
use crate::strutil::occurs_at;
use crate::strutil::split_whitespace;
use crate::strutil::split_ws;
use crate::strutil::str_to_chars;
use crate::strutil::string_eq_str;
use crate::strutil::string_len;
use crate::types::Error;
use crate::types::InlineCodeownersEntry;
use crate::types::InlineEntryV;
use crate::types::Owner;
use crate::types::Tag;

verus! {

/// The name for what `char::is_alphanumeric` returns: a fixed
/// classification of each character.
pub uninterp spec fn char_alphanumeric(c: char) -> bool;

/// Relies on `char::is_alphanumeric`: true exactly for alphabetic and
/// numeric characters; on ASCII these are the letters and digits.
pub assume_specification[ char::is_alphanumeric ](c: char) -> (r: bool)
    ensures
        r == char_alphanumeric(c),
        (c as u32) < 128 ==> r == (('a' <= c && c <= 'z') || ('A' <= c && c <= 'Z') || ('0' <= c
            && c <= '9')),
;

/// The inline ownership marker.
pub open spec fn marker_seq() -> Seq<char> {
    "!!!CODEOWNERS"@
}

/// A well-formed tag name: alphanumeric characters, `-` and `_` only.
pub open spec fn all_tag_chars(t: Seq<char>) -> bool {
    forall|i: int| 0 <= i < t.len() ==> char_alphanumeric(t[i]) || t[i] == '-' || t[i] == '_'
}

/// Runtime test for [`all_tag_chars`].
fn check_tag_chars(cs: &Vec<char>, from: usize) -> (r: bool)
    requires
        from <= cs@.len(),
    ensures
        r == all_tag_chars(cs@.skip(from as int)),
{
    let n = cs.len();
    let mut i: usize = from;
    while i < n
        invariant
            from <= i <= n,
            n == cs@.len(),
            forall|j: int|
                0 <= j < i - from ==> char_alphanumeric(#[trigger] cs@.skip(from as int)[j])
                    || cs@.skip(from as int)[j] == '-' || cs@.skip(from as int)[j] == '_',
        decreases n - i,
    {
        let c = cs[i];
        proof {
            assert(cs@.skip(from as int)[i - from] == cs@[i as int]);
        }
        if !(c.is_alphanumeric() || c == '-' || c == '_') {
            proof {
                assert(!(char_alphanumeric(cs@.skip(from as int)[i - from]) || cs@.skip(
                    from as int,
                )[i - from] == '-' || cs@.skip(from as int)[i - from] == '_'));
            }
            return false;
        }
        i = i + 1;
    }
    true
}

/// `i` is the first position at which `pat` occurs in `s`.
pub open spec fn is_first_occur(s: Seq<char>, pat: Seq<char>, i: int) -> bool {
    occurs_at(s, pat, i) && forall|j: int| 0 <= j < i ==> !occurs_at(s, pat, j)
}

/// The position of the first occurrence of `pat` in `s`, if `pat` occurs.
pub open spec fn first_occur(s: Seq<char>, pat: Seq<char>) -> Option<int> {
    if exists|i: int| is_first_occur(s, pat, i) {
        Some(choose|i: int| is_first_occur(s, pat, i))
    } else {
        None
    }
}

/// The tags collected after the owners of an inline marker. A `#name` is a
/// tag when followed by another `#`-token or by nothing; one followed by a
/// comment terminator (`-->` or `*/`) is the last tag; an ambiguous `#name`
/// followed by prose is kept only if well formed, and then ends collection;
/// a bare `#` or a non-`#` token ends collection at once.
pub open spec fn inline_tags(ts: Seq<Seq<char>>) -> Seq<Seq<char>>
    decreases ts.len(),
{
    if ts.len() == 0 {
        Seq::empty()
    } else if !starts_hash(ts[0]) {
        Seq::empty()
    } else if ts[0].len() == 1 {
        Seq::empty()
    } else if ts.len() == 1 {
        seq![ts[0].drop_first()]
    } else if ts[1] == "-->"@ || ts[1] == "*/"@ {
        seq![ts[0].drop_first()]
    } else if starts_hash(ts[1]) {
        seq![ts[0].drop_first()] + inline_tags(ts.drop_first())
    } else if all_tag_chars(ts[0].drop_first()) {
        seq![ts[0].drop_first()]
    } else {
        Seq::empty()
    }
}

/// What one line declares through an inline marker: nothing without the
/// marker or without owners; otherwise the tokens after the marker are
/// owners up to the first `#`-token, then tags per [`inline_tags`].
pub open spec fn inline_entry_spec(
    line: Seq<char>,
    line_number: usize,
    file_path: Seq<char>,
) -> Option<InlineEntryV> {
    match first_occur(line, marker_seq()) {
        None => None,
        Some(p) => {
            let ts = split_ws(line.skip(p + marker_seq().len()));
            let k = owner_token_count(ts) as int;
            if k == 0 {
                None
            } else {
                Some(
                    InlineEntryV {
                        file_path,
                        line_number,
                        owners: owner_views_of(ts.subrange(0, k)),
                        tags: inline_tags(ts.skip(k)),
                    },
                )
            }
        },
    }
}

/// Parses one line for an inline ownership declaration.
pub fn parse_inline_codeowners_line(line: &str, line_number: usize, file_path: &str) -> (r: Result<
    Option<InlineCodeownersEntry>,
    Error,
>)
    ensures
        r matches Ok(e) && e.deep_view() == inline_entry_spec(line@, line_number, file_path@),
{
    let cs = str_to_chars(line);
    let marker_pos = match find_first(&cs, "!!!CODEOWNERS") {
        Some(p) => p,
        None => {
            proof {
                assert(first_occur(line@, marker_seq()) is None);
            }
            return Ok(None);
        },
    };
    proof {
        assert(is_first_occur(line@, marker_seq(), marker_pos as int));
        let w = choose|i: int| is_first_occur(line@, marker_seq(), i);
        assert(w == marker_pos as int) by {
            if w < marker_pos as int {
                assert(!occurs_at(line@, marker_seq(), w));
            }
            if w > marker_pos as int {
                assert(!occurs_at(line@, marker_seq(), marker_pos as int));
            }
        }
        assert(first_occur(line@, marker_seq()) == Some(marker_pos as int));
        reveal_strlit("!!!CODEOWNERS");
        assert(marker_seq().len() == 13);
    }
    let total_len = cs.len();
    proof {
        assert(marker_pos + 13 <= total_len);
    }
    let after_start = marker_pos + 13;
    let mut after: Vec<char> = Vec::new();
    let mut ci: usize = after_start;
    while ci < cs.len()
        invariant
            after_start <= ci <= cs@.len(),
            after@ == cs@.subrange(after_start as int, ci as int),
        decreases cs@.len() - ci,
    {
        after.push(cs[ci]);
        ci = ci + 1;
        proof {
            assert(after@ =~= cs@.subrange(after_start as int, ci as int));
        }
    }
    proof {
        assert(after@ =~= line@.skip(marker_pos + marker_seq().len()));
    }
    let toks = split_whitespace(&after);
    let ghost tv = toks.deep_view();

    let mut owners: Vec<Owner> = Vec::new();
    let mut i: usize = 0;
    while i < toks.len()
        invariant_except_break
            i <= tv.len(),
            tv == toks.deep_view(),
            forall|j: int| 0 <= j < i ==> !starts_hash(tv[j]),
            owners.deep_view() =~= owner_views_of(tv.subrange(0, i as int)),
        ensures
            i <= tv.len(),
            tv == toks.deep_view(),
            forall|j: int| 0 <= j < i ==> !starts_hash(tv[j]),
            owners.deep_view() =~= owner_views_of(tv.subrange(0, i as int)),
            i == tv.len() || starts_hash(tv[i as int]),
        decreases tv.len() - i,
    {
        if first_char_is(&toks[i], '#') {
            break ;
        }
        let o = match parse_owner(toks[i].as_str()) {
            Ok(o) => o,
            Err(e) => {
                return Err(e);
            },
        };
        let ghost odv = owners.deep_view();
        owners.push(o);
        proof {
            assert(owners.deep_view() =~= odv.push(o@));
            let pre = tv.subrange(0, i as int);
            let post = tv.subrange(0, i as int + 1);
            assert forall|j: int| 0 <= j < pre.len() implies post[j] == pre[j] by {
                assert(post[j] == tv[j]);
                assert(pre[j] == tv[j]);
            }
            assert(post =~= pre.push(tv[i as int]));
            assert(owner_views_of(post) =~= owner_views_of(pre).push(
                crate::parser::owner_of(tv[i as int]),
            ));
            assert(owners.deep_view() =~= owner_views_of(post));
        }
        i = i + 1;
    }
    proof {
        crate::parser::lemma_owner_token_count(tv, i as int);
        assert(owners.deep_view().len() == owner_views_of(tv.subrange(0, i as int)).len());
        assert(owners@.len() == i as int);
    }
    if owners.len() == 0 {
        return Ok(None);
    }

    let ghost tag_suffix = tv.skip(i as int);
    let mut tags: Vec<Tag> = Vec::new();
    let mut t: usize = i;
    while t < toks.len()
        invariant_except_break
            i <= t <= tv.len(),
            tv == toks.deep_view(),
            tags.deep_view() + inline_tags(tv.skip(t as int)) =~= inline_tags(tag_suffix),
        ensures
            tv == toks.deep_view(),
            tags.deep_view() =~= inline_tags(tag_suffix),
        decreases tv.len() - t,
    {
        let ghost rem = tv.skip(t as int);
        let ghost tg0 = tags.deep_view();
        proof {
            assert(rem[0] == tv[t as int]);
            assert(rem.drop_first() =~= tv.skip(t as int + 1));
        }
        if !first_char_is(&toks[t], '#') {
            break ;
        }
        let tok_len = string_len(&toks[t]);
        if tok_len == 1 {
            break ;
        }
        let tok_chars = str_to_chars(toks[t].as_str());
        let tag_text = chars_range_to_string(&tok_chars, 1, tok_len);
        proof {
            assert(tag_text@ =~= tv[t as int].drop_first());
        }
        if t + 1 == toks.len() {
            // Last token: accept it as the final tag.
            tags.push(Tag(tag_text));
            proof {
                assert(rem.len() == 1);
                assert(tags.deep_view() =~= tg0.push(rem[0].drop_first()));
                assert(inline_tags(rem) == seq![rem[0].drop_first()]);
                assert(tv.skip(t as int + 1) =~= Seq::<Seq<char>>::empty());
            }
            t = t + 1;
        } else {
            proof {
                assert(rem[1] == tv[t + 1]);
            }
            if string_eq_str(&toks[t + 1], "-->") || string_eq_str(&toks[t + 1], "*/") {
                // A comment terminator follows: this is the last tag.
                tags.push(Tag(tag_text));
                proof {
                    assert(inline_tags(rem) == seq![rem[0].drop_first()]);
                    assert(tags.deep_view() =~= tg0.push(rem[0].drop_first()));
                    assert(tags.deep_view() =~= inline_tags(tag_suffix));
                }
                break ;
            } else if first_char_is(&toks[t + 1], '#') {
                tags.push(Tag(tag_text));
                proof {
                    assert(inline_tags(rem) == seq![rem[0].drop_first()] + inline_tags(
                        tv.skip(t as int + 1),
                    ));
                    assert(tags.deep_view() =~= tg0.push(rem[0].drop_first()));
                    assert(tags.deep_view() + inline_tags(tv.skip(t as int + 1)) =~= tg0 + (
                    seq![rem[0].drop_first()] + inline_tags(tv.skip(t as int + 1))));
                }
                t = t + 1;
            } else if check_tag_chars(&tok_chars, 1) {
                // Prose follows but the name is well formed: keep it as the
                // last tag.
                proof {
                    assert(tok_chars@.skip(1) =~= rem[0].drop_first());
                    assert(inline_tags(rem) == seq![rem[0].drop_first()]);
                }
                tags.push(Tag(tag_text));
                proof {
                    assert(tags.deep_view() =~= tg0.push(rem[0].drop_first()));
                    assert(tags.deep_view() =~= inline_tags(tag_suffix));
                }
                break ;
            } else {
                // Prose follows an ill-formed name: it opens a comment.
                proof {
                    assert(tok_chars@.skip(1) =~= rem[0].drop_first());
                    assert(inline_tags(rem) =~= Seq::<Seq<char>>::empty());
                }
                break ;
            }
        }
    }
    proof {
        if t == tv.len() {
            assert(tv.skip(t as int) =~= Seq::<Seq<char>>::empty());
        }
    }

    let entry = InlineCodeownersEntry {
        file_path: String::from_str(file_path),
        line_number,
        owners,
        tags,
    };
    proof {
        let ts = split_ws(line@.skip(marker_pos + marker_seq().len()));
        assert(ts == tv);
        let k = owner_token_count(ts) as int;
        assert(k == i as int);
        assert(entry@.owners =~= owner_views_of(ts.subrange(0, k)));
        assert(entry@.tags =~= inline_tags(ts.skip(k)));
    }
    Ok(Some(entry))
}

/// What a file's first fifty lines declare inline: the entry of the first
/// line that declares one, its line number counted from one.
pub open spec fn detect_inline_from(ls: Seq<Seq<char>>, idx: int, file_path: Seq<char>) -> Option<
    InlineEntryV,
>
    decreases ls.len() - idx,
{
    if idx < 0 || idx >= ls.len() || idx >= 50 {
        None
    } else {
        match inline_entry_spec(ls[idx], (idx + 1) as usize, file_path) {
            Some(e) => Some(e),
            None => detect_inline_from(ls, idx + 1, file_path),
        }
    }
}

/// Scans a file's lines (at most the first fifty) for an inline ownership
/// declaration; the first line with one wins.
pub fn detect_inline_codeowners(lines: &Vec<String>, file_path: &str) -> (r: Option<
    InlineCodeownersEntry,
>)
    ensures
        r.deep_view() == detect_inline_from(lines.deep_view(), 0, file_path@),
{
    let ghost lv = lines.deep_view();
    let mut i: usize = 0;
    while i < lines.len() && i < 50
        invariant
            0 <= i <= lv.len(),
            i <= 50,
            lv == lines.deep_view(),
            detect_inline_from(lv, 0, file_path@) == detect_inline_from(lv, i as int, file_path@),
        decreases lv.len() - i,
    {
        proof {
            assert(lv[i as int] == lines@[i as int]@);
        }
        let parsed = parse_inline_codeowners_line(lines[i].as_str(), i + 1, file_path).unwrap();
        if let Some(entry) = parsed {
            return Some(entry);
        }
        proof {
            assert(detect_inline_from(lv, i as int, file_path@) == detect_inline_from(
                lv,
                i as int + 1,
                file_path@,
            ));
        }
        i = i + 1;
    }
    None
}

} // verus!
