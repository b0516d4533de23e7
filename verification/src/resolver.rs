//! Pattern compilation and ownership resolution.
//!
//! Each rule entry's pattern is compiled into a glob matcher scoped to the
//! directory holding its rule file, so nested rule files govern their own
//! subtree. Resolution is last-match-wins: among the rules whose matcher
//! matches a file, the one latest in file-then-line order decides both the
//! owners and the tags.

use vstd::prelude::*;

use crate::pattern::normalize_codeowners_pattern;
use crate::pattern::normalize_pattern_spec;
use crate::types::CodeownersEntry;
use crate::types::EntryV;
use crate::types::Error;
use crate::types::Owner;
use crate::types::OwnerV;
use crate::types::Tag;

verus! {

/// The name for what `OverrideBuilder::add`/`build` decide: whether
/// `pattern`, rooted at `base`, compiles to a matcher.
pub uninterp spec fn glob_pattern_ok(base: Seq<char>, pattern: Seq<char>) -> bool;

/// The name for what `Override::matched` returns: whether the matcher of
/// `pattern`, rooted at `base`, matches `path`.
pub uninterp spec fn glob_match(base: Seq<char>, pattern: Seq<char>, path: Seq<char>) -> bool;

/// Relies on `ignore::overrides::OverrideBuilder::{new, add, build}`:
/// whether a glob compiles depends only on the root directory and the
/// pattern text.
#[verifier::external_body]
fn glob_pattern_compiles(base: &str, pattern: &str) -> (r: bool)
    ensures
        r == glob_pattern_ok(base@, pattern@),
{
    let mut builder = ignore::overrides::OverrideBuilder::new(base);
    match builder.add(pattern) {
        Ok(b) => b.build().is_ok(),
        Err(_) => false,
    }
}

/// Relies on `ignore::overrides::OverrideBuilder::{new, add, build}` and
/// `Override::matched`: both compilation and matching are functions of the
/// root directory, the pattern and the tested path alone.
#[verifier::external_body]
fn glob_match_path(base: &str, pattern: &str, path: &str) -> (r: Option<bool>)
    ensures
        (r is Some) == glob_pattern_ok(base@, pattern@),
        r matches Some(b) ==> b == glob_match(base@, pattern@, path@),
{
    let mut builder = ignore::overrides::OverrideBuilder::new(base);
    let built = match builder.add(pattern) {
        Ok(b) => b.build(),
        Err(e) => Err(e),
    };
    match built {
        Ok(ov) => Some(ov.matched(path, false).is_whitelist()),
        Err(_) => None,
    }
}

/// Index of the last `/` in `p`, if any.
pub open spec fn last_slash(p: Seq<char>) -> Option<int>
    decreases p.len(),
{
    if p.len() == 0 {
        None
    } else if p.last() == '/' {
        Some(p.len() - 1)
    } else {
        last_slash(p.drop_last())
    }
}

/// The directory holding the file `p` names: everything before the last
/// `/` (the leading `/` alone for files directly under the root, the empty
/// path for a bare file name); the empty path and the root itself have no
/// parent.
pub open spec fn parent_dir(p: Seq<char>) -> Option<Seq<char>> {
    if p.len() == 0 {
        None
    } else {
        match last_slash(p) {
            None => Some(Seq::empty()),
            Some(i) => {
                if i == 0 {
                    if p.len() == 1 {
                        None
                    } else {
                        Some(p.take(1))
                    }
                } else {
                    Some(p.take(i))
                }
            },
        }
    }
}

/// Computes [`parent_dir`] of a string.
pub fn parent_dir_of(p: &str) -> (r: Option<String>)
    ensures
        match r {
            Some(s) => parent_dir(p@) == Some(s@),
            None => parent_dir(p@) is None,
        },
{
    let cs = crate::strutil::str_to_chars(p);
    let n = cs.len();
    if n == 0 {
        return None;
    }
    let mut i: usize = n;
    proof {
        assert(p@.take(n as int) =~= p@);
    }
    while i > 0
        invariant
            i <= n,
            n == cs@.len() == p@.len(),
            cs@ == p@,
            last_slash(p@) == last_slash(p@.take(i as int)),
            forall|j: int| i <= j < n ==> p@[j] != '/',
        decreases i,
    {
        proof {
            assert(p@.take(i as int).last() == p@[i - 1]);
            assert(p@.take(i as int).drop_last() =~= p@.take(i - 1));
        }
        if cs[i - 1] == '/' {
            // Last slash found at i - 1.
            if i - 1 == 0 {
                if n == 1 {
                    return None;
                }
                let s = crate::strutil::chars_range_to_string(&cs, 0, 1);
                proof {
                    assert(s@ =~= p@.take(1));
                }
                return Some(s);
            }
            let s = crate::strutil::chars_range_to_string(&cs, 0, i - 1);
            proof {
                assert(s@ =~= p@.take(i - 1));
            }
            return Some(s);
        }
        i = i - 1;
    }
    proof {
        assert(p@.take(0) =~= Seq::<char>::empty());
        assert(last_slash(p@) is None);
    }
    Some(String::new())
}

/// Mathematical value of a [`CodeownersEntryMatcher`].
#[verifier::ext_equal]
pub ghost struct MatcherV {
    pub source_file: Seq<char>,
    pub line_number: usize,
    pub pattern: Seq<char>,
    pub owners: Seq<OwnerV>,
    pub tags: Seq<Seq<char>>,
    pub base_dir: Seq<char>,
    pub norm_pattern: Seq<char>,
}

impl MatcherV {
    /// A compiled rule is well formed when its scope is its entry's parent
    /// directory, its pattern is the normalized one, and that pattern
    /// compiles.
    pub open spec fn wf(self) -> bool {
        &&& parent_dir(self.source_file) == Some(self.base_dir)
        &&& self.norm_pattern == normalize_pattern_spec(self.pattern)
        &&& glob_pattern_ok(self.base_dir, self.norm_pattern)
    }
}

/// A rule entry together with its compiled matcher scope: the directory the
/// pattern is rooted in and the normalized pattern handed to the glob
/// engine.
#[derive(Debug)]
pub struct CodeownersEntryMatcher {
    pub source_file: String,
    pub line_number: usize,
    pub pattern: String,
    pub owners: Vec<Owner>,
    pub tags: Vec<Tag>,
    pub base_dir: String,
    pub norm_pattern: String,
}

impl View for CodeownersEntryMatcher {
    type V = MatcherV;

    open spec fn view(&self) -> MatcherV {
        MatcherV {
            source_file: self.source_file@,
            line_number: self.line_number,
            pattern: self.pattern@,
            owners: self.owners.deep_view(),
            tags: self.tags.deep_view(),
            base_dir: self.base_dir@,
            norm_pattern: self.norm_pattern@,
        }
    }
}

impl DeepView for CodeownersEntryMatcher {
    type V = MatcherV;

    open spec fn deep_view(&self) -> MatcherV {
        self.view()
    }
}

/// What compiling an entry yields: its matcher scoped to the rule file's
/// directory, or the error naming why it has none.
pub open spec fn compile_entry_spec(e: EntryV) -> Result<MatcherV, Error> {
    match parent_dir(e.source_file) {
        None => Err(Error::InvalidEntry),
        Some(base) => {
            if glob_pattern_ok(base, normalize_pattern_spec(e.pattern)) {
                Ok(
                    MatcherV {
                        source_file: e.source_file,
                        line_number: e.line_number,
                        pattern: e.pattern,
                        owners: e.owners,
                        tags: e.tags,
                        base_dir: base,
                        norm_pattern: normalize_pattern_spec(e.pattern),
                    },
                )
            } else {
                Err(Error::InvalidPattern)
            }
        },
    }
}

/// Compiles one rule entry into a scoped matcher. Fails, recoverably, on an
/// entry whose source path has no parent directory or whose normalized
/// pattern is no valid glob.
pub fn codeowners_entry_to_matcher(entry: &CodeownersEntry) -> (r: Result<
    CodeownersEntryMatcher,
    Error,
>)
    ensures
        match r {
            Ok(m) => compile_entry_spec(entry@) == Ok::<MatcherV, Error>(m@) && m@.wf(),
            Err(e) => compile_entry_spec(entry@) == Err::<MatcherV, Error>(e),
        },
{
    let base_dir = match parent_dir_of(entry.source_file.as_str()) {
        Some(b) => b,
        None => {
            return Err(Error::InvalidEntry);
        },
    };
    let norm_pattern = normalize_codeowners_pattern(entry.pattern.as_str());
    if !glob_pattern_compiles(base_dir.as_str(), norm_pattern.as_str()) {
        return Err(Error::InvalidPattern);
    }
    Ok(
        CodeownersEntryMatcher {
            source_file: entry.source_file.clone(),
            line_number: entry.line_number,
            pattern: entry.pattern.clone(),
            owners: entry.owners.clone(),
            tags: entry.tags.clone(),
            base_dir,
            norm_pattern,
        },
    )
}

/// Whether a compiled rule matches a path.
pub open spec fn rule_matches(m: MatcherV, path: Seq<char>) -> bool {
    glob_match(m.base_dir, m.norm_pattern, path)
}

/// The index of the last rule matching `path`, if any: the authoritative
/// rule under last-match-wins.
pub open spec fn last_match(ms: Seq<MatcherV>, path: Seq<char>) -> Option<int>
    decreases ms.len(),
{
    if ms.len() == 0 {
        None
    } else if rule_matches(ms.last(), path) {
        Some(ms.len() - 1)
    } else {
        last_match(ms.drop_last(), path)
    }
}

/// What resolution yields for a file: the owners and tags of the last
/// matching rule, and nothing for a file no rule matches.
pub open spec fn resolve_spec(path: Seq<char>, ms: Seq<MatcherV>) -> (Seq<OwnerV>, Seq<Seq<char>>) {
    match last_match(ms, path) {
        None => (Seq::empty(), Seq::empty()),
        Some(i) => (ms[i].owners, ms[i].tags),
    }
}

/// Resolves the owners and tags of one file against compiled rules,
/// last match wins. Never fails: every rule handed in is compiled.
pub fn find_owners_and_tags_for_file(
    file_path: &str,
    entries: &Vec<CodeownersEntryMatcher>,
) -> (r: Result<(Vec<Owner>, Vec<Tag>), Error>)
    requires
        forall|i: int| 0 <= i < entries@.len() ==> (#[trigger] entries.deep_view()[i]).wf(),
    ensures
        r matches Ok(ot) && (ot.0.deep_view(), ot.1.deep_view()) == resolve_spec(
            file_path@,
            entries.deep_view(),
        ),
{
    let ghost ms = entries.deep_view();
    let mut best: Option<usize> = None;
    let mut i: usize = 0;
    proof {
        assert(ms.take(0) =~= Seq::<MatcherV>::empty());
    }
    while i < entries.len()
        invariant
            i <= ms.len(),
            ms == entries.deep_view(),
            forall|k: int| 0 <= k < ms.len() ==> (#[trigger] ms[k]).wf(),
            match best {
                Some(b) => b < i && last_match(ms.take(i as int), file_path@) == Some(b as int),
                None => last_match(ms.take(i as int), file_path@) is None,
            },
        decreases ms.len() - i,
    {
        proof {
            assert(ms[i as int] == entries@[i as int]@);
            assert(ms[i as int].wf());
        }
        let matched = glob_match_path(
            entries[i].base_dir.as_str(),
            entries[i].norm_pattern.as_str(),
            file_path,
        ).unwrap();
        proof {
            assert(ms.take(i as int + 1).last() == ms[i as int]);
            assert(ms.take(i as int + 1).drop_last() =~= ms.take(i as int));
        }
        if matched {
            best = Some(i);
        }
        i = i + 1;
    }
    proof {
        assert(ms.take(ms.len() as int) =~= ms);
    }
    match best {
        Some(b) => {
            proof {
                assert(ms[b as int] == entries@[b as int]@);
            }
            Ok((entries[b].owners.clone(), entries[b].tags.clone()))
        },
        None => {
            let owners: Vec<Owner> = Vec::new();
            let tags: Vec<Tag> = Vec::new();
            proof {
                assert(owners.deep_view() =~= Seq::<OwnerV>::empty());
                assert(tags.deep_view() =~= Seq::<Seq<char>>::empty());
            }
            Ok((owners, tags))
        },
    }
}

} // verus!
