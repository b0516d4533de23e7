//! The cache builder: compiles rule entries, resolves every repository
//! file against them, and builds the owner and tag reverse indices in one
//! linear pass.
//!
//! One bad pattern never stops a build: entries that do not compile are
//! dropped from the candidate set, while the entry list itself is kept in
//! the cache verbatim.

use vstd::prelude::*;

use crate::resolver::compile_entry_spec;
use crate::resolver::codeowners_entry_to_matcher;
use crate::resolver::find_owners_and_tags_for_file;
use crate::resolver::resolve_spec;
use crate::resolver::CodeownersEntryMatcher;
use crate::resolver::MatcherV;
use crate::types::CacheV;
use crate::types::CodeownersCache;
use crate::types::CodeownersEntry;
use crate::types::EntryV;
use crate::types::Error;
use crate::types::FileEntry;
use crate::types::FileEntryV;
use crate::types::InlineCodeownersEntry;
use crate::types::InlineEntryV;
use crate::types::Owner;
use crate::types::OwnerType;
use crate::types::OwnerV;
use crate::types::Tag;
use crate::types::CACHE_VERSION;

verus! {

/// The matchers of the entries that compile, in entry order.
pub open spec fn compiled_rules(es: Seq<EntryV>) -> Seq<MatcherV>
    decreases es.len(),
{
    if es.len() == 0 {
        Seq::empty()
    } else {
        (match compile_entry_spec(es[0]) {
            Ok(m) => seq![m],
            Err(_) => Seq::empty(),
        }) + compiled_rules(es.drop_first())
    }
}

/// Every matcher a compiling entry yields is well formed.
pub proof fn lemma_compiled_rules_wf(es: Seq<EntryV>)
    ensures
        forall|i: int| 0 <= i < compiled_rules(es).len() ==> (#[trigger] compiled_rules(es)[i]).wf(),
    decreases es.len(),
{
    if es.len() > 0 {
        lemma_compiled_rules_wf(es.drop_first());
        let cr = compiled_rules(es);
        let tail = compiled_rules(es.drop_first());
        assert forall|i: int| 0 <= i < cr.len() implies (#[trigger] cr[i]).wf() by {
            match compile_entry_spec(es[0]) {
                Ok(m) => {
                    if i == 0 {
                        assert(cr[0] == m);
                    } else {
                        assert(cr[i] == tail[i - 1]);
                    }
                },
                Err(_) => {
                    assert(cr[i] == tail[i]);
                },
            }
        }
    }
}

/// The inline declaration governing `path`, if any: the first entry
/// scanned out of that file wins.
pub open spec fn inline_for(inlines: Seq<InlineEntryV>, path: Seq<char>) -> Option<InlineEntryV>
    decreases inlines.len(),
{
    if inlines.len() == 0 {
        None
    } else if inlines[0].file_path == path {
        Some(inlines[0])
    } else {
        inline_for(inlines.drop_first(), path)
    }
}

/// The resolved ownership of each path, in path order: a file that
/// declares its own ownership inline is governed by that declaration — an
/// inline marker is a per-file override — and every other file by the
/// last matching rule.
pub open spec fn resolved_files(
    paths: Seq<Seq<char>>,
    ms: Seq<MatcherV>,
    inlines: Seq<InlineEntryV>,
) -> Seq<FileEntryV> {
    paths.map_values(
        |p: Seq<char>|
            match inline_for(inlines, p) {
                Some(e) => FileEntryV { path: p, owners: e.owners, tags: e.tags },
                None => FileEntryV {
                    path: p,
                    owners: resolve_spec(p, ms).0,
                    tags: resolve_spec(p, ms).1,
                },
            },
    )
}

/// The owner index pairs `key` with `path`.
pub open spec fn owner_map_has(
    m: Seq<(OwnerV, Seq<Seq<char>>)>,
    key: OwnerV,
    path: Seq<char>,
) -> bool {
    exists|i: int| 0 <= i < m.len() && (#[trigger] m[i]).0 == key && m[i].1.contains(path)
}

/// The tag index pairs `key` with `path`.
pub open spec fn tag_map_has(
    m: Seq<(Seq<char>, Seq<Seq<char>>)>,
    key: Seq<char>,
    path: Seq<char>,
) -> bool {
    exists|i: int| 0 <= i < m.len() && (#[trigger] m[i]).0 == key && m[i].1.contains(path)
}

/// Some file named `path` carries owner `key`.
pub open spec fn files_have_owner(files: Seq<FileEntryV>, key: OwnerV, path: Seq<char>) -> bool {
    exists|j: int|
        0 <= j < files.len() && (#[trigger] files[j]).path == path && files[j].owners.contains(key)
}

/// Some file named `path` carries tag `key`.
pub open spec fn files_have_tag(files: Seq<FileEntryV>, key: Seq<char>, path: Seq<char>) -> bool {
    exists|j: int|
        0 <= j < files.len() && (#[trigger] files[j]).path == path && files[j].tags.contains(key)
}

/// No two index entries share a key.
pub open spec fn owner_keys_unique(m: Seq<(OwnerV, Seq<Seq<char>>)>) -> bool {
    forall|i: int, j: int| 0 <= i < j < m.len() ==> (#[trigger] m[i]).0 != (#[trigger] m[j]).0
}

/// No two index entries share a key.
pub open spec fn tag_keys_unique(m: Seq<(Seq<char>, Seq<Seq<char>>)>) -> bool {
    forall|i: int, j: int| 0 <= i < j < m.len() ==> (#[trigger] m[i]).0 != (#[trigger] m[j]).0
}

/// The index invariant: the reverse indices pair an owner (or tag) with a
/// path exactly when some file of that path carries it, and index keys are
/// unique.
pub open spec fn cache_indices_exact(c: CacheV) -> bool {
    &&& owner_keys_unique(c.owners_map)
    &&& tag_keys_unique(c.tags_map)
    &&& forall|key: OwnerV, path: Seq<char>|
        owner_map_has(c.owners_map, key, path) <==> files_have_owner(c.files, key, path)
    &&& forall|key: Seq<char>, path: Seq<char>|
        tag_map_has(c.tags_map, key, path) <==> files_have_tag(c.files, key, path)
}

/// What a build yields from its inputs: the entries kept verbatim, every
/// file resolved against the compiling rules (or its own inline
/// declaration), the given fingerprint and the current format version.
pub open spec fn build_cache_spec(
    es: Seq<EntryV>,
    paths: Seq<Seq<char>>,
    inlines: Seq<InlineEntryV>,
    hash: Seq<u8>,
    c: CacheV,
) -> bool {
    &&& c.version == CACHE_VERSION
    &&& c.hash == hash
    &&& c.entries == es
    &&& c.files == resolved_files(paths, compiled_rules(es), inlines)
    &&& cache_indices_exact(c)
}

/// Copies a vector of strings.
fn clone_string_vec(v: &Vec<String>) -> (r: Vec<String>)
    ensures
        r.deep_view() == v.deep_view(),
{
    let mut r: Vec<String> = Vec::new();
    let mut i: usize = 0;
    while i < v.len()
        invariant
            i <= v@.len(),
            r@ =~= v@.take(i as int),
        decreases v@.len() - i,
    {
        r.push(v[i].clone());
        i = i + 1;
        proof {
            assert(r@ =~= v@.take(i as int));
        }
    }
    proof {
        assert(v@.take(v@.len() as int) =~= v@);
        assert(r@ == v@);
    }
    r
}

/// Copies a vector of owners.
fn clone_owner_vec(v: &Vec<Owner>) -> (r: Vec<Owner>)
    ensures
        r.deep_view() == v.deep_view(),
{
    let mut r: Vec<Owner> = Vec::new();
    let mut i: usize = 0;
    while i < v.len()
        invariant
            i <= v@.len(),
            r.deep_view() =~= v.deep_view().take(i as int),
        decreases v@.len() - i,
    {
        let ghost r0 = r.deep_view();
        let o = v[i].clone();
        proof {
            assert(o@ == v.deep_view()[i as int]);
        }
        r.push(o);
        i = i + 1;
        proof {
            assert(r.deep_view() =~= r0.push(o@));
            assert(r.deep_view() =~= v.deep_view().take(i as int));
        }
    }
    proof {
        assert(v.deep_view().take(v.deep_view().len() as int) =~= v.deep_view());
    }
    r
}

/// Copies a vector of tags.
fn clone_tag_vec(v: &Vec<Tag>) -> (r: Vec<Tag>)
    ensures
        r.deep_view() == v.deep_view(),
{
    let mut r: Vec<Tag> = Vec::new();
    let mut i: usize = 0;
    while i < v.len()
        invariant
            i <= v@.len(),
            r.deep_view() =~= v.deep_view().take(i as int),
        decreases v@.len() - i,
    {
        let ghost r0 = r.deep_view();
        let t = v[i].clone();
        proof {
            assert(t@ == v.deep_view()[i as int]);
        }
        r.push(t);
        i = i + 1;
        proof {
            assert(r.deep_view() =~= r0.push(t@));
            assert(r.deep_view() =~= v.deep_view().take(i as int));
        }
    }
    proof {
        assert(v.deep_view().take(v.deep_view().len() as int) =~= v.deep_view());
    }
    r
}

/// Applies a file's inline declaration, if it has one, to its
/// rule-resolved ownership: the inline entry is a per-file override, so
/// its owners and tags replace the rule result; without one, the rule
/// result stands.
pub fn apply_inline_entry(
    owners: Vec<Owner>,
    tags: Vec<Tag>,
    inline: Option<&InlineCodeownersEntry>,
) -> (r: (Vec<Owner>, Vec<Tag>))
    ensures
        match inline {
            Some(e) => r.0.deep_view() == e@.owners && r.1.deep_view() == e@.tags,
            None => r.0.deep_view() == owners.deep_view() && r.1.deep_view() == tags.deep_view(),
        },
{
    match inline {
        Some(e) => (clone_owner_vec(&e.owners), clone_tag_vec(&e.tags)),
        None => (owners, tags),
    }
}

/// Finds the inline declaration governing `path`, if any: the first
/// entry whose file path equals it.
fn find_inline_index(inlines: &Vec<InlineCodeownersEntry>, path: &String) -> (r: Option<usize>)
    ensures
        match r {
            Some(ix) => ix < inlines@.len() && inline_for(inlines.deep_view(), path@) == Some(
                inlines.deep_view()[ix as int],
            ),
            None => inline_for(inlines.deep_view(), path@) is None,
        },
{
    let ghost dv = inlines.deep_view();
    let mut i: usize = 0;
    proof {
        assert(dv.skip(0) =~= dv);
    }
    while i < inlines.len()
        invariant
            i <= dv.len(),
            dv == inlines.deep_view(),
            inline_for(dv, path@) == inline_for(dv.skip(i as int), path@),
        decreases dv.len() - i,
    {
        let ghost rem = dv.skip(i as int);
        proof {
            assert(rem[0] == dv[i as int]);
            assert(rem.drop_first() =~= dv.skip(i as int + 1));
            assert(dv[i as int] == inlines@[i as int]@);
        }
        if crate::strutil::string_eq_str(&inlines[i].file_path, path.as_str()) {
            proof {
                assert(inline_for(rem, path@) == Some(dv[i as int]));
            }
            return Some(i);
        }
        i = i + 1;
    }
    proof {
        assert(dv.skip(dv.len() as int) =~= Seq::<InlineEntryV>::empty());
    }
    None
}

/// Records `path` under `key` in the owner index, appending to the key's
/// path list or opening a new one.
fn index_insert_owner(m: &mut Vec<(Owner, Vec<String>)>, key: &Owner, path: &String)
    requires
        owner_keys_unique(old(m).deep_view()),
    ensures
        owner_keys_unique(final(m).deep_view()),
        forall|k: OwnerV, p: Seq<char>|
            owner_map_has(final(m).deep_view(), k, p) <==> (owner_map_has(old(m).deep_view(), k, p)
                || (k == key@ && p == path@)),
{
    let ghost m0 = m.deep_view();
    let n = m.len();
    let mut i: usize = 0;
    while i < n
        invariant
            i <= n,
            n == m@.len(),
            m.deep_view() == m0,
            m0 == old(m).deep_view(),
            owner_keys_unique(m0),
            forall|j: int| 0 <= j < i ==> (#[trigger] m0[j]).0 != key@,
        decreases n - i,
    {
        if m[i].0 == *key {
            let ghost old_paths = m0[i as int].1;
            let mut paths = clone_string_vec(&m[i].1);
            paths.push(path.clone());
            proof {
                assert(paths.deep_view() =~~= old_paths.push(path@));
            }
            let new_key = m[i].0.clone();
            vstd::pervasive::VecAdditionalExecFns::set(m, i, (new_key, paths));
            proof {
                let m1 = m.deep_view();
                assert(m1 =~~= m0.update(i as int, (key@, old_paths.push(path@))));
                assert(m1 == m0.update(i as int, (key@, m0[i as int].1.push(path@))));
                assert forall|k: OwnerV, p: Seq<char>|
                    owner_map_has(m1, k, p) <==> (owner_map_has(m0, k, p) || (k == key@ && p
                        == path@)) by {
                    if owner_map_has(m1, k, p) {
                        let w = choose|w: int|
                            0 <= w < m1.len() && (#[trigger] m1[w]).0 == k && m1[w].1.contains(p);
                        if w == i {
                            if p != path@ {
                                let t = choose|t: int|
                                    0 <= t < m1[w].1.len() && m1[w].1[t] == p;
                                assert(m0[i as int].1[t] == p);
                                assert(owner_map_has(m0, k, p));
                            }
                        } else {
                            assert(m0[w] == m1[w]);
                            assert(owner_map_has(m0, k, p));
                        }
                    }
                    if owner_map_has(m0, k, p) {
                        let w = choose|w: int|
                            0 <= w < m0.len() && (#[trigger] m0[w]).0 == k && m0[w].1.contains(p);
                        if w == i {
                            let t = choose|t: int| 0 <= t < m0[w].1.len() && m0[w].1[t] == p;
                            assert(m1[i as int].1[t] == p);
                            assert(m1[i as int].1.contains(p));
                            assert(owner_map_has(m1, k, p));
                        } else {
                            assert(m1[w] == m0[w]);
                            assert(owner_map_has(m1, k, p));
                        }
                    }
                    if k == key@ && p == path@ {
                        assert(m1[i as int].0 == k);
                        assert(m1[i as int].1.last() == p);
                        assert(m1[i as int].1.contains(p));
                        assert(owner_map_has(m1, k, p));
                    }
                }
                assert(m0[i as int].0 == key@);
                assert forall|a: int, b: int| 0 <= a < b < m1.len() implies (#[trigger] m1[a]).0
                    != (#[trigger] m1[b]).0 by {
                    assert(m0[a].0 != m0[b].0);
                    if a == i as int {
                        assert(m1[a].0 == key@);
                        assert(m1[b] == m0[b]);
                    } else if b == i as int {
                        assert(m1[a] == m0[a]);
                        assert(m1[b].0 == key@);
                    } else {
                        assert(m1[a] == m0[a]);
                        assert(m1[b] == m0[b]);
                    }
                }
                assert(forall|k: OwnerV, p: Seq<char>|
                    owner_map_has(m.deep_view(), k, p) <==> (owner_map_has(m0, k, p) || (k == key@
                        && p == path@)));
                assert(owner_keys_unique(m.deep_view()));
            }
            return ;
        }
        i = i + 1;
    }
    let mut paths: Vec<String> = Vec::new();
    paths.push(path.clone());
    m.push((key.clone(), paths));
    proof {
        let m1 = m.deep_view();
        assert(m1 =~~= m0.push((key@, seq![path@])));
        assert forall|k: OwnerV, p: Seq<char>|
            owner_map_has(m1, k, p) <==> (owner_map_has(m0, k, p) || (k == key@ && p == path@)) by {
            if owner_map_has(m1, k, p) {
                let w = choose|w: int|
                    0 <= w < m1.len() && (#[trigger] m1[w]).0 == k && m1[w].1.contains(p);
                if w < m0.len() {
                    assert(m0[w] == m1[w]);
                    assert(owner_map_has(m0, k, p));
                } else {
                    assert(m1[w] == (key@, seq![path@]));
                    assert(m1[w].1[0] == p);
                }
            }
            if owner_map_has(m0, k, p) {
                let w = choose|w: int|
                    0 <= w < m0.len() && (#[trigger] m0[w]).0 == k && m0[w].1.contains(p);
                assert(m1[w] == m0[w]);
                assert(owner_map_has(m1, k, p));
            }
            if k == key@ && p == path@ {
                assert(m1[m1.len() - 1].0 == k);
                assert(m1[m1.len() - 1].1[0] == p);
                assert(m1[m1.len() - 1].1.contains(p));
                assert(owner_map_has(m1, k, p));
            }
        }
        assert forall|a: int, b: int| 0 <= a < b < m1.len() implies (#[trigger] m1[a]).0 != (
        #[trigger] m1[b]).0 by {
            if b < m1.len() - 1 {
                assert(m1[a] == m0[a]);
                assert(m1[b] == m0[b]);
            } else {
                assert(m1[a] == m0[a]);
                assert(m1[b].0 == key@);
            }
        }
    }
}

/// Records `path` under `key` in the tag index, appending to the key's
/// path list or opening a new one.
fn index_insert_tag(m: &mut Vec<(Tag, Vec<String>)>, key: &Tag, path: &String)
    requires
        tag_keys_unique(old(m).deep_view()),
    ensures
        tag_keys_unique(final(m).deep_view()),
        forall|k: Seq<char>, p: Seq<char>|
            tag_map_has(final(m).deep_view(), k, p) <==> (tag_map_has(old(m).deep_view(), k, p) || (
            k == key@ && p == path@)),
{
    let ghost m0 = m.deep_view();
    let n = m.len();
    let mut i: usize = 0;
    while i < n
        invariant
            i <= n,
            n == m@.len(),
            m.deep_view() == m0,
            m0 == old(m).deep_view(),
            tag_keys_unique(m0),
            forall|j: int| 0 <= j < i ==> (#[trigger] m0[j]).0 != key@,
        decreases n - i,
    {
        if m[i].0 == *key {
            let ghost old_paths = m0[i as int].1;
            let mut paths = clone_string_vec(&m[i].1);
            paths.push(path.clone());
            proof {
                assert(paths.deep_view() =~~= old_paths.push(path@));
            }
            let new_key = m[i].0.clone();
            vstd::pervasive::VecAdditionalExecFns::set(m, i, (new_key, paths));
            proof {
                let m1 = m.deep_view();
                assert(m1 =~~= m0.update(i as int, (key@, old_paths.push(path@))));
                assert(m1 == m0.update(i as int, (key@, m0[i as int].1.push(path@))));
                assert forall|k: Seq<char>, p: Seq<char>|
                    tag_map_has(m1, k, p) <==> (tag_map_has(m0, k, p) || (k == key@ && p
                        == path@)) by {
                    if tag_map_has(m1, k, p) {
                        let w = choose|w: int|
                            0 <= w < m1.len() && (#[trigger] m1[w]).0 == k && m1[w].1.contains(p);
                        if w == i {
                            if p != path@ {
                                let t = choose|t: int|
                                    0 <= t < m1[w].1.len() && m1[w].1[t] == p;
                                assert(m0[i as int].1[t] == p);
                                assert(tag_map_has(m0, k, p));
                            }
                        } else {
                            assert(m0[w] == m1[w]);
                            assert(tag_map_has(m0, k, p));
                        }
                    }
                    if tag_map_has(m0, k, p) {
                        let w = choose|w: int|
                            0 <= w < m0.len() && (#[trigger] m0[w]).0 == k && m0[w].1.contains(p);
                        if w == i {
                            let t = choose|t: int| 0 <= t < m0[w].1.len() && m0[w].1[t] == p;
                            assert(m1[i as int].1[t] == p);
                            assert(m1[i as int].1.contains(p));
                            assert(tag_map_has(m1, k, p));
                        } else {
                            assert(m1[w] == m0[w]);
                            assert(tag_map_has(m1, k, p));
                        }
                    }
                    if k == key@ && p == path@ {
                        assert(m1[i as int].0 == k);
                        assert(m1[i as int].1.last() == p);
                        assert(m1[i as int].1.contains(p));
                        assert(tag_map_has(m1, k, p));
                    }
                }
                assert(m0[i as int].0 == key@);
                assert forall|a: int, b: int| 0 <= a < b < m1.len() implies (#[trigger] m1[a]).0
                    != (#[trigger] m1[b]).0 by {
                    assert(m0[a].0 != m0[b].0);
                    if a == i as int {
                        assert(m1[a].0 == key@);
                        assert(m1[b] == m0[b]);
                    } else if b == i as int {
                        assert(m1[a] == m0[a]);
                        assert(m1[b].0 == key@);
                    } else {
                        assert(m1[a] == m0[a]);
                        assert(m1[b] == m0[b]);
                    }
                }
                assert(forall|k: Seq<char>, p: Seq<char>|
                    tag_map_has(m.deep_view(), k, p) <==> (tag_map_has(m0, k, p) || (k == key@
                        && p == path@)));
                assert(tag_keys_unique(m.deep_view()));
            }
            return ;
        }
        i = i + 1;
    }
    let mut paths: Vec<String> = Vec::new();
    paths.push(path.clone());
    m.push((key.clone(), paths));
    proof {
        let m1 = m.deep_view();
        assert(m1 =~~= m0.push((key@, seq![path@])));
        assert forall|k: Seq<char>, p: Seq<char>|
            tag_map_has(m1, k, p) <==> (tag_map_has(m0, k, p) || (k == key@ && p == path@)) by {
            if tag_map_has(m1, k, p) {
                let w = choose|w: int|
                    0 <= w < m1.len() && (#[trigger] m1[w]).0 == k && m1[w].1.contains(p);
                if w < m0.len() {
                    assert(m0[w] == m1[w]);
                    assert(tag_map_has(m0, k, p));
                } else {
                    assert(m1[w] == (key@, seq![path@]));
                    assert(m1[w].1[0] == p);
                }
            }
            if tag_map_has(m0, k, p) {
                let w = choose|w: int|
                    0 <= w < m0.len() && (#[trigger] m0[w]).0 == k && m0[w].1.contains(p);
                assert(m1[w] == m0[w]);
                assert(tag_map_has(m1, k, p));
            }
            if k == key@ && p == path@ {
                assert(m1[m1.len() - 1].0 == k);
                assert(m1[m1.len() - 1].1[0] == p);
                assert(m1[m1.len() - 1].1.contains(p));
                assert(tag_map_has(m1, k, p));
            }
        }
        assert forall|a: int, b: int| 0 <= a < b < m1.len() implies (#[trigger] m1[a]).0 != (
        #[trigger] m1[b]).0 by {
            if b < m1.len() - 1 {
                assert(m1[a] == m0[a]);
                assert(m1[b] == m0[b]);
            } else {
                assert(m1[a] == m0[a]);
                assert(m1[b].0 == key@);
            }
        }
    }
}

/// One file more is indexed exactly by adding that file's own pairs.
proof fn lemma_files_have_owner_step(files: Seq<FileEntryV>, i: int, key: OwnerV, path: Seq<char>)
    requires
        0 <= i < files.len(),
    ensures
        files_have_owner(files.take(i + 1), key, path) <==> (files_have_owner(
            files.take(i),
            key,
            path,
        ) || (path == files[i].path && files[i].owners.contains(key))),
{
    let pre = files.take(i);
    let post = files.take(i + 1);
    if files_have_owner(post, key, path) {
        let j = choose|j: int|
            0 <= j < post.len() && (#[trigger] post[j]).path == path && post[j].owners.contains(key);
        if j < i {
            assert(pre[j] == post[j]);
            assert(files_have_owner(pre, key, path));
        } else {
            assert(post[j] == files[i]);
        }
    }
    if files_have_owner(pre, key, path) {
        let j = choose|j: int|
            0 <= j < pre.len() && (#[trigger] pre[j]).path == path && pre[j].owners.contains(key);
        assert(post[j] == pre[j]);
        assert(files_have_owner(post, key, path));
    }
    if path == files[i].path && files[i].owners.contains(key) {
        assert(post[i] == files[i]);
        assert(files_have_owner(post, key, path));
    }
}

/// One file more is indexed exactly by adding that file's own pairs.
proof fn lemma_files_have_tag_step(files: Seq<FileEntryV>, i: int, key: Seq<char>, path: Seq<char>)
    requires
        0 <= i < files.len(),
    ensures
        files_have_tag(files.take(i + 1), key, path) <==> (files_have_tag(files.take(i), key, path)
            || (path == files[i].path && files[i].tags.contains(key))),
{
    let pre = files.take(i);
    let post = files.take(i + 1);
    if files_have_tag(post, key, path) {
        let j = choose|j: int|
            0 <= j < post.len() && (#[trigger] post[j]).path == path && post[j].tags.contains(key);
        if j < i {
            assert(pre[j] == post[j]);
            assert(files_have_tag(pre, key, path));
        } else {
            assert(post[j] == files[i]);
        }
    }
    if files_have_tag(pre, key, path) {
        let j = choose|j: int|
            0 <= j < pre.len() && (#[trigger] pre[j]).path == path && pre[j].tags.contains(key);
        assert(post[j] == pre[j]);
        assert(files_have_tag(post, key, path));
    }
    if path == files[i].path && files[i].tags.contains(key) {
        assert(post[i] == files[i]);
        assert(files_have_tag(post, key, path));
    }
}

/// Builds a cache from parsed rule entries, the repository's files, their
/// inline declarations and the fingerprint: entries are compiled
/// (dropping, without failing, those that do not compile), every file is
/// resolved last-match-wins — or by its own inline declaration, which
/// overrides the rules for that file — and both reverse indices are
/// derived in one pass over the resolved files.
pub fn build_cache(
    entries: Vec<CodeownersEntry>,
    files: Vec<String>,
    inline_entries: Vec<InlineCodeownersEntry>,
    hash: Vec<u8>,
) -> (r: Result<CodeownersCache, Error>)
    requires
        hash@.len() == 32,
    ensures
        r matches Ok(c) && build_cache_spec(
            entries.deep_view(),
            files.deep_view(),
            inline_entries.deep_view(),
            hash@,
            c@,
        ),
{
    let ghost ev = entries.deep_view();
    let ghost fv = files.deep_view();
    let ghost ilv = inline_entries.deep_view();

    // Compile the entries, dropping the ones that do not compile.
    let mut matchers: Vec<CodeownersEntryMatcher> = Vec::new();
    let mut i: usize = 0;
    proof {
        assert(ev.skip(0) =~= ev);
        assert(matchers.deep_view() + compiled_rules(ev) =~= compiled_rules(ev));
    }
    while i < entries.len()
        invariant
            i <= ev.len(),
            ev == entries.deep_view(),
            matchers.deep_view() + compiled_rules(ev.skip(i as int)) =~= compiled_rules(ev),
        decreases ev.len() - i,
    {
        let ghost rem = ev.skip(i as int);
        let ghost m0 = matchers.deep_view();
        proof {
            assert(rem[0] == ev[i as int]);
            assert(rem.drop_first() =~= ev.skip(i as int + 1));
        }
        match codeowners_entry_to_matcher(&entries[i]) {
            Ok(m) => {
                matchers.push(m);
                proof {
                    assert(matchers.deep_view() =~= m0.push(m@));
                    assert(m0.push(m@) + compiled_rules(ev.skip(i as int + 1)) =~= m0 + (seq![m@]
                        + compiled_rules(ev.skip(i as int + 1))));
                }
            },
            Err(_) => {},
        }
        i = i + 1;
    }
    proof {
        assert(ev.skip(ev.len() as int) =~= Seq::<EntryV>::empty());
        assert(matchers.deep_view() =~= compiled_rules(ev));
        lemma_compiled_rules_wf(ev);
    }
    let ghost ms = matchers.deep_view();

    // Resolve every file: an inline declaration overrides the rules.
    let mut file_entries: Vec<FileEntry> = Vec::new();
    let mut j: usize = 0;
    while j < files.len()
        invariant
            j <= fv.len(),
            fv == files.deep_view(),
            ilv == inline_entries.deep_view(),
            ms == matchers.deep_view(),
            ms == compiled_rules(ev),
            forall|k: int| 0 <= k < ms.len() ==> (#[trigger] ms[k]).wf(),
            file_entries.deep_view() =~= resolved_files(fv, ms, ilv).take(j as int),
        decreases fv.len() - j,
    {
        let ghost fe0 = file_entries.deep_view();
        let (rule_owners, rule_tags) = match find_owners_and_tags_for_file(
            files[j].as_str(),
            &matchers,
        ) {
            Ok(ot) => ot,
            Err(_) => (Vec::new(), Vec::new()),
        };
        let inline_ix = find_inline_index(&inline_entries, &files[j]);
        let (owners, tags) = apply_inline_entry(
            rule_owners,
            rule_tags,
            match inline_ix {
                Some(ix) => Some(&inline_entries[ix]),
                None => None,
            },
        );
        let fe = FileEntry { path: files[j].clone(), owners, tags };
        proof {
            assert(fe@ =~~= resolved_files(fv, ms, ilv)[j as int]);
        }
        file_entries.push(fe);
        proof {
            let rf = resolved_files(fv, ms, ilv);
            assert(file_entries.deep_view() =~= fe0.push(fe@));
            assert(rf.take(j as int + 1) =~= rf.take(j as int).push(rf[j as int]));
            assert(file_entries.deep_view() =~= rf.take(j as int + 1));
        }
        j = j + 1;
    }
    proof {
        assert(resolved_files(fv, ms, ilv).take(fv.len() as int) =~= resolved_files(fv, ms, ilv));
    }
    let ghost fev = file_entries.deep_view();

    // Build the reverse indices in one pass over the resolved files.
    let mut owners_map: Vec<(Owner, Vec<String>)> = Vec::new();
    let mut tags_map: Vec<(Tag, Vec<String>)> = Vec::new();
    proof {
        assert(fev.take(0) =~= Seq::<FileEntryV>::empty());
    }
    let mut fi: usize = 0;
    while fi < file_entries.len()
        invariant
            fi <= fev.len(),
            fev == file_entries.deep_view(),
            owner_keys_unique(owners_map.deep_view()),
            tag_keys_unique(tags_map.deep_view()),
            forall|key: OwnerV, p: Seq<char>|
                owner_map_has(owners_map.deep_view(), key, p) <==> files_have_owner(
                    fev.take(fi as int),
                    key,
                    p,
                ),
            forall|key: Seq<char>, p: Seq<char>|
                tag_map_has(tags_map.deep_view(), key, p) <==> files_have_tag(
                    fev.take(fi as int),
                    key,
                    p,
                ),
        decreases fev.len() - fi,
    {
        let ghost fentry = fev[fi as int];
        proof {
            assert(fentry == file_entries@[fi as int]@);
        }
        let file_path = file_entries[fi].path.clone();
        let owner_count = file_entries[fi].owners.len();
        let mut oi: usize = 0;
        while oi < owner_count
            invariant
                oi <= owner_count,
                owner_count == fentry.owners.len(),
                fi < fev.len(),
                fev == file_entries.deep_view(),
                fentry == fev[fi as int],
                file_path@ == fentry.path,
                owner_keys_unique(owners_map.deep_view()),
                forall|key: OwnerV, p: Seq<char>|
                    owner_map_has(owners_map.deep_view(), key, p) <==> (files_have_owner(
                        fev.take(fi as int),
                        key,
                        p,
                    ) || (p == fentry.path && fentry.owners.take(oi as int).contains(key))),
            decreases owner_count - oi,
        {
            proof {
                assert(fentry.owners[oi as int] == file_entries@[fi as int].owners@[oi as int]@);
            }
            let ghost om0 = owners_map.deep_view();
            index_insert_owner(&mut owners_map, &file_entries[fi].owners[oi], &file_path);
            oi = oi + 1;
            proof {
                let taken = fentry.owners.take(oi as int);
                assert(taken.last() == fentry.owners[oi - 1]);
                assert forall|key: OwnerV|
                    taken.contains(key) <==> (fentry.owners.take(oi - 1).contains(key) || key
                        == fentry.owners[oi - 1]) by {
                    if taken.contains(key) {
                        let w = choose|w: int| 0 <= w < taken.len() && taken[w] == key;
                        if w < oi - 1 {
                            assert(fentry.owners.take(oi - 1)[w] == key);
                        }
                    }
                    if fentry.owners.take(oi - 1).contains(key) {
                        let w = choose|w: int|
                            0 <= w < oi - 1 && #[trigger] fentry.owners.take(oi - 1)[w] == key;
                        assert(taken[w] == key);
                    }
                    if key == fentry.owners[oi - 1] {
                        assert(taken[oi - 1] == key);
                    }
                }
            }
        }
        proof {
            assert(fentry.owners.take(owner_count as int) =~= fentry.owners);
        }
        let tag_count = file_entries[fi].tags.len();
        let mut ti: usize = 0;
        while ti < tag_count
            invariant
                ti <= tag_count,
                tag_count == fentry.tags.len(),
                fi < fev.len(),
                fev == file_entries.deep_view(),
                fentry == fev[fi as int],
                file_path@ == fentry.path,
                tag_keys_unique(tags_map.deep_view()),
                forall|key: Seq<char>, p: Seq<char>|
                    tag_map_has(tags_map.deep_view(), key, p) <==> (files_have_tag(
                        fev.take(fi as int),
                        key,
                        p,
                    ) || (p == fentry.path && fentry.tags.take(ti as int).contains(key))),
            decreases tag_count - ti,
        {
            proof {
                assert(fentry.tags[ti as int] == file_entries@[fi as int].tags@[ti as int]@);
            }
            index_insert_tag(&mut tags_map, &file_entries[fi].tags[ti], &file_path);
            ti = ti + 1;
            proof {
                let taken = fentry.tags.take(ti as int);
                assert(taken.last() == fentry.tags[ti - 1]);
                assert forall|key: Seq<char>|
                    taken.contains(key) <==> (fentry.tags.take(ti - 1).contains(key) || key
                        == fentry.tags[ti - 1]) by {
                    if taken.contains(key) {
                        let w = choose|w: int| 0 <= w < taken.len() && taken[w] == key;
                        if w < ti - 1 {
                            assert(fentry.tags.take(ti - 1)[w] == key);
                        }
                    }
                    if fentry.tags.take(ti - 1).contains(key) {
                        let w = choose|w: int|
                            0 <= w < ti - 1 && #[trigger] fentry.tags.take(ti - 1)[w] == key;
                        assert(taken[w] == key);
                    }
                    if key == fentry.tags[ti - 1] {
                        assert(taken[ti - 1] == key);
                    }
                }
            }
        }
        proof {
            assert(fentry.tags.take(tag_count as int) =~= fentry.tags);
            assert forall|key: OwnerV, p: Seq<char>|
                owner_map_has(owners_map.deep_view(), key, p) <==> files_have_owner(
                    fev.take(fi as int + 1),
                    key,
                    p,
                ) by {
                lemma_files_have_owner_step(fev, fi as int, key, p);
            }
            assert forall|key: Seq<char>, p: Seq<char>|
                tag_map_has(tags_map.deep_view(), key, p) <==> files_have_tag(
                    fev.take(fi as int + 1),
                    key,
                    p,
                ) by {
                lemma_files_have_tag_step(fev, fi as int, key, p);
            }
        }
        fi = fi + 1;
    }
    proof {
        assert(fev.take(fev.len() as int) =~= fev);
    }

    let cache = CodeownersCache {
        version: CACHE_VERSION,
        hash,
        entries,
        files: file_entries,
        owners_map,
        tags_map,
    };
    Ok(cache)
}

/// All of a file's resolved owners mark it unowned, or it has none.
pub open spec fn unowned_owners(owners: Seq<OwnerV>) -> bool {
    forall|k: int| 0 <= k < owners.len() ==> (#[trigger] owners[k]).owner_type == OwnerType::Unowned
}

/// The paths whose resolution yields no owner, or only unowned markers.
pub open spec fn filter_unowned_spec(paths: Seq<Seq<char>>, ms: Seq<MatcherV>) -> Seq<Seq<char>>
    decreases paths.len(),
{
    if paths.len() == 0 {
        Seq::empty()
    } else {
        (if unowned_owners(resolve_spec(paths[0], ms).0) {
            seq![paths[0]]
        } else {
            Seq::empty()
        }) + filter_unowned_spec(paths.drop_first(), ms)
    }
}

/// Keeps the files that the cache's rules leave unowned (no owner at all,
/// or only the unowned marker); without a cache every file is kept.
pub fn filter_unowned_files(files: Vec<String>, cache: &Option<CodeownersCache>) -> (r: Result<
    Vec<String>,
    Error,
>)
    ensures
        r matches Ok(kept) && (match cache {
            Some(c) => kept.deep_view() == filter_unowned_spec(
                files.deep_view(),
                compiled_rules(c@.entries),
            ),
            None => kept.deep_view() == files.deep_view(),
        }),
{
    let cache_ref = match cache {
        Some(c) => c,
        None => {
            let r = clone_string_vec(&files);
            return Ok(r);
        },
    };
    let ghost ev = cache_ref.entries.deep_view();

    let mut matchers: Vec<CodeownersEntryMatcher> = Vec::new();
    let mut i: usize = 0;
    proof {
        assert(ev.skip(0) =~= ev);
        assert(matchers.deep_view() + compiled_rules(ev) =~= compiled_rules(ev));
    }
    while i < cache_ref.entries.len()
        invariant
            i <= ev.len(),
            ev == cache_ref.entries.deep_view(),
            matchers.deep_view() + compiled_rules(ev.skip(i as int)) =~= compiled_rules(ev),
        decreases ev.len() - i,
    {
        let ghost rem = ev.skip(i as int);
        let ghost m0 = matchers.deep_view();
        proof {
            assert(rem[0] == ev[i as int]);
            assert(rem.drop_first() =~= ev.skip(i as int + 1));
        }
        match codeowners_entry_to_matcher(&cache_ref.entries[i]) {
            Ok(m) => {
                matchers.push(m);
                proof {
                    assert(matchers.deep_view() =~= m0.push(m@));
                    assert(m0.push(m@) + compiled_rules(ev.skip(i as int + 1)) =~= m0 + (seq![m@]
                        + compiled_rules(ev.skip(i as int + 1))));
                }
            },
            Err(_) => {},
        }
        i = i + 1;
    }
    proof {
        assert(ev.skip(ev.len() as int) =~= Seq::<EntryV>::empty());
        assert(matchers.deep_view() =~= compiled_rules(ev));
        lemma_compiled_rules_wf(ev);
    }
    let ghost ms = matchers.deep_view();
    let ghost fv = files.deep_view();

    let mut kept: Vec<String> = Vec::new();
    let mut j: usize = 0;
    proof {
        assert(fv.skip(0) =~= fv);
        assert(kept.deep_view() + filter_unowned_spec(fv, ms) =~= filter_unowned_spec(fv, ms));
    }
    while j < files.len()
        invariant
            j <= fv.len(),
            fv == files.deep_view(),
            ms == matchers.deep_view(),
            forall|k: int| 0 <= k < ms.len() ==> (#[trigger] ms[k]).wf(),
            kept.deep_view() + filter_unowned_spec(fv.skip(j as int), ms) =~= filter_unowned_spec(
                fv,
                ms,
            ),
        decreases fv.len() - j,
    {
        let ghost rem = fv.skip(j as int);
        let ghost k0 = kept.deep_view();
        proof {
            assert(rem[0] == fv[j as int]);
            assert(rem.drop_first() =~= fv.skip(j as int + 1));
        }
        let (owners, _tags) = match find_owners_and_tags_for_file(files[j].as_str(), &matchers) {
            Ok(ot) => ot,
            Err(_) => (Vec::new(), Vec::new()),
        };
        let mut all_unowned = true;
        let mut oi: usize = 0;
        while oi < owners.len()
            invariant
                oi <= owners@.len(),
                all_unowned == (forall|k: int|
                    0 <= k < oi ==> (#[trigger] owners.deep_view()[k]).owner_type
                        == OwnerType::Unowned),
            decreases owners@.len() - oi,
        {
            proof {
                assert(owners.deep_view()[oi as int] == owners@[oi as int]@);
            }
            if !(owners[oi].owner_type == OwnerType::Unowned) {
                all_unowned = false;
                proof {
                    assert((owners.deep_view()[oi as int]).owner_type != OwnerType::Unowned);
                }
                oi = owners.len();
            } else {
                oi = oi + 1;
            }
        }
        if all_unowned {
            kept.push(files[j].clone());
            proof {
                assert(unowned_owners(resolve_spec(fv[j as int], ms).0));
                assert(kept.deep_view() =~= k0.push(fv[j as int]));
                assert(k0.push(fv[j as int]) + filter_unowned_spec(fv.skip(j as int + 1), ms) =~= k0
                    + (seq![fv[j as int]] + filter_unowned_spec(fv.skip(j as int + 1), ms)));
            }
        } else {
            proof {
                assert(!unowned_owners(resolve_spec(fv[j as int], ms).0));
            }
        }
        j = j + 1;
    }
    proof {
        assert(fv.skip(fv.len() as int) =~= Seq::<Seq<char>>::empty());
        assert(kept.deep_view() =~= filter_unowned_spec(fv, ms));
    }
    Ok(kept)
}

/// Resolves one file against raw rule entries: compiles them (dropping
/// those that do not compile) and applies last-match-wins. This is the
/// per-file view of the builder's resolution, for callers that hold rule
/// entries rather than a built cache.
pub fn resolve_file_against_entries(
    file_path: &str,
    entries: &Vec<CodeownersEntry>,
) -> (r: (Vec<Owner>, Vec<Tag>))
    ensures
        (r.0.deep_view(), r.1.deep_view()) == resolve_spec(
            file_path@,
            compiled_rules(entries.deep_view()),
        ),
{
    let ghost ev = entries.deep_view();
    let mut matchers: Vec<CodeownersEntryMatcher> = Vec::new();
    let mut i: usize = 0;
    proof {
        assert(ev.skip(0) =~= ev);
        assert(matchers.deep_view() + compiled_rules(ev) =~= compiled_rules(ev));
    }
    while i < entries.len()
        invariant
            i <= ev.len(),
            ev == entries.deep_view(),
            matchers.deep_view() + compiled_rules(ev.skip(i as int)) =~= compiled_rules(ev),
        decreases ev.len() - i,
    {
        let ghost rem = ev.skip(i as int);
        let ghost m0 = matchers.deep_view();
        proof {
            assert(rem[0] == ev[i as int]);
            assert(rem.drop_first() =~= ev.skip(i as int + 1));
        }
        match codeowners_entry_to_matcher(&entries[i]) {
            Ok(m) => {
                matchers.push(m);
                proof {
                    assert(matchers.deep_view() =~= m0.push(m@));
                    assert(m0.push(m@) + compiled_rules(ev.skip(i as int + 1)) =~= m0 + (seq![m@]
                        + compiled_rules(ev.skip(i as int + 1))));
                }
            },
            Err(_) => {},
        }
        i = i + 1;
    }
    proof {
        assert(ev.skip(ev.len() as int) =~= Seq::<EntryV>::empty());
        assert(matchers.deep_view() =~= compiled_rules(ev));
        lemma_compiled_rules_wf(ev);
    }
    match find_owners_and_tags_for_file(file_path, &matchers) {
        Ok(ot) => ot,
        Err(_) => (Vec::new(), Vec::new()),
    }
}

/// The cache that on-disk bytes yield for reuse, if any: they must decode,
/// carry the current format version, and carry the current repository
/// fingerprint. Anything else calls for a rebuild.
pub open spec fn reusable_cache(b: Seq<u8>, current_hash: Seq<u8>) -> Option<CacheV> {
    match crate::codec::decode_cache_spec(b) {
        None => None,
        Some(c) => {
            if c.version == CACHE_VERSION && c.hash == current_hash {
                Some(c)
            } else {
                None
            }
        },
    }
}

/// The load-or-rebuild decision: an absent, undecodable, version-stale or
/// fingerprint-stale cache file is rebuilt from the given rule entries,
/// file list and inline declarations; a present, decodable, current cache
/// is reused as it stands.
pub fn sync_cache(
    cache_bytes: Option<&Vec<u8>>,
    current_hash: &Vec<u8>,
    entries: Vec<CodeownersEntry>,
    files: Vec<String>,
    inline_entries: Vec<InlineCodeownersEntry>,
) -> (r: Result<CodeownersCache, Error>)
    requires
        current_hash@.len() == 32,
    ensures
        r matches Ok(c) && (match cache_bytes {
            Some(b) => match reusable_cache(b@, current_hash@) {
                Some(cv) => c@ == cv,
                None => build_cache_spec(
                    entries.deep_view(),
                    files.deep_view(),
                    inline_entries.deep_view(),
                    current_hash@,
                    c@,
                ),
            },
            None => build_cache_spec(
                entries.deep_view(),
                files.deep_view(),
                inline_entries.deep_view(),
                current_hash@,
                c@,
            ),
        }),
{
    if let Some(bytes) = cache_bytes {
        match crate::codec::decode_cache(bytes) {
            Ok(loaded) => {
                if loaded.version == CACHE_VERSION && crate::strutil::bytes_eq(
                    &loaded.hash,
                    current_hash,
                ) {
                    return Ok(loaded);
                }
            },
            Err(_) => {},
        }
    }
    let mut hash_copy: Vec<u8> = Vec::new();
    let mut i: usize = 0;
    while i < current_hash.len()
        invariant
            i <= current_hash@.len(),
            hash_copy@ =~= current_hash@.take(i as int),
        decreases current_hash@.len() - i,
    {
        hash_copy.push(current_hash[i]);
        i = i + 1;
        proof {
            assert(hash_copy@ =~= current_hash@.take(i as int));
        }
    }
    proof {
        assert(current_hash@.take(current_hash@.len() as int) =~= current_hash@);
    }
    build_cache(entries, files, inline_entries, hash_copy)
}

/// Syncing is stable under no repository change: the bytes a sync just
/// stored, under the unchanged fingerprint, are reused as they stand — the
/// second sync returns the same cache and rebuilds nothing.
pub proof fn lemma_sync_stable_under_no_change(c: CacheV, encoding: crate::types::CacheEncoding)
    requires
        crate::codec::bin::cache_ok(c),
        c.version == CACHE_VERSION,
    ensures
        reusable_cache(crate::codec::encode_cache_spec(c, encoding), c.hash) == Some(c),
{
    crate::codec::lemma_cache_round_trip(c);
}

} // verus!
