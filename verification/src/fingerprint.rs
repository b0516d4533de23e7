//! The repository fingerprint: a composite content hash over the HEAD
//! commit, the staged tree, and the content of the unstaged diff — with
//! the cache file itself excluded, so that writing the cache never
//! invalidates it. Callers obtain the three components from the
//! repository and hand them in as plain values.

use vstd::prelude::*;

use crate::strutil::str_to_chars;

verus! {

/// The name for what `sha2::Sha256::digest` returns: the SHA-256 digest
/// of the data, a function of the bytes alone.
pub uninterp spec fn sha256_of(data: Seq<u8>) -> Seq<u8>;

/// Relies on `sha2::Sha256::digest`: the digest depends on the input
/// bytes alone and is 32 bytes long.
#[verifier::external_body]
fn sha256(data: &Vec<u8>) -> (r: Vec<u8>)
    ensures
        r@ == sha256_of(data@),
        r@.len() == 32,
{
    <sha2::Sha256 as sha2::Digest>::digest(data.as_slice()).to_vec()
}

/// `suffix` closes `s`.
pub open spec fn ends_with(s: Seq<char>, suffix: Seq<char>) -> bool {
    s.len() >= suffix.len() && s.skip(s.len() - suffix.len()) == suffix
}

/// Paths excluded from the fingerprint: the cache file itself, under its
/// conventional name or any name ending in it.
pub open spec fn hash_excluded(path: Seq<char>) -> bool {
    path == ".codeowners.cache"@ || ends_with(path, ".codeowners.cache"@)
}

/// Runtime test for [`hash_excluded`].
pub fn is_hash_excluded(path: &str) -> (r: bool)
    ensures
        r == hash_excluded(path@),
{
    let cs = str_to_chars(path);
    let pat = str_to_chars(".codeowners.cache");
    let n = cs.len();
    let m = pat.len();
    if n < m {
        proof {
            assert(!ends_with(path@, ".codeowners.cache"@));
            assert(path@.len() != ".codeowners.cache"@.len() || path@ =~= ".codeowners.cache"@);
        }
        return false;
    }
    let mut i: usize = 0;
    while i < m
        invariant
            i <= m,
            m <= n,
            n == cs@.len(),
            m == pat@.len(),
            cs@ == path@,
            pat@ == ".codeowners.cache"@,
            forall|j: int| 0 <= j < i ==> path@[n - m + j] == pat@[j],
        decreases m - i,
    {
        if cs[n - m + i] != pat[i] {
            proof {
                assert(path@.skip(n - m)[i as int] == path@[n - m + i]);
                assert(!ends_with(path@, ".codeowners.cache"@));
                if path@ == ".codeowners.cache"@ {
                    assert(path@.skip(0) =~= path@);
                }
            }
            return false;
        }
        i = i + 1;
    }
    proof {
        assert(path@.skip(n - m) =~= ".codeowners.cache"@);
    }
    true
}

/// The concatenated content of the diff lines whose paths are not
/// excluded, in order.
pub open spec fn filtered_diff_bytes(lines: Seq<(Seq<char>, Seq<u8>)>) -> Seq<u8>
    decreases lines.len(),
{
    if lines.len() == 0 {
        Seq::empty()
    } else {
        (if hash_excluded(lines[0].0) {
            Seq::<u8>::empty()
        } else {
            lines[0].1
        }) + filtered_diff_bytes(lines.drop_first())
    }
}

/// The fingerprint a repository state yields: the digest of the unstaged
/// diff content (cache files excluded) folded with the HEAD commit id and
/// the staged tree id into one digest.
pub open spec fn fingerprint_spec(
    head_oid: Seq<u8>,
    index_tree_oid: Seq<u8>,
    diff_lines: Seq<(Seq<char>, Seq<u8>)>,
) -> Seq<u8> {
    sha256_of(head_oid + index_tree_oid + sha256_of(filtered_diff_bytes(diff_lines)))
}

/// Computes the repository fingerprint from its three components: the
/// HEAD commit id (or a zero sentinel when unborn), the staged tree id,
/// and the unstaged diff as (path, line content) pairs.
pub fn compose_repo_fingerprint(
    head_oid: &Vec<u8>,
    index_tree_oid: &Vec<u8>,
    diff_lines: &Vec<(String, Vec<u8>)>,
) -> (r: Vec<u8>)
    ensures
        r@ == fingerprint_spec(head_oid@, index_tree_oid@, diff_lines.deep_view()),
        r@.len() == 32,
{
    let ghost dv = diff_lines.deep_view();
    let mut diff_content: Vec<u8> = Vec::new();
    let mut i: usize = 0;
    proof {
        assert(dv.skip(0) =~= dv);
        assert(diff_content@ + filtered_diff_bytes(dv) =~= filtered_diff_bytes(dv));
    }
    while i < diff_lines.len()
        invariant
            i <= dv.len(),
            dv == diff_lines.deep_view(),
            diff_content@ + filtered_diff_bytes(dv.skip(i as int)) =~= filtered_diff_bytes(dv),
        decreases dv.len() - i,
    {
        let ghost rem = dv.skip(i as int);
        let ghost d0 = diff_content@;
        proof {
            assert(rem[0] == dv[i as int]);
            assert(rem.drop_first() =~= dv.skip(i as int + 1));
            assert(dv[i as int] == diff_lines@[i as int].deep_view());
        }
        if !is_hash_excluded(diff_lines[i].0.as_str()) {
            let mut k: usize = 0;
            let content_len = diff_lines[i].1.len();
            while k < content_len
                invariant
                    k <= content_len,
                    i < dv.len(),
                    dv == diff_lines.deep_view(),
                    content_len == diff_lines@[i as int].1@.len(),
                    diff_content@ =~= d0 + diff_lines@[i as int].1@.take(k as int),
                decreases content_len - k,
            {
                diff_content.push(diff_lines[i].1[k]);
                k = k + 1;
                proof {
                    assert(diff_content@ =~= d0 + diff_lines@[i as int].1@.take(k as int));
                }
            }
            proof {
                assert(diff_lines@[i as int].1@.take(content_len as int) =~= dv[i as int].1);
                assert(diff_content@ =~= d0 + dv[i as int].1);
            }
        }
        i = i + 1;
        proof {
            assert(diff_content@ + filtered_diff_bytes(dv.skip(i as int)) =~= filtered_diff_bytes(
                dv,
            ));
        }
    }
    proof {
        assert(dv.skip(dv.len() as int) =~= Seq::<(Seq<char>, Seq<u8>)>::empty());
        assert(diff_content@ =~= filtered_diff_bytes(dv));
    }
    let unstaged = sha256(&diff_content);

    let mut combined: Vec<u8> = Vec::new();
    let mut a: usize = 0;
    while a < head_oid.len()
        invariant
            a <= head_oid@.len(),
            combined@ =~= head_oid@.take(a as int),
        decreases head_oid@.len() - a,
    {
        combined.push(head_oid[a]);
        a = a + 1;
        proof {
            assert(combined@ =~= head_oid@.take(a as int));
        }
    }
    proof {
        assert(head_oid@.take(head_oid@.len() as int) =~= head_oid@);
    }
    let mut b: usize = 0;
    while b < index_tree_oid.len()
        invariant
            b <= index_tree_oid@.len(),
            combined@ =~= head_oid@ + index_tree_oid@.take(b as int),
        decreases index_tree_oid@.len() - b,
    {
        combined.push(index_tree_oid[b]);
        b = b + 1;
        proof {
            assert(combined@ =~= head_oid@ + index_tree_oid@.take(b as int));
        }
    }
    proof {
        assert(index_tree_oid@.take(index_tree_oid@.len() as int) =~= index_tree_oid@);
    }
    let mut u: usize = 0;
    while u < unstaged.len()
        invariant
            u <= unstaged@.len(),
            unstaged@ == sha256_of(filtered_diff_bytes(dv)),
            combined@ =~= head_oid@ + index_tree_oid@ + unstaged@.take(u as int),
        decreases unstaged@.len() - u,
    {
        combined.push(unstaged[u]);
        u = u + 1;
        proof {
            assert(combined@ =~= head_oid@ + index_tree_oid@ + unstaged@.take(u as int));
        }
    }
    proof {
        assert(unstaged@.take(unstaged@.len() as int) =~= unstaged@);
        assert(combined@ =~= head_oid@ + index_tree_oid@ + sha256_of(filtered_diff_bytes(dv)));
    }
    sha256(&combined)
}

} // verus!
