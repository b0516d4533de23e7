//! The compact binary cache encoding.
//!
//! Little-endian fixed-width integers; strings as a length followed by one
//! 32-bit code point per character; lists as a length followed by their
//! items; the whole cache as version, fingerprint, entries, files and the
//! two indices in order. Decoding consumes exactly the bytes encoding
//! produced, so the two are mutually inverse.

use vstd::prelude::*;

use crate::types::CacheV;
use crate::types::CodeownersCache;
use crate::types::CodeownersEntry;
use crate::types::EntryV;
use crate::types::Error;
use crate::types::FileEntry;
use crate::types::FileEntryV;
use crate::types::Owner;
use crate::types::OwnerType;
use crate::types::OwnerV;
use crate::types::Tag;

verus! {

/// Relies on `char::from_u32`: `Some` exactly for Unicode scalar values,
/// giving the character with that code point.
pub assume_specification[ char::from_u32 ](v: u32) -> (r: Option<char>)
    ensures
        (r is Some) <==> vstd::utf8::is_scalar(v),
        r matches Some(c) ==> c == v as char,
;

/// 256 to the `k`-th power.
pub open spec fn p256(k: nat) -> int
    decreases k,
{
    if k == 0 {
        1
    } else {
        256 * p256((k - 1) as nat)
    }
}

/// `x` in little-endian base 256, `k` digits.
pub open spec fn enc_le(x: int, k: nat) -> Seq<u8>
    decreases k,
{
    if k == 0 {
        Seq::empty()
    } else {
        seq![(x % 256) as u8] + enc_le(x / 256, (k - 1) as nat)
    }
}

/// The value of a little-endian base-256 digit string.
pub open spec fn le_val(b: Seq<u8>) -> int
    decreases b.len(),
{
    if b.len() == 0 {
        0
    } else {
        b[0] + 256 * le_val(b.drop_first())
    }
}

/// An encoding has exactly as many digits as asked for.
pub proof fn lemma_enc_le_len(x: int, k: nat)
    ensures
        enc_le(x, k).len() == k,
    decreases k,
{
    if k > 0 {
        lemma_enc_le_len(x / 256, (k - 1) as nat);
    }
}

/// A digit string's value is bounded by 256 to its length.
pub proof fn lemma_le_val_bound(b: Seq<u8>)
    ensures
        0 <= le_val(b) < p256(b.len()),
    decreases b.len(),
{
    if b.len() > 0 {
        lemma_le_val_bound(b.drop_first());
        assert(le_val(b) == b[0] + 256 * le_val(b.drop_first()));
        assert(256 * le_val(b.drop_first()) <= 256 * (p256((b.len() - 1) as nat) - 1))
            by (nonlinear_arith)
            requires
                le_val(b.drop_first()) <= p256((b.len() - 1) as nat) - 1,
        ;
    }
}

/// Encoding `x` in `k` digits and reading the value back yields `x`.
pub proof fn lemma_le_round_trip(x: int, k: nat)
    requires
        0 <= x < p256(k),
    ensures
        enc_le(x, k).len() == k,
        le_val(enc_le(x, k)) == x,
    decreases k,
{
    if k == 0 {
    } else {
        assert(0 <= x / 256 && x / 256 < p256((k - 1) as nat)) by (nonlinear_arith)
            requires
                0 <= x < 256 * p256((k - 1) as nat),
        ;
        lemma_le_round_trip(x / 256, (k - 1) as nat);
        let b = enc_le(x, k);
        assert(b.drop_first() =~= enc_le(x / 256, (k - 1) as nat));
        assert(le_val(b) == x % 256 + 256 * (x / 256));
    }
}

/// Appends the `k`-digit little-endian form of `x`.
pub fn push_le(out: &mut Vec<u8>, x: u64, k: usize)
    requires
        k <= 8,
    ensures
        final(out)@ == old(out)@ + enc_le(x as int, k as nat),
{
    let ghost start = out@;
    let mut v: u64 = x;
    let mut i: usize = 0;
    while i < k
        invariant
            i <= k,
            out@ =~= start + enc_le(x as int, k as nat).take(i as int),
            enc_le(x as int, k as nat) =~= enc_le(x as int, k as nat).take(i as int) + enc_le(
                v as int,
                (k - i) as nat,
            ),
        decreases k - i,
    {
        let ghost pre = enc_le(v as int, (k - i) as nat);
        proof {
            lemma_enc_le_len(x as int, k as nat);
            lemma_enc_le_len(v as int, (k - i) as nat);
            lemma_enc_le_len(v as int / 256, (k - i - 1) as nat);
            assert(pre == seq![(v as int % 256) as u8] + enc_le(v as int / 256, (k - i - 1) as nat));
            assert(pre[0] == (v as int % 256) as u8);
        }
        let b = (v % 256) as u8;
        v = v / 256;
        out.push(b);
        i = i + 1;
        proof {
            let full = enc_le(x as int, k as nat);
            assert(full.take(i as int) =~= full.take(i - 1).push(full[i - 1]));
            assert(full[i - 1] == pre[0]);
            assert(out@ =~= start + full.take(i as int));
            assert(pre.drop_first() =~= enc_le(v as int, (k - i) as nat));
            assert(full =~= full.take(i as int) + enc_le(v as int, (k - i) as nat));
        }
    }
    proof {
        assert(enc_le(v as int, 0) =~= Seq::<u8>::empty());
        assert(enc_le(x as int, k as nat).take(k as int) =~= enc_le(x as int, k as nat));
        assert(out@ =~= old(out)@ + enc_le(x as int, k as nat));
    }
}

/// Reads the value of `k` little-endian digits at `pos`.
pub fn read_le(b: &Vec<u8>, pos: usize, k: usize) -> (v: u64)
    requires
        k <= 8,
        pos + k <= b@.len(),
    ensures
        v == le_val(b@.subrange(pos as int, pos + k)),
{
    let mut v: u64 = 0;
    let mut j: usize = k;
    let n = b.len();
    proof {
        assert(b@.subrange(pos + k, pos + k) =~= Seq::<u8>::empty());
    }
    while j > 0
        invariant
            j <= k <= 8,
            pos + k <= b@.len(),
            b@.len() == n,
            v == le_val(b@.subrange(pos + j, pos + k)),
            v < p256((k - j) as nat),
        decreases j,
    {
        let ghost tail = b@.subrange(pos + j - 1, pos + k);
        proof {
            assert(tail[0] == b@[pos + j - 1]);
            assert(tail.drop_first() =~= b@.subrange(pos + j, pos + k));
            assert(p256((k - j + 1) as nat) == 256 * p256((k - j) as nat));
            lemma_p256_values();
            assert(p256((k - j) as nat) <= p256(7)) by {
                lemma_p256_mono((k - j) as nat, 7);
            }
            assert(v * 256 + 255 < 0x1_0000_0000_0000_0000) by (nonlinear_arith)
                requires
                    0 <= v < 0x100_0000_0000_0000,
            ;
        }
        v = v * 256 + (b[pos + j - 1] as u64);
        j = j - 1;
        proof {
            assert(le_val(tail) == tail[0] + 256 * le_val(tail.drop_first()));
            assert(v == le_val(b@.subrange(pos + j, pos + k)));
            assert(v < 256 * p256((k - j - 1) as nat)) by (nonlinear_arith)
                requires
                    v <= 255 + 256 * (p256((k - j - 1) as nat) - 1),
            ;
        }
    }
    v
}

/// The first few powers of 256.
pub proof fn lemma_p256_values()
    ensures
        p256(4) == 0x1_0000_0000,
        p256(7) == 0x100_0000_0000_0000,
        p256(8) == 0x1_0000_0000_0000_0000,
{
    assert(p256(0) == 1);
    assert(p256(1) == 256);
    assert(p256(2) == 0x1_0000);
    assert(p256(3) == 0x100_0000);
    assert(p256(4) == 0x1_0000_0000);
    assert(p256(5) == 0x100_0000_0000);
    assert(p256(6) == 0x1_0000_0000_0000);
    assert(p256(7) == 0x100_0000_0000_0000);
    assert(p256(8) == 0x1_0000_0000_0000_0000);
}

/// `p256` is monotone in the exponent.
pub proof fn lemma_p256_mono(a: nat, b: nat)
    requires
        a <= b,
    ensures
        p256(a) <= p256(b),
    decreases b,
{
    if a < b {
        lemma_p256_mono(a, (b - 1) as nat);
        assert(p256(b) == 256 * p256((b - 1) as nat));
        assert(p256(a) >= 1) by {
            lemma_p256_pos(a);
        }
        assert(256 * p256((b - 1) as nat) >= p256((b - 1) as nat)) by (nonlinear_arith)
            requires
                p256((b - 1) as nat) >= 1,
        ;
    }
}

/// Powers of 256 are positive.
pub proof fn lemma_p256_pos(k: nat)
    ensures
        p256(k) >= 1,
    decreases k,
{
    if k > 0 {
        lemma_p256_pos((k - 1) as nat);
    }
}

// ---------------------------------------------------------------------
// The encoding, as mathematics.
// ---------------------------------------------------------------------
/// A 64-bit length or number: eight little-endian bytes.
pub open spec fn e_u64(n: u64) -> Seq<u8> {
    enc_le(n as int, 8)
}

/// A 32-bit number: four little-endian bytes.
pub open spec fn e_u32(n: u32) -> Seq<u8> {
    enc_le(n as int, 4)
}

/// A character: its code point in four little-endian bytes.
pub open spec fn e_char(c: char) -> Seq<u8> {
    enc_le(c as u32 as int, 4)
}

/// The items of a list, encoded by `f` and concatenated.
pub open spec fn e_items<T>(v: Seq<T>, f: spec_fn(T) -> Seq<u8>) -> Seq<u8>
    decreases v.len(),
{
    if v.len() == 0 {
        Seq::empty()
    } else {
        f(v[0]) + e_items(v.drop_first(), f)
    }
}

/// Encoded items concatenate over list concatenation.
pub proof fn lemma_e_items_app<T>(a: Seq<T>, b: Seq<T>, f: spec_fn(T) -> Seq<u8>)
    ensures
        e_items(a + b, f) == e_items(a, f) + e_items(b, f),
    decreases a.len(),
{
    if a.len() == 0 {
        assert(a + b =~= b);
        assert(e_items(a, f) + e_items(b, f) =~= e_items(b, f));
    } else {
        lemma_e_items_app(a.drop_first(), b, f);
        assert((a + b).drop_first() =~= a.drop_first() + b);
        assert((a + b)[0] == a[0]);
        assert(f(a[0]) + (e_items(a.drop_first(), f) + e_items(b, f)) =~= (f(a[0]) + e_items(
            a.drop_first(),
            f,
        )) + e_items(b, f));
    }
}

/// A string: its length, then each character.
pub open spec fn e_str(s: Seq<char>) -> Seq<u8> {
    e_u64(s.len() as u64) + e_items(s, |c: char| e_char(c))
}

/// The byte naming an owner classification.
pub open spec fn kind_byte(t: OwnerType) -> u8 {
    match t {
        OwnerType::User => 0,
        OwnerType::Team => 1,
        OwnerType::Email => 2,
        OwnerType::Unowned => 3,
        OwnerType::Unknown => 4,
    }
}

/// The owner classification a byte names, if any.
pub open spec fn kind_of_byte(b: u8) -> Option<OwnerType> {
    if b == 0 {
        Some(OwnerType::User)
    } else if b == 1 {
        Some(OwnerType::Team)
    } else if b == 2 {
        Some(OwnerType::Email)
    } else if b == 3 {
        Some(OwnerType::Unowned)
    } else if b == 4 {
        Some(OwnerType::Unknown)
    } else {
        None
    }
}

/// An owner: its identifier, then its classification byte.
pub open spec fn e_owner(o: OwnerV) -> Seq<u8> {
    e_str(o.identifier) + seq![kind_byte(o.owner_type)]
}

/// A list of owners: a count, then each owner.
pub open spec fn e_owner_list(v: Seq<OwnerV>) -> Seq<u8> {
    e_u64(v.len() as u64) + e_items(v, |o: OwnerV| e_owner(o))
}

/// A list of strings: a count, then each string.
pub open spec fn e_str_list(v: Seq<Seq<char>>) -> Seq<u8> {
    e_u64(v.len() as u64) + e_items(v, |s: Seq<char>| e_str(s))
}

/// A rule entry: source path, line, pattern, owners, tags.
pub open spec fn e_entry(e: EntryV) -> Seq<u8> {
    e_str(e.source_file) + e_u64(e.line_number as u64) + e_str(e.pattern) + e_owner_list(e.owners)
        + e_str_list(e.tags)
}

/// A file's resolved ownership: path, owners, tags.
pub open spec fn e_file(f: FileEntryV) -> Seq<u8> {
    e_str(f.path) + e_owner_list(f.owners) + e_str_list(f.tags)
}

/// An owner-index pair: the owner, then its paths.
pub open spec fn e_opair(p: (OwnerV, Seq<Seq<char>>)) -> Seq<u8> {
    e_owner(p.0) + e_str_list(p.1)
}

/// A tag-index pair: the tag, then its paths.
pub open spec fn e_tpair(p: (Seq<char>, Seq<Seq<char>>)) -> Seq<u8> {
    e_str(p.0) + e_str_list(p.1)
}

/// A whole cache: version, fingerprint, entries, files, both indices.
pub open spec fn e_cache(c: CacheV) -> Seq<u8> {
    e_u32(c.version) + c.hash + e_u64(c.entries.len() as u64) + e_items(
        c.entries,
        |e: EntryV| e_entry(e),
    ) + e_u64(c.files.len() as u64) + e_items(c.files, |f: FileEntryV| e_file(f)) + e_u64(
        c.owners_map.len() as u64,
    ) + e_items(c.owners_map, |p: (OwnerV, Seq<Seq<char>>)| e_opair(p)) + e_u64(
        c.tags_map.len() as u64,
    ) + e_items(c.tags_map, |p: (Seq<char>, Seq<Seq<char>>)| e_tpair(p))
}

// ---------------------------------------------------------------------
// The decoding, as mathematics: each function reads a prefix of `b` and
// yields the decoded value with the number of bytes consumed.
// ---------------------------------------------------------------------
/// Reads a 64-bit number.
pub open spec fn d_u64(b: Seq<u8>) -> Option<(u64, int)> {
    if b.len() >= 8 {
        Some((le_val(b.take(8)) as u64, 8))
    } else {
        None
    }
}

/// Reads a 32-bit number.
pub open spec fn d_u32(b: Seq<u8>) -> Option<(u32, int)> {
    if b.len() >= 4 {
        Some((le_val(b.take(4)) as u32, 4))
    } else {
        None
    }
}

/// Reads a character; a code point that is no Unicode scalar value is a
/// decode failure.
pub open spec fn d_char(b: Seq<u8>) -> Option<(char, int)> {
    if b.len() >= 4 {
        let v = le_val(b.take(4));
        if vstd::utf8::is_scalar(v as u32) {
            Some(((v as u32) as char, 4))
        } else {
            None
        }
    } else {
        None
    }
}

/// Reads `n` values with the item reader `g`.
pub open spec fn d_items<T>(b: Seq<u8>, n: nat, g: spec_fn(Seq<u8>) -> Option<(T, int)>) -> Option<
    (Seq<T>, int),
>
    decreases n,
{
    if n == 0 {
        Some((Seq::empty(), 0))
    } else {
        match g(b) {
            None => None,
            Some((x, p)) => match d_items(b.skip(p), (n - 1) as nat, g) {
                None => None,
                Some((s, q)) => Some((seq![x] + s, p + q)),
            },
        }
    }
}

/// Reads a string: a length, then that many characters.
pub open spec fn d_str(b: Seq<u8>) -> Option<(Seq<char>, int)> {
    match d_u64(b) {
        None => None,
        Some((n, p)) => match d_items(b.skip(p), n as nat, |bb: Seq<u8>| d_char(bb)) {
            None => None,
            Some((s, q)) => Some((s, p + q)),
        },
    }
}

/// Reads one byte.
pub open spec fn d_byte(b: Seq<u8>) -> Option<(u8, int)> {
    if b.len() >= 1 {
        Some((b[0], 1))
    } else {
        None
    }
}

/// Reads an owner: an identifier and a classification byte.
pub open spec fn d_owner(b: Seq<u8>) -> Option<(OwnerV, int)> {
    match d_str(b) {
        None => None,
        Some((s, p)) => match d_byte(b.skip(p)) {
            None => None,
            Some((kb, q)) => match kind_of_byte(kb) {
                None => None,
                Some(t) => Some((OwnerV { identifier: s, owner_type: t }, p + q)),
            },
        },
    }
}

/// Reads a list of owners.
pub open spec fn d_owner_list(b: Seq<u8>) -> Option<(Seq<OwnerV>, int)> {
    match d_u64(b) {
        None => None,
        Some((n, p)) => match d_items(b.skip(p), n as nat, |bb: Seq<u8>| d_owner(bb)) {
            None => None,
            Some((s, q)) => Some((s, p + q)),
        },
    }
}

/// Reads a list of strings.
pub open spec fn d_str_list(b: Seq<u8>) -> Option<(Seq<Seq<char>>, int)> {
    match d_u64(b) {
        None => None,
        Some((n, p)) => match d_items(b.skip(p), n as nat, |bb: Seq<u8>| d_str(bb)) {
            None => None,
            Some((s, q)) => Some((s, p + q)),
        },
    }
}

/// Reads a rule entry; a line number too large for this platform is a
/// decode failure.
pub open spec fn d_entry(b: Seq<u8>) -> Option<(EntryV, int)> {
    match d_str(b) {
        None => None,
        Some((src, p1)) => match d_u64(b.skip(p1)) {
            None => None,
            Some((line, p2)) => {
                if line > usize::MAX {
                    None
                } else {
                    match d_str(b.skip(p1 + p2)) {
                        None => None,
                        Some((pat, p3)) => match d_owner_list(b.skip(p1 + p2 + p3)) {
                            None => None,
                            Some((os, p4)) => match d_str_list(b.skip(p1 + p2 + p3 + p4)) {
                                None => None,
                                Some((ts, p5)) => Some(
                                    (
                                        EntryV {
                                            source_file: src,
                                            line_number: line as usize,
                                            pattern: pat,
                                            owners: os,
                                            tags: ts,
                                        },
                                        p1 + p2 + p3 + p4 + p5,
                                    ),
                                ),
                            },
                        },
                    }
                }
            },
        },
    }
}

/// Reads a file's resolved ownership.
pub open spec fn d_file(b: Seq<u8>) -> Option<(FileEntryV, int)> {
    match d_str(b) {
        None => None,
        Some((path, p1)) => match d_owner_list(b.skip(p1)) {
            None => None,
            Some((os, p2)) => match d_str_list(b.skip(p1 + p2)) {
                None => None,
                Some((ts, p3)) => Some(
                    (FileEntryV { path, owners: os, tags: ts }, p1 + p2 + p3),
                ),
            },
        },
    }
}

/// Reads an owner-index pair.
pub open spec fn d_opair(b: Seq<u8>) -> Option<((OwnerV, Seq<Seq<char>>), int)> {
    match d_owner(b) {
        None => None,
        Some((o, p1)) => match d_str_list(b.skip(p1)) {
            None => None,
            Some((ps, p2)) => Some(((o, ps), p1 + p2)),
        },
    }
}

/// Reads a tag-index pair.
pub open spec fn d_tpair(b: Seq<u8>) -> Option<((Seq<char>, Seq<Seq<char>>), int)> {
    match d_str(b) {
        None => None,
        Some((t, p1)) => match d_str_list(b.skip(p1)) {
            None => None,
            Some((ps, p2)) => Some(((t, ps), p1 + p2)),
        },
    }
}

/// Reads the 32-byte fingerprint.
pub open spec fn d_hash(b: Seq<u8>) -> Option<(Seq<u8>, int)> {
    if b.len() >= 32 {
        Some((b.take(32), 32))
    } else {
        None
    }
}

/// Reads the entry list.
pub open spec fn d_entry_list(b: Seq<u8>) -> Option<(Seq<EntryV>, int)> {
    match d_u64(b) {
        None => None,
        Some((n, p)) => match d_items(b.skip(p), n as nat, |bb: Seq<u8>| d_entry(bb)) {
            None => None,
            Some((s, q)) => Some((s, p + q)),
        },
    }
}

/// Reads the file list.
pub open spec fn d_file_list(b: Seq<u8>) -> Option<(Seq<FileEntryV>, int)> {
    match d_u64(b) {
        None => None,
        Some((n, p)) => match d_items(b.skip(p), n as nat, |bb: Seq<u8>| d_file(bb)) {
            None => None,
            Some((s, q)) => Some((s, p + q)),
        },
    }
}

/// Reads the owner index.
pub open spec fn d_opair_list(b: Seq<u8>) -> Option<(Seq<(OwnerV, Seq<Seq<char>>)>, int)> {
    match d_u64(b) {
        None => None,
        Some((n, p)) => match d_items(b.skip(p), n as nat, |bb: Seq<u8>| d_opair(bb)) {
            None => None,
            Some((s, q)) => Some((s, p + q)),
        },
    }
}

/// Reads the tag index.
pub open spec fn d_tpair_list(b: Seq<u8>) -> Option<(Seq<(Seq<char>, Seq<Seq<char>>)>, int)> {
    match d_u64(b) {
        None => None,
        Some((n, p)) => match d_items(b.skip(p), n as nat, |bb: Seq<u8>| d_tpair(bb)) {
            None => None,
            Some((s, q)) => Some((s, p + q)),
        },
    }
}

/// Reads a whole cache.
pub open spec fn d_cache(b: Seq<u8>) -> Option<(CacheV, int)> {
    match d_u32(b) {
        None => None,
        Some((version, p1)) => match d_hash(b.skip(p1)) {
            None => None,
            Some((hash, p2)) => match d_entry_list(b.skip(p1 + p2)) {
                None => None,
                Some((es, p3)) => match d_file_list(b.skip(p1 + p2 + p3)) {
                    None => None,
                    Some((fs, p4)) => match d_opair_list(b.skip(p1 + p2 + p3 + p4)) {
                        None => None,
                        Some((om, p5)) => match d_tpair_list(b.skip(p1 + p2 + p3 + p4 + p5)) {
                            None => None,
                            Some((tm, p6)) => Some(
                                (
                                    CacheV {
                                        version,
                                        hash,
                                        entries: es,
                                        files: fs,
                                        owners_map: om,
                                        tags_map: tm,
                                    },
                                    p1 + p2 + p3 + p4 + p5 + p6,
                                ),
                            ),
                        },
                    },
                },
            },
        },
    }
}

/// What decoding a byte string yields: the cache its prefix encodes, if
/// the whole string is exactly that encoding.
pub open spec fn decode_bin_spec(b: Seq<u8>) -> Option<CacheV> {
    match d_cache(b) {
        None => None,
        Some((c, p)) => if p == b.len() {
            Some(c)
        } else {
            None
        },
    }
}

// ---------------------------------------------------------------------
// Decoding inverts encoding.
// ---------------------------------------------------------------------
/// A string short enough for its length to be written.
pub open spec fn str_ok(s: Seq<char>) -> bool {
    s.len() <= u64::MAX
}

/// A list of strings short enough to be written.
pub open spec fn strs_ok(v: Seq<Seq<char>>) -> bool {
    v.len() <= u64::MAX && forall|i: int| 0 <= i < v.len() ==> str_ok(#[trigger] v[i])
}

/// An owner short enough to be written.
pub open spec fn owner_ok(o: OwnerV) -> bool {
    str_ok(o.identifier)
}

/// A list of owners short enough to be written.
pub open spec fn owners_ok(v: Seq<OwnerV>) -> bool {
    v.len() <= u64::MAX && forall|i: int| 0 <= i < v.len() ==> owner_ok(#[trigger] v[i])
}

/// An entry short enough to be written.
pub open spec fn entry_ok(e: EntryV) -> bool {
    str_ok(e.source_file) && str_ok(e.pattern) && owners_ok(e.owners) && strs_ok(e.tags)
}

/// A file record short enough to be written.
pub open spec fn file_ok(f: FileEntryV) -> bool {
    str_ok(f.path) && owners_ok(f.owners) && strs_ok(f.tags)
}

/// An owner-index pair short enough to be written.
pub open spec fn opair_ok(p: (OwnerV, Seq<Seq<char>>)) -> bool {
    owner_ok(p.0) && strs_ok(p.1)
}

/// A tag-index pair short enough to be written.
pub open spec fn tpair_ok(p: (Seq<char>, Seq<Seq<char>>)) -> bool {
    str_ok(p.0) && strs_ok(p.1)
}

/// A cache whose parts are short enough to be written, with a 32-byte
/// fingerprint. Every cache an execution builds satisfies this.
pub open spec fn cache_ok(c: CacheV) -> bool {
    &&& c.hash.len() == 32
    &&& c.entries.len() <= u64::MAX && forall|i: int|
        0 <= i < c.entries.len() ==> entry_ok(#[trigger] c.entries[i])
    &&& c.files.len() <= u64::MAX && forall|i: int|
        0 <= i < c.files.len() ==> file_ok(#[trigger] c.files[i])
    &&& c.owners_map.len() <= u64::MAX && forall|i: int|
        0 <= i < c.owners_map.len() ==> opair_ok(#[trigger] c.owners_map[i])
    &&& c.tags_map.len() <= u64::MAX && forall|i: int|
        0 <= i < c.tags_map.len() ==> tpair_ok(#[trigger] c.tags_map[i])
}

/// Reading a written 64-bit number gives it back.
pub proof fn lemma_rt_u64(n: u64, rest: Seq<u8>)
    ensures
        d_u64(e_u64(n) + rest) == Some((n, 8int)),
        e_u64(n).len() == 8,
{
    lemma_enc_le_len(n as int, 8);
    lemma_p256_values();
    lemma_le_round_trip(n as int, 8);
    assert((e_u64(n) + rest).take(8) =~= e_u64(n));
}

/// Reading a written 32-bit number gives it back.
pub proof fn lemma_rt_u32(n: u32, rest: Seq<u8>)
    ensures
        d_u32(e_u32(n) + rest) == Some((n, 4int)),
        e_u32(n).len() == 4,
{
    lemma_enc_le_len(n as int, 4);
    lemma_p256_values();
    lemma_le_round_trip(n as int, 4);
    assert((e_u32(n) + rest).take(4) =~= e_u32(n));
}

/// Reading a written character gives it back.
pub proof fn lemma_rt_char(c: char, rest: Seq<u8>)
    ensures
        d_char(e_char(c) + rest) == Some((c, 4int)),
        e_char(c).len() == 4,
{
    vstd::utf8::char_is_scalar(c);
    lemma_enc_le_len(c as u32 as int, 4);
    lemma_p256_values();
    lemma_le_round_trip(c as u32 as int, 4);
    assert((e_char(c) + rest).take(4) =~= e_char(c));
    let v = le_val((e_char(c) + rest).take(4));
    assert(v == c as u32);
    vstd::utf8::char_u32_cast(c, c as u32);
}

/// Reading written items gives them back, whenever the item reader
/// inverts the item writer.
pub proof fn lemma_rt_items<T>(
    v: Seq<T>,
    rest: Seq<u8>,
    f: spec_fn(T) -> Seq<u8>,
    g: spec_fn(Seq<u8>) -> Option<(T, int)>,
)
    requires
        forall|j: int, r2: Seq<u8>|
            0 <= j < v.len() ==> #[trigger] g(f(v[j]) + r2) == Some((v[j], f(v[j]).len() as int)),
    ensures
        d_items(e_items(v, f) + rest, v.len(), g) == Some((v, e_items(v, f).len() as int)),
    decreases v.len(),
{
    if v.len() == 0 {
        assert(e_items(v, f) =~= Seq::<u8>::empty());
        assert(d_items(e_items(v, f) + rest, 0, g) == Some((Seq::<T>::empty(), 0int)));
        assert(v =~= Seq::<T>::empty());
    } else {
        let tail = v.drop_first();
        let b = e_items(v, f) + rest;
        assert(b =~= f(v[0]) + (e_items(tail, f) + rest));
        assert(g(b) == Some((v[0], f(v[0]).len() as int)));
        assert(b.skip(f(v[0]).len() as int) =~= e_items(tail, f) + rest);
        assert forall|j: int, r2: Seq<u8>| 0 <= j < tail.len() implies #[trigger] g(f(tail[j]) + r2)
            == Some((tail[j], f(tail[j]).len() as int)) by {
            assert(tail[j] == v[j + 1]);
        }
        lemma_rt_items(tail, rest, f, g);
        assert(seq![v[0]] + tail =~= v);
    }
}

/// Reading a written string gives it back.
pub proof fn lemma_rt_str(s: Seq<char>, rest: Seq<u8>)
    requires
        str_ok(s),
    ensures
        d_str(e_str(s) + rest) == Some((s, e_str(s).len() as int)),
{
    let f = |c: char| e_char(c);
    let g = |bb: Seq<u8>| d_char(bb);
    let b = e_str(s) + rest;
    assert(b =~= e_u64(s.len() as u64) + (e_items(s, f) + rest));
    lemma_rt_u64(s.len() as u64, e_items(s, f) + rest);
    assert(b.skip(8) =~= e_items(s, f) + rest);
    assert forall|j: int, r2: Seq<u8>| 0 <= j < s.len() implies #[trigger] g(f(s[j]) + r2) == Some(
        (s[j], f(s[j]).len() as int),
    ) by {
        lemma_rt_char(s[j], r2);
    }
    lemma_rt_items(s, rest, f, g);
}

/// Reading a written owner gives it back.
pub proof fn lemma_rt_owner(o: OwnerV, rest: Seq<u8>)
    requires
        owner_ok(o),
    ensures
        d_owner(e_owner(o) + rest) == Some((o, e_owner(o).len() as int)),
{
    let b = e_owner(o) + rest;
    let kb = seq![kind_byte(o.owner_type)];
    assert(b =~= e_str(o.identifier) + (kb + rest));
    lemma_rt_str(o.identifier, kb + rest);
    let p = e_str(o.identifier).len() as int;
    assert(b.skip(p) =~= kb + rest);
    assert((kb + rest)[0] == kind_byte(o.owner_type));
    assert(kind_of_byte(kind_byte(o.owner_type)) == Some(o.owner_type));
}

/// Reading a written owner list gives it back.
pub proof fn lemma_rt_owner_list(v: Seq<OwnerV>, rest: Seq<u8>)
    requires
        owners_ok(v),
    ensures
        d_owner_list(e_owner_list(v) + rest) == Some((v, e_owner_list(v).len() as int)),
{
    let f = |o: OwnerV| e_owner(o);
    let g = |bb: Seq<u8>| d_owner(bb);
    let b = e_owner_list(v) + rest;
    assert(b =~= e_u64(v.len() as u64) + (e_items(v, f) + rest));
    lemma_rt_u64(v.len() as u64, e_items(v, f) + rest);
    assert(b.skip(8) =~= e_items(v, f) + rest);
    assert forall|j: int, r2: Seq<u8>| 0 <= j < v.len() implies #[trigger] g(f(v[j]) + r2) == Some(
        (v[j], f(v[j]).len() as int),
    ) by {
        lemma_rt_owner(v[j], r2);
    }
    lemma_rt_items(v, rest, f, g);
}

/// Reading a written string list gives it back.
pub proof fn lemma_rt_str_list(v: Seq<Seq<char>>, rest: Seq<u8>)
    requires
        strs_ok(v),
    ensures
        d_str_list(e_str_list(v) + rest) == Some((v, e_str_list(v).len() as int)),
{
    let f = |s: Seq<char>| e_str(s);
    let g = |bb: Seq<u8>| d_str(bb);
    let b = e_str_list(v) + rest;
    assert(b =~= e_u64(v.len() as u64) + (e_items(v, f) + rest));
    lemma_rt_u64(v.len() as u64, e_items(v, f) + rest);
    assert(b.skip(8) =~= e_items(v, f) + rest);
    assert forall|j: int, r2: Seq<u8>| 0 <= j < v.len() implies #[trigger] g(f(v[j]) + r2) == Some(
        (v[j], f(v[j]).len() as int),
    ) by {
        lemma_rt_str(v[j], r2);
    }
    lemma_rt_items(v, rest, f, g);
}

/// Reading a written entry gives it back.
#[verifier::rlimit(60)]
pub proof fn lemma_rt_entry(e: EntryV, rest: Seq<u8>)
    requires
        entry_ok(e),
    ensures
        d_entry(e_entry(e) + rest) == Some((e, e_entry(e).len() as int)),
{
    let b = e_entry(e) + rest;
    let t1 = e_u64(e.line_number as u64) + (e_str(e.pattern) + (e_owner_list(e.owners) + (
    e_str_list(e.tags) + rest)));
    assert(b =~= e_str(e.source_file) + t1);
    lemma_rt_str(e.source_file, t1);
    let p1 = e_str(e.source_file).len() as int;
    assert(b.skip(p1) =~= t1);
    let t2 = e_str(e.pattern) + (e_owner_list(e.owners) + (e_str_list(e.tags) + rest));
    lemma_rt_u64(e.line_number as u64, t2);
    assert(b.skip(p1).skip(8) =~= t2);
    assert(b.skip(p1 + 8) =~= t2);
    let t3 = e_owner_list(e.owners) + (e_str_list(e.tags) + rest);
    lemma_rt_str(e.pattern, t3);
    let p3 = e_str(e.pattern).len() as int;
    assert(b.skip(p1 + 8).skip(p3) =~= t3);
    assert(b.skip(p1 + 8 + p3) =~= t3);
    let t4 = e_str_list(e.tags) + rest;
    lemma_rt_owner_list(e.owners, t4);
    let p4 = e_owner_list(e.owners).len() as int;
    assert(b.skip(p1 + 8 + p3).skip(p4) =~= t4);
    assert(b.skip(p1 + 8 + p3 + p4) =~= t4);
    lemma_rt_str_list(e.tags, rest);
    let p5 = e_str_list(e.tags).len() as int;
    assert(e.line_number as u64 <= usize::MAX);
    assert(e_entry(e).len() == p1 + 8 + p3 + p4 + p5);
}

/// Reading a written file record gives it back.
pub proof fn lemma_rt_file(f: FileEntryV, rest: Seq<u8>)
    requires
        file_ok(f),
    ensures
        d_file(e_file(f) + rest) == Some((f, e_file(f).len() as int)),
{
    let b = e_file(f) + rest;
    let t1 = e_owner_list(f.owners) + (e_str_list(f.tags) + rest);
    assert(b =~= e_str(f.path) + t1);
    lemma_rt_str(f.path, t1);
    let p1 = e_str(f.path).len() as int;
    assert(b.skip(p1) =~= t1);
    let t2 = e_str_list(f.tags) + rest;
    lemma_rt_owner_list(f.owners, t2);
    let p2 = e_owner_list(f.owners).len() as int;
    assert(b.skip(p1).skip(p2) =~= t2);
    assert(b.skip(p1 + p2) =~= t2);
    lemma_rt_str_list(f.tags, rest);
    let p3 = e_str_list(f.tags).len() as int;
    assert(e_file(f).len() == p1 + p2 + p3);
}

/// Reading a written owner-index pair gives it back.
pub proof fn lemma_rt_opair(p: (OwnerV, Seq<Seq<char>>), rest: Seq<u8>)
    requires
        opair_ok(p),
    ensures
        d_opair(e_opair(p) + rest) == Some((p, e_opair(p).len() as int)),
{
    let b = e_opair(p) + rest;
    let t1 = e_str_list(p.1) + rest;
    assert(b =~= e_owner(p.0) + t1);
    lemma_rt_owner(p.0, t1);
    let p1 = e_owner(p.0).len() as int;
    assert(b.skip(p1) =~= t1);
    lemma_rt_str_list(p.1, rest);
    let p2 = e_str_list(p.1).len() as int;
    assert(e_opair(p).len() == p1 + p2);
    assert((p.0, p.1) == p);
}

/// Reading a written tag-index pair gives it back.
pub proof fn lemma_rt_tpair(p: (Seq<char>, Seq<Seq<char>>), rest: Seq<u8>)
    requires
        tpair_ok(p),
    ensures
        d_tpair(e_tpair(p) + rest) == Some((p, e_tpair(p).len() as int)),
{
    let b = e_tpair(p) + rest;
    let t1 = e_str_list(p.1) + rest;
    assert(b =~= e_str(p.0) + t1);
    lemma_rt_str(p.0, t1);
    let p1 = e_str(p.0).len() as int;
    assert(b.skip(p1) =~= t1);
    lemma_rt_str_list(p.1, rest);
    let p2 = e_str_list(p.1).len() as int;
    assert(e_tpair(p).len() == p1 + p2);
    assert((p.0, p.1) == p);
}

/// Reading a written entry list gives it back.
pub proof fn lemma_rt_entry_list(v: Seq<EntryV>, rest: Seq<u8>)
    requires
        v.len() <= u64::MAX,
        forall|i: int| 0 <= i < v.len() ==> entry_ok(#[trigger] v[i]),
    ensures
        d_entry_list(e_u64(v.len() as u64) + e_items(v, |e: EntryV| e_entry(e)) + rest) == Some(
            (v, 8 + e_items(v, |e: EntryV| e_entry(e)).len() as int),
        ),
{
    let f = |e: EntryV| e_entry(e);
    let g = |bb: Seq<u8>| d_entry(bb);
    let b = e_u64(v.len() as u64) + e_items(v, f) + rest;
    assert(b =~= e_u64(v.len() as u64) + (e_items(v, f) + rest));
    lemma_rt_u64(v.len() as u64, e_items(v, f) + rest);
    assert(b.skip(8) =~= e_items(v, f) + rest);
    assert forall|j: int, r2: Seq<u8>| 0 <= j < v.len() implies #[trigger] g(f(v[j]) + r2) == Some(
        (v[j], f(v[j]).len() as int),
    ) by {
        lemma_rt_entry(v[j], r2);
    }
    lemma_rt_items(v, rest, f, g);
}

/// Reading a written file list gives it back.
pub proof fn lemma_rt_file_list(v: Seq<FileEntryV>, rest: Seq<u8>)
    requires
        v.len() <= u64::MAX,
        forall|i: int| 0 <= i < v.len() ==> file_ok(#[trigger] v[i]),
    ensures
        d_file_list(e_u64(v.len() as u64) + e_items(v, |f: FileEntryV| e_file(f)) + rest) == Some(
            (v, 8 + e_items(v, |f: FileEntryV| e_file(f)).len() as int),
        ),
{
    let f = |x: FileEntryV| e_file(x);
    let g = |bb: Seq<u8>| d_file(bb);
    let b = e_u64(v.len() as u64) + e_items(v, |x: FileEntryV| e_file(x)) + rest;
    assert(e_items(v, |x: FileEntryV| e_file(x)) == e_items(v, f));
    assert(b =~= e_u64(v.len() as u64) + (e_items(v, f) + rest));
    lemma_rt_u64(v.len() as u64, e_items(v, f) + rest);
    assert(b.skip(8) =~= e_items(v, f) + rest);
    assert forall|j: int, r2: Seq<u8>| 0 <= j < v.len() implies #[trigger] g(f(v[j]) + r2) == Some(
        (v[j], f(v[j]).len() as int),
    ) by {
        lemma_rt_file(v[j], r2);
    }
    lemma_rt_items(v, rest, f, g);
}

/// Reading a written owner index gives it back.
pub proof fn lemma_rt_opair_list(v: Seq<(OwnerV, Seq<Seq<char>>)>, rest: Seq<u8>)
    requires
        v.len() <= u64::MAX,
        forall|i: int| 0 <= i < v.len() ==> opair_ok(#[trigger] v[i]),
    ensures
        d_opair_list(
            e_u64(v.len() as u64) + e_items(v, |p: (OwnerV, Seq<Seq<char>>)| e_opair(p)) + rest,
        ) == Some((v, 8 + e_items(v, |p: (OwnerV, Seq<Seq<char>>)| e_opair(p)).len() as int)),
{
    let f = |p: (OwnerV, Seq<Seq<char>>)| e_opair(p);
    let g = |bb: Seq<u8>| d_opair(bb);
    let b = e_u64(v.len() as u64) + e_items(v, f) + rest;
    assert(b =~= e_u64(v.len() as u64) + (e_items(v, f) + rest));
    lemma_rt_u64(v.len() as u64, e_items(v, f) + rest);
    assert(b.skip(8) =~= e_items(v, f) + rest);
    assert forall|j: int, r2: Seq<u8>| 0 <= j < v.len() implies #[trigger] g(f(v[j]) + r2) == Some(
        (v[j], f(v[j]).len() as int),
    ) by {
        lemma_rt_opair(v[j], r2);
    }
    lemma_rt_items(v, rest, f, g);
}

/// Reading a written tag index gives it back.
pub proof fn lemma_rt_tpair_list(v: Seq<(Seq<char>, Seq<Seq<char>>)>, rest: Seq<u8>)
    requires
        v.len() <= u64::MAX,
        forall|i: int| 0 <= i < v.len() ==> tpair_ok(#[trigger] v[i]),
    ensures
        d_tpair_list(
            e_u64(v.len() as u64) + e_items(v, |p: (Seq<char>, Seq<Seq<char>>)| e_tpair(p)) + rest,
        ) == Some((v, 8 + e_items(v, |p: (Seq<char>, Seq<Seq<char>>)| e_tpair(p)).len() as int)),
{
    let f = |p: (Seq<char>, Seq<Seq<char>>)| e_tpair(p);
    let g = |bb: Seq<u8>| d_tpair(bb);
    let b = e_u64(v.len() as u64) + e_items(v, f) + rest;
    assert(b =~= e_u64(v.len() as u64) + (e_items(v, f) + rest));
    lemma_rt_u64(v.len() as u64, e_items(v, f) + rest);
    assert(b.skip(8) =~= e_items(v, f) + rest);
    assert forall|j: int, r2: Seq<u8>| 0 <= j < v.len() implies #[trigger] g(f(v[j]) + r2) == Some(
        (v[j], f(v[j]).len() as int),
    ) by {
        lemma_rt_tpair(v[j], r2);
    }
    lemma_rt_items(v, rest, f, g);
}

/// Decoding a written cache yields exactly that cache: the binary
/// encoding round-trips.
#[verifier::spinoff_prover]
#[verifier::rlimit(100)]
pub proof fn lemma_bin_round_trip(c: CacheV)
    requires
        cache_ok(c),
    ensures
        decode_bin_spec(e_cache(c)) == Some(c),
{
    let fe = |e: EntryV| e_entry(e);
    let ff = |f: FileEntryV| e_file(f);
    let fop = |p: (OwnerV, Seq<Seq<char>>)| e_opair(p);
    let ftp = |p: (Seq<char>, Seq<Seq<char>>)| e_tpair(p);
    let b = e_cache(c);
    let le = e_u64(c.entries.len() as u64) + e_items(c.entries, fe);
    let lf = e_u64(c.files.len() as u64) + e_items(c.files, ff);
    let lo = e_u64(c.owners_map.len() as u64) + e_items(c.owners_map, fop);
    let lt = e_u64(c.tags_map.len() as u64) + e_items(c.tags_map, ftp);
    let t1 = c.hash + (le + (lf + (lo + lt)));
    lemma_enc_le_len(c.entries.len() as u64 as int, 8);
    lemma_enc_le_len(c.files.len() as u64 as int, 8);
    lemma_enc_le_len(c.owners_map.len() as u64 as int, 8);
    lemma_enc_le_len(c.tags_map.len() as u64 as int, 8);
    assert(le.len() == 8 + e_items(c.entries, fe).len());
    assert(lf.len() == 8 + e_items(c.files, ff).len());
    assert(lo.len() == 8 + e_items(c.owners_map, fop).len());
    assert(lt.len() == 8 + e_items(c.tags_map, ftp).len());
    assert(b =~= e_u32(c.version) + t1);
    lemma_rt_u32(c.version, t1);
    assert(b.skip(4) =~= t1);
    let t2 = le + (lf + (lo + lt));
    assert(t1.take(32) =~= c.hash);
    assert(d_hash(t1) == Some((c.hash, 32int)));
    assert(b.skip(4).skip(32) =~= t2);
    assert(b.skip(36int) =~= t2);
    let t3 = lf + (lo + lt);
    assert(t2 =~= e_u64(c.entries.len() as u64) + e_items(c.entries, fe) + t3);
    lemma_rt_entry_list(c.entries, t3);
    let p3 = 8 + e_items(c.entries, fe).len() as int;
    assert(b.skip(36int).skip(p3) =~= t3);
    assert(b.skip(36 + p3) =~= t3);
    let t4 = lo + lt;
    assert(t3 =~= e_u64(c.files.len() as u64) + e_items(c.files, ff) + t4);
    lemma_rt_file_list(c.files, t4);
    let p4 = 8 + e_items(c.files, ff).len() as int;
    assert(b.skip(36 + p3).skip(p4) =~= t4);
    assert(b.skip(36 + p3 + p4) =~= t4);
    assert(t4 =~= e_u64(c.owners_map.len() as u64) + e_items(c.owners_map, fop) + lt);
    lemma_rt_opair_list(c.owners_map, lt);
    let p5 = 8 + e_items(c.owners_map, fop).len() as int;
    assert(b.skip(36 + p3 + p4).skip(p5) =~= lt);
    assert(b.skip(36 + p3 + p4 + p5) =~= lt);
    assert(lt =~= e_u64(c.tags_map.len() as u64) + e_items(c.tags_map, ftp) + Seq::<u8>::empty());
    lemma_rt_tpair_list(c.tags_map, Seq::empty());
    let p6 = 8 + e_items(c.tags_map, ftp).len() as int;
    assert(b.len() == 36 + p3 + p4 + p5 + p6);
    assert(d_cache(b) == Some(
        (
            CacheV {
                version: c.version,
                hash: c.hash,
                entries: c.entries,
                files: c.files,
                owners_map: c.owners_map,
                tags_map: c.tags_map,
            },
            36 + p3 + p4 + p5 + p6,
        ),
    ));
    assert(CacheV {
        version: c.version,
        hash: c.hash,
        entries: c.entries,
        files: c.files,
        owners_map: c.owners_map,
        tags_map: c.tags_map,
    } == c);
}

// ---------------------------------------------------------------------
// The executable encoder.
// ---------------------------------------------------------------------
/// Appends one encoded string.
fn w_str(out: &mut Vec<u8>, s: &String)
    ensures
        final(out)@ == old(out)@ + e_str(s@),
{
    let cs = crate::strutil::str_to_chars(s.as_str());
    let n: u64 = cs.len() as u64;
    push_le(out, n, 8);
    let ghost f = |c: char| e_char(c);
    let ghost mid = out@;
    let mut i: usize = 0;
    proof {
        assert(e_items(s@.take(0), f) =~= Seq::<u8>::empty());
        assert(out@ =~= mid + e_items(s@.take(0), f));
    }
    while i < cs.len()
        invariant
            i <= cs@.len(),
            cs@ == s@,
            f == (|c: char| e_char(c)),
            out@ =~= mid + e_items(s@.take(i as int), f),
        decreases cs@.len() - i,
    {
        let c = cs[i];
        push_le(out, c as u32 as u64, 4);
        i = i + 1;
        proof {
            assert(enc_le(c as u32 as u64 as int, 4) == e_char(c));
            assert(s@.take(i as int) =~= s@.take(i - 1) + seq![s@[i - 1]]);
            lemma_e_items_app(s@.take(i - 1), seq![s@[i - 1]], f);
            let single = seq![s@[i - 1]];
            assert(single.drop_first() =~= Seq::<char>::empty());
            assert(e_items(single.drop_first(), f) =~= Seq::<u8>::empty());
            assert(e_items(single, f) == f(single[0]) + e_items(single.drop_first(), f));
            assert(e_items(single, f) =~= f(s@[i - 1]));
            assert(out@ =~= mid + e_items(s@.take(i as int), f));
        }
    }
    proof {
        assert(s@.take(s@.len() as int) =~= s@);
        assert(n == s@.len());
        assert(out@ =~= old(out)@ + e_str(s@));
    }
}

/// Appends one encoded owner.
fn w_owner(out: &mut Vec<u8>, o: &Owner)
    ensures
        final(out)@ == old(out)@ + e_owner(o@),
{
    w_str(out, &o.identifier);
    let kb: u8 = match o.owner_type {
        OwnerType::User => 0,
        OwnerType::Team => 1,
        OwnerType::Email => 2,
        OwnerType::Unowned => 3,
        OwnerType::Unknown => 4,
    };
    out.push(kb);
    proof {
        assert(out@ =~= old(out)@ + e_owner(o@));
    }
}

/// Appends an encoded owner list.
fn w_owner_list(out: &mut Vec<u8>, v: &Vec<Owner>)
    ensures
        final(out)@ == old(out)@ + e_owner_list(v.deep_view()),
{
    let ghost dv = v.deep_view();
    let ghost f = |o: OwnerV| e_owner(o);
    push_le(out, v.len() as u64, 8);
    let ghost mid = out@;
    let mut i: usize = 0;
    proof {
        assert(e_items(dv.take(0), f) =~= Seq::<u8>::empty());
        assert(out@ =~= mid + e_items(dv.take(0), f));
    }
    while i < v.len()
        invariant
            i <= dv.len(),
            dv == v.deep_view(),
            f == (|o: OwnerV| e_owner(o)),
            out@ =~= mid + e_items(dv.take(i as int), f),
        decreases dv.len() - i,
    {
        proof {
            assert(dv[i as int] == v@[i as int]@);
        }
        w_owner(out, &v[i]);
        i = i + 1;
        proof {
            assert(dv.take(i as int) =~= dv.take(i - 1) + seq![dv[i - 1]]);
            lemma_e_items_app(dv.take(i - 1), seq![dv[i - 1]], f);
            let single = seq![dv[i - 1]];
            assert(single.drop_first() =~= Seq::<OwnerV>::empty());
            assert(e_items(single.drop_first(), f) =~= Seq::<u8>::empty());
            assert(e_items(single, f) == f(single[0]) + e_items(single.drop_first(), f));
            assert(e_items(single, f) =~= f(dv[i - 1]));
            assert(out@ =~= mid + e_items(dv.take(i as int), f));
        }
    }
    proof {
        assert(dv.take(dv.len() as int) =~= dv);
        assert(out@ =~= old(out)@ + e_owner_list(dv));
    }
}

/// Appends an encoded string list.
fn w_string_list(out: &mut Vec<u8>, v: &Vec<String>)
    ensures
        final(out)@ == old(out)@ + e_str_list(v.deep_view()),
{
    let ghost dv = v.deep_view();
    let ghost f = |s: Seq<char>| e_str(s);
    push_le(out, v.len() as u64, 8);
    let ghost mid = out@;
    let mut i: usize = 0;
    proof {
        assert(e_items(dv.take(0), f) =~= Seq::<u8>::empty());
        assert(out@ =~= mid + e_items(dv.take(0), f));
    }
    while i < v.len()
        invariant
            i <= dv.len(),
            dv == v.deep_view(),
            f == (|s2: Seq<char>| e_str(s2)),
            out@ =~= mid + e_items(dv.take(i as int), f),
        decreases dv.len() - i,
    {
        proof {
            assert(dv[i as int] == v@[i as int]@);
        }
        w_str(out, &v[i]);
        i = i + 1;
        proof {
            assert(dv.take(i as int) =~= dv.take(i - 1) + seq![dv[i - 1]]);
            lemma_e_items_app(dv.take(i - 1), seq![dv[i - 1]], f);
            let single = seq![dv[i - 1]];
            assert(single.drop_first() =~= Seq::<Seq<char>>::empty());
            assert(e_items(single.drop_first(), f) =~= Seq::<u8>::empty());
            assert(e_items(single, f) == f(single[0]) + e_items(single.drop_first(), f));
            assert(e_items(single, f) =~= f(dv[i - 1]));
            assert(out@ =~= mid + e_items(dv.take(i as int), f));
        }
    }
    proof {
        assert(dv.take(dv.len() as int) =~= dv);
        assert(out@ =~= old(out)@ + e_str_list(dv));
    }
}

/// Appends an encoded tag list.
fn w_tag_list(out: &mut Vec<u8>, v: &Vec<Tag>)
    ensures
        final(out)@ == old(out)@ + e_str_list(v.deep_view()),
{
    let ghost dv = v.deep_view();
    let ghost f = |s: Seq<char>| e_str(s);
    push_le(out, v.len() as u64, 8);
    let ghost mid = out@;
    let mut i: usize = 0;
    proof {
        assert(e_items(dv.take(0), f) =~= Seq::<u8>::empty());
        assert(out@ =~= mid + e_items(dv.take(0), f));
    }
    while i < v.len()
        invariant
            i <= dv.len(),
            dv == v.deep_view(),
            f == (|s2: Seq<char>| e_str(s2)),
            out@ =~= mid + e_items(dv.take(i as int), f),
        decreases dv.len() - i,
    {
        proof {
            assert(dv[i as int] == v@[i as int]@);
        }
        w_str(out, &v[i].0);
        i = i + 1;
        proof {
            assert(dv.take(i as int) =~= dv.take(i - 1) + seq![dv[i - 1]]);
            lemma_e_items_app(dv.take(i - 1), seq![dv[i - 1]], f);
            let single = seq![dv[i - 1]];
            assert(single.drop_first() =~= Seq::<Seq<char>>::empty());
            assert(e_items(single.drop_first(), f) =~= Seq::<u8>::empty());
            assert(e_items(single, f) == f(single[0]) + e_items(single.drop_first(), f));
            assert(e_items(single, f) =~= f(dv[i - 1]));
            assert(out@ =~= mid + e_items(dv.take(i as int), f));
        }
    }
    proof {
        assert(dv.take(dv.len() as int) =~= dv);
        assert(out@ =~= old(out)@ + e_str_list(dv));
    }
}

/// Appends one encoded entry.
fn w_entry(out: &mut Vec<u8>, e: &CodeownersEntry)
    ensures
        final(out)@ == old(out)@ + e_entry(e@),
{
    w_str(out, &e.source_file);
    push_le(out, e.line_number as u64, 8);
    w_str(out, &e.pattern);
    w_owner_list(out, &e.owners);
    w_tag_list(out, &e.tags);
    proof {
        assert(out@ =~= old(out)@ + e_entry(e@));
    }
}

/// Appends one encoded file record.
fn w_file(out: &mut Vec<u8>, f: &FileEntry)
    ensures
        final(out)@ == old(out)@ + e_file(f@),
{
    w_str(out, &f.path);
    w_owner_list(out, &f.owners);
    w_tag_list(out, &f.tags);
    proof {
        assert(out@ =~= old(out)@ + e_file(f@));
    }
}

/// Encodes a cache in the binary format.
pub fn encode_cache_bin(c: &CodeownersCache) -> (out: Vec<u8>)
    requires
        c@.hash.len() == 32,
    ensures
        out@ == e_cache(c@),
{
    let ghost fe = |e: EntryV| e_entry(e);
    let ghost ff = |f: FileEntryV| e_file(f);
    let ghost fop = |p: (OwnerV, Seq<Seq<char>>)| e_opair(p);
    let ghost ftp = |p: (Seq<char>, Seq<Seq<char>>)| e_tpair(p);
    let mut out: Vec<u8> = Vec::new();
    push_le(&mut out, c.version as u64, 4);
    proof {
        assert(enc_le(c.version as u64 as int, 4) == e_u32(c@.version));
        assert(out@ =~= e_u32(c@.version));
    }
    let mut hi: usize = 0;
    while hi < c.hash.len()
        invariant
            hi <= c@.hash.len(),
            c@.hash == c.hash@,
            out@ =~= e_u32(c@.version) + c@.hash.take(hi as int),
        decreases c@.hash.len() - hi,
    {
        out.push(c.hash[hi]);
        hi = hi + 1;
        proof {
            assert(out@ =~= e_u32(c@.version) + c@.hash.take(hi as int));
        }
    }
    proof {
        assert(c@.hash.take(c@.hash.len() as int) =~= c@.hash);
    }

    push_le(&mut out, c.entries.len() as u64, 8);
    let ghost dv_e = c.entries.deep_view();
    let ghost mid_e = out@;
    let mut i: usize = 0;
    proof {
        assert(e_items(dv_e.take(0), fe) =~= Seq::<u8>::empty());
        assert(out@ =~= mid_e + e_items(dv_e.take(0), fe));
    }
    while i < c.entries.len()
        invariant
            i <= dv_e.len(),
            dv_e == c.entries.deep_view(),
            fe == (|e: EntryV| e_entry(e)),
            out@ =~= mid_e + e_items(dv_e.take(i as int), fe),
        decreases dv_e.len() - i,
    {
        proof {
            assert(dv_e[i as int] == c.entries@[i as int]@);
        }
        w_entry(&mut out, &c.entries[i]);
        i = i + 1;
        proof {
            assert(dv_e.take(i as int) =~= dv_e.take(i - 1) + seq![dv_e[i - 1]]);
            lemma_e_items_app(dv_e.take(i - 1), seq![dv_e[i - 1]], fe);
            let single = seq![dv_e[i - 1]];
            assert(single.drop_first() =~= Seq::<EntryV>::empty());
            assert(e_items(single.drop_first(), fe) =~= Seq::<u8>::empty());
            assert(e_items(single, fe) == fe(single[0]) + e_items(single.drop_first(), fe));
            assert(e_items(single, fe) =~= fe(dv_e[i - 1]));
            assert(out@ =~= mid_e + e_items(dv_e.take(i as int), fe));
        }
    }
    proof {
        assert(dv_e.take(dv_e.len() as int) =~= dv_e);
    }

    push_le(&mut out, c.files.len() as u64, 8);
    let ghost dv_f = c.files.deep_view();
    let ghost mid_f = out@;
    let mut j: usize = 0;
    proof {
        assert(e_items(dv_f.take(0), ff) =~= Seq::<u8>::empty());
        assert(out@ =~= mid_f + e_items(dv_f.take(0), ff));
    }
    while j < c.files.len()
        invariant
            j <= dv_f.len(),
            dv_f == c.files.deep_view(),
            ff == (|f: FileEntryV| e_file(f)),
            out@ =~= mid_f + e_items(dv_f.take(j as int), ff),
        decreases dv_f.len() - j,
    {
        proof {
            assert(dv_f[j as int] == c.files@[j as int]@);
        }
        w_file(&mut out, &c.files[j]);
        j = j + 1;
        proof {
            assert(dv_f.take(j as int) =~= dv_f.take(j - 1) + seq![dv_f[j - 1]]);
            lemma_e_items_app(dv_f.take(j - 1), seq![dv_f[j - 1]], ff);
            let single = seq![dv_f[j - 1]];
            assert(single.drop_first() =~= Seq::<FileEntryV>::empty());
            assert(e_items(single.drop_first(), ff) =~= Seq::<u8>::empty());
            assert(e_items(single, ff) == ff(single[0]) + e_items(single.drop_first(), ff));
            assert(e_items(single, ff) =~= ff(dv_f[j - 1]));
            assert(out@ =~= mid_f + e_items(dv_f.take(j as int), ff));
        }
    }
    proof {
        assert(dv_f.take(dv_f.len() as int) =~= dv_f);
    }

    push_le(&mut out, c.owners_map.len() as u64, 8);
    let ghost dv_o = c.owners_map.deep_view();
    let ghost mid_o = out@;
    let mut k: usize = 0;
    proof {
        assert(e_items(dv_o.take(0), fop) =~= Seq::<u8>::empty());
        assert(out@ =~= mid_o + e_items(dv_o.take(0), fop));
    }
    while k < c.owners_map.len()
        invariant
            k <= dv_o.len(),
            dv_o == c.owners_map.deep_view(),
            fop == (|p: (OwnerV, Seq<Seq<char>>)| e_opair(p)),
            out@ =~= mid_o + e_items(dv_o.take(k as int), fop),
        decreases dv_o.len() - k,
    {
        proof {
            assert(dv_o[k as int] == c.owners_map@[k as int].deep_view());
        }
        w_owner(&mut out, &c.owners_map[k].0);
        w_string_list(&mut out, &c.owners_map[k].1);
        k = k + 1;
        proof {
            assert(dv_o.take(k as int) =~= dv_o.take(k - 1) + seq![dv_o[k - 1]]);
            lemma_e_items_app(dv_o.take(k - 1), seq![dv_o[k - 1]], fop);
            let single = seq![dv_o[k - 1]];
            assert(single.drop_first() =~= Seq::<(OwnerV, Seq<Seq<char>>)>::empty());
            assert(e_items(single.drop_first(), fop) =~= Seq::<u8>::empty());
            assert(e_items(single, fop) == fop(single[0]) + e_items(single.drop_first(), fop));
            assert(e_items(single, fop) =~= fop(dv_o[k - 1]));
            assert(out@ =~= mid_o + e_items(dv_o.take(k as int), fop));
        }
    }
    proof {
        assert(dv_o.take(dv_o.len() as int) =~= dv_o);
    }

    push_le(&mut out, c.tags_map.len() as u64, 8);
    let ghost dv_t = c.tags_map.deep_view();
    let ghost mid_t = out@;
    let mut m: usize = 0;
    proof {
        assert(e_items(dv_t.take(0), ftp) =~= Seq::<u8>::empty());
        assert(out@ =~= mid_t + e_items(dv_t.take(0), ftp));
    }
    while m < c.tags_map.len()
        invariant
            m <= dv_t.len(),
            dv_t == c.tags_map.deep_view(),
            ftp == (|p: (Seq<char>, Seq<Seq<char>>)| e_tpair(p)),
            out@ =~= mid_t + e_items(dv_t.take(m as int), ftp),
        decreases dv_t.len() - m,
    {
        proof {
            assert(dv_t[m as int] == c.tags_map@[m as int].deep_view());
        }
        w_str(&mut out, &c.tags_map[m].0.0);
        w_string_list(&mut out, &c.tags_map[m].1);
        m = m + 1;
        proof {
            assert(dv_t.take(m as int) =~= dv_t.take(m - 1) + seq![dv_t[m - 1]]);
            lemma_e_items_app(dv_t.take(m - 1), seq![dv_t[m - 1]], ftp);
            let single = seq![dv_t[m - 1]];
            assert(single.drop_first() =~= Seq::<(Seq<char>, Seq<Seq<char>>)>::empty());
            assert(e_items(single.drop_first(), ftp) =~= Seq::<u8>::empty());
            assert(e_items(single, ftp) == ftp(single[0]) + e_items(single.drop_first(), ftp));
            assert(e_items(single, ftp) =~= ftp(dv_t[m - 1]));
            assert(out@ =~= mid_t + e_items(dv_t.take(m as int), ftp));
        }
    }
    proof {
        assert(dv_t.take(dv_t.len() as int) =~= dv_t);
        assert(out@ =~= e_cache(c@));
    }
    out
}

// ---------------------------------------------------------------------
// The executable decoder.
// ---------------------------------------------------------------------
/// Reads a 64-bit number at `pos`.
fn r_u64(b: &Vec<u8>, pos: usize) -> (r: Result<(u64, usize), Error>)
    requires
        pos <= b@.len(),
    ensures
        match r {
            Ok((v, p2)) => pos <= p2 <= b@.len() && d_u64(b@.skip(pos as int)) == Some(
                (v, p2 - pos as int),
            ),
            Err(e) => d_u64(b@.skip(pos as int)) is None && e == Error::CorruptCache,
        },
{
    if b.len() - pos < 8 {
        return Err(Error::CorruptCache);
    }
    let v = read_le(b, pos, 8);
    proof {
        assert(b@.skip(pos as int).take(8) =~= b@.subrange(pos as int, pos + 8));
        lemma_le_val_bound(b@.subrange(pos as int, pos + 8));
    }
    Ok((v, pos + 8))
}

/// Reads a 32-bit number at `pos`.
fn r_u32(b: &Vec<u8>, pos: usize) -> (r: Result<(u32, usize), Error>)
    requires
        pos <= b@.len(),
    ensures
        match r {
            Ok((v, p2)) => pos <= p2 <= b@.len() && d_u32(b@.skip(pos as int)) == Some(
                (v, p2 - pos as int),
            ),
            Err(e) => d_u32(b@.skip(pos as int)) is None && e == Error::CorruptCache,
        },
{
    if b.len() - pos < 4 {
        return Err(Error::CorruptCache);
    }
    let v = read_le(b, pos, 4);
    proof {
        assert(b@.skip(pos as int).take(4) =~= b@.subrange(pos as int, pos + 4));
        lemma_le_val_bound(b@.subrange(pos as int, pos + 4));
        lemma_p256_values();
    }
    Ok((v as u32, pos + 4))
}

/// Reads a character at `pos`.
fn r_char(b: &Vec<u8>, pos: usize) -> (r: Result<(char, usize), Error>)
    requires
        pos <= b@.len(),
    ensures
        match r {
            Ok((c, p2)) => pos <= p2 <= b@.len() && d_char(b@.skip(pos as int)) == Some(
                (c, p2 - pos as int),
            ),
            Err(e) => d_char(b@.skip(pos as int)) is None && e == Error::CorruptCache,
        },
{
    if b.len() - pos < 4 {
        return Err(Error::CorruptCache);
    }
    let v = read_le(b, pos, 4);
    proof {
        assert(b@.skip(pos as int).take(4) =~= b@.subrange(pos as int, pos + 4));
        lemma_le_val_bound(b@.subrange(pos as int, pos + 4));
        lemma_p256_values();
    }
    match char::from_u32(v as u32) {
        Some(c) => Ok((c, pos + 4)),
        None => Err(Error::CorruptCache),
    }
}

/// Reads a string at `pos`.
fn r_str(b: &Vec<u8>, pos: usize) -> (r: Result<(String, usize), Error>)
    requires
        pos <= b@.len(),
    ensures
        match r {
            Ok((s, p2)) => pos <= p2 <= b@.len() && d_str(b@.skip(pos as int)) == Some(
                (s@, p2 - pos as int),
            ),
            Err(e) => d_str(b@.skip(pos as int)) is None && e == Error::CorruptCache,
        },
{
    let ghost g = |bb: Seq<u8>| d_char(bb);
    let ghost b0 = b@.skip(pos as int);
    let (n, p1) = match r_u64(b, pos) {
        Ok(x) => x,
        Err(e) => {
            return Err(e);
        },
    };
    let ghost items0 = b0.skip(p1 - pos as int);
    let mut cs: Vec<char> = Vec::new();
    let mut pp: usize = p1;
    let mut i: u64 = 0;
    proof {
        assert(items0 =~= b@.skip(p1 as int));
    }
    while i < n
        invariant
            i <= n,
            pos <= p1 <= pp <= b@.len(),
            g == (|bb: Seq<u8>| d_char(bb)),
            b0 == b@.skip(pos as int),
            items0 == b0.skip(p1 - pos as int),
            d_u64(b0) == Some((n, p1 - pos as int)),
            cs@.len() == i,
            d_items(items0, n as nat, g) == (match d_items(b@.skip(pp as int), (n - i) as nat, g) {
                Some((s, q)) => Some((cs@ + s, (pp - p1) + q)),
                None => None,
            }),
        decreases n - i,
    {
        match r_char(b, pp) {
            Ok((c, p2)) => {
                let ghost cs_old = cs@;
                proof {
                    let before = b@.skip(pp as int);
                    let after = b@.skip(p2 as int);
                    assert(before.skip(p2 - pp as int) =~= after);
                    assert(g(before) == d_char(before));
                    assert(d_items(before, (n - i) as nat, g) == (match d_items(
                        after,
                        (n - i - 1) as nat,
                        g,
                    ) {
                        Some((s, q)) => Some((seq![c] + s, (p2 - pp as int) + q)),
                        None => None,
                    }));
                }
                cs.push(c);
                pp = p2;
                i = i + 1;
                proof {
                    match d_items(b@.skip(pp as int), (n - i) as nat, g) {
                        Some((s0, q0)) => {
                            assert(cs_old + (seq![c] + s0) =~= cs@ + s0);
                        },
                        None => {},
                    }
                }
            },
            Err(_) => {
                proof {
                    let before = b@.skip(pp as int);
                    assert(g(before) == d_char(before));
                    assert(d_items(before, (n - i) as nat, g) is None);
                    assert(d_items(items0, n as nat, g) is None);
                }
                return Err(Error::CorruptCache);
            },
        };
    }
    proof {
        assert(d_items(b@.skip(pp as int), 0, g) == Some((Seq::<char>::empty(), 0int)));
        assert(cs@ + Seq::<char>::empty() =~= cs@);
        assert(d_items(items0, n as nat, g) == Some((cs@, pp - p1 as int)));
    }
    let s = crate::strutil::chars_to_string(&cs);
    Ok((s, pp))
}

/// Reads one byte at `pos`.
fn r_byte(b: &Vec<u8>, pos: usize) -> (r: Result<(u8, usize), Error>)
    requires
        pos <= b@.len(),
    ensures
        match r {
            Ok((v, p2)) => pos <= p2 <= b@.len() && d_byte(b@.skip(pos as int)) == Some(
                (v, p2 - pos as int),
            ),
            Err(e) => d_byte(b@.skip(pos as int)) is None && e == Error::CorruptCache,
        },
{
    if pos < b.len() {
        proof {
            assert(b@.skip(pos as int)[0] == b@[pos as int]);
        }
        Ok((b[pos], pos + 1))
    } else {
        Err(Error::CorruptCache)
    }
}

/// Reads an owner at `pos`.
fn r_owner(b: &Vec<u8>, pos: usize) -> (r: Result<(Owner, usize), Error>)
    requires
        pos <= b@.len(),
    ensures
        match r {
            Ok((o, p2)) => pos <= p2 <= b@.len() && d_owner(b@.skip(pos as int)) == Some(
                (o@, p2 - pos as int),
            ),
            Err(e) => d_owner(b@.skip(pos as int)) is None && e == Error::CorruptCache,
        },
{
    let ghost b0 = b@.skip(pos as int);
    let (ident, p1) = match r_str(b, pos) {
        Ok(x) => x,
        Err(e) => {
            return Err(e);
        },
    };
    proof {
        assert(b0.skip(p1 - pos as int) =~= b@.skip(p1 as int));
    }
    let (kb, p2) = match r_byte(b, p1) {
        Ok(x) => x,
        Err(e) => {
            return Err(e);
        },
    };
    let t = if kb == 0 {
        OwnerType::User
    } else if kb == 1 {
        OwnerType::Team
    } else if kb == 2 {
        OwnerType::Email
    } else if kb == 3 {
        OwnerType::Unowned
    } else if kb == 4 {
        OwnerType::Unknown
    } else {
        return Err(Error::CorruptCache);
    };
    Ok((Owner { identifier: ident, owner_type: t }, p2))
}

/// Reads a list of owners at `pos`.
fn r_owner_list(b: &Vec<u8>, pos: usize) -> (r: Result<(Vec<Owner>, usize), Error>)
    requires
        pos <= b@.len(),
    ensures
        match r {
            Ok((v, p2)) => pos <= p2 <= b@.len() && d_owner_list(b@.skip(pos as int)) == Some(
                (v.deep_view(), p2 - pos as int),
            ),
            Err(e) => d_owner_list(b@.skip(pos as int)) is None && e == Error::CorruptCache,
        },
{
    let ghost g = |bb: Seq<u8>| d_owner(bb);
    let ghost b0 = b@.skip(pos as int);
    let (n, p1) = match r_u64(b, pos) {
        Ok(x) => x,
        Err(e) => {
            return Err(e);
        },
    };
    let ghost items0 = b0.skip(p1 - pos as int);
    let mut acc: Vec<Owner> = Vec::new();
    let mut pp: usize = p1;
    let mut i: u64 = 0;
    proof {
        assert(items0 =~= b@.skip(p1 as int));
        assert(acc.deep_view() =~= Seq::<OwnerV>::empty());
    }
    while i < n
        invariant
            i <= n,
            pos <= p1 <= pp <= b@.len(),
            g == (|bb: Seq<u8>| d_owner(bb)),
            b0 == b@.skip(pos as int),
            items0 == b0.skip(p1 - pos as int),
            d_u64(b0) == Some((n, p1 - pos as int)),
            acc.deep_view().len() == i,
            d_items(items0, n as nat, g) == (match d_items(b@.skip(pp as int), (n - i) as nat, g) {
                Some((s, q)) => Some((acc.deep_view() + s, (pp - p1) + q)),
                None => None,
            }),
        decreases n - i,
    {
        match r_owner(b, pp) {
            Ok((x, p2)) => {
                let ghost acc_old = acc.deep_view();
                let ghost xv = x@;
                proof {
                    let before = b@.skip(pp as int);
                    let after = b@.skip(p2 as int);
                    assert(before.skip(p2 - pp as int) =~= after);
                    assert(g(before) == d_owner(before));
                    assert(d_items(before, (n - i) as nat, g) == (match d_items(
                        after,
                        (n - i - 1) as nat,
                        g,
                    ) {
                        Some((s, q)) => Some((seq![xv] + s, (p2 - pp as int) + q)),
                        None => None,
                    }));
                }
                acc.push(x);
                pp = p2;
                i = i + 1;
                proof {
                    assert(acc.deep_view() =~= acc_old.push(xv));
                    match d_items(b@.skip(pp as int), (n - i) as nat, g) {
                        Some((s0, q0)) => {
                            assert(acc_old + (seq![xv] + s0) =~= acc.deep_view() + s0);
                        },
                        None => {},
                    }
                }
            },
            Err(_) => {
                proof {
                    let before = b@.skip(pp as int);
                    assert(g(before) == d_owner(before));
                    assert(d_items(before, (n - i) as nat, g) is None);
                    assert(d_items(items0, n as nat, g) is None);
                }
                return Err(Error::CorruptCache);
            },
        };
    }
    proof {
        assert(d_items(b@.skip(pp as int), 0, g) == Some((Seq::<OwnerV>::empty(), 0int)));
        assert(acc.deep_view() + Seq::<OwnerV>::empty() =~= acc.deep_view());
        assert(d_items(items0, n as nat, g) == Some((acc.deep_view(), pp - p1 as int)));
    }
    Ok((acc, pp))
}

/// Reads a list of path strings at `pos`.
fn r_string_list(b: &Vec<u8>, pos: usize) -> (r: Result<(Vec<String>, usize), Error>)
    requires
        pos <= b@.len(),
    ensures
        match r {
            Ok((v, p2)) => pos <= p2 <= b@.len() && d_str_list(b@.skip(pos as int)) == Some(
                (v.deep_view(), p2 - pos as int),
            ),
            Err(e) => d_str_list(b@.skip(pos as int)) is None && e == Error::CorruptCache,
        },
{
    let ghost g = |bb: Seq<u8>| d_str(bb);
    let ghost b0 = b@.skip(pos as int);
    let (n, p1) = match r_u64(b, pos) {
        Ok(x) => x,
        Err(e) => {
            return Err(e);
        },
    };
    let ghost items0 = b0.skip(p1 - pos as int);
    let mut acc: Vec<String> = Vec::new();
    let mut pp: usize = p1;
    let mut i: u64 = 0;
    proof {
        assert(items0 =~= b@.skip(p1 as int));
        assert(acc.deep_view() =~= Seq::<Seq<char>>::empty());
    }
    while i < n
        invariant
            i <= n,
            pos <= p1 <= pp <= b@.len(),
            g == (|bb: Seq<u8>| d_str(bb)),
            b0 == b@.skip(pos as int),
            items0 == b0.skip(p1 - pos as int),
            d_u64(b0) == Some((n, p1 - pos as int)),
            acc.deep_view().len() == i,
            d_items(items0, n as nat, g) == (match d_items(b@.skip(pp as int), (n - i) as nat, g) {
                Some((s, q)) => Some((acc.deep_view() + s, (pp - p1) + q)),
                None => None,
            }),
        decreases n - i,
    {
        match r_str(b, pp) {
            Ok((x, p2)) => {
                let ghost acc_old = acc.deep_view();
                let ghost xv = x@;
                proof {
                    let before = b@.skip(pp as int);
                    let after = b@.skip(p2 as int);
                    assert(before.skip(p2 - pp as int) =~= after);
                    assert(g(before) == d_str(before));
                    assert(d_items(before, (n - i) as nat, g) == (match d_items(
                        after,
                        (n - i - 1) as nat,
                        g,
                    ) {
                        Some((s, q)) => Some((seq![xv] + s, (p2 - pp as int) + q)),
                        None => None,
                    }));
                }
                acc.push(x);
                pp = p2;
                i = i + 1;
                proof {
                    assert(acc.deep_view() =~= acc_old.push(xv));
                    match d_items(b@.skip(pp as int), (n - i) as nat, g) {
                        Some((s0, q0)) => {
                            assert(acc_old + (seq![xv] + s0) =~= acc.deep_view() + s0);
                        },
                        None => {},
                    }
                }
            },
            Err(_) => {
                proof {
                    let before = b@.skip(pp as int);
                    assert(g(before) == d_str(before));
                    assert(d_items(before, (n - i) as nat, g) is None);
                    assert(d_items(items0, n as nat, g) is None);
                }
                return Err(Error::CorruptCache);
            },
        };
    }
    proof {
        assert(d_items(b@.skip(pp as int), 0, g) == Some((Seq::<Seq<char>>::empty(), 0int)));
        assert(acc.deep_view() + Seq::<Seq<char>>::empty() =~= acc.deep_view());
        assert(d_items(items0, n as nat, g) == Some((acc.deep_view(), pp - p1 as int)));
    }
    Ok((acc, pp))
}

/// Reads a list of tags at `pos`.
fn r_tag_list(b: &Vec<u8>, pos: usize) -> (r: Result<(Vec<Tag>, usize), Error>)
    requires
        pos <= b@.len(),
    ensures
        match r {
            Ok((v, p2)) => pos <= p2 <= b@.len() && d_str_list(b@.skip(pos as int)) == Some(
                (v.deep_view(), p2 - pos as int),
            ),
            Err(e) => d_str_list(b@.skip(pos as int)) is None && e == Error::CorruptCache,
        },
{
    let (strs, p) = match r_string_list(b, pos) {
        Ok(x) => x,
        Err(e) => {
            return Err(e);
        },
    };
    let mut tags: Vec<Tag> = Vec::new();
    let mut i: usize = 0;
    while i < strs.len()
        invariant
            i <= strs@.len(),
            tags.deep_view() =~= strs.deep_view().take(i as int),
        decreases strs@.len() - i,
    {
        let ghost before = tags.deep_view();
        let t = Tag(strs[i].clone());
        proof {
            assert(t@ == strs.deep_view()[i as int]);
        }
        tags.push(t);
        i = i + 1;
        proof {
            assert(tags.deep_view() =~= before.push(t@));
            assert(tags.deep_view() =~= strs.deep_view().take(i as int));
        }
    }
    proof {
        assert(strs.deep_view().take(strs.deep_view().len() as int) =~= strs.deep_view());
        assert(tags.deep_view() =~= strs.deep_view());
    }
    Ok((tags, p))
}

/// Reads a rule entry at `pos`.
fn r_entry(b: &Vec<u8>, pos: usize) -> (r: Result<(CodeownersEntry, usize), Error>)
    requires
        pos <= b@.len(),
    ensures
        match r {
            Ok((e, p2)) => pos <= p2 <= b@.len() && d_entry(b@.skip(pos as int)) == Some(
                (e@, p2 - pos as int),
            ),
            Err(er) => d_entry(b@.skip(pos as int)) is None && er == Error::CorruptCache,
        },
{
    let ghost b0 = b@.skip(pos as int);
    let (src, p1) = match r_str(b, pos) {
        Ok(x) => x,
        Err(e) => {
            return Err(e);
        },
    };
    proof {
        assert(b0.skip(p1 - pos as int) =~= b@.skip(p1 as int));
    }
    let (line, p2) = match r_u64(b, p1) {
        Ok(x) => x,
        Err(e) => {
            return Err(e);
        },
    };
    if line > (usize::MAX as u64) {
        return Err(Error::CorruptCache);
    }
    proof {
        assert(b0.skip(p2 - pos as int) =~= b@.skip(p2 as int));
    }
    let (pat, p3) = match r_str(b, p2) {
        Ok(x) => x,
        Err(e) => {
            return Err(e);
        },
    };
    proof {
        assert(b0.skip(p3 - pos as int) =~= b@.skip(p3 as int));
    }
    let (owners, p4) = match r_owner_list(b, p3) {
        Ok(x) => x,
        Err(e) => {
            return Err(e);
        },
    };
    proof {
        assert(b0.skip(p4 - pos as int) =~= b@.skip(p4 as int));
    }
    let (tags, p5) = match r_tag_list(b, p4) {
        Ok(x) => x,
        Err(e) => {
            return Err(e);
        },
    };
    let e = CodeownersEntry {
        source_file: src,
        line_number: line as usize,
        pattern: pat,
        owners,
        tags,
    };
    Ok((e, p5))
}

/// Reads a file record at `pos`.
fn r_file(b: &Vec<u8>, pos: usize) -> (r: Result<(FileEntry, usize), Error>)
    requires
        pos <= b@.len(),
    ensures
        match r {
            Ok((f, p2)) => pos <= p2 <= b@.len() && d_file(b@.skip(pos as int)) == Some(
                (f@, p2 - pos as int),
            ),
            Err(er) => d_file(b@.skip(pos as int)) is None && er == Error::CorruptCache,
        },
{
    let ghost b0 = b@.skip(pos as int);
    let (path, p1) = match r_str(b, pos) {
        Ok(x) => x,
        Err(e) => {
            return Err(e);
        },
    };
    proof {
        assert(b0.skip(p1 - pos as int) =~= b@.skip(p1 as int));
    }
    let (owners, p2) = match r_owner_list(b, p1) {
        Ok(x) => x,
        Err(e) => {
            return Err(e);
        },
    };
    proof {
        assert(b0.skip(p2 - pos as int) =~= b@.skip(p2 as int));
    }
    let (tags, p3) = match r_tag_list(b, p2) {
        Ok(x) => x,
        Err(e) => {
            return Err(e);
        },
    };
    Ok((FileEntry { path, owners, tags }, p3))
}

/// Reads an owner-index pair at `pos`.
fn r_opair(b: &Vec<u8>, pos: usize) -> (r: Result<((Owner, Vec<String>), usize), Error>)
    requires
        pos <= b@.len(),
    ensures
        match r {
            Ok((p, p2)) => pos <= p2 <= b@.len() && d_opair(b@.skip(pos as int)) == Some(
                (p.deep_view(), p2 - pos as int),
            ),
            Err(er) => d_opair(b@.skip(pos as int)) is None && er == Error::CorruptCache,
        },
{
    let ghost b0 = b@.skip(pos as int);
    let (o, p1) = match r_owner(b, pos) {
        Ok(x) => x,
        Err(e) => {
            return Err(e);
        },
    };
    proof {
        assert(b0.skip(p1 - pos as int) =~= b@.skip(p1 as int));
    }
    let (paths, p2) = match r_string_list(b, p1) {
        Ok(x) => x,
        Err(e) => {
            return Err(e);
        },
    };
    Ok(((o, paths), p2))
}

/// Reads a tag-index pair at `pos`.
fn r_tpair(b: &Vec<u8>, pos: usize) -> (r: Result<((Tag, Vec<String>), usize), Error>)
    requires
        pos <= b@.len(),
    ensures
        match r {
            Ok((p, p2)) => pos <= p2 <= b@.len() && d_tpair(b@.skip(pos as int)) == Some(
                (p.deep_view(), p2 - pos as int),
            ),
            Err(er) => d_tpair(b@.skip(pos as int)) is None && er == Error::CorruptCache,
        },
{
    let ghost b0 = b@.skip(pos as int);
    let (t, p1) = match r_str(b, pos) {
        Ok(x) => x,
        Err(e) => {
            return Err(e);
        },
    };
    proof {
        assert(b0.skip(p1 - pos as int) =~= b@.skip(p1 as int));
    }
    let (paths, p2) = match r_string_list(b, p1) {
        Ok(x) => x,
        Err(e) => {
            return Err(e);
        },
    };
    Ok(((Tag(t), paths), p2))
}

/// Reads the entry list at `pos`.
fn r_entry_list(b: &Vec<u8>, pos: usize) -> (r: Result<(Vec<CodeownersEntry>, usize), Error>)
    requires
        pos <= b@.len(),
    ensures
        match r {
            Ok((v, p2)) => pos <= p2 <= b@.len() && d_entry_list(b@.skip(pos as int)) == Some(
                (v.deep_view(), p2 - pos as int),
            ),
            Err(e) => d_entry_list(b@.skip(pos as int)) is None && e == Error::CorruptCache,
        },
{
    let ghost g = |bb: Seq<u8>| d_entry(bb);
    let ghost b0 = b@.skip(pos as int);
    let (n, p1) = match r_u64(b, pos) {
        Ok(x) => x,
        Err(e) => {
            return Err(e);
        },
    };
    let ghost items0 = b0.skip(p1 - pos as int);
    let mut acc: Vec<CodeownersEntry> = Vec::new();
    let mut pp: usize = p1;
    let mut i: u64 = 0;
    proof {
        assert(items0 =~= b@.skip(p1 as int));
        assert(acc.deep_view() =~= Seq::<EntryV>::empty());
    }
    while i < n
        invariant
            i <= n,
            pos <= p1 <= pp <= b@.len(),
            g == (|bb: Seq<u8>| d_entry(bb)),
            b0 == b@.skip(pos as int),
            items0 == b0.skip(p1 - pos as int),
            d_u64(b0) == Some((n, p1 - pos as int)),
            acc.deep_view().len() == i,
            d_items(items0, n as nat, g) == (match d_items(b@.skip(pp as int), (n - i) as nat, g) {
                Some((s, q)) => Some((acc.deep_view() + s, (pp - p1) + q)),
                None => None,
            }),
        decreases n - i,
    {
        match r_entry(b, pp) {
            Ok((x, p2)) => {
                let ghost acc_old = acc.deep_view();
                let ghost xv = x@;
                proof {
                    let before = b@.skip(pp as int);
                    let after = b@.skip(p2 as int);
                    assert(before.skip(p2 - pp as int) =~= after);
                    assert(g(before) == d_entry(before));
                    assert(d_items(before, (n - i) as nat, g) == (match d_items(
                        after,
                        (n - i - 1) as nat,
                        g,
                    ) {
                        Some((s, q)) => Some((seq![xv] + s, (p2 - pp as int) + q)),
                        None => None,
                    }));
                }
                acc.push(x);
                pp = p2;
                i = i + 1;
                proof {
                    assert(acc.deep_view() =~= acc_old.push(xv));
                    match d_items(b@.skip(pp as int), (n - i) as nat, g) {
                        Some((s0, q0)) => {
                            assert(acc_old + (seq![xv] + s0) =~= acc.deep_view() + s0);
                        },
                        None => {},
                    }
                }
            },
            Err(_) => {
                proof {
                    let before = b@.skip(pp as int);
                    assert(g(before) == d_entry(before));
                    assert(d_items(before, (n - i) as nat, g) is None);
                    assert(d_items(items0, n as nat, g) is None);
                }
                return Err(Error::CorruptCache);
            },
        };
    }
    proof {
        assert(d_items(b@.skip(pp as int), 0, g) == Some((Seq::<EntryV>::empty(), 0int)));
        assert(acc.deep_view() + Seq::<EntryV>::empty() =~= acc.deep_view());
        assert(d_items(items0, n as nat, g) == Some((acc.deep_view(), pp - p1 as int)));
    }
    Ok((acc, pp))
}

/// Reads the file list at `pos`.
fn r_file_list(b: &Vec<u8>, pos: usize) -> (r: Result<(Vec<FileEntry>, usize), Error>)
    requires
        pos <= b@.len(),
    ensures
        match r {
            Ok((v, p2)) => pos <= p2 <= b@.len() && d_file_list(b@.skip(pos as int)) == Some(
                (v.deep_view(), p2 - pos as int),
            ),
            Err(e) => d_file_list(b@.skip(pos as int)) is None && e == Error::CorruptCache,
        },
{
    let ghost g = |bb: Seq<u8>| d_file(bb);
    let ghost b0 = b@.skip(pos as int);
    let (n, p1) = match r_u64(b, pos) {
        Ok(x) => x,
        Err(e) => {
            return Err(e);
        },
    };
    let ghost items0 = b0.skip(p1 - pos as int);
    let mut acc: Vec<FileEntry> = Vec::new();
    let mut pp: usize = p1;
    let mut i: u64 = 0;
    proof {
        assert(items0 =~= b@.skip(p1 as int));
        assert(acc.deep_view() =~= Seq::<FileEntryV>::empty());
    }
    while i < n
        invariant
            i <= n,
            pos <= p1 <= pp <= b@.len(),
            g == (|bb: Seq<u8>| d_file(bb)),
            b0 == b@.skip(pos as int),
            items0 == b0.skip(p1 - pos as int),
            d_u64(b0) == Some((n, p1 - pos as int)),
            acc.deep_view().len() == i,
            d_items(items0, n as nat, g) == (match d_items(b@.skip(pp as int), (n - i) as nat, g) {
                Some((s, q)) => Some((acc.deep_view() + s, (pp - p1) + q)),
                None => None,
            }),
        decreases n - i,
    {
        match r_file(b, pp) {
            Ok((x, p2)) => {
                let ghost acc_old = acc.deep_view();
                let ghost xv = x@;
                proof {
                    let before = b@.skip(pp as int);
                    let after = b@.skip(p2 as int);
                    assert(before.skip(p2 - pp as int) =~= after);
                    assert(g(before) == d_file(before));
                    assert(d_items(before, (n - i) as nat, g) == (match d_items(
                        after,
                        (n - i - 1) as nat,
                        g,
                    ) {
                        Some((s, q)) => Some((seq![xv] + s, (p2 - pp as int) + q)),
                        None => None,
                    }));
                }
                acc.push(x);
                pp = p2;
                i = i + 1;
                proof {
                    assert(acc.deep_view() =~= acc_old.push(xv));
                    match d_items(b@.skip(pp as int), (n - i) as nat, g) {
                        Some((s0, q0)) => {
                            assert(acc_old + (seq![xv] + s0) =~= acc.deep_view() + s0);
                        },
                        None => {},
                    }
                }
            },
            Err(_) => {
                proof {
                    let before = b@.skip(pp as int);
                    assert(g(before) == d_file(before));
                    assert(d_items(before, (n - i) as nat, g) is None);
                    assert(d_items(items0, n as nat, g) is None);
                }
                return Err(Error::CorruptCache);
            },
        };
    }
    proof {
        assert(d_items(b@.skip(pp as int), 0, g) == Some((Seq::<FileEntryV>::empty(), 0int)));
        assert(acc.deep_view() + Seq::<FileEntryV>::empty() =~= acc.deep_view());
        assert(d_items(items0, n as nat, g) == Some((acc.deep_view(), pp - p1 as int)));
    }
    Ok((acc, pp))
}

/// Reads the owner index at `pos`.
fn r_opair_list(b: &Vec<u8>, pos: usize) -> (r: Result<(Vec<(Owner, Vec<String>)>, usize), Error>)
    requires
        pos <= b@.len(),
    ensures
        match r {
            Ok((v, p2)) => pos <= p2 <= b@.len() && d_opair_list(b@.skip(pos as int)) == Some(
                (v.deep_view(), p2 - pos as int),
            ),
            Err(e) => d_opair_list(b@.skip(pos as int)) is None && e == Error::CorruptCache,
        },
{
    let ghost g = |bb: Seq<u8>| d_opair(bb);
    let ghost b0 = b@.skip(pos as int);
    let (n, p1) = match r_u64(b, pos) {
        Ok(x) => x,
        Err(e) => {
            return Err(e);
        },
    };
    let ghost items0 = b0.skip(p1 - pos as int);
    let mut acc: Vec<(Owner, Vec<String>)> = Vec::new();
    let mut pp: usize = p1;
    let mut i: u64 = 0;
    proof {
        assert(items0 =~= b@.skip(p1 as int));
        assert(acc.deep_view() =~= Seq::<(OwnerV, Seq<Seq<char>>)>::empty());
    }
    while i < n
        invariant
            i <= n,
            pos <= p1 <= pp <= b@.len(),
            g == (|bb: Seq<u8>| d_opair(bb)),
            b0 == b@.skip(pos as int),
            items0 == b0.skip(p1 - pos as int),
            d_u64(b0) == Some((n, p1 - pos as int)),
            acc.deep_view().len() == i,
            d_items(items0, n as nat, g) == (match d_items(b@.skip(pp as int), (n - i) as nat, g) {
                Some((s, q)) => Some((acc.deep_view() + s, (pp - p1) + q)),
                None => None,
            }),
        decreases n - i,
    {
        match r_opair(b, pp) {
            Ok((x, p2)) => {
                let ghost acc_old = acc.deep_view();
                let ghost xv = x.deep_view();
                proof {
                    let before = b@.skip(pp as int);
                    let after = b@.skip(p2 as int);
                    assert(before.skip(p2 - pp as int) =~= after);
                    assert(g(before) == d_opair(before));
                    assert(d_items(before, (n - i) as nat, g) == (match d_items(
                        after,
                        (n - i - 1) as nat,
                        g,
                    ) {
                        Some((s, q)) => Some((seq![xv] + s, (p2 - pp as int) + q)),
                        None => None,
                    }));
                }
                acc.push(x);
                pp = p2;
                i = i + 1;
                proof {
                    assert(acc.deep_view() =~= acc_old.push(xv));
                    match d_items(b@.skip(pp as int), (n - i) as nat, g) {
                        Some((s0, q0)) => {
                            assert(acc_old + (seq![xv] + s0) =~= acc.deep_view() + s0);
                        },
                        None => {},
                    }
                }
            },
            Err(_) => {
                proof {
                    let before = b@.skip(pp as int);
                    assert(g(before) == d_opair(before));
                    assert(d_items(before, (n - i) as nat, g) is None);
                    assert(d_items(items0, n as nat, g) is None);
                }
                return Err(Error::CorruptCache);
            },
        };
    }
    proof {
        assert(d_items(b@.skip(pp as int), 0, g) == Some((Seq::<(OwnerV, Seq<Seq<char>>)>::empty(), 0int)));
        assert(acc.deep_view() + Seq::<(OwnerV, Seq<Seq<char>>)>::empty() =~= acc.deep_view());
        assert(d_items(items0, n as nat, g) == Some((acc.deep_view(), pp - p1 as int)));
    }
    Ok((acc, pp))
}

/// Reads the tag index at `pos`.
fn r_tpair_list(b: &Vec<u8>, pos: usize) -> (r: Result<(Vec<(Tag, Vec<String>)>, usize), Error>)
    requires
        pos <= b@.len(),
    ensures
        match r {
            Ok((v, p2)) => pos <= p2 <= b@.len() && d_tpair_list(b@.skip(pos as int)) == Some(
                (v.deep_view(), p2 - pos as int),
            ),
            Err(e) => d_tpair_list(b@.skip(pos as int)) is None && e == Error::CorruptCache,
        },
{
    let ghost g = |bb: Seq<u8>| d_tpair(bb);
    let ghost b0 = b@.skip(pos as int);
    let (n, p1) = match r_u64(b, pos) {
        Ok(x) => x,
        Err(e) => {
            return Err(e);
        },
    };
    let ghost items0 = b0.skip(p1 - pos as int);
    let mut acc: Vec<(Tag, Vec<String>)> = Vec::new();
    let mut pp: usize = p1;
    let mut i: u64 = 0;
    proof {
        assert(items0 =~= b@.skip(p1 as int));
        assert(acc.deep_view() =~= Seq::<(Seq<char>, Seq<Seq<char>>)>::empty());
    }
    while i < n
        invariant
            i <= n,
            pos <= p1 <= pp <= b@.len(),
            g == (|bb: Seq<u8>| d_tpair(bb)),
            b0 == b@.skip(pos as int),
            items0 == b0.skip(p1 - pos as int),
            d_u64(b0) == Some((n, p1 - pos as int)),
            acc.deep_view().len() == i,
            d_items(items0, n as nat, g) == (match d_items(b@.skip(pp as int), (n - i) as nat, g) {
                Some((s, q)) => Some((acc.deep_view() + s, (pp - p1) + q)),
                None => None,
            }),
        decreases n - i,
    {
        match r_tpair(b, pp) {
            Ok((x, p2)) => {
                let ghost acc_old = acc.deep_view();
                let ghost xv = x.deep_view();
                proof {
                    let before = b@.skip(pp as int);
                    let after = b@.skip(p2 as int);
                    assert(before.skip(p2 - pp as int) =~= after);
                    assert(g(before) == d_tpair(before));
                    assert(d_items(before, (n - i) as nat, g) == (match d_items(
                        after,
                        (n - i - 1) as nat,
                        g,
                    ) {
                        Some((s, q)) => Some((seq![xv] + s, (p2 - pp as int) + q)),
                        None => None,
                    }));
                }
                acc.push(x);
                pp = p2;
                i = i + 1;
                proof {
                    assert(acc.deep_view() =~= acc_old.push(xv));
                    match d_items(b@.skip(pp as int), (n - i) as nat, g) {
                        Some((s0, q0)) => {
                            assert(acc_old + (seq![xv] + s0) =~= acc.deep_view() + s0);
                        },
                        None => {},
                    }
                }
            },
            Err(_) => {
                proof {
                    let before = b@.skip(pp as int);
                    assert(g(before) == d_tpair(before));
                    assert(d_items(before, (n - i) as nat, g) is None);
                    assert(d_items(items0, n as nat, g) is None);
                }
                return Err(Error::CorruptCache);
            },
        };
    }
    proof {
        assert(d_items(b@.skip(pp as int), 0, g) == Some((Seq::<(Seq<char>, Seq<Seq<char>>)>::empty(), 0int)));
        assert(acc.deep_view() + Seq::<(Seq<char>, Seq<Seq<char>>)>::empty() =~= acc.deep_view());
        assert(d_items(items0, n as nat, g) == Some((acc.deep_view(), pp - p1 as int)));
    }
    Ok((acc, pp))
}

/// Decodes a cache from its binary form; any malformed input is a
/// recoverable decode failure.
#[verifier::spinoff_prover]
#[verifier::rlimit(100)]
pub fn decode_cache_bin(b: &Vec<u8>) -> (r: Result<CodeownersCache, Error>)
    ensures
        match r {
            Ok(c) => decode_bin_spec(b@) == Some(c@),
            Err(e) => decode_bin_spec(b@) is None && e == Error::CorruptCache,
        },
{
    let ghost b0 = b@;
    proof {
        assert(b@.skip(0) =~= b@);
    }
    let (version, p1) = match r_u32(b, 0) {
        Ok(x) => x,
        Err(e) => {
            return Err(e);
        },
    };
    if b.len() - p1 < 32 {
        proof {
            assert(d_hash(b@.skip(p1 as int)) is None);
        }
        return Err(Error::CorruptCache);
    }
    let mut hash: Vec<u8> = Vec::new();
    let mut hi: usize = p1;
    let total = b.len();
    while hi < p1 + 32
        invariant
            p1 <= hi <= p1 + 32,
            p1 + 32 <= b@.len(),
            b@.len() == total,
            hash@ =~= b@.subrange(p1 as int, hi as int),
        decreases p1 + 32 - hi,
    {
        hash.push(b[hi]);
        hi = hi + 1;
        proof {
            assert(hash@ =~= b@.subrange(p1 as int, hi as int));
        }
    }
    let p2 = p1 + 32;
    proof {
        assert(b@.skip(p1 as int).take(32) =~= b@.subrange(p1 as int, p1 + 32));
        assert(d_hash(b@.skip(p1 as int)) == Some((hash@, 32int)));
        assert(b@.skip(p2 as int) =~= b@.skip(p1 as int).skip(32));
    }
    let (entries, p3) = match r_entry_list(b, p2) {
        Ok(x) => x,
        Err(e) => {
            return Err(e);
        },
    };
    proof {
        assert(b@.skip(p3 as int) =~= b@.skip(p2 as int).skip(p3 - p2 as int));
    }
    let (files, p4) = match r_file_list(b, p3) {
        Ok(x) => x,
        Err(e) => {
            return Err(e);
        },
    };
    proof {
        assert(b@.skip(p4 as int) =~= b@.skip(p3 as int).skip(p4 - p3 as int));
    }
    let (owners_map, p5) = match r_opair_list(b, p4) {
        Ok(x) => x,
        Err(e) => {
            return Err(e);
        },
    };
    proof {
        assert(b@.skip(p5 as int) =~= b@.skip(p4 as int).skip(p5 - p4 as int));
    }
    let (tags_map, p6) = match r_tpair_list(b, p5) {
        Ok(x) => x,
        Err(e) => {
            return Err(e);
        },
    };
    if p6 != b.len() {
        return Err(Error::CorruptCache);
    }
    let c = CodeownersCache { version, hash, entries, files, owners_map, tags_map };
    Ok(c)
}

} // verus!
