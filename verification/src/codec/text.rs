//! The readable structured cache encoding.
//!
//! Line-oriented ASCII text opening with `{`: numbers as fixed-width
//! decimal, the fingerprint as hexadecimal, strings quoted with printable
//! characters verbatim and all others escaped, lists as a count followed
//! by their items, closed by `}`. Decoding consumes exactly what encoding
//! produced, so the two are mutually inverse.

use vstd::prelude::*;

use crate::codec::bin::d_items;
use crate::codec::bin::e_items;
use crate::codec::bin::lemma_e_items_app;
use crate::codec::bin::lemma_rt_items;
use crate::codec::bin::cache_ok;
use crate::codec::bin::entry_ok;
use crate::codec::bin::file_ok;
use crate::codec::bin::opair_ok;
use crate::codec::bin::owner_ok;
use crate::codec::bin::strs_ok;
use crate::codec::bin::tpair_ok;
use crate::codec::bin::kind_byte;
use crate::codec::bin::kind_of_byte;
use crate::types::CacheV;
use crate::types::CodeownersCache;
use crate::types::CodeownersEntry;
use crate::types::EntryV;
use crate::types::Error;
use crate::types::FileEntry;
use crate::types::FileEntryV;
use crate::types::Owner;
use crate::types::OwnerType;
use crate::types::OwnerV;
use crate::types::Tag;

verus! {

/// 10 to the `k`-th power.
pub open spec fn p10(k: nat) -> int
    decreases k,
{
    if k == 0 {
        1
    } else {
        10 * p10((k - 1) as nat)
    }
}

/// The ASCII digit for a value below ten.
pub open spec fn digit(d: int) -> u8 {
    (0x30 + d) as u8
}

/// `x` in decimal, `k` digits, most significant first.
pub open spec fn enc10(x: int, k: nat) -> Seq<u8>
    decreases k,
{
    if k == 0 {
        Seq::empty()
    } else {
        enc10(x / 10, (k - 1) as nat) + seq![digit(x % 10)]
    }
}

/// The value of a most-significant-first decimal digit string.
pub open spec fn val10(b: Seq<u8>) -> int
    decreases b.len(),
{
    if b.len() == 0 {
        0
    } else {
        val10(b.drop_last()) * 10 + (b.last() - 0x30)
    }
}

/// All bytes are decimal digits.
pub open spec fn all_digits(b: Seq<u8>) -> bool {
    forall|i: int| 0 <= i < b.len() ==> 0x30 <= #[trigger] b[i] <= 0x39
}

/// A decimal encoding has exactly as many digits as asked for.
pub proof fn lemma_enc10_len(x: int, k: nat)
    ensures
        enc10(x, k).len() == k,
    decreases k,
{
    if k > 0 {
        lemma_enc10_len(x / 10, (k - 1) as nat);
    }
}

/// Writing `x` in `k` decimal digits and reading the value back gives `x`.
pub proof fn lemma_dec10_round_trip(x: int, k: nat)
    requires
        0 <= x < p10(k),
    ensures
        enc10(x, k).len() == k,
        all_digits(enc10(x, k)),
        val10(enc10(x, k)) == x,
    decreases k,
{
    if k == 0 {
    } else {
        assert(0 <= x / 10 && x / 10 < p10((k - 1) as nat)) by (nonlinear_arith)
            requires
                0 <= x < 10 * p10((k - 1) as nat),
        ;
        lemma_dec10_round_trip(x / 10, (k - 1) as nat);
        let b = enc10(x, k);
        lemma_enc10_len(x / 10, (k - 1) as nat);
        assert(b.drop_last() =~= enc10(x / 10, (k - 1) as nat));
        assert(b.last() == digit(x % 10));
        assert(val10(b) == (x / 10) * 10 + x % 10);
    }
}

/// Some useful powers of 10.
pub proof fn lemma_p10_values()
    ensures
        p10(7) == 10_000_000,
        p10(20) == 0x5_6BC7_5E2D_6310_0000,
{
    assert(p10(0) == 1);
    assert(p10(1) == 10);
    assert(p10(2) == 100);
    assert(p10(3) == 1000);
    assert(p10(4) == 10000);
    assert(p10(5) == 100000);
    assert(p10(6) == 1000000);
    assert(p10(7) == 10000000);
    assert(p10(8) == 100000000);
    assert(p10(9) == 1000000000);
    assert(p10(10) == 10000000000);
    assert(p10(11) == 100000000000);
    assert(p10(12) == 1000000000000);
    assert(p10(13) == 10000000000000);
    assert(p10(14) == 100000000000000);
    assert(p10(15) == 1000000000000000);
    assert(p10(16) == 10000000000000000);
    assert(p10(17) == 100000000000000000);
    assert(p10(18) == 1000000000000000000);
    assert(p10(19) == 10000000000000000000);
    assert(p10(20) == 100000000000000000000);
}

/// A 64-bit number: twenty decimal digits and a line break.
pub open spec fn t_u64(n: u64) -> Seq<u8> {
    enc10(n as int, 20) + seq![0x0au8]
}

/// Reads a 64-bit number: twenty digits and a line break.
pub open spec fn dt_u64(b: Seq<u8>) -> Option<(u64, int)> {
    if b.len() >= 21 && all_digits(b.take(20)) && b[20] == 0x0a && val10(b.take(20)) <= u64::MAX {
        Some((val10(b.take(20)) as u64, 21))
    } else {
        None
    }
}

/// Reading a written number gives it back.
pub proof fn lemma_trt_u64(n: u64, rest: Seq<u8>)
    ensures
        dt_u64(t_u64(n) + rest) == Some((n, 21int)),
        t_u64(n).len() == 21,
{
    lemma_p10_values();
    lemma_dec10_round_trip(n as int, 20);
    assert((t_u64(n) + rest).take(20) =~= enc10(n as int, 20));
    assert((t_u64(n) + rest)[20] == 0x0au8);
}

/// One character inside a quoted string: printable ASCII other than the
/// quote and the backslash stands for itself; the quote and the backslash
/// are escaped; anything else is a `\u` escape with a seven-digit decimal
/// code point.
pub open spec fn esc_char(c: char) -> Seq<u8> {
    if c == '"' {
        seq![0x5cu8, 0x22u8]
    } else if c == '\\' {
        seq![0x5cu8, 0x5cu8]
    } else if 0x20 <= c as u32 && (c as u32) < 0x7f {
        seq![(c as u32) as u8]
    } else {
        seq![0x5cu8, 0x75u8] + enc10(c as u32 as int, 7)
    }
}

/// The escaped characters of a string.
pub open spec fn esc_str(s: Seq<char>) -> Seq<u8>
    decreases s.len(),
{
    if s.len() == 0 {
        Seq::empty()
    } else {
        esc_char(s[0]) + esc_str(s.drop_first())
    }
}

/// A string: a quote, the escaped characters, a closing quote and a line
/// break.
pub open spec fn t_str(s: Seq<char>) -> Seq<u8> {
    seq![0x22u8] + esc_str(s) + seq![0x22u8, 0x0au8]
}

/// Reads escaped characters up to the closing quote.
pub open spec fn dt_chars(b: Seq<u8>) -> Option<(Seq<char>, int)>
    decreases b.len(),
{
    if b.len() == 0 {
        None
    } else if b[0] == 0x22 {
        Some((Seq::empty(), 1))
    } else if b[0] == 0x5c {
        if b.len() < 2 {
            None
        } else if b[1] == 0x22 || b[1] == 0x5c {
            let c = if b[1] == 0x22 {
                '"'
            } else {
                '\\'
            };
            match dt_chars(b.skip(2)) {
                None => None,
                Some((s, q)) => Some((seq![c] + s, 2 + q)),
            }
        } else if b[1] == 0x75 {
            if b.len() >= 9 && all_digits(b.subrange(2, 9)) && vstd::utf8::is_scalar(
                val10(b.subrange(2, 9)) as u32,
            ) && val10(b.subrange(2, 9)) <= u32::MAX {
                let c = (val10(b.subrange(2, 9)) as u32) as char;
                match dt_chars(b.skip(9)) {
                    None => None,
                    Some((s, q)) => Some((seq![c] + s, 9 + q)),
                }
            } else {
                None
            }
        } else {
            None
        }
    } else if 0x20 <= b[0] && b[0] < 0x7f {
        let c = (b[0] as u32) as char;
        match dt_chars(b.skip(1)) {
            None => None,
            Some((s, q)) => Some((seq![c] + s, 1 + q)),
        }
    } else {
        None
    }
}

/// Reads a string: a quote, characters, the closing quote, a line break.
pub open spec fn dt_str(b: Seq<u8>) -> Option<(Seq<char>, int)> {
    if b.len() >= 1 && b[0] == 0x22 {
        match dt_chars(b.skip(1)) {
            None => None,
            Some((s, q)) => {
                if 1 + q < b.len() && b[1 + q] == 0x0a {
                    Some((s, 1 + q + 1))
                } else {
                    None
                }
            },
        }
    } else {
        None
    }
}

/// Reading escaped characters gives them back.
pub proof fn lemma_trt_chars(s: Seq<char>, rest: Seq<u8>)
    ensures
        dt_chars(esc_str(s) + seq![0x22u8] + rest) == Some((s, esc_str(s).len() as int + 1)),
    decreases s.len(),
{
    let b = esc_str(s) + seq![0x22u8] + rest;
    if s.len() == 0 {
        assert(b =~= seq![0x22u8] + rest);
        assert(b[0] == 0x22);
    } else {
        let c = s[0];
        let tail = esc_str(s.drop_first()) + seq![0x22u8] + rest;
        lemma_trt_chars(s.drop_first(), rest);
        assert(b =~= esc_char(c) + tail);
        vstd::utf8::char_is_scalar(c);
        if c == '"' {
            assert(b[0] == 0x5c && b[1] == 0x22);
            assert(b.skip(2) =~= tail);
            assert(seq!['"'] + s.drop_first() =~= s);
        } else if c == '\\' {
            assert(b[0] == 0x5c && b[1] == 0x5c);
            assert(b.skip(2) =~= tail);
            assert(seq!['\\'] + s.drop_first() =~= s);
        } else if 0x20 <= c as u32 && (c as u32) < 0x7f {
            assert(b[0] == (c as u32) as u8);
            assert(b[0] == c as u32);
            assert(0x20 <= b[0] && b[0] < 0x7f);
            assert(c as u32 != 0x22) by {
                if c as u32 == 0x22 {
                    vstd::utf8::char_u32_cast(c, 0x22);
                    vstd::utf8::char_u32_cast('"', 0x22);
                }
            }
            assert(c as u32 != 0x5c) by {
                if c as u32 == 0x5c {
                    vstd::utf8::char_u32_cast(c, 0x5c);
                    vstd::utf8::char_u32_cast('\\', 0x5c);
                }
            }
            assert(b[0] != 0x22 && b[0] != 0x5c);
            assert(((b[0] as u32) as char) == c) by {
                assert(b[0] as u32 == c as u32);
                vstd::utf8::char_u32_cast(c, c as u32);
            }
            assert(b.skip(1) =~= tail);
            assert(seq![c] + s.drop_first() =~= s);
        } else {
            assert(b[0] == 0x5c && b[1] == 0x75);
            lemma_p10_values();
            assert(c as u32 <= 0x10FFFF) by {
                vstd::utf8::char_is_scalar(c);
            }
            lemma_dec10_round_trip(c as u32 as int, 7);
            assert(b.subrange(2, 9) =~= enc10(c as u32 as int, 7));
            assert(val10(b.subrange(2, 9)) == c as u32);
            vstd::utf8::char_u32_cast(c, c as u32);
            assert(b.skip(9) =~= tail);
            assert(seq![c] + s.drop_first() =~= s);
        }
    }
}

/// Reading a written string gives it back.
pub proof fn lemma_trt_str(s: Seq<char>, rest: Seq<u8>)
    ensures
        dt_str(t_str(s) + rest) == Some((s, t_str(s).len() as int)),
{
    let b = t_str(s) + rest;
    assert(b[0] == 0x22);
    assert(b.skip(1) =~= esc_str(s) + seq![0x22u8] + (seq![0x0au8] + rest));
    lemma_trt_chars(s, seq![0x0au8] + rest);
    let q = esc_str(s).len() as int + 1;
    assert(b[1 + q] == 0x0a);
}

/// The lowercase hexadecimal digit for a value below sixteen.
pub open spec fn hex_digit(d: int) -> u8 {
    if d < 10 {
        (0x30 + d) as u8
    } else {
        (0x57 + d) as u8
    }
}

/// One byte as two hexadecimal digits.
pub open spec fn t_hex_byte(x: u8) -> Seq<u8> {
    seq![hex_digit(x as int / 16), hex_digit(x as int % 16)]
}

/// The value of one hexadecimal digit, if the byte is one.
pub open spec fn hex_val(b: u8) -> Option<int> {
    if 0x30 <= b && b <= 0x39 {
        Some(b - 0x30)
    } else if 0x61 <= b && b <= 0x66 {
        Some(b - 0x57)
    } else {
        None
    }
}

/// Reads one byte from two hexadecimal digits.
pub open spec fn dt_hex_byte(b: Seq<u8>) -> Option<(u8, int)> {
    if b.len() >= 2 {
        match (hex_val(b[0]), hex_val(b[1])) {
            (Some(h), Some(l)) => Some(((h * 16 + l) as u8, 2)),
            _ => None,
        }
    } else {
        None
    }
}

/// Reading a written hexadecimal byte gives it back.
pub proof fn lemma_trt_hex_byte(x: u8, rest: Seq<u8>)
    ensures
        dt_hex_byte(t_hex_byte(x) + rest) == Some((x, 2int)),
{
    let b = t_hex_byte(x) + rest;
    assert(b[0] == hex_digit(x as int / 16));
    assert(b[1] == hex_digit(x as int % 16));
}

/// The fingerprint: its bytes in hexadecimal and a line break.
pub open spec fn t_hash(h: Seq<u8>) -> Seq<u8> {
    e_items(h, |x: u8| t_hex_byte(x)) + seq![0x0au8]
}

/// Reads the 32-byte fingerprint.
pub open spec fn dt_hash(b: Seq<u8>) -> Option<(Seq<u8>, int)> {
    match d_items(b, 32, |bb: Seq<u8>| dt_hex_byte(bb)) {
        None => None,
        Some((h, q)) => {
            if q < b.len() && b[q] == 0x0a {
                Some((h, q + 1))
            } else {
                None
            }
        },
    }
}

/// Reading a written fingerprint gives it back.
pub proof fn lemma_trt_hash(h: Seq<u8>, rest: Seq<u8>)
    requires
        h.len() == 32,
    ensures
        dt_hash(t_hash(h) + rest) == Some((h, t_hash(h).len() as int)),
        t_hash(h).len() == 65,
{
    let f = |x: u8| t_hex_byte(x);
    let g = |bb: Seq<u8>| dt_hex_byte(bb);
    let b = t_hash(h) + rest;
    assert(b =~= e_items(h, f) + (seq![0x0au8] + rest));
    assert forall|j: int, r2: Seq<u8>| 0 <= j < h.len() implies #[trigger] g(f(h[j]) + r2) == Some(
        (h[j], f(h[j]).len() as int),
    ) by {
        lemma_trt_hex_byte(h[j], r2);
    }
    lemma_rt_items(h, seq![0x0au8] + rest, f, g);
    lemma_e_items_len_hex(h);
    assert(b[e_items(h, f).len() as int] == 0x0a);
}

/// Two hexadecimal digits per byte.
pub proof fn lemma_e_items_len_hex(h: Seq<u8>)
    ensures
        e_items(h, |x: u8| t_hex_byte(x)).len() == 2 * h.len(),
    decreases h.len(),
{
    if h.len() > 0 {
        lemma_e_items_len_hex(h.drop_first());
    }
}

/// An owner: its identifier, then its classification number.
pub open spec fn t_owner(o: OwnerV) -> Seq<u8> {
    t_str(o.identifier) + t_u64(kind_byte(o.owner_type) as u64)
}

/// Reads an owner.
pub open spec fn dt_owner(b: Seq<u8>) -> Option<(OwnerV, int)> {
    match dt_str(b) {
        None => None,
        Some((s, p)) => match dt_u64(b.skip(p)) {
            None => None,
            Some((kv, q)) => {
                if kv > 4 {
                    None
                } else {
                    match kind_of_byte(kv as u8) {
                        None => None,
                        Some(t) => Some((OwnerV { identifier: s, owner_type: t }, p + q)),
                    }
                }
            },
        },
    }
}

/// Reading a written owner gives it back.
pub proof fn lemma_trt_owner(o: OwnerV, rest: Seq<u8>)
    requires
        owner_ok(o),
    ensures
        dt_owner(t_owner(o) + rest) == Some((o, t_owner(o).len() as int)),
{
    let b = t_owner(o) + rest;
    let t1 = t_u64(kind_byte(o.owner_type) as u64) + rest;
    assert(b =~= t_str(o.identifier) + t1);
    lemma_trt_str(o.identifier, t1);
    let p1 = t_str(o.identifier).len() as int;
    assert(b.skip(p1) =~= t1);
    lemma_trt_u64(kind_byte(o.owner_type) as u64, rest);
    assert(kind_of_byte(kind_byte(o.owner_type)) == Some(o.owner_type));
}

/// A list of owners: a count, then each owner.
pub open spec fn t_owner_list(v: Seq<OwnerV>) -> Seq<u8> {
    t_u64(v.len() as u64) + e_items(v, |o: OwnerV| t_owner(o))
}

/// Reads a list of owners.
pub open spec fn dt_owner_list(b: Seq<u8>) -> Option<(Seq<OwnerV>, int)> {
    match dt_u64(b) {
        None => None,
        Some((n, p)) => match d_items(b.skip(p), n as nat, |bb: Seq<u8>| dt_owner(bb)) {
            None => None,
            Some((s, q)) => Some((s, p + q)),
        },
    }
}

/// Reading a written owner list gives it back.
pub proof fn lemma_trt_owner_list(v: Seq<OwnerV>, rest: Seq<u8>)
    requires
        v.len() <= u64::MAX,
        forall|i: int| 0 <= i < v.len() ==> owner_ok(#[trigger] v[i]),
    ensures
        dt_owner_list(t_owner_list(v) + rest) == Some((v, t_owner_list(v).len() as int)),
{
    let f = |o: OwnerV| t_owner(o);
    let g = |bb: Seq<u8>| dt_owner(bb);
    let b = t_owner_list(v) + rest;
    assert(b =~= t_u64(v.len() as u64) + (e_items(v, f) + rest));
    lemma_trt_u64(v.len() as u64, e_items(v, f) + rest);
    assert(b.skip(21) =~= e_items(v, f) + rest);
    assert forall|j: int, r2: Seq<u8>| 0 <= j < v.len() implies #[trigger] g(f(v[j]) + r2) == Some(
        (v[j], f(v[j]).len() as int),
    ) by {
        lemma_trt_owner(v[j], r2);
    }
    lemma_rt_items(v, rest, f, g);
}

/// A list of strings: a count, then each string.
pub open spec fn t_str_list(v: Seq<Seq<char>>) -> Seq<u8> {
    t_u64(v.len() as u64) + e_items(v, |s: Seq<char>| t_str(s))
}

/// Reads a list of strings.
pub open spec fn dt_str_list(b: Seq<u8>) -> Option<(Seq<Seq<char>>, int)> {
    match dt_u64(b) {
        None => None,
        Some((n, p)) => match d_items(b.skip(p), n as nat, |bb: Seq<u8>| dt_str(bb)) {
            None => None,
            Some((s, q)) => Some((s, p + q)),
        },
    }
}

/// Reading a written string list gives it back.
pub proof fn lemma_trt_str_list(v: Seq<Seq<char>>, rest: Seq<u8>)
    requires
        strs_ok(v),
    ensures
        dt_str_list(t_str_list(v) + rest) == Some((v, t_str_list(v).len() as int)),
{
    let f = |s: Seq<char>| t_str(s);
    let g = |bb: Seq<u8>| dt_str(bb);
    let b = t_str_list(v) + rest;
    assert(b =~= t_u64(v.len() as u64) + (e_items(v, f) + rest));
    lemma_trt_u64(v.len() as u64, e_items(v, f) + rest);
    assert(b.skip(21) =~= e_items(v, f) + rest);
    assert forall|j: int, r2: Seq<u8>| 0 <= j < v.len() implies #[trigger] g(f(v[j]) + r2) == Some(
        (v[j], f(v[j]).len() as int),
    ) by {
        lemma_trt_str(v[j], r2);
    }
    lemma_rt_items(v, rest, f, g);
}

/// A rule entry: source path, line, pattern, owners, tags.
pub open spec fn t_entry(e: EntryV) -> Seq<u8> {
    t_str(e.source_file) + t_u64(e.line_number as u64) + t_str(e.pattern) + t_owner_list(e.owners)
        + t_str_list(e.tags)
}

/// Reads a rule entry.
pub open spec fn dt_entry(b: Seq<u8>) -> Option<(EntryV, int)> {
    match dt_str(b) {
        None => None,
        Some((src, p1)) => match dt_u64(b.skip(p1)) {
            None => None,
            Some((line, p2)) => {
                if line > usize::MAX {
                    None
                } else {
                    match dt_str(b.skip(p1 + p2)) {
                        None => None,
                        Some((pat, p3)) => match dt_owner_list(b.skip(p1 + p2 + p3)) {
                            None => None,
                            Some((os, p4)) => match dt_str_list(b.skip(p1 + p2 + p3 + p4)) {
                                None => None,
                                Some((ts, p5)) => Some(
                                    (
                                        EntryV {
                                            source_file: src,
                                            line_number: line as usize,
                                            pattern: pat,
                                            owners: os,
                                            tags: ts,
                                        },
                                        p1 + p2 + p3 + p4 + p5,
                                    ),
                                ),
                            },
                        },
                    }
                }
            },
        },
    }
}

/// Reading a written entry gives it back.
#[verifier::rlimit(60)]
pub proof fn lemma_trt_entry(e: EntryV, rest: Seq<u8>)
    requires
        entry_ok(e),
    ensures
        dt_entry(t_entry(e) + rest) == Some((e, t_entry(e).len() as int)),
{
    let b = t_entry(e) + rest;
    let t1 = t_u64(e.line_number as u64) + (t_str(e.pattern) + (t_owner_list(e.owners) + (
    t_str_list(e.tags) + rest)));
    assert(b =~= t_str(e.source_file) + t1);
    lemma_trt_str(e.source_file, t1);
    let p1 = t_str(e.source_file).len() as int;
    assert(b.skip(p1) =~= t1);
    let t2 = t_str(e.pattern) + (t_owner_list(e.owners) + (t_str_list(e.tags) + rest));
    lemma_trt_u64(e.line_number as u64, t2);
    assert(b.skip(p1).skip(21) =~= t2);
    assert(b.skip(p1 + 21) =~= t2);
    let t3 = t_owner_list(e.owners) + (t_str_list(e.tags) + rest);
    lemma_trt_str(e.pattern, t3);
    let p3 = t_str(e.pattern).len() as int;
    assert(b.skip(p1 + 21).skip(p3) =~= t3);
    assert(b.skip(p1 + 21 + p3) =~= t3);
    let t4 = t_str_list(e.tags) + rest;
    lemma_trt_owner_list(e.owners, t4);
    let p4 = t_owner_list(e.owners).len() as int;
    assert(b.skip(p1 + 21 + p3).skip(p4) =~= t4);
    assert(b.skip(p1 + 21 + p3 + p4) =~= t4);
    lemma_trt_str_list(e.tags, rest);
    let p5 = t_str_list(e.tags).len() as int;
    assert(e.line_number as u64 <= usize::MAX);
    assert(t_entry(e).len() == p1 + 21 + p3 + p4 + p5);
}

/// A file's resolved ownership: path, owners, tags.
pub open spec fn t_file(f: FileEntryV) -> Seq<u8> {
    t_str(f.path) + t_owner_list(f.owners) + t_str_list(f.tags)
}

/// Reads a file record.
pub open spec fn dt_file(b: Seq<u8>) -> Option<(FileEntryV, int)> {
    match dt_str(b) {
        None => None,
        Some((path, p1)) => match dt_owner_list(b.skip(p1)) {
            None => None,
            Some((os, p2)) => match dt_str_list(b.skip(p1 + p2)) {
                None => None,
                Some((ts, p3)) => Some(
                    (FileEntryV { path, owners: os, tags: ts }, p1 + p2 + p3),
                ),
            },
        },
    }
}

/// Reading a written file record gives it back.
pub proof fn lemma_trt_file(f: FileEntryV, rest: Seq<u8>)
    requires
        file_ok(f),
    ensures
        dt_file(t_file(f) + rest) == Some((f, t_file(f).len() as int)),
{
    let b = t_file(f) + rest;
    let t1 = t_owner_list(f.owners) + (t_str_list(f.tags) + rest);
    assert(b =~= t_str(f.path) + t1);
    lemma_trt_str(f.path, t1);
    let p1 = t_str(f.path).len() as int;
    assert(b.skip(p1) =~= t1);
    let t2 = t_str_list(f.tags) + rest;
    lemma_trt_owner_list(f.owners, t2);
    let p2 = t_owner_list(f.owners).len() as int;
    assert(b.skip(p1).skip(p2) =~= t2);
    assert(b.skip(p1 + p2) =~= t2);
    lemma_trt_str_list(f.tags, rest);
    let p3 = t_str_list(f.tags).len() as int;
    assert(t_file(f).len() == p1 + p2 + p3);
}

/// An owner-index pair: the owner, then its paths.
pub open spec fn t_opair(p: (OwnerV, Seq<Seq<char>>)) -> Seq<u8> {
    t_owner(p.0) + t_str_list(p.1)
}

/// Reads an owner-index pair.
pub open spec fn dt_opair(b: Seq<u8>) -> Option<((OwnerV, Seq<Seq<char>>), int)> {
    match dt_owner(b) {
        None => None,
        Some((o, p1)) => match dt_str_list(b.skip(p1)) {
            None => None,
            Some((ps, p2)) => Some(((o, ps), p1 + p2)),
        },
    }
}

/// Reading a written owner-index pair gives it back.
pub proof fn lemma_trt_opair(p: (OwnerV, Seq<Seq<char>>), rest: Seq<u8>)
    requires
        opair_ok(p),
    ensures
        dt_opair(t_opair(p) + rest) == Some((p, t_opair(p).len() as int)),
{
    let b = t_opair(p) + rest;
    let t1 = t_str_list(p.1) + rest;
    assert(b =~= t_owner(p.0) + t1);
    lemma_trt_owner(p.0, t1);
    let p1 = t_owner(p.0).len() as int;
    assert(b.skip(p1) =~= t1);
    lemma_trt_str_list(p.1, rest);
    assert(t_opair(p).len() == p1 + t_str_list(p.1).len());
    assert((p.0, p.1) == p);
}

/// A tag-index pair: the tag, then its paths.
pub open spec fn t_tpair(p: (Seq<char>, Seq<Seq<char>>)) -> Seq<u8> {
    t_str(p.0) + t_str_list(p.1)
}

/// Reads a tag-index pair.
pub open spec fn dt_tpair(b: Seq<u8>) -> Option<((Seq<char>, Seq<Seq<char>>), int)> {
    match dt_str(b) {
        None => None,
        Some((t, p1)) => match dt_str_list(b.skip(p1)) {
            None => None,
            Some((ps, p2)) => Some(((t, ps), p1 + p2)),
        },
    }
}

/// Reading a written tag-index pair gives it back.
pub proof fn lemma_trt_tpair(p: (Seq<char>, Seq<Seq<char>>), rest: Seq<u8>)
    requires
        tpair_ok(p),
    ensures
        dt_tpair(t_tpair(p) + rest) == Some((p, t_tpair(p).len() as int)),
{
    let b = t_tpair(p) + rest;
    let t1 = t_str_list(p.1) + rest;
    assert(b =~= t_str(p.0) + t1);
    lemma_trt_str(p.0, t1);
    let p1 = t_str(p.0).len() as int;
    assert(b.skip(p1) =~= t1);
    lemma_trt_str_list(p.1, rest);
    assert(t_tpair(p).len() == p1 + t_str_list(p.1).len());
    assert((p.0, p.1) == p);
}

/// Reads the entry list.
pub open spec fn dt_entry_list(b: Seq<u8>) -> Option<(Seq<EntryV>, int)> {
    match dt_u64(b) {
        None => None,
        Some((n, p)) => match d_items(b.skip(p), n as nat, |bb: Seq<u8>| dt_entry(bb)) {
            None => None,
            Some((s, q)) => Some((s, p + q)),
        },
    }
}

/// Reads the file list.
pub open spec fn dt_file_list(b: Seq<u8>) -> Option<(Seq<FileEntryV>, int)> {
    match dt_u64(b) {
        None => None,
        Some((n, p)) => match d_items(b.skip(p), n as nat, |bb: Seq<u8>| dt_file(bb)) {
            None => None,
            Some((s, q)) => Some((s, p + q)),
        },
    }
}

/// Reads the owner index.
pub open spec fn dt_opair_list(b: Seq<u8>) -> Option<(Seq<(OwnerV, Seq<Seq<char>>)>, int)> {
    match dt_u64(b) {
        None => None,
        Some((n, p)) => match d_items(b.skip(p), n as nat, |bb: Seq<u8>| dt_opair(bb)) {
            None => None,
            Some((s, q)) => Some((s, p + q)),
        },
    }
}

/// Reads the tag index.
pub open spec fn dt_tpair_list(b: Seq<u8>) -> Option<(Seq<(Seq<char>, Seq<Seq<char>>)>, int)> {
    match dt_u64(b) {
        None => None,
        Some((n, p)) => match d_items(b.skip(p), n as nat, |bb: Seq<u8>| dt_tpair(bb)) {
            None => None,
            Some((s, q)) => Some((s, p + q)),
        },
    }
}

/// A whole cache: an opening brace line, version, fingerprint, entries,
/// files, both indices, and a closing brace line.
pub open spec fn t_cache(c: CacheV) -> Seq<u8> {
    seq![0x7bu8, 0x0au8] + t_u64(c.version as u64) + t_hash(c.hash) + t_u64(c.entries.len() as u64)
        + e_items(c.entries, |e: EntryV| t_entry(e)) + t_u64(c.files.len() as u64) + e_items(
        c.files,
        |f: FileEntryV| t_file(f),
    ) + t_u64(c.owners_map.len() as u64) + e_items(
        c.owners_map,
        |p: (OwnerV, Seq<Seq<char>>)| t_opair(p),
    ) + t_u64(c.tags_map.len() as u64) + e_items(
        c.tags_map,
        |p: (Seq<char>, Seq<Seq<char>>)| t_tpair(p),
    ) + seq![0x7du8, 0x0au8]
}

/// Reads a whole cache.
pub open spec fn dt_cache(b: Seq<u8>) -> Option<(CacheV, int)> {
    if b.len() >= 2 && b[0] == 0x7b && b[1] == 0x0a {
        match dt_u64(b.skip(2)) {
            None => None,
            Some((version, p1)) => {
                if version > u32::MAX {
                    None
                } else {
                    match dt_hash(b.skip(2 + p1)) {
                        None => None,
                        Some((hash, p2)) => match dt_entry_list(b.skip(2 + p1 + p2)) {
                            None => None,
                            Some((es, p3)) => match dt_file_list(b.skip(2 + p1 + p2 + p3)) {
                                None => None,
                                Some((fs, p4)) => match dt_opair_list(
                                    b.skip(2 + p1 + p2 + p3 + p4),
                                ) {
                                    None => None,
                                    Some((om, p5)) => match dt_tpair_list(
                                        b.skip(2 + p1 + p2 + p3 + p4 + p5),
                                    ) {
                                        None => None,
                                        Some((tm, p6)) => {
                                            let p = 2 + p1 + p2 + p3 + p4 + p5 + p6;
                                            if p + 2 <= b.len() && b[p] == 0x7d && b[p + 1]
                                                == 0x0a {
                                                Some(
                                                    (
                                                        CacheV {
                                                            version: version as u32,
                                                            hash,
                                                            entries: es,
                                                            files: fs,
                                                            owners_map: om,
                                                            tags_map: tm,
                                                        },
                                                        p + 2,
                                                    ),
                                                )
                                            } else {
                                                None
                                            }
                                        },
                                    },
                                },
                            },
                        },
                    }
                }
            },
        }
    } else {
        None
    }
}

/// What decoding a text byte string yields: the cache it encodes, if the
/// whole string is exactly that encoding.
pub open spec fn decode_text_spec(b: Seq<u8>) -> Option<CacheV> {
    match dt_cache(b) {
        None => None,
        Some((c, p)) => if p == b.len() {
            Some(c)
        } else {
            None
        },
    }
}

/// Reading a written entry list gives it back.
pub proof fn lemma_trt_entry_list(v: Seq<EntryV>, rest: Seq<u8>)
    requires
        v.len() <= u64::MAX,
        forall|i: int| 0 <= i < v.len() ==> entry_ok(#[trigger] v[i]),
    ensures
        dt_entry_list(t_u64(v.len() as u64) + e_items(v, |e: EntryV| t_entry(e)) + rest) == Some(
            (v, 21 + e_items(v, |e: EntryV| t_entry(e)).len() as int),
        ),
{
    let f = |e: EntryV| t_entry(e);
    let g = |bb: Seq<u8>| dt_entry(bb);
    let b = t_u64(v.len() as u64) + e_items(v, f) + rest;
    assert(b =~= t_u64(v.len() as u64) + (e_items(v, f) + rest));
    lemma_trt_u64(v.len() as u64, e_items(v, f) + rest);
    assert(b.skip(21) =~= e_items(v, f) + rest);
    assert forall|j: int, r2: Seq<u8>| 0 <= j < v.len() implies #[trigger] g(f(v[j]) + r2) == Some(
        (v[j], f(v[j]).len() as int),
    ) by {
        lemma_trt_entry(v[j], r2);
    }
    lemma_rt_items(v, rest, f, g);
}

/// Reading a written file list gives it back.
pub proof fn lemma_trt_file_list(v: Seq<FileEntryV>, rest: Seq<u8>)
    requires
        v.len() <= u64::MAX,
        forall|i: int| 0 <= i < v.len() ==> file_ok(#[trigger] v[i]),
    ensures
        dt_file_list(t_u64(v.len() as u64) + e_items(v, |f: FileEntryV| t_file(f)) + rest) == Some(
            (v, 21 + e_items(v, |f: FileEntryV| t_file(f)).len() as int),
        ),
{
    let f = |x: FileEntryV| t_file(x);
    let g = |bb: Seq<u8>| dt_file(bb);
    let b = t_u64(v.len() as u64) + e_items(v, |x: FileEntryV| t_file(x)) + rest;
    assert(b =~= t_u64(v.len() as u64) + (e_items(v, f) + rest));
    lemma_trt_u64(v.len() as u64, e_items(v, f) + rest);
    assert(b.skip(21) =~= e_items(v, f) + rest);
    assert forall|j: int, r2: Seq<u8>| 0 <= j < v.len() implies #[trigger] g(f(v[j]) + r2) == Some(
        (v[j], f(v[j]).len() as int),
    ) by {
        lemma_trt_file(v[j], r2);
    }
    lemma_rt_items(v, rest, f, g);
}

/// Reading a written owner index gives it back.
pub proof fn lemma_trt_opair_list(v: Seq<(OwnerV, Seq<Seq<char>>)>, rest: Seq<u8>)
    requires
        v.len() <= u64::MAX,
        forall|i: int| 0 <= i < v.len() ==> opair_ok(#[trigger] v[i]),
    ensures
        dt_opair_list(
            t_u64(v.len() as u64) + e_items(v, |p: (OwnerV, Seq<Seq<char>>)| t_opair(p)) + rest,
        ) == Some((v, 21 + e_items(v, |p: (OwnerV, Seq<Seq<char>>)| t_opair(p)).len() as int)),
{
    let f = |p: (OwnerV, Seq<Seq<char>>)| t_opair(p);
    let g = |bb: Seq<u8>| dt_opair(bb);
    let b = t_u64(v.len() as u64) + e_items(v, f) + rest;
    assert(b =~= t_u64(v.len() as u64) + (e_items(v, f) + rest));
    lemma_trt_u64(v.len() as u64, e_items(v, f) + rest);
    assert(b.skip(21) =~= e_items(v, f) + rest);
    assert forall|j: int, r2: Seq<u8>| 0 <= j < v.len() implies #[trigger] g(f(v[j]) + r2) == Some(
        (v[j], f(v[j]).len() as int),
    ) by {
        lemma_trt_opair(v[j], r2);
    }
    lemma_rt_items(v, rest, f, g);
}

/// Reading a written tag index gives it back.
pub proof fn lemma_trt_tpair_list(v: Seq<(Seq<char>, Seq<Seq<char>>)>, rest: Seq<u8>)
    requires
        v.len() <= u64::MAX,
        forall|i: int| 0 <= i < v.len() ==> tpair_ok(#[trigger] v[i]),
    ensures
        dt_tpair_list(
            t_u64(v.len() as u64) + e_items(v, |p: (Seq<char>, Seq<Seq<char>>)| t_tpair(p)) + rest,
        ) == Some((v, 21 + e_items(v, |p: (Seq<char>, Seq<Seq<char>>)| t_tpair(p)).len() as int)),
{
    let f = |p: (Seq<char>, Seq<Seq<char>>)| t_tpair(p);
    let g = |bb: Seq<u8>| dt_tpair(bb);
    let b = t_u64(v.len() as u64) + e_items(v, f) + rest;
    assert(b =~= t_u64(v.len() as u64) + (e_items(v, f) + rest));
    lemma_trt_u64(v.len() as u64, e_items(v, f) + rest);
    assert(b.skip(21) =~= e_items(v, f) + rest);
    assert forall|j: int, r2: Seq<u8>| 0 <= j < v.len() implies #[trigger] g(f(v[j]) + r2) == Some(
        (v[j], f(v[j]).len() as int),
    ) by {
        lemma_trt_tpair(v[j], r2);
    }
    lemma_rt_items(v, rest, f, g);
}

/// Byte positions of the parts of an encoded cache.
pub open spec fn tc_p3(c: CacheV) -> int {
    21 + e_items(c.entries, |e: EntryV| t_entry(e)).len() as int
}

/// Byte positions of the parts of an encoded cache.
pub open spec fn tc_p4(c: CacheV) -> int {
    21 + e_items(c.files, |f: FileEntryV| t_file(f)).len() as int
}

/// Byte positions of the parts of an encoded cache.
pub open spec fn tc_p5(c: CacheV) -> int {
    21 + e_items(c.owners_map, |p: (OwnerV, Seq<Seq<char>>)| t_opair(p)).len() as int
}

/// Byte positions of the parts of an encoded cache.
pub open spec fn tc_p6(c: CacheV) -> int {
    21 + e_items(c.tags_map, |p: (Seq<char>, Seq<Seq<char>>)| t_tpair(p)).len() as int
}

/// The encoded entry list of a cache.
pub open spec fn tc_le(c: CacheV) -> Seq<u8> {
    t_u64(c.entries.len() as u64) + e_items(c.entries, |e: EntryV| t_entry(e))
}

/// The encoded file list of a cache.
pub open spec fn tc_lf(c: CacheV) -> Seq<u8> {
    t_u64(c.files.len() as u64) + e_items(c.files, |f: FileEntryV| t_file(f))
}

/// The encoded owner index of a cache.
pub open spec fn tc_lo(c: CacheV) -> Seq<u8> {
    t_u64(c.owners_map.len() as u64) + e_items(c.owners_map, |p: (OwnerV, Seq<Seq<char>>)| t_opair(p))
}

/// The encoded tag index of a cache.
pub open spec fn tc_lt(c: CacheV) -> Seq<u8> {
    t_u64(c.tags_map.len() as u64) + e_items(c.tags_map, |p: (Seq<char>, Seq<Seq<char>>)| t_tpair(p))
}

/// A skip past a concatenation's head leaves its tail.
pub proof fn lemma_skip_concat<T>(a: Seq<T>, b: Seq<T>)
    ensures
        (a + b).skip(a.len() as int) == b,
{
    assert((a + b).skip(a.len() as int) =~= b);
}

/// Two skips are one skip.
pub proof fn lemma_skip_skip<T>(s: Seq<T>, p: int, q: int)
    requires
        0 <= p,
        0 <= q,
        p + q <= s.len(),
    ensures
        s.skip(p).skip(q) == s.skip(p + q),
{
    assert(s.skip(p).skip(q) =~= s.skip(p + q));
}

/// The written cache, reassociated into nested suffixes.
#[verifier::spinoff_prover]
#[verifier::rlimit(100)]
pub proof fn lemma_tc_shape(c: CacheV)
    ensures
        t_cache(c) == seq![0x7bu8, 0x0au8] + (t_u64(c.version as u64) + (t_hash(c.hash) + (tc_le(c)
            + (tc_lf(c) + (tc_lo(c) + (tc_lt(c) + seq![0x7du8, 0x0au8])))))),
{
    assert(t_cache(c) =~= seq![0x7bu8, 0x0au8] + (t_u64(c.version as u64) + (t_hash(c.hash) + (
    tc_le(c) + (tc_lf(c) + (tc_lo(c) + (tc_lt(c) + seq![0x7du8, 0x0au8])))))));
}

/// Each part of a written cache reads back as itself, at its position.
#[verifier::spinoff_prover]
#[verifier::rlimit(100)]
pub proof fn lemma_text_parts(c: CacheV)
    requires
        cache_ok(c),
    ensures
        t_cache(c).len() == 90 + tc_p3(c) + tc_p4(c) + tc_p5(c) + tc_p6(c),
        t_cache(c)[0] == 0x7b && t_cache(c)[1] == 0x0a,
        dt_u64(t_cache(c).skip(2)) == Some((c.version as u64, 21int)),
        dt_hash(t_cache(c).skip(23)) == Some((c.hash, 65int)),
        dt_entry_list(t_cache(c).skip(88)) == Some((c.entries, tc_p3(c))),
        dt_file_list(t_cache(c).skip(88 + tc_p3(c))) == Some((c.files, tc_p4(c))),
        dt_opair_list(t_cache(c).skip(88 + tc_p3(c) + tc_p4(c))) == Some((c.owners_map, tc_p5(c))),
        dt_tpair_list(t_cache(c).skip(88 + tc_p3(c) + tc_p4(c) + tc_p5(c))) == Some(
            (c.tags_map, tc_p6(c)),
        ),
        t_cache(c)[88 + tc_p3(c) + tc_p4(c) + tc_p5(c) + tc_p6(c)] == 0x7d,
        t_cache(c)[88 + tc_p3(c) + tc_p4(c) + tc_p5(c) + tc_p6(c) + 1] == 0x0a,
{
    let b = t_cache(c);
    let close = seq![0x7du8, 0x0au8];
    let r6 = tc_lt(c) + close;
    let r5 = tc_lo(c) + r6;
    let r4 = tc_lf(c) + r5;
    let r3 = tc_le(c) + r4;
    let r2 = t_hash(c.hash) + r3;
    let r1 = t_u64(c.version as u64) + r2;
    lemma_tc_shape(c);
    let p3 = tc_p3(c);
    let p4 = tc_p4(c);
    let p5 = tc_p5(c);
    let p6 = tc_p6(c);
    lemma_trt_u64(c.entries.len() as u64, Seq::empty());
    lemma_trt_u64(c.files.len() as u64, Seq::empty());
    lemma_trt_u64(c.owners_map.len() as u64, Seq::empty());
    lemma_trt_u64(c.tags_map.len() as u64, Seq::empty());
    lemma_trt_hash(c.hash, r3);

    // The opening line.
    assert(b[0] == 0x7b && b[1] == 0x0a);
    lemma_skip_concat(seq![0x7bu8, 0x0au8], r1);
    assert(b.skip(2) == r1);
    // The version.
    lemma_trt_u64(c.version as u64, r2);
    lemma_skip_concat(t_u64(c.version as u64), r2);
    lemma_skip_skip(b, 2, 21);
    assert(b.skip(23int) == r2);
    // The fingerprint.
    lemma_skip_concat(t_hash(c.hash), r3);
    lemma_skip_skip(b, 23, 65);
    assert(b.skip(88int) == r3);
    // The entries.
    lemma_trt_entry_list(c.entries, r4);
    assert(dt_entry_list(r3) == Some((c.entries, p3)));
    lemma_skip_concat(tc_le(c), r4);
    lemma_skip_skip(b, 88, p3);
    assert(b.skip(88 + p3) == r4);
    // The files.
    lemma_trt_file_list(c.files, r5);
    assert(dt_file_list(r4) == Some((c.files, p4)));
    lemma_skip_concat(tc_lf(c), r5);
    lemma_skip_skip(b, 88 + p3, p4);
    assert(b.skip(88 + p3 + p4) == r5);
    // The owner index.
    lemma_trt_opair_list(c.owners_map, r6);
    assert(dt_opair_list(r5) == Some((c.owners_map, p5)));
    lemma_skip_concat(tc_lo(c), r6);
    lemma_skip_skip(b, 88 + p3 + p4, p5);
    assert(b.skip(88 + p3 + p4 + p5) == r6);
    // The tag index and the closing line.
    lemma_trt_tpair_list(c.tags_map, close);
    assert(dt_tpair_list(r6) == Some((c.tags_map, p6)));
    assert(r6[p6] == 0x7d && r6[p6 + 1] == 0x0a);
    assert(b.len() == 90 + p3 + p4 + p5 + p6);
    assert(b[88 + p3 + p4 + p5 + p6] == b.skip(88 + p3 + p4 + p5)[p6]);
    assert(b[88 + p3 + p4 + p5 + p6 + 1] == b.skip(88 + p3 + p4 + p5)[p6 + 1]);
}

/// Decoding a written cache yields exactly that cache: the text encoding
/// round-trips.
#[verifier::spinoff_prover]
#[verifier::rlimit(100)]
pub proof fn lemma_text_round_trip(c: CacheV)
    requires
        cache_ok(c),
    ensures
        decode_text_spec(t_cache(c)) == Some(c),
{
    lemma_text_parts(c);
    let b = t_cache(c);
    let p3 = tc_p3(c);
    let p4 = tc_p4(c);
    let p5 = tc_p5(c);
    let p6 = tc_p6(c);
    assert(b.skip(2).skip(21) =~= b.skip(23int));
    assert(b.skip(23int).skip(65) =~= b.skip(88int));
    assert(b.skip(88int).skip(p3) =~= b.skip(88 + p3));
    assert(b.skip(88 + p3).skip(p4) =~= b.skip(88 + p3 + p4));
    assert(b.skip(88 + p3 + p4).skip(p5) =~= b.skip(88 + p3 + p4 + p5));
    let p = 2 + 21 + 65 + p3 + p4 + p5 + p6;
    assert(dt_cache(b) == Some(
        (
            CacheV {
                version: c.version,
                hash: c.hash,
                entries: c.entries,
                files: c.files,
                owners_map: c.owners_map,
                tags_map: c.tags_map,
            },
            p + 2,
        ),
    ));
    assert(CacheV {
        version: c.version,
        hash: c.hash,
        entries: c.entries,
        files: c.files,
        owners_map: c.owners_map,
        tags_map: c.tags_map,
    } == c);
}

// ---------------------------------------------------------------------
// The executable encoder.
// ---------------------------------------------------------------------
/// Appends `x` in `k` decimal digits, most significant first.
fn tw_dec(out: &mut Vec<u8>, x: u64, k: usize)
    ensures
        final(out)@ == old(out)@ + enc10(x as int, k as nat),
    decreases k,
{
    if k == 0 {
        proof {
            assert(old(out)@ + enc10(x as int, 0) =~= old(out)@);
        }
    } else {
        tw_dec(out, x / 10, k - 1);
        out.push(0x30 + ((x % 10) as u8));
        proof {
            assert(digit(x as int % 10) == 0x30 + ((x as int % 10) as u8));
            assert(out@ =~= old(out)@ + enc10(x as int, k as nat));
        }
    }
}

/// Appends one encoded number line.
fn tw_u64(out: &mut Vec<u8>, n: u64)
    ensures
        final(out)@ == old(out)@ + t_u64(n),
{
    tw_dec(out, n, 20);
    out.push(0x0a);
    proof {
        assert(out@ =~= old(out)@ + t_u64(n));
    }
}

/// Escaped characters concatenate over string concatenation.
pub proof fn lemma_esc_str_app(a: Seq<char>, b: Seq<char>)
    ensures
        esc_str(a + b) == esc_str(a) + esc_str(b),
    decreases a.len(),
{
    if a.len() == 0 {
        assert(a + b =~= b);
        assert(esc_str(a) + esc_str(b) =~= esc_str(b));
    } else {
        lemma_esc_str_app(a.drop_first(), b);
        assert((a + b).drop_first() =~= a.drop_first() + b);
        assert((a + b)[0] == a[0]);
        assert(esc_char(a[0]) + (esc_str(a.drop_first()) + esc_str(b)) =~= (esc_char(a[0])
            + esc_str(a.drop_first())) + esc_str(b));
    }
}

/// Appends one encoded string line.
fn tw_str(out: &mut Vec<u8>, s: &String)
    ensures
        final(out)@ == old(out)@ + t_str(s@),
{
    let cs = crate::strutil::str_to_chars(s.as_str());
    out.push(0x22);
    let ghost mid = out@;
    let mut i: usize = 0;
    proof {
        assert(esc_str(s@.take(0)) =~= Seq::<u8>::empty());
        assert(out@ =~= mid + esc_str(s@.take(0)));
    }
    while i < cs.len()
        invariant
            i <= cs@.len(),
            cs@ == s@,
            out@ =~= mid + esc_str(s@.take(i as int)),
        decreases cs@.len() - i,
    {
        let c = cs[i];
        if c == '"' {
            out.push(0x5c);
            out.push(0x22);
        } else if c == '\\' {
            out.push(0x5c);
            out.push(0x5c);
        } else {
            let v = c as u32;
            if 0x20 <= v && v < 0x7f {
                out.push(v as u8);
            } else {
                out.push(0x5c);
                out.push(0x75);
                tw_dec(out, v as u64, 7);
            }
        }
        i = i + 1;
        proof {
            assert(s@.take(i as int) =~= s@.take(i - 1) + seq![s@[i - 1]]);
            lemma_esc_str_app(s@.take(i - 1), seq![s@[i - 1]]);
            let single = seq![s@[i - 1]];
            assert(single.drop_first() =~= Seq::<char>::empty());
            assert(esc_str(single.drop_first()) =~= Seq::<u8>::empty());
            assert(esc_str(single) == esc_char(single[0]) + esc_str(single.drop_first()));
            assert(esc_str(single) =~= esc_char(s@[i - 1]));
            assert(out@ =~= mid + esc_str(s@.take(i as int)));
        }
    }
    out.push(0x22);
    out.push(0x0a);
    proof {
        assert(s@.take(s@.len() as int) =~= s@);
        assert(out@ =~= old(out)@ + t_str(s@));
    }
}

/// Appends the encoded fingerprint line.
fn tw_hash(out: &mut Vec<u8>, h: &Vec<u8>)
    requires
        h@.len() == 32,
    ensures
        final(out)@ == old(out)@ + t_hash(h@),
{
    let ghost f = |x: u8| t_hex_byte(x);
    let ghost mid = out@;
    let mut i: usize = 0;
    proof {
        assert(e_items(h@.take(0), f) =~= Seq::<u8>::empty());
        assert(out@ =~= mid + e_items(h@.take(0), f));
    }
    while i < h.len()
        invariant
            i <= h@.len(),
            f == (|x: u8| t_hex_byte(x)),
            out@ =~= mid + e_items(h@.take(i as int), f),
        decreases h@.len() - i,
    {
        let x = h[i];
        let hi = x / 16;
        let lo = x % 16;
        let hb = if hi < 10 {
            0x30 + hi
        } else {
            0x57 + hi
        };
        let lb = if lo < 10 {
            0x30 + lo
        } else {
            0x57 + lo
        };
        out.push(hb);
        out.push(lb);
        i = i + 1;
        proof {
            assert(h@.take(i as int) =~= h@.take(i - 1) + seq![h@[i - 1]]);
            lemma_e_items_app(h@.take(i - 1), seq![h@[i - 1]], f);
            let single = seq![h@[i - 1]];
            assert(single.drop_first() =~= Seq::<u8>::empty());
            assert(e_items(single.drop_first(), f) =~= Seq::<u8>::empty());
            assert(e_items(single, f) == f(single[0]) + e_items(single.drop_first(), f));
            assert(e_items(single, f) =~= t_hex_byte(h@[i - 1]));
            assert(out@ =~= mid + e_items(h@.take(i as int), f));
        }
    }
    out.push(0x0a);
    proof {
        assert(h@.take(h@.len() as int) =~= h@);
        assert(out@ =~= old(out)@ + t_hash(h@));
    }
}

/// Appends one encoded owner.
fn tw_owner(out: &mut Vec<u8>, o: &Owner)
    ensures
        final(out)@ == old(out)@ + t_owner(o@),
{
    tw_str(out, &o.identifier);
    let kb: u64 = match o.owner_type {
        OwnerType::User => 0,
        OwnerType::Team => 1,
        OwnerType::Email => 2,
        OwnerType::Unowned => 3,
        OwnerType::Unknown => 4,
    };
    tw_u64(out, kb);
    proof {
        assert(out@ =~= old(out)@ + t_owner(o@));
    }
}

/// Appends an encoded owner list.
fn tw_owner_list(out: &mut Vec<u8>, v: &Vec<Owner>)
    ensures
        final(out)@ == old(out)@ + t_u64(v.deep_view().len() as u64) + e_items(
            v.deep_view(),
            |x: OwnerV| t_owner(x),
        ),
{
    let ghost dv = v.deep_view();
    let ghost f = |x: OwnerV| t_owner(x);
    tw_u64(out, v.len() as u64);
    let ghost mid = out@;
    let mut i: usize = 0;
    proof {
        assert(e_items(dv.take(0), f) =~= Seq::<u8>::empty());
        assert(out@ =~= mid + e_items(dv.take(0), f));
    }
    while i < v.len()
        invariant
            i <= dv.len(),
            dv == v.deep_view(),
            f == (|x: OwnerV| t_owner(x)),
            out@ =~= mid + e_items(dv.take(i as int), f),
        decreases dv.len() - i,
    {
        proof {
            assert(dv[i as int] == v@[i as int]@);
        }
        tw_owner(out, &v[i]);
        i = i + 1;
        proof {
            assert(dv.take(i as int) =~= dv.take(i - 1) + seq![dv[i - 1]]);
            lemma_e_items_app(dv.take(i - 1), seq![dv[i - 1]], f);
            let single = seq![dv[i - 1]];
            assert(single.drop_first() =~= Seq::<OwnerV>::empty());
            assert(e_items(single.drop_first(), f) =~= Seq::<u8>::empty());
            assert(e_items(single, f) == f(single[0]) + e_items(single.drop_first(), f));
            assert(e_items(single, f) =~= f(dv[i - 1]));
            assert(out@ =~= mid + e_items(dv.take(i as int), f));
        }
    }
    proof {
        assert(dv.take(dv.len() as int) =~= dv);
    }
}

/// Appends an encoded string list.
fn tw_string_list(out: &mut Vec<u8>, v: &Vec<String>)
    ensures
        final(out)@ == old(out)@ + t_u64(v.deep_view().len() as u64) + e_items(
            v.deep_view(),
            |x: Seq<char>| t_str(x),
        ),
{
    let ghost dv = v.deep_view();
    let ghost f = |x: Seq<char>| t_str(x);
    tw_u64(out, v.len() as u64);
    let ghost mid = out@;
    let mut i: usize = 0;
    proof {
        assert(e_items(dv.take(0), f) =~= Seq::<u8>::empty());
        assert(out@ =~= mid + e_items(dv.take(0), f));
    }
    while i < v.len()
        invariant
            i <= dv.len(),
            dv == v.deep_view(),
            f == (|x: Seq<char>| t_str(x)),
            out@ =~= mid + e_items(dv.take(i as int), f),
        decreases dv.len() - i,
    {
        proof {
            assert(dv[i as int] == v@[i as int]@);
        }
        tw_str(out, &v[i]);
        i = i + 1;
        proof {
            assert(dv.take(i as int) =~= dv.take(i - 1) + seq![dv[i - 1]]);
            lemma_e_items_app(dv.take(i - 1), seq![dv[i - 1]], f);
            let single = seq![dv[i - 1]];
            assert(single.drop_first() =~= Seq::<Seq<char>>::empty());
            assert(e_items(single.drop_first(), f) =~= Seq::<u8>::empty());
            assert(e_items(single, f) == f(single[0]) + e_items(single.drop_first(), f));
            assert(e_items(single, f) =~= f(dv[i - 1]));
            assert(out@ =~= mid + e_items(dv.take(i as int), f));
        }
    }
    proof {
        assert(dv.take(dv.len() as int) =~= dv);
    }
}

/// Appends an encoded tag list.
fn tw_tag_list(out: &mut Vec<u8>, v: &Vec<Tag>)
    ensures
        final(out)@ == old(out)@ + t_u64(v.deep_view().len() as u64) + e_items(
            v.deep_view(),
            |x: Seq<char>| t_str(x),
        ),
{
    let ghost dv = v.deep_view();
    let ghost f = |x: Seq<char>| t_str(x);
    tw_u64(out, v.len() as u64);
    let ghost mid = out@;
    let mut i: usize = 0;
    proof {
        assert(e_items(dv.take(0), f) =~= Seq::<u8>::empty());
        assert(out@ =~= mid + e_items(dv.take(0), f));
    }
    while i < v.len()
        invariant
            i <= dv.len(),
            dv == v.deep_view(),
            f == (|x: Seq<char>| t_str(x)),
            out@ =~= mid + e_items(dv.take(i as int), f),
        decreases dv.len() - i,
    {
        proof {
            assert(dv[i as int] == v@[i as int]@);
        }
        tw_str(out, &v[i].0);
        i = i + 1;
        proof {
            assert(dv.take(i as int) =~= dv.take(i - 1) + seq![dv[i - 1]]);
            lemma_e_items_app(dv.take(i - 1), seq![dv[i - 1]], f);
            let single = seq![dv[i - 1]];
            assert(single.drop_first() =~= Seq::<Seq<char>>::empty());
            assert(e_items(single.drop_first(), f) =~= Seq::<u8>::empty());
            assert(e_items(single, f) == f(single[0]) + e_items(single.drop_first(), f));
            assert(e_items(single, f) =~= f(dv[i - 1]));
            assert(out@ =~= mid + e_items(dv.take(i as int), f));
        }
    }
    proof {
        assert(dv.take(dv.len() as int) =~= dv);
    }
}

/// Appends one encoded entry.
fn tw_entry(out: &mut Vec<u8>, e: &CodeownersEntry)
    ensures
        final(out)@ == old(out)@ + t_entry(e@),
{
    tw_str(out, &e.source_file);
    tw_u64(out, e.line_number as u64);
    tw_str(out, &e.pattern);
    tw_owner_list(out, &e.owners);
    tw_tag_list(out, &e.tags);
    proof {
        assert(out@ =~= old(out)@ + t_entry(e@));
    }
}

/// Appends one encoded file record.
fn tw_file(out: &mut Vec<u8>, f: &FileEntry)
    ensures
        final(out)@ == old(out)@ + t_file(f@),
{
    tw_str(out, &f.path);
    tw_owner_list(out, &f.owners);
    tw_tag_list(out, &f.tags);
    proof {
        assert(out@ =~= old(out)@ + t_file(f@));
    }
}

/// Appends the encoded entry list.
fn tw_entry_list(out: &mut Vec<u8>, v: &Vec<CodeownersEntry>)
    ensures
        final(out)@ == old(out)@ + t_u64(v.deep_view().len() as u64) + e_items(
            v.deep_view(),
            |x: EntryV| t_entry(x),
        ),
{
    let ghost dv = v.deep_view();
    let ghost f = |x: EntryV| t_entry(x);
    tw_u64(out, v.len() as u64);
    let ghost mid = out@;
    let mut i: usize = 0;
    proof {
        assert(e_items(dv.take(0), f) =~= Seq::<u8>::empty());
        assert(out@ =~= mid + e_items(dv.take(0), f));
    }
    while i < v.len()
        invariant
            i <= dv.len(),
            dv == v.deep_view(),
            f == (|x: EntryV| t_entry(x)),
            out@ =~= mid + e_items(dv.take(i as int), f),
        decreases dv.len() - i,
    {
        proof {
            assert(dv[i as int] == v@[i as int]@);
        }
        tw_entry(out, &v[i]);
        i = i + 1;
        proof {
            assert(dv.take(i as int) =~= dv.take(i - 1) + seq![dv[i - 1]]);
            lemma_e_items_app(dv.take(i - 1), seq![dv[i - 1]], f);
            let single = seq![dv[i - 1]];
            assert(single.drop_first() =~= Seq::<EntryV>::empty());
            assert(e_items(single.drop_first(), f) =~= Seq::<u8>::empty());
            assert(e_items(single, f) == f(single[0]) + e_items(single.drop_first(), f));
            assert(e_items(single, f) =~= f(dv[i - 1]));
            assert(out@ =~= mid + e_items(dv.take(i as int), f));
        }
    }
    proof {
        assert(dv.take(dv.len() as int) =~= dv);
    }
}

/// Appends the encoded file list.
fn tw_file_list(out: &mut Vec<u8>, v: &Vec<FileEntry>)
    ensures
        final(out)@ == old(out)@ + t_u64(v.deep_view().len() as u64) + e_items(
            v.deep_view(),
            |x: FileEntryV| t_file(x),
        ),
{
    let ghost dv = v.deep_view();
    let ghost f = |x: FileEntryV| t_file(x);
    tw_u64(out, v.len() as u64);
    let ghost mid = out@;
    let mut i: usize = 0;
    proof {
        assert(e_items(dv.take(0), f) =~= Seq::<u8>::empty());
        assert(out@ =~= mid + e_items(dv.take(0), f));
    }
    while i < v.len()
        invariant
            i <= dv.len(),
            dv == v.deep_view(),
            f == (|x: FileEntryV| t_file(x)),
            out@ =~= mid + e_items(dv.take(i as int), f),
        decreases dv.len() - i,
    {
        proof {
            assert(dv[i as int] == v@[i as int]@);
        }
        tw_file(out, &v[i]);
        i = i + 1;
        proof {
            assert(dv.take(i as int) =~= dv.take(i - 1) + seq![dv[i - 1]]);
            lemma_e_items_app(dv.take(i - 1), seq![dv[i - 1]], f);
            let single = seq![dv[i - 1]];
            assert(single.drop_first() =~= Seq::<FileEntryV>::empty());
            assert(e_items(single.drop_first(), f) =~= Seq::<u8>::empty());
            assert(e_items(single, f) == f(single[0]) + e_items(single.drop_first(), f));
            assert(e_items(single, f) =~= f(dv[i - 1]));
            assert(out@ =~= mid + e_items(dv.take(i as int), f));
        }
    }
    proof {
        assert(dv.take(dv.len() as int) =~= dv);
    }
}

/// Appends an encoded owner-index pair.
fn tw_opair(out: &mut Vec<u8>, p: &(Owner, Vec<String>))
    ensures
        final(out)@ == old(out)@ + t_opair(p.deep_view()),
{
    tw_owner(out, &p.0);
    tw_string_list(out, &p.1);
    proof {
        assert(out@ =~= old(out)@ + t_opair(p.deep_view()));
    }
}

/// Appends an encoded tag-index pair.
fn tw_tpair(out: &mut Vec<u8>, p: &(Tag, Vec<String>))
    ensures
        final(out)@ == old(out)@ + t_tpair(p.deep_view()),
{
    tw_str(out, &p.0.0);
    tw_string_list(out, &p.1);
    proof {
        assert(out@ =~= old(out)@ + t_tpair(p.deep_view()));
    }
}

/// Appends the encoded owner index.
fn tw_opair_list(out: &mut Vec<u8>, v: &Vec<(Owner, Vec<String>)>)
    ensures
        final(out)@ == old(out)@ + t_u64(v.deep_view().len() as u64) + e_items(
            v.deep_view(),
            |x: (OwnerV, Seq<Seq<char>>)| t_opair(x),
        ),
{
    let ghost dv = v.deep_view();
    let ghost f = |x: (OwnerV, Seq<Seq<char>>)| t_opair(x);
    tw_u64(out, v.len() as u64);
    let ghost mid = out@;
    let mut i: usize = 0;
    proof {
        assert(e_items(dv.take(0), f) =~= Seq::<u8>::empty());
        assert(out@ =~= mid + e_items(dv.take(0), f));
    }
    while i < v.len()
        invariant
            i <= dv.len(),
            dv == v.deep_view(),
            f == (|x: (OwnerV, Seq<Seq<char>>)| t_opair(x)),
            out@ =~= mid + e_items(dv.take(i as int), f),
        decreases dv.len() - i,
    {
        proof {
            assert(dv[i as int] == v@[i as int].deep_view());
        }
        tw_opair(out, &v[i]);
        i = i + 1;
        proof {
            assert(dv.take(i as int) =~= dv.take(i - 1) + seq![dv[i - 1]]);
            lemma_e_items_app(dv.take(i - 1), seq![dv[i - 1]], f);
            let single = seq![dv[i - 1]];
            assert(single.drop_first() =~= Seq::<(OwnerV, Seq<Seq<char>>)>::empty());
            assert(e_items(single.drop_first(), f) =~= Seq::<u8>::empty());
            assert(e_items(single, f) == f(single[0]) + e_items(single.drop_first(), f));
            assert(e_items(single, f) =~= f(dv[i - 1]));
            assert(out@ =~= mid + e_items(dv.take(i as int), f));
        }
    }
    proof {
        assert(dv.take(dv.len() as int) =~= dv);
    }
}

/// Appends the encoded tag index.
fn tw_tpair_list(out: &mut Vec<u8>, v: &Vec<(Tag, Vec<String>)>)
    ensures
        final(out)@ == old(out)@ + t_u64(v.deep_view().len() as u64) + e_items(
            v.deep_view(),
            |x: (Seq<char>, Seq<Seq<char>>)| t_tpair(x),
        ),
{
    let ghost dv = v.deep_view();
    let ghost f = |x: (Seq<char>, Seq<Seq<char>>)| t_tpair(x);
    tw_u64(out, v.len() as u64);
    let ghost mid = out@;
    let mut i: usize = 0;
    proof {
        assert(e_items(dv.take(0), f) =~= Seq::<u8>::empty());
        assert(out@ =~= mid + e_items(dv.take(0), f));
    }
    while i < v.len()
        invariant
            i <= dv.len(),
            dv == v.deep_view(),
            f == (|x: (Seq<char>, Seq<Seq<char>>)| t_tpair(x)),
            out@ =~= mid + e_items(dv.take(i as int), f),
        decreases dv.len() - i,
    {
        proof {
            assert(dv[i as int] == v@[i as int].deep_view());
        }
        tw_tpair(out, &v[i]);
        i = i + 1;
        proof {
            assert(dv.take(i as int) =~= dv.take(i - 1) + seq![dv[i - 1]]);
            lemma_e_items_app(dv.take(i - 1), seq![dv[i - 1]], f);
            let single = seq![dv[i - 1]];
            assert(single.drop_first() =~= Seq::<(Seq<char>, Seq<Seq<char>>)>::empty());
            assert(e_items(single.drop_first(), f) =~= Seq::<u8>::empty());
            assert(e_items(single, f) == f(single[0]) + e_items(single.drop_first(), f));
            assert(e_items(single, f) =~= f(dv[i - 1]));
            assert(out@ =~= mid + e_items(dv.take(i as int), f));
        }
    }
    proof {
        assert(dv.take(dv.len() as int) =~= dv);
    }
}

/// Encodes a cache in the readable text format.
#[verifier::spinoff_prover]
#[verifier::rlimit(100)]
pub fn encode_cache_text(c: &CodeownersCache) -> (out: Vec<u8>)
    requires
        c@.hash.len() == 32,
    ensures
        out@ == t_cache(c@),
{
    let mut out: Vec<u8> = Vec::new();
    out.push(0x7b);
    out.push(0x0a);
    tw_u64(&mut out, c.version as u64);
    tw_hash(&mut out, &c.hash);
    tw_entry_list(&mut out, &c.entries);
    tw_file_list(&mut out, &c.files);
    tw_opair_list(&mut out, &c.owners_map);
    tw_tpair_list(&mut out, &c.tags_map);
    out.push(0x7d);
    out.push(0x0a);
    proof {
        assert(out@ =~= t_cache(c@));
    }
    out
}

// ---------------------------------------------------------------------
// The executable decoder.
// ---------------------------------------------------------------------
/// Reads a number line at `pos`.
fn tr_u64(b: &Vec<u8>, pos: usize) -> (r: Result<(u64, usize), Error>)
    requires
        pos <= b@.len(),
    ensures
        match r {
            Ok((v, p2)) => pos <= p2 <= b@.len() && dt_u64(b@.skip(pos as int)) == Some(
                (v, p2 - pos as int),
            ),
            Err(e) => dt_u64(b@.skip(pos as int)) is None && e == Error::CorruptCache,
        },
{
    let ghost b0 = b@.skip(pos as int);
    let n = b.len();
    if n - pos < 21 {
        return Err(Error::CorruptCache);
    }
    let mut val: u128 = 0;
    let mut i: usize = 0;
    proof {
        lemma_p10_values();
        assert(b0.take(20).subrange(0, 0) =~= Seq::<u8>::empty());
        assert(val == val10(b@.subrange(pos as int, pos as int)));
    }
    while i < 20
        invariant
            i <= 20,
            pos + 21 <= b@.len(),
            b@.len() == n,
            b0 == b@.skip(pos as int),
            val == val10(b@.subrange(pos as int, pos + i)),
            0 <= val < p10(i as nat),
            forall|j: int| 0 <= j < i ==> 0x30 <= #[trigger] b0[j] <= 0x39,
        decreases 20 - i,
    {
        let d = b[pos + i];
        proof {
            assert(b0[i as int] == b@[pos + i]);
        }
        if d < 0x30 || d > 0x39 {
            proof {
                assert(b0.take(20)[i as int] == b0[i as int]);
                assert(!all_digits(b0.take(20)));
            }
            return Err(Error::CorruptCache);
        }
        proof {
            lemma_p10_values();
            assert(p10(i as nat) <= p10(19)) by {
                lemma_p10_mono(i as nat, 19);
            }
            assert(p10(19) * 10 == p10(20));
            assert(val * 10 + 9 < p10(20)) by (nonlinear_arith)
                requires
                    0 <= val <= p10(19) - 1,
                    p10(19) * 10 == p10(20),
                    p10(19) >= 1,
            ;
            assert(p10(20) < 0x1_0000_0000_0000_0000_0000_0000_0000_0000) by {
                lemma_p10_values();
            }
            assert(b@.subrange(pos as int, pos + i + 1).drop_last() =~= b@.subrange(
                pos as int,
                pos + i,
            ));
            assert(b@.subrange(pos as int, pos + i + 1).last() == b@[pos + i]);
        }
        val = val * 10 + ((d - 0x30) as u128);
        i = i + 1;
        proof {
            assert(val == val10(b@.subrange(pos as int, pos + i)));
            assert(val < p10(i as nat)) by (nonlinear_arith)
                requires
                    val <= (p10((i - 1) as nat) - 1) * 10 + 9,
                    p10((i - 1) as nat) * 10 == p10(i as nat),
            ;
        }
    }
    proof {
        assert(b@.subrange(pos as int, pos + 20) =~= b0.take(20));
        assert(all_digits(b0.take(20)));
        assert(b0[20] == b@[pos + 20]);
    }
    if b[pos + 20] != 0x0a {
        return Err(Error::CorruptCache);
    }
    if val > (u64::MAX as u128) {
        return Err(Error::CorruptCache);
    }
    Ok((val as u64, pos + 21))
}

/// `p10` is monotone in the exponent.
pub proof fn lemma_p10_mono(a: nat, b: nat)
    requires
        a <= b,
    ensures
        p10(a) <= p10(b),
    decreases b,
{
    if a < b {
        lemma_p10_mono(a, (b - 1) as nat);
        assert(p10(a) >= 1) by {
            lemma_p10_pos(a);
        }
        assert(10 * p10((b - 1) as nat) >= p10((b - 1) as nat)) by (nonlinear_arith)
            requires
                p10((b - 1) as nat) >= 1,
        ;
    }
}

/// Powers of 10 are positive.
pub proof fn lemma_p10_pos(k: nat)
    ensures
        p10(k) >= 1,
    decreases k,
{
    if k > 0 {
        lemma_p10_pos((k - 1) as nat);
    }
}

/// Reads exactly `k` decimal digits at `pos` as a value.
fn tr_dec(b: &Vec<u8>, pos: usize, k: usize) -> (r: Option<u32>)
    requires
        pos + k <= b@.len(),
        k <= 7,
    ensures
        match r {
            Some(v) => all_digits(b@.subrange(pos as int, pos + k)) && v == val10(
                b@.subrange(pos as int, pos + k),
            ),
            None => !all_digits(b@.subrange(pos as int, pos + k)),
        },
{
    let ghost whole = b@.subrange(pos as int, pos + k);
    let n = b.len();
    let mut val: u32 = 0;
    let mut i: usize = 0;
    proof {
        assert(val == val10(b@.subrange(pos as int, pos as int)));
    }
    while i < k
        invariant
            i <= k <= 7,
            pos + k <= b@.len(),
            b@.len() == n,
            whole == b@.subrange(pos as int, pos + k),
            val == val10(b@.subrange(pos as int, pos + i)),
            0 <= val < p10(i as nat),
            forall|j: int| 0 <= j < i ==> 0x30 <= #[trigger] whole[j] <= 0x39,
        decreases k - i,
    {
        let d = b[pos + i];
        proof {
            assert(whole[i as int] == b@[pos + i]);
        }
        if d < 0x30 || d > 0x39 {
            return None;
        }
        proof {
            lemma_p10_values();
            assert(p10(i as nat) <= p10(6)) by {
                lemma_p10_mono(i as nat, 6);
            }
            assert(p10(6) == 1000000);
            assert(p10(6) * 10 == p10(7));
            assert(val * 10 + 9 < 10000000) by (nonlinear_arith)
                requires
                    0 <= val <= 1000000 - 1,
            ;
            assert(b@.subrange(pos as int, pos + i + 1).drop_last() =~= b@.subrange(
                pos as int,
                pos + i,
            ));
            assert(b@.subrange(pos as int, pos + i + 1).last() == b@[pos + i]);
        }
        val = val * 10 + ((d - 0x30) as u32);
        i = i + 1;
        proof {
            assert(val == val10(b@.subrange(pos as int, pos + i)));
            assert(val < p10(i as nat)) by (nonlinear_arith)
                requires
                    val <= (p10((i - 1) as nat) - 1) * 10 + 9,
                    p10((i - 1) as nat) * 10 == p10(i as nat),
            ;
        }
    }
    Some(val)
}

/// Reads a string line at `pos`.
fn tr_str(b: &Vec<u8>, pos: usize) -> (r: Result<(String, usize), Error>)
    requires
        pos <= b@.len(),
    ensures
        match r {
            Ok((s, p2)) => pos <= p2 <= b@.len() && dt_str(b@.skip(pos as int)) == Some(
                (s@, p2 - pos as int),
            ),
            Err(e) => dt_str(b@.skip(pos as int)) is None && e == Error::CorruptCache,
        },
{
    let ghost b0 = b@.skip(pos as int);
    let n = b.len();
    if pos >= n {
        return Err(Error::CorruptCache);
    }
    proof {
        assert(b0[0] == b@[pos as int]);
    }
    if b[pos] != 0x22 {
        return Err(Error::CorruptCache);
    }
    let ghost content0 = b@.skip(pos + 1);
    proof {
        assert(b0.skip(1) =~= content0);
    }
    let mut cs: Vec<char> = Vec::new();
    let mut pp: usize = pos + 1;
    loop
        invariant
            pos + 1 <= pp <= b@.len(),
            b@.len() == n,
            b0 == b@.skip(pos as int),
            content0 == b@.skip(pos + 1),
            b0.skip(1) == content0,
            b0[0] == 0x22,
            dt_chars(content0) == (match dt_chars(b@.skip(pp as int)) {
                Some((s, q)) => Some((cs@ + s, (pp - pos - 1) + q)),
                None => None,
            }),
        ensures
            pos + 1 <= pp <= b@.len(),
            pp < b@.len(),
            b@[pp as int] == 0x22,
            dt_chars(content0) == Some((cs@, pp - pos as int)),
        decreases b@.len() - pp,
    {
        let ghost rem = b@.skip(pp as int);
        if pp >= n {
            proof {
                assert(rem.len() == 0);
                assert(dt_chars(rem) is None);
                assert(dt_chars(content0) is None);
                assert(dt_str(b0) is None);
            }
            return Err(Error::CorruptCache);
        }
        proof {
            assert(rem[0] == b@[pp as int]);
        }
        let ghost cs_old = cs@;
        let byte = b[pp];
        if byte == 0x22 {
            proof {
                assert(dt_chars(rem) == Some((Seq::<char>::empty(), 1int)));
                assert(cs@ + Seq::<char>::empty() =~= cs@);
            }
            break ;
        } else if byte == 0x5c {
            if pp + 1 >= n {
                proof {
                    assert(rem.len() < 2);
                    assert(dt_chars(rem) is None);
                    assert(dt_chars(content0) is None);
                    assert(dt_str(b0) is None);
                }
                return Err(Error::CorruptCache);
            }
            proof {
                assert(rem[1] == b@[pp + 1]);
            }
            let esc = b[pp + 1];
            if esc == 0x22 || esc == 0x5c {
                let c = if esc == 0x22 {
                    '"'
                } else {
                    '\\'
                };
                proof {
                    assert(rem.skip(2) =~= b@.skip(pp + 2));
                }
                cs.push(c);
                pp = pp + 2;
                proof {
                    match dt_chars(b@.skip(pp as int)) {
                        Some((s0, q0)) => {
                            assert(cs_old + (seq![c] + s0) =~= cs@ + s0);
                        },
                        None => {},
                    }
                }
            } else if esc == 0x75 {
                if n - pp < 9 {
                    proof {
                        assert(rem.len() < 9);
                        assert(dt_chars(rem) is None);
                    assert(dt_chars(content0) is None);
                    assert(dt_str(b0) is None);
                    }
                    return Err(Error::CorruptCache);
                }
                proof {
                    assert(rem.subrange(2, 9) =~= b@.subrange(pp + 2, pp + 9));
                }
                let v = match tr_dec(b, pp + 2, 7) {
                    Some(v) => v,
                    None => {
                        proof {
                            assert(dt_chars(rem) is None);
                            assert(dt_chars(content0) is None);
                            assert(dt_str(b0) is None);
                        }
                        return Err(Error::CorruptCache);
                    },
                };
                let c = match char::from_u32(v) {
                    Some(c) => c,
                    None => {
                        proof {
                            assert(!vstd::utf8::is_scalar(val10(rem.subrange(2, 9)) as u32));
                            assert(dt_chars(rem) is None);
                            assert(dt_chars(content0) is None);
                            assert(dt_str(b0) is None);
                        }
                        return Err(Error::CorruptCache);
                    },
                };
                proof {
                    assert(rem.skip(9) =~= b@.skip(pp + 9));
                    assert(val10(rem.subrange(2, 9)) <= u32::MAX);
                }
                cs.push(c);
                pp = pp + 9;
                proof {
                    match dt_chars(b@.skip(pp as int)) {
                        Some((s0, q0)) => {
                            assert(cs_old + (seq![c] + s0) =~= cs@ + s0);
                        },
                        None => {},
                    }
                }
            } else {
                proof {
                    assert(dt_chars(rem) is None);
                    assert(dt_chars(content0) is None);
                    assert(dt_str(b0) is None);
                }
                return Err(Error::CorruptCache);
            }
        } else if 0x20 <= byte && byte < 0x7f {
            let c = match char::from_u32(byte as u32) {
                Some(c) => c,
                None => {
                    proof {
                        assert(vstd::utf8::is_scalar(byte as u32));
                        assert(false);
                    }
                    return Err(Error::CorruptCache);
                },
            };
            proof {
                assert(rem.skip(1) =~= b@.skip(pp + 1));
            }
            cs.push(c);
            pp = pp + 1;
            proof {
                match dt_chars(b@.skip(pp as int)) {
                    Some((s0, q0)) => {
                        assert(cs_old + (seq![c] + s0) =~= cs@ + s0);
                    },
                    None => {},
                }
            }
        } else {
            proof {
                assert(dt_chars(rem) is None);
                assert(dt_chars(content0) is None);
                assert(dt_str(b0) is None);
            }
            return Err(Error::CorruptCache);
        }
    }
    // Closing quote found; a line break must follow.
    if pp + 1 >= n {
        proof {
            assert(dt_str(b0) is None);
        }
        return Err(Error::CorruptCache);
    }
    proof {
        assert(b@.skip(pos + 1)[pp - pos - 1 + 1] == b@[pp + 1]);
    }
    if b[pp + 1] != 0x0a {
        proof {
            assert(dt_str(b0) is None);
        }
        return Err(Error::CorruptCache);
    }
    let s = crate::strutil::chars_to_string(&cs);
    proof {
        assert(dt_str(b0) == Some((cs@, (pp - pos as int) + 2)));
    }
    Ok((s, pp + 2))
}

/// Reads the fingerprint line at `pos`.
fn tr_hash(b: &Vec<u8>, pos: usize) -> (r: Result<(Vec<u8>, usize), Error>)
    requires
        pos <= b@.len(),
    ensures
        match r {
            Ok((h, p2)) => pos <= p2 <= b@.len() && h@.len() == 32 && dt_hash(b@.skip(pos as int))
                == Some((h@, p2 - pos as int)),
            Err(e) => dt_hash(b@.skip(pos as int)) is None && e == Error::CorruptCache,
        },
{
    let ghost g = |bb: Seq<u8>| dt_hex_byte(bb);
    let ghost b0 = b@.skip(pos as int);
    let n = b.len();
    let mut acc: Vec<u8> = Vec::new();
    let mut pp: usize = pos;
    let mut i: u64 = 0;
    proof {
        assert(acc@ =~= Seq::<u8>::empty());
    }
    while i < 32
        invariant
            i <= 32,
            pos <= pp <= b@.len(),
            b@.len() == n,
            g == (|bb: Seq<u8>| dt_hex_byte(bb)),
            b0 == b@.skip(pos as int),
            acc@.len() == i,
            d_items(b0, 32, g) == (match d_items(b@.skip(pp as int), (32 - i) as nat, g) {
                Some((s, q)) => Some((acc@ + s, (pp - pos) + q)),
                None => None,
            }),
        decreases 32 - i,
    {
        let ghost rem = b@.skip(pp as int);
        proof {
            assert(g(rem) == dt_hex_byte(rem));
        }
        if n - pp < 2 {
            proof {
                assert(rem.len() < 2);
                assert(dt_hex_byte(rem) is None);
                assert(d_items(rem, (32 - i) as nat, g) is None);
                assert(d_items(b0, 32, g) is None);
            }
            return Err(Error::CorruptCache);
        }
        proof {
            assert(rem[0] == b@[pp as int]);
            assert(rem[1] == b@[pp + 1]);
        }
        let hb = b[pp];
        let lb = b[pp + 1];
        let h = if 0x30 <= hb && hb <= 0x39 {
            hb - 0x30
        } else if 0x61 <= hb && hb <= 0x66 {
            hb - 0x57
        } else {
            proof {
                assert(hex_val(rem[0]) is None);
                assert(dt_hex_byte(rem) is None);
                assert(d_items(rem, (32 - i) as nat, g) is None);
                assert(d_items(b0, 32, g) is None);
            }
            return Err(Error::CorruptCache);
        };
        let l = if 0x30 <= lb && lb <= 0x39 {
            lb - 0x30
        } else if 0x61 <= lb && lb <= 0x66 {
            lb - 0x57
        } else {
            proof {
                assert(hex_val(rem[1]) is None);
                assert(dt_hex_byte(rem) is None);
                assert(d_items(rem, (32 - i) as nat, g) is None);
                assert(d_items(b0, 32, g) is None);
            }
            return Err(Error::CorruptCache);
        };
        let x = h * 16 + l;
        let ghost acc_old = acc@;
        proof {
            assert(dt_hex_byte(rem) == Some((x, 2int)));
            assert(rem.skip(2) =~= b@.skip(pp + 2));
            assert(d_items(rem, (32 - i) as nat, g) == (match d_items(
                b@.skip(pp + 2),
                (32 - i - 1) as nat,
                g,
            ) {
                Some((s, q)) => Some((seq![x] + s, 2 + q)),
                None => None,
            }));
        }
        acc.push(x);
        pp = pp + 2;
        i = i + 1;
        proof {
            match d_items(b@.skip(pp as int), (32 - i) as nat, g) {
                Some((s0, q0)) => {
                    assert(acc_old + (seq![x] + s0) =~= acc@ + s0);
                },
                None => {},
            }
        }
    }
    proof {
        assert(d_items(b@.skip(pp as int), 0, g) == Some((Seq::<u8>::empty(), 0int)));
        assert(acc@ + Seq::<u8>::empty() =~= acc@);
        assert(d_items(b0, 32, g) == Some((acc@, pp - pos as int)));
    }
    if pp >= n {
        proof {
            assert(dt_hash(b0) is None);
        }
        return Err(Error::CorruptCache);
    }
    proof {
        assert(b0[pp - pos as int] == b@[pp as int]);
    }
    if b[pp] != 0x0a {
        proof {
            assert(dt_hash(b0) is None);
        }
        return Err(Error::CorruptCache);
    }
    proof {
        assert(dt_hash(b0) == Some((acc@, (pp - pos as int) + 1)));
    }
    Ok((acc, pp + 1))
}

/// Reads an owner at `pos`.
fn tr_owner(b: &Vec<u8>, pos: usize) -> (r: Result<(Owner, usize), Error>)
    requires
        pos <= b@.len(),
    ensures
        match r {
            Ok((o, p2)) => pos <= p2 <= b@.len() && dt_owner(b@.skip(pos as int)) == Some(
                (o@, p2 - pos as int),
            ),
            Err(e) => dt_owner(b@.skip(pos as int)) is None && e == Error::CorruptCache,
        },
{
    let ghost b0 = b@.skip(pos as int);
    let (ident, p1) = match tr_str(b, pos) {
        Ok(x) => x,
        Err(e) => {
            return Err(e);
        },
    };
    proof {
        assert(b0.skip(p1 - pos as int) =~= b@.skip(p1 as int));
    }
    let (kv, p2) = match tr_u64(b, p1) {
        Ok(x) => x,
        Err(e) => {
            return Err(e);
        },
    };
    if kv > 4 {
        return Err(Error::CorruptCache);
    }
    let t = if kv == 0 {
        OwnerType::User
    } else if kv == 1 {
        OwnerType::Team
    } else if kv == 2 {
        OwnerType::Email
    } else if kv == 3 {
        OwnerType::Unowned
    } else {
        OwnerType::Unknown
    };
    Ok((Owner { identifier: ident, owner_type: t }, p2))
}

/// Reads a list of tags at `pos`.
fn tr_tag_list(b: &Vec<u8>, pos: usize) -> (r: Result<(Vec<Tag>, usize), Error>)
    requires
        pos <= b@.len(),
    ensures
        match r {
            Ok((v, p2)) => pos <= p2 <= b@.len() && dt_str_list(b@.skip(pos as int)) == Some(
                (v.deep_view(), p2 - pos as int),
            ),
            Err(e) => dt_str_list(b@.skip(pos as int)) is None && e == Error::CorruptCache,
        },
{
    let (strs, p) = match tr_string_list(b, pos) {
        Ok(x) => x,
        Err(e) => {
            return Err(e);
        },
    };
    let mut tags: Vec<Tag> = Vec::new();
    let mut i: usize = 0;
    while i < strs.len()
        invariant
            i <= strs@.len(),
            tags.deep_view() =~= strs.deep_view().take(i as int),
        decreases strs@.len() - i,
    {
        let ghost before = tags.deep_view();
        let t = Tag(strs[i].clone());
        proof {
            assert(t@ == strs.deep_view()[i as int]);
        }
        tags.push(t);
        i = i + 1;
        proof {
            assert(tags.deep_view() =~= before.push(t@));
            assert(tags.deep_view() =~= strs.deep_view().take(i as int));
        }
    }
    proof {
        assert(strs.deep_view().take(strs.deep_view().len() as int) =~= strs.deep_view());
        assert(tags.deep_view() =~= strs.deep_view());
    }
    Ok((tags, p))
}

/// Reads a rule entry at `pos`.
fn tr_entry(b: &Vec<u8>, pos: usize) -> (r: Result<(CodeownersEntry, usize), Error>)
    requires
        pos <= b@.len(),
    ensures
        match r {
            Ok((e, p2)) => pos <= p2 <= b@.len() && dt_entry(b@.skip(pos as int)) == Some(
                (e@, p2 - pos as int),
            ),
            Err(er) => dt_entry(b@.skip(pos as int)) is None && er == Error::CorruptCache,
        },
{
    let ghost b0 = b@.skip(pos as int);
    let (src, p1) = match tr_str(b, pos) {
        Ok(x) => x,
        Err(e) => {
            return Err(e);
        },
    };
    proof {
        assert(b0.skip(p1 - pos as int) =~= b@.skip(p1 as int));
    }
    let (line, p2) = match tr_u64(b, p1) {
        Ok(x) => x,
        Err(e) => {
            return Err(e);
        },
    };
    if line > (usize::MAX as u64) {
        return Err(Error::CorruptCache);
    }
    proof {
        assert(b0.skip(p2 - pos as int) =~= b@.skip(p2 as int));
    }
    let (pat, p3) = match tr_str(b, p2) {
        Ok(x) => x,
        Err(e) => {
            return Err(e);
        },
    };
    proof {
        assert(b0.skip(p3 - pos as int) =~= b@.skip(p3 as int));
    }
    let (owners, p4) = match tr_owner_list(b, p3) {
        Ok(x) => x,
        Err(e) => {
            return Err(e);
        },
    };
    proof {
        assert(b0.skip(p4 - pos as int) =~= b@.skip(p4 as int));
    }
    let (tags, p5) = match tr_tag_list(b, p4) {
        Ok(x) => x,
        Err(e) => {
            return Err(e);
        },
    };
    let e = CodeownersEntry {
        source_file: src,
        line_number: line as usize,
        pattern: pat,
        owners,
        tags,
    };
    Ok((e, p5))
}

/// Reads a file record at `pos`.
fn tr_file(b: &Vec<u8>, pos: usize) -> (r: Result<(FileEntry, usize), Error>)
    requires
        pos <= b@.len(),
    ensures
        match r {
            Ok((f, p2)) => pos <= p2 <= b@.len() && dt_file(b@.skip(pos as int)) == Some(
                (f@, p2 - pos as int),
            ),
            Err(er) => dt_file(b@.skip(pos as int)) is None && er == Error::CorruptCache,
        },
{
    let ghost b0 = b@.skip(pos as int);
    let (path, p1) = match tr_str(b, pos) {
        Ok(x) => x,
        Err(e) => {
            return Err(e);
        },
    };
    proof {
        assert(b0.skip(p1 - pos as int) =~= b@.skip(p1 as int));
    }
    let (owners, p2) = match tr_owner_list(b, p1) {
        Ok(x) => x,
        Err(e) => {
            return Err(e);
        },
    };
    proof {
        assert(b0.skip(p2 - pos as int) =~= b@.skip(p2 as int));
    }
    let (tags, p3) = match tr_tag_list(b, p2) {
        Ok(x) => x,
        Err(e) => {
            return Err(e);
        },
    };
    Ok((FileEntry { path, owners, tags }, p3))
}

/// Reads an owner-index pair at `pos`.
fn tr_opair(b: &Vec<u8>, pos: usize) -> (r: Result<((Owner, Vec<String>), usize), Error>)
    requires
        pos <= b@.len(),
    ensures
        match r {
            Ok((p, p2)) => pos <= p2 <= b@.len() && dt_opair(b@.skip(pos as int)) == Some(
                (p.deep_view(), p2 - pos as int),
            ),
            Err(er) => dt_opair(b@.skip(pos as int)) is None && er == Error::CorruptCache,
        },
{
    let ghost b0 = b@.skip(pos as int);
    let (o, p1) = match tr_owner(b, pos) {
        Ok(x) => x,
        Err(e) => {
            return Err(e);
        },
    };
    proof {
        assert(b0.skip(p1 - pos as int) =~= b@.skip(p1 as int));
    }
    let (paths, p2) = match tr_string_list(b, p1) {
        Ok(x) => x,
        Err(e) => {
            return Err(e);
        },
    };
    Ok(((o, paths), p2))
}

/// Reads a tag-index pair at `pos`.
fn tr_tpair(b: &Vec<u8>, pos: usize) -> (r: Result<((Tag, Vec<String>), usize), Error>)
    requires
        pos <= b@.len(),
    ensures
        match r {
            Ok((p, p2)) => pos <= p2 <= b@.len() && dt_tpair(b@.skip(pos as int)) == Some(
                (p.deep_view(), p2 - pos as int),
            ),
            Err(er) => dt_tpair(b@.skip(pos as int)) is None && er == Error::CorruptCache,
        },
{
    let ghost b0 = b@.skip(pos as int);
    let (t, p1) = match tr_str(b, pos) {
        Ok(x) => x,
        Err(e) => {
            return Err(e);
        },
    };
    proof {
        assert(b0.skip(p1 - pos as int) =~= b@.skip(p1 as int));
    }
    let (paths, p2) = match tr_string_list(b, p1) {
        Ok(x) => x,
        Err(e) => {
            return Err(e);
        },
    };
    Ok(((Tag(t), paths), p2))
}

/// Reads a list of owners at `pos`.
fn tr_owner_list(b: &Vec<u8>, pos: usize) -> (r: Result<(Vec<Owner>, usize), Error>)
    requires
        pos <= b@.len(),
    ensures
        match r {
            Ok((v, p2)) => pos <= p2 <= b@.len() && dt_owner_list(b@.skip(pos as int)) == Some(
                (v.deep_view(), p2 - pos as int),
            ),
            Err(e) => dt_owner_list(b@.skip(pos as int)) is None && e == Error::CorruptCache,
        },
{
    let ghost g = |bb: Seq<u8>| dt_owner(bb);
    let ghost b0 = b@.skip(pos as int);
    let (n, p1) = match tr_u64(b, pos) {
        Ok(x) => x,
        Err(e) => {
            return Err(e);
        },
    };
    let ghost items0 = b0.skip(p1 - pos as int);
    let mut acc: Vec<Owner> = Vec::new();
    let mut pp: usize = p1;
    let mut i: u64 = 0;
    proof {
        assert(items0 =~= b@.skip(p1 as int));
        assert(acc.deep_view() =~= Seq::<OwnerV>::empty());
    }
    while i < n
        invariant
            i <= n,
            pos <= p1 <= pp <= b@.len(),
            g == (|bb: Seq<u8>| dt_owner(bb)),
            b0 == b@.skip(pos as int),
            items0 == b0.skip(p1 - pos as int),
            dt_u64(b0) == Some((n, p1 - pos as int)),
            acc.deep_view().len() == i,
            d_items(items0, n as nat, g) == (match d_items(b@.skip(pp as int), (n - i) as nat, g) {
                Some((s, q)) => Some((acc.deep_view() + s, (pp - p1) + q)),
                None => None,
            }),
        decreases n - i,
    {
        match tr_owner(b, pp) {
            Ok((x, p2)) => {
                let ghost acc_old = acc.deep_view();
                let ghost xv = x@;
                proof {
                    let before = b@.skip(pp as int);
                    let after = b@.skip(p2 as int);
                    assert(before.skip(p2 - pp as int) =~= after);
                    assert(g(before) == dt_owner(before));
                    assert(d_items(before, (n - i) as nat, g) == (match d_items(
                        after,
                        (n - i - 1) as nat,
                        g,
                    ) {
                        Some((s, q)) => Some((seq![xv] + s, (p2 - pp as int) + q)),
                        None => None,
                    }));
                }
                acc.push(x);
                pp = p2;
                i = i + 1;
                proof {
                    assert(acc.deep_view() =~= acc_old.push(xv));
                    match d_items(b@.skip(pp as int), (n - i) as nat, g) {
                        Some((s0, q0)) => {
                            assert(acc_old + (seq![xv] + s0) =~= acc.deep_view() + s0);
                        },
                        None => {},
                    }
                }
            },
            Err(_) => {
                proof {
                    let before = b@.skip(pp as int);
                    assert(g(before) == dt_owner(before));
                    assert(d_items(before, (n - i) as nat, g) is None);
                    assert(d_items(items0, n as nat, g) is None);
                }
                return Err(Error::CorruptCache);
            },
        };
    }
    proof {
        assert(d_items(b@.skip(pp as int), 0, g) == Some((Seq::<OwnerV>::empty(), 0int)));
        assert(acc.deep_view() + Seq::<OwnerV>::empty() =~= acc.deep_view());
        assert(d_items(items0, n as nat, g) == Some((acc.deep_view(), pp - p1 as int)));
    }
    Ok((acc, pp))
}

/// Reads a list of path strings at `pos`.
fn tr_string_list(b: &Vec<u8>, pos: usize) -> (r: Result<(Vec<String>, usize), Error>)
    requires
        pos <= b@.len(),
    ensures
        match r {
            Ok((v, p2)) => pos <= p2 <= b@.len() && dt_str_list(b@.skip(pos as int)) == Some(
                (v.deep_view(), p2 - pos as int),
            ),
            Err(e) => dt_str_list(b@.skip(pos as int)) is None && e == Error::CorruptCache,
        },
{
    let ghost g = |bb: Seq<u8>| dt_str(bb);
    let ghost b0 = b@.skip(pos as int);
    let (n, p1) = match tr_u64(b, pos) {
        Ok(x) => x,
        Err(e) => {
            return Err(e);
        },
    };
    let ghost items0 = b0.skip(p1 - pos as int);
    let mut acc: Vec<String> = Vec::new();
    let mut pp: usize = p1;
    let mut i: u64 = 0;
    proof {
        assert(items0 =~= b@.skip(p1 as int));
        assert(acc.deep_view() =~= Seq::<Seq<char>>::empty());
    }
    while i < n
        invariant
            i <= n,
            pos <= p1 <= pp <= b@.len(),
            g == (|bb: Seq<u8>| dt_str(bb)),
            b0 == b@.skip(pos as int),
            items0 == b0.skip(p1 - pos as int),
            dt_u64(b0) == Some((n, p1 - pos as int)),
            acc.deep_view().len() == i,
            d_items(items0, n as nat, g) == (match d_items(b@.skip(pp as int), (n - i) as nat, g) {
                Some((s, q)) => Some((acc.deep_view() + s, (pp - p1) + q)),
                None => None,
            }),
        decreases n - i,
    {
        match tr_str(b, pp) {
            Ok((x, p2)) => {
                let ghost acc_old = acc.deep_view();
                let ghost xv = x@;
                proof {
                    let before = b@.skip(pp as int);
                    let after = b@.skip(p2 as int);
                    assert(before.skip(p2 - pp as int) =~= after);
                    assert(g(before) == dt_str(before));
                    assert(d_items(before, (n - i) as nat, g) == (match d_items(
                        after,
                        (n - i - 1) as nat,
                        g,
                    ) {
                        Some((s, q)) => Some((seq![xv] + s, (p2 - pp as int) + q)),
                        None => None,
                    }));
                }
                acc.push(x);
                pp = p2;
                i = i + 1;
                proof {
                    assert(acc.deep_view() =~= acc_old.push(xv));
                    match d_items(b@.skip(pp as int), (n - i) as nat, g) {
                        Some((s0, q0)) => {
                            assert(acc_old + (seq![xv] + s0) =~= acc.deep_view() + s0);
                        },
                        None => {},
                    }
                }
            },
            Err(_) => {
                proof {
                    let before = b@.skip(pp as int);
                    assert(g(before) == dt_str(before));
                    assert(d_items(before, (n - i) as nat, g) is None);
                    assert(d_items(items0, n as nat, g) is None);
                }
                return Err(Error::CorruptCache);
            },
        };
    }
    proof {
        assert(d_items(b@.skip(pp as int), 0, g) == Some((Seq::<Seq<char>>::empty(), 0int)));
        assert(acc.deep_view() + Seq::<Seq<char>>::empty() =~= acc.deep_view());
        assert(d_items(items0, n as nat, g) == Some((acc.deep_view(), pp - p1 as int)));
    }
    Ok((acc, pp))
}

/// Reads the entry list at `pos`.
fn tr_entry_list(b: &Vec<u8>, pos: usize) -> (r: Result<(Vec<CodeownersEntry>, usize), Error>)
    requires
        pos <= b@.len(),
    ensures
        match r {
            Ok((v, p2)) => pos <= p2 <= b@.len() && dt_entry_list(b@.skip(pos as int)) == Some(
                (v.deep_view(), p2 - pos as int),
            ),
            Err(e) => dt_entry_list(b@.skip(pos as int)) is None && e == Error::CorruptCache,
        },
{
    let ghost g = |bb: Seq<u8>| dt_entry(bb);
    let ghost b0 = b@.skip(pos as int);
    let (n, p1) = match tr_u64(b, pos) {
        Ok(x) => x,
        Err(e) => {
            return Err(e);
        },
    };
    let ghost items0 = b0.skip(p1 - pos as int);
    let mut acc: Vec<CodeownersEntry> = Vec::new();
    let mut pp: usize = p1;
    let mut i: u64 = 0;
    proof {
        assert(items0 =~= b@.skip(p1 as int));
        assert(acc.deep_view() =~= Seq::<EntryV>::empty());
    }
    while i < n
        invariant
            i <= n,
            pos <= p1 <= pp <= b@.len(),
            g == (|bb: Seq<u8>| dt_entry(bb)),
            b0 == b@.skip(pos as int),
            items0 == b0.skip(p1 - pos as int),
            dt_u64(b0) == Some((n, p1 - pos as int)),
            acc.deep_view().len() == i,
            d_items(items0, n as nat, g) == (match d_items(b@.skip(pp as int), (n - i) as nat, g) {
                Some((s, q)) => Some((acc.deep_view() + s, (pp - p1) + q)),
                None => None,
            }),
        decreases n - i,
    {
        match tr_entry(b, pp) {
            Ok((x, p2)) => {
                let ghost acc_old = acc.deep_view();
                let ghost xv = x@;
                proof {
                    let before = b@.skip(pp as int);
                    let after = b@.skip(p2 as int);
                    assert(before.skip(p2 - pp as int) =~= after);
                    assert(g(before) == dt_entry(before));
                    assert(d_items(before, (n - i) as nat, g) == (match d_items(
                        after,
                        (n - i - 1) as nat,
                        g,
                    ) {
                        Some((s, q)) => Some((seq![xv] + s, (p2 - pp as int) + q)),
                        None => None,
                    }));
                }
                acc.push(x);
                pp = p2;
                i = i + 1;
                proof {
                    assert(acc.deep_view() =~= acc_old.push(xv));
                    match d_items(b@.skip(pp as int), (n - i) as nat, g) {
                        Some((s0, q0)) => {
                            assert(acc_old + (seq![xv] + s0) =~= acc.deep_view() + s0);
                        },
                        None => {},
                    }
                }
            },
            Err(_) => {
                proof {
                    let before = b@.skip(pp as int);
                    assert(g(before) == dt_entry(before));
                    assert(d_items(before, (n - i) as nat, g) is None);
                    assert(d_items(items0, n as nat, g) is None);
                }
                return Err(Error::CorruptCache);
            },
        };
    }
    proof {
        assert(d_items(b@.skip(pp as int), 0, g) == Some((Seq::<EntryV>::empty(), 0int)));
        assert(acc.deep_view() + Seq::<EntryV>::empty() =~= acc.deep_view());
        assert(d_items(items0, n as nat, g) == Some((acc.deep_view(), pp - p1 as int)));
    }
    Ok((acc, pp))
}

/// Reads the file list at `pos`.
fn tr_file_list(b: &Vec<u8>, pos: usize) -> (r: Result<(Vec<FileEntry>, usize), Error>)
    requires
        pos <= b@.len(),
    ensures
        match r {
            Ok((v, p2)) => pos <= p2 <= b@.len() && dt_file_list(b@.skip(pos as int)) == Some(
                (v.deep_view(), p2 - pos as int),
            ),
            Err(e) => dt_file_list(b@.skip(pos as int)) is None && e == Error::CorruptCache,
        },
{
    let ghost g = |bb: Seq<u8>| dt_file(bb);
    let ghost b0 = b@.skip(pos as int);
    let (n, p1) = match tr_u64(b, pos) {
        Ok(x) => x,
        Err(e) => {
            return Err(e);
        },
    };
    let ghost items0 = b0.skip(p1 - pos as int);
    let mut acc: Vec<FileEntry> = Vec::new();
    let mut pp: usize = p1;
    let mut i: u64 = 0;
    proof {
        assert(items0 =~= b@.skip(p1 as int));
        assert(acc.deep_view() =~= Seq::<FileEntryV>::empty());
    }
    while i < n
        invariant
            i <= n,
            pos <= p1 <= pp <= b@.len(),
            g == (|bb: Seq<u8>| dt_file(bb)),
            b0 == b@.skip(pos as int),
            items0 == b0.skip(p1 - pos as int),
            dt_u64(b0) == Some((n, p1 - pos as int)),
            acc.deep_view().len() == i,
            d_items(items0, n as nat, g) == (match d_items(b@.skip(pp as int), (n - i) as nat, g) {
                Some((s, q)) => Some((acc.deep_view() + s, (pp - p1) + q)),
                None => None,
            }),
        decreases n - i,
    {
        match tr_file(b, pp) {
            Ok((x, p2)) => {
                let ghost acc_old = acc.deep_view();
                let ghost xv = x@;
                proof {
                    let before = b@.skip(pp as int);
                    let after = b@.skip(p2 as int);
                    assert(before.skip(p2 - pp as int) =~= after);
                    assert(g(before) == dt_file(before));
                    assert(d_items(before, (n - i) as nat, g) == (match d_items(
                        after,
                        (n - i - 1) as nat,
                        g,
                    ) {
                        Some((s, q)) => Some((seq![xv] + s, (p2 - pp as int) + q)),
                        None => None,
                    }));
                }
                acc.push(x);
                pp = p2;
                i = i + 1;
                proof {
                    assert(acc.deep_view() =~= acc_old.push(xv));
                    match d_items(b@.skip(pp as int), (n - i) as nat, g) {
                        Some((s0, q0)) => {
                            assert(acc_old + (seq![xv] + s0) =~= acc.deep_view() + s0);
                        },
                        None => {},
                    }
                }
            },
            Err(_) => {
                proof {
                    let before = b@.skip(pp as int);
                    assert(g(before) == dt_file(before));
                    assert(d_items(before, (n - i) as nat, g) is None);
                    assert(d_items(items0, n as nat, g) is None);
                }
                return Err(Error::CorruptCache);
            },
        };
    }
    proof {
        assert(d_items(b@.skip(pp as int), 0, g) == Some((Seq::<FileEntryV>::empty(), 0int)));
        assert(acc.deep_view() + Seq::<FileEntryV>::empty() =~= acc.deep_view());
        assert(d_items(items0, n as nat, g) == Some((acc.deep_view(), pp - p1 as int)));
    }
    Ok((acc, pp))
}

/// Reads the owner index at `pos`.
fn tr_opair_list(b: &Vec<u8>, pos: usize) -> (r: Result<(Vec<(Owner, Vec<String>)>, usize), Error>)
    requires
        pos <= b@.len(),
    ensures
        match r {
            Ok((v, p2)) => pos <= p2 <= b@.len() && dt_opair_list(b@.skip(pos as int)) == Some(
                (v.deep_view(), p2 - pos as int),
            ),
            Err(e) => dt_opair_list(b@.skip(pos as int)) is None && e == Error::CorruptCache,
        },
{
    let ghost g = |bb: Seq<u8>| dt_opair(bb);
    let ghost b0 = b@.skip(pos as int);
    let (n, p1) = match tr_u64(b, pos) {
        Ok(x) => x,
        Err(e) => {
            return Err(e);
        },
    };
    let ghost items0 = b0.skip(p1 - pos as int);
    let mut acc: Vec<(Owner, Vec<String>)> = Vec::new();
    let mut pp: usize = p1;
    let mut i: u64 = 0;
    proof {
        assert(items0 =~= b@.skip(p1 as int));
        assert(acc.deep_view() =~= Seq::<(OwnerV, Seq<Seq<char>>)>::empty());
    }
    while i < n
        invariant
            i <= n,
            pos <= p1 <= pp <= b@.len(),
            g == (|bb: Seq<u8>| dt_opair(bb)),
            b0 == b@.skip(pos as int),
            items0 == b0.skip(p1 - pos as int),
            dt_u64(b0) == Some((n, p1 - pos as int)),
            acc.deep_view().len() == i,
            d_items(items0, n as nat, g) == (match d_items(b@.skip(pp as int), (n - i) as nat, g) {
                Some((s, q)) => Some((acc.deep_view() + s, (pp - p1) + q)),
                None => None,
            }),
        decreases n - i,
    {
        match tr_opair(b, pp) {
            Ok((x, p2)) => {
                let ghost acc_old = acc.deep_view();
                let ghost xv = x.deep_view();
                proof {
                    let before = b@.skip(pp as int);
                    let after = b@.skip(p2 as int);
                    assert(before.skip(p2 - pp as int) =~= after);
                    assert(g(before) == dt_opair(before));
                    assert(d_items(before, (n - i) as nat, g) == (match d_items(
                        after,
                        (n - i - 1) as nat,
                        g,
                    ) {
                        Some((s, q)) => Some((seq![xv] + s, (p2 - pp as int) + q)),
                        None => None,
                    }));
                }
                acc.push(x);
                pp = p2;
                i = i + 1;
                proof {
                    assert(acc.deep_view() =~= acc_old.push(xv));
                    match d_items(b@.skip(pp as int), (n - i) as nat, g) {
                        Some((s0, q0)) => {
                            assert(acc_old + (seq![xv] + s0) =~= acc.deep_view() + s0);
                        },
                        None => {},
                    }
                }
            },
            Err(_) => {
                proof {
                    let before = b@.skip(pp as int);
                    assert(g(before) == dt_opair(before));
                    assert(d_items(before, (n - i) as nat, g) is None);
                    assert(d_items(items0, n as nat, g) is None);
                }
                return Err(Error::CorruptCache);
            },
        };
    }
    proof {
        assert(d_items(b@.skip(pp as int), 0, g) == Some((Seq::<(OwnerV, Seq<Seq<char>>)>::empty(), 0int)));
        assert(acc.deep_view() + Seq::<(OwnerV, Seq<Seq<char>>)>::empty() =~= acc.deep_view());
        assert(d_items(items0, n as nat, g) == Some((acc.deep_view(), pp - p1 as int)));
    }
    Ok((acc, pp))
}

/// Reads the tag index at `pos`.
fn tr_tpair_list(b: &Vec<u8>, pos: usize) -> (r: Result<(Vec<(Tag, Vec<String>)>, usize), Error>)
    requires
        pos <= b@.len(),
    ensures
        match r {
            Ok((v, p2)) => pos <= p2 <= b@.len() && dt_tpair_list(b@.skip(pos as int)) == Some(
                (v.deep_view(), p2 - pos as int),
            ),
            Err(e) => dt_tpair_list(b@.skip(pos as int)) is None && e == Error::CorruptCache,
        },
{
    let ghost g = |bb: Seq<u8>| dt_tpair(bb);
    let ghost b0 = b@.skip(pos as int);
    let (n, p1) = match tr_u64(b, pos) {
        Ok(x) => x,
        Err(e) => {
            return Err(e);
        },
    };
    let ghost items0 = b0.skip(p1 - pos as int);
    let mut acc: Vec<(Tag, Vec<String>)> = Vec::new();
    let mut pp: usize = p1;
    let mut i: u64 = 0;
    proof {
        assert(items0 =~= b@.skip(p1 as int));
        assert(acc.deep_view() =~= Seq::<(Seq<char>, Seq<Seq<char>>)>::empty());
    }
    while i < n
        invariant
            i <= n,
            pos <= p1 <= pp <= b@.len(),
            g == (|bb: Seq<u8>| dt_tpair(bb)),
            b0 == b@.skip(pos as int),
            items0 == b0.skip(p1 - pos as int),
            dt_u64(b0) == Some((n, p1 - pos as int)),
            acc.deep_view().len() == i,
            d_items(items0, n as nat, g) == (match d_items(b@.skip(pp as int), (n - i) as nat, g) {
                Some((s, q)) => Some((acc.deep_view() + s, (pp - p1) + q)),
                None => None,
            }),
        decreases n - i,
    {
        match tr_tpair(b, pp) {
            Ok((x, p2)) => {
                let ghost acc_old = acc.deep_view();
                let ghost xv = x.deep_view();
                proof {
                    let before = b@.skip(pp as int);
                    let after = b@.skip(p2 as int);
                    assert(before.skip(p2 - pp as int) =~= after);
                    assert(g(before) == dt_tpair(before));
                    assert(d_items(before, (n - i) as nat, g) == (match d_items(
                        after,
                        (n - i - 1) as nat,
                        g,
                    ) {
                        Some((s, q)) => Some((seq![xv] + s, (p2 - pp as int) + q)),
                        None => None,
                    }));
                }
                acc.push(x);
                pp = p2;
                i = i + 1;
                proof {
                    assert(acc.deep_view() =~= acc_old.push(xv));
                    match d_items(b@.skip(pp as int), (n - i) as nat, g) {
                        Some((s0, q0)) => {
                            assert(acc_old + (seq![xv] + s0) =~= acc.deep_view() + s0);
                        },
                        None => {},
                    }
                }
            },
            Err(_) => {
                proof {
                    let before = b@.skip(pp as int);
                    assert(g(before) == dt_tpair(before));
                    assert(d_items(before, (n - i) as nat, g) is None);
                    assert(d_items(items0, n as nat, g) is None);
                }
                return Err(Error::CorruptCache);
            },
        };
    }
    proof {
        assert(d_items(b@.skip(pp as int), 0, g) == Some((Seq::<(Seq<char>, Seq<Seq<char>>)>::empty(), 0int)));
        assert(acc.deep_view() + Seq::<(Seq<char>, Seq<Seq<char>>)>::empty() =~= acc.deep_view());
        assert(d_items(items0, n as nat, g) == Some((acc.deep_view(), pp - p1 as int)));
    }
    Ok((acc, pp))
}

/// Decodes a cache from its readable text form; any malformed input is a
/// recoverable decode failure.
#[verifier::spinoff_prover]
#[verifier::rlimit(100)]
pub fn decode_cache_text(b: &Vec<u8>) -> (r: Result<CodeownersCache, Error>)
    ensures
        match r {
            Ok(c) => decode_text_spec(b@) == Some(c@),
            Err(e) => decode_text_spec(b@) is None && e == Error::CorruptCache,
        },
{
    let n = b.len();
    if n < 2 {
        return Err(Error::CorruptCache);
    }
    if !(b[0] == 0x7b && b[1] == 0x0a) {
        return Err(Error::CorruptCache);
    }
    proof {
        assert(b@.skip(2) =~= b@.skip(0).skip(2));
        assert(b@.skip(0) =~= b@);
    }
    let (version, p1) = match tr_u64(b, 2) {
        Ok(x) => x,
        Err(e) => {
            return Err(e);
        },
    };
    if version > (u32::MAX as u64) {
        return Err(Error::CorruptCache);
    }
    proof {
        assert(b@.skip(p1 as int) =~= b@.skip(2).skip(p1 - 2));
    }
    let (hash, p2) = match tr_hash(b, p1) {
        Ok(x) => x,
        Err(e) => {
            return Err(e);
        },
    };
    proof {
        assert(b@.skip(p2 as int) =~= b@.skip(p1 as int).skip(p2 - p1 as int));
    }
    let (entries, p3) = match tr_entry_list(b, p2) {
        Ok(x) => x,
        Err(e) => {
            return Err(e);
        },
    };
    proof {
        assert(b@.skip(p3 as int) =~= b@.skip(p2 as int).skip(p3 - p2 as int));
    }
    let (files, p4) = match tr_file_list(b, p3) {
        Ok(x) => x,
        Err(e) => {
            return Err(e);
        },
    };
    proof {
        assert(b@.skip(p4 as int) =~= b@.skip(p3 as int).skip(p4 - p3 as int));
    }
    let (owners_map, p5) = match tr_opair_list(b, p4) {
        Ok(x) => x,
        Err(e) => {
            return Err(e);
        },
    };
    proof {
        assert(b@.skip(p5 as int) =~= b@.skip(p4 as int).skip(p5 - p4 as int));
    }
    let (tags_map, p6) = match tr_tpair_list(b, p5) {
        Ok(x) => x,
        Err(e) => {
            return Err(e);
        },
    };
    if n - p6 < 2 {
        return Err(Error::CorruptCache);
    }
    if !(b[p6] == 0x7d && b[p6 + 1] == 0x0a) {
        return Err(Error::CorruptCache);
    }
    if p6 + 2 != n {
        return Err(Error::CorruptCache);
    }
    let c = CodeownersCache {
        version: version as u32,
        hash,
        entries,
        files,
        owners_map,
        tags_map,
    };
    Ok(c)
}

} // verus!
