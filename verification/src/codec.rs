//! Persisting the ownership cache: a compact binary encoding and a
//! readable structured text encoding, each proved the inverse of its
//! decoder. A cache file is self-describing: loading peeks at the first
//! byte — an opening brace means the text form — and falls back to the
//! other encoding, so a load never needs to be told the format.

use vstd::prelude::*;

use crate::types::CacheEncoding;
use crate::types::CacheV;
use crate::types::CodeownersCache;
use crate::types::Error;
use crate::types::CACHE_VERSION;

pub mod bin;
pub mod text;

verus! {

/// What each encoding writes.
pub open spec fn encode_cache_spec(c: CacheV, encoding: CacheEncoding) -> Seq<u8> {
    match encoding {
        CacheEncoding::Bincode => bin::e_cache(c),
        CacheEncoding::Json => text::t_cache(c),
    }
}

/// What loading yields from raw bytes: text when they open with a brace,
/// otherwise binary first with text as the fallback.
pub open spec fn decode_cache_spec(b: Seq<u8>) -> Option<CacheV> {
    if b.len() > 0 && b[0] == 0x7b {
        text::decode_text_spec(b)
    } else {
        match bin::decode_bin_spec(b) {
            Some(c) => Some(c),
            None => text::decode_text_spec(b),
        }
    }
}

/// Encodes a cache for persistence in the chosen encoding.
pub fn encode_cache(cache: &CodeownersCache, encoding: CacheEncoding) -> (out: Vec<u8>)
    requires
        cache@.hash.len() == 32,
    ensures
        out@ == encode_cache_spec(cache@, encoding),
{
    match encoding {
        CacheEncoding::Bincode => bin::encode_cache_bin(cache),
        CacheEncoding::Json => text::encode_cache_text(cache),
    }
}

/// Decodes a persisted cache, detecting its encoding from the first byte.
/// Every malformed input is a recoverable decode failure.
pub fn decode_cache(bytes: &Vec<u8>) -> (r: Result<CodeownersCache, Error>)
    ensures
        match r {
            Ok(c) => decode_cache_spec(bytes@) == Some(c@),
            Err(e) => decode_cache_spec(bytes@) is None && e == Error::CorruptCache,
        },
{
    if bytes.len() > 0 && bytes[0] == 0x7b {
        text::decode_cache_text(bytes)
    } else {
        match bin::decode_cache_bin(bytes) {
            Ok(c) => Ok(c),
            Err(_) => text::decode_cache_text(bytes),
        }
    }
}

/// Both encodings round-trip: loading what either encoding stored yields
/// the stored cache, field for field.
pub proof fn lemma_cache_round_trip(c: CacheV)
    requires
        bin::cache_ok(c),
        c.version == CACHE_VERSION,
    ensures
        decode_cache_spec(encode_cache_spec(c, CacheEncoding::Bincode)) == Some(c),
        decode_cache_spec(encode_cache_spec(c, CacheEncoding::Json)) == Some(c),
{
    bin::lemma_bin_round_trip(c);
    text::lemma_text_round_trip(c);
    let eb = bin::e_cache(c);
    assert(eb[0] == bin::enc_le(c.version as int, 4)[0]) by {
        bin::lemma_enc_le_len(c.version as int, 4);
        assert(eb =~= bin::e_u32(c.version) + eb.skip(4));
    }
    assert(bin::enc_le(c.version as int, 4)[0] == (c.version as int % 256) as u8);
    assert(eb[0] == 1);
    let et = text::t_cache(c);
    text::lemma_text_parts(c);
    assert(et[0] == 0x7b);
}

} // verus!
