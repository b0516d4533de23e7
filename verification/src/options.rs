//! Parsers for the textual option values callers accept on a command
//! line: output formats, cache encodings, and the inference scope and
//! algorithm, each matched ignoring ASCII case.

use vstd::prelude::*;

use crate::infer::InferAlgorithm;
use crate::infer::InferScope;
use crate::strutil::eq_ignore_ascii_case;
use crate::strutil::range_eq_ignore_case;
use crate::strutil::str_to_chars;
use crate::types::CacheEncoding;
use crate::types::OutputFormat;

verus! {

/// Parses an output format name: `text`, `json` or `bincode`, in any
/// ASCII case; anything else is an error naming the rejected value.
pub fn parse_output_format(s: &str) -> (r: Result<OutputFormat, String>)
    ensures
        eq_ignore_ascii_case(s@, "text"@) ==> r == Ok::<OutputFormat, String>(OutputFormat::Text),
        !eq_ignore_ascii_case(s@, "text"@) && eq_ignore_ascii_case(s@, "json"@) ==> r == Ok::<
            OutputFormat,
            String,
        >(OutputFormat::Json),
        !eq_ignore_ascii_case(s@, "text"@) && !eq_ignore_ascii_case(s@, "json"@)
            && eq_ignore_ascii_case(s@, "bincode"@) ==> r == Ok::<OutputFormat, String>(
            OutputFormat::Bincode,
        ),
        !eq_ignore_ascii_case(s@, "text"@) && !eq_ignore_ascii_case(s@, "json"@)
            && !eq_ignore_ascii_case(s@, "bincode"@) ==> (r matches Err(m) && m@
            == "Invalid output format: "@ + s@),
{
    let cs = str_to_chars(s);
    let n = cs.len();
    proof {
        assert(cs@.subrange(0, n as int) =~= s@);
    }
    if range_eq_ignore_case(&cs, 0, n, "text") {
        Ok(OutputFormat::Text)
    } else if range_eq_ignore_case(&cs, 0, n, "json") {
        Ok(OutputFormat::Json)
    } else if range_eq_ignore_case(&cs, 0, n, "bincode") {
        Ok(OutputFormat::Bincode)
    } else {
        let mut m = String::from_str("Invalid output format: ");
        m.append(s);
        Err(m)
    }
}

/// Parses a cache encoding name: `bincode` or `json`, in any ASCII case;
/// anything else is an error naming the rejected value.
pub fn parse_cache_encoding(s: &str) -> (r: Result<CacheEncoding, String>)
    ensures
        eq_ignore_ascii_case(s@, "bincode"@) ==> r == Ok::<CacheEncoding, String>(
            CacheEncoding::Bincode,
        ),
        !eq_ignore_ascii_case(s@, "bincode"@) && eq_ignore_ascii_case(s@, "json"@) ==> r == Ok::<
            CacheEncoding,
            String,
        >(CacheEncoding::Json),
        !eq_ignore_ascii_case(s@, "bincode"@) && !eq_ignore_ascii_case(s@, "json"@) ==> (r matches
            Err(m) && m@ == "Invalid cache encoding: "@ + s@),
{
    let cs = str_to_chars(s);
    let n = cs.len();
    proof {
        assert(cs@.subrange(0, n as int) =~= s@);
    }
    if range_eq_ignore_case(&cs, 0, n, "bincode") {
        Ok(CacheEncoding::Bincode)
    } else if range_eq_ignore_case(&cs, 0, n, "json") {
        Ok(CacheEncoding::Json)
    } else {
        let mut m = String::from_str("Invalid cache encoding: ");
        m.append(s);
        Err(m)
    }
}

/// Parses an inference scope name: `all` or `unowned`, in any ASCII
/// case; anything else is an error naming the rejected value.
pub fn parse_infer_scope(s: &str) -> (r: Result<InferScope, String>)
    ensures
        eq_ignore_ascii_case(s@, "all"@) ==> r == Ok::<InferScope, String>(InferScope::All),
        !eq_ignore_ascii_case(s@, "all"@) && eq_ignore_ascii_case(s@, "unowned"@) ==> r == Ok::<
            InferScope,
            String,
        >(InferScope::Unowned),
        !eq_ignore_ascii_case(s@, "all"@) && !eq_ignore_ascii_case(s@, "unowned"@) ==> (r matches
            Err(m) && m@ == "Invalid scope: "@ + s@ + ". Valid options: all, unowned"@),
{
    let cs = str_to_chars(s);
    let n = cs.len();
    proof {
        assert(cs@.subrange(0, n as int) =~= s@);
    }
    if range_eq_ignore_case(&cs, 0, n, "all") {
        Ok(InferScope::All)
    } else if range_eq_ignore_case(&cs, 0, n, "unowned") {
        Ok(InferScope::Unowned)
    } else {
        let mut m = String::from_str("Invalid scope: ");
        m.append(s);
        m.append(". Valid options: all, unowned");
        Err(m)
    }
}

/// Parses an inference algorithm name: `commits`, `lines` or `recent`,
/// in any ASCII case; anything else is an error naming the rejected
/// value.
pub fn parse_infer_algorithm(s: &str) -> (r: Result<InferAlgorithm, String>)
    ensures
        eq_ignore_ascii_case(s@, "commits"@) ==> r == Ok::<InferAlgorithm, String>(
            InferAlgorithm::Commits,
        ),
        !eq_ignore_ascii_case(s@, "commits"@) && eq_ignore_ascii_case(s@, "lines"@) ==> r == Ok::<
            InferAlgorithm,
            String,
        >(InferAlgorithm::Lines),
        !eq_ignore_ascii_case(s@, "commits"@) && !eq_ignore_ascii_case(s@, "lines"@)
            && eq_ignore_ascii_case(s@, "recent"@) ==> r == Ok::<InferAlgorithm, String>(
            InferAlgorithm::Recent,
        ),
        !eq_ignore_ascii_case(s@, "commits"@) && !eq_ignore_ascii_case(s@, "lines"@)
            && !eq_ignore_ascii_case(s@, "recent"@) ==> (r matches Err(m) && m@
            == "Invalid algorithm: "@ + s@ + ". Valid options: commits, lines, recent"@),
{
    let cs = str_to_chars(s);
    let n = cs.len();
    proof {
        assert(cs@.subrange(0, n as int) =~= s@);
    }
    if range_eq_ignore_case(&cs, 0, n, "commits") {
        Ok(InferAlgorithm::Commits)
    } else if range_eq_ignore_case(&cs, 0, n, "lines") {
        Ok(InferAlgorithm::Lines)
    } else if range_eq_ignore_case(&cs, 0, n, "recent") {
        Ok(InferAlgorithm::Recent)
    } else {
        let mut m = String::from_str("Invalid algorithm: ");
        m.append(s);
        m.append(". Valid options: commits, lines, recent");
        Err(m)
    }
}

} // verus!
