//! Repository file-ownership resolution: rule parsing, pattern matching,
//! a persisted ownership cache with a content-addressed fingerprint, and
//! statistical owner inference from version-control history.

use vstd::prelude::*;

mod cache;
mod codec;
mod fingerprint;
mod infer;
mod inline_parser;
mod options;
mod parser;
mod pattern;
mod resolver;
mod strutil;
mod types;

pub use cache::apply_inline_entry;
pub use cache::build_cache;
pub use cache::filter_unowned_files;
pub use cache::resolve_file_against_entries;
pub use cache::sync_cache;
pub use codec::decode_cache;
pub use codec::encode_cache;
pub use fingerprint::compose_repo_fingerprint;
pub use fingerprint::is_hash_excluded;
pub use infer::aggregate_contributions;
pub use infer::analyze_by_commits;
pub use infer::analyze_by_lines;
pub use infer::analyze_by_recent_activity;
pub use infer::analyze_file_ownership;
pub use infer::codeowners_output_lines;
pub use infer::commit_contributions;
pub use infer::paths_touch_file;
pub use infer::CommitRecord;
pub use infer::Contribution;
pub use infer::FileOwnershipInference;
pub use infer::InferAlgorithm;
pub use infer::InferScope;
pub use infer::InferredOwner;
pub use inline_parser::detect_inline_codeowners;
pub use inline_parser::parse_inline_codeowners_line;
pub use options::parse_cache_encoding;
pub use options::parse_infer_algorithm;
pub use options::parse_infer_scope;
pub use options::parse_output_format;
pub use parser::parse_codeowners;
pub use parser::parse_line;
pub use parser::parse_owner;
pub use pattern::normalize_codeowners_pattern;
pub use resolver::codeowners_entry_to_matcher;
pub use resolver::find_owners_and_tags_for_file;
pub use resolver::CodeownersEntryMatcher;
pub use types::CacheEncoding;
pub use types::CodeownersCache;
pub use types::CodeownersEntry;
pub use types::Error;
pub use types::FileEntry;
pub use types::InlineCodeownersEntry;
pub use types::OutputFormat;
pub use types::Owner;
pub use types::OwnerType;
pub use types::Tag;
pub use types::CACHE_VERSION;

verus! {

} // verus!
