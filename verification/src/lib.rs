//! Verified core of a DKIM e-mail verifier with deterministic pattern
//! matching, as used ahead of a zero-knowledge virtual machine.
//!
//! The library canonicalizes a raw e-mail per DKIM relaxed canonicalization,
//! checks the RSA or Ed25519 signature and the body hash, and replays
//! precompiled automata over the canonical bytes, enforcing that every
//! pattern matches exactly once.  Outside cryptographic and automaton
//! primitives are reached through a small set of trusted wrappers;
//! everything around them is verified.

pub mod cache;
pub mod canon;
pub mod circuits;
pub mod compile;
pub mod crypto;
pub mod dkim;
pub mod email;
pub mod headers;
pub mod io;
pub mod keys;
pub mod laws;
pub mod regex;
pub mod select;
pub mod structs;
pub mod tags;

pub use cache::process_regex_parts_cached;
pub use cache::RegexCache;
pub use canon::bytes_eq;
pub use canon::bytes_eq_ignore_ascii_case;
pub use canon::canonicalize_body_relaxed;
pub use canon::canonicalize_header_relaxed;
pub use canon::to_ascii_lowercase_bytes;
pub use circuits::verify_email;
pub use circuits::verify_email_with_regex;
pub use circuits::VerifyError;
pub use compile::compile_regex_parts;
pub use compile::create_dfa;
pub use compile::CompileError;
pub use crypto::hash_bytes;
pub use crypto::hash_bytes_batch;
pub use crypto::hash_bytes_concat;
pub use crypto::hash_bytes_small;
pub use dkim::canonicalize_signed_email;
pub use dkim::dkim_candidate_selectors;
pub use dkim::extract_body_hash_from_header_dfa;
pub use dkim::extract_body_hash_from_header_regex;
pub use dkim::extract_dkim_fields;
pub use dkim::trim_quotes_bytes;
pub use dkim::validate_dkim_header;
pub use dkim::verify_body;
pub use dkim::verify_dkim;
pub use dkim::verify_signature;
pub use dkim::CanonError;
pub use dkim::KeyError;
pub use email::extract_email_body;
pub use email::remove_quoted_printable_soft_breaks;
pub use email::MimeEmail;
pub use email::MimePart;
pub use headers::parse_header_fields;
pub use headers::split_header_body;
pub use headers::HeaderField;
pub use io::VerificationOutput;
pub use keys::bytes_contains;
pub use keys::extract_and_format_key;
pub use keys::parse_dkim_key_record;
pub use keys::select_archive_key;
pub use keys::select_txt_answer;
pub use keys::DkimKeyRecord;
pub use keys::DnsAnswer;
pub use keys::KeyRecordError;
pub use laws::lemma_capture_fidelity;
pub use laws::lemma_cleaning_idempotent;
pub use laws::lemma_cleaning_preserves_length;
pub use laws::lemma_hash_independence;
pub use laws::lemma_output_deterministic;
pub use laws::lemma_single_match_invariant;
pub use regex::count_occurrences_bytes;
pub use regex::process_regex_parts;
pub use select::build_headers_hash_input;
pub use select::remove_all_sub_bytes;
pub use select::select_headers;
pub use select::split_h_names;
pub use structs::CompiledRegex;
pub use structs::Email;
pub use structs::EmailVerifierOutput;
pub use structs::EmailWithRegex;
pub use structs::EmailWithRegexVerifierOutput;
pub use structs::ExternalInput;
pub use structs::PublicKey;
pub use structs::RegexConfig;
pub use structs::RegexInfo;
pub use structs::RegexPattern;
pub use structs::DFA;
pub use tags::find_tag;
pub use tags::parse_dkim_tag_list;
pub use tags::strip_fws_bytes;
pub use tags::trim_fws_bytes;
pub use tags::DkimTag;
