//! Data model of the verifier: inputs, compiled patterns and outputs.

use vstd::prelude::*;

verus! {

/// Public key material supplied by the caller.  `key_type` is `"rsa"` or
/// `"ed25519"`; it must agree with the algorithm tag of the signature header
/// that is being checked, otherwise verification hard-fails.
#[derive(Debug, Clone)]
pub struct PublicKey {
    pub key: Vec<u8>,
    pub key_type: String,
}

/// Serialized forward and backward dense automata of one pattern.
#[derive(Debug, Clone)]
pub struct DFA {
    pub fwd: Vec<u8>,
    pub bwd: Vec<u8>,
}

/// A pattern compiled ahead of verification time.  The runtime never builds
/// an automaton from an untrusted pattern string; it only replays these
/// bytes.  `capture_str` is the oracle capture established at compile time,
/// which the runtime re-derives and checks.
#[derive(Debug, Clone)]
pub struct CompiledRegex {
    pub verify_re: DFA,
    pub capture_str: Option<String>,
}

/// Compiled patterns partitioned by target region.
#[derive(Debug, Clone)]
pub struct RegexInfo {
    pub header_parts: Option<Vec<CompiledRegex>>,
    pub body_parts: Option<Vec<CompiledRegex>>,
}

/// An opaque caller-declared fact, passed through unchanged into the output.
#[derive(Debug, Clone)]
pub struct ExternalInput {
    pub name: String,
    pub value: Option<String>,
    pub max_length: usize,
}

/// A verification request without patterns.
#[derive(Debug, Clone)]
pub struct Email {
    pub from_domain: String,
    pub raw_email: Vec<u8>,
    pub public_key: PublicKey,
    pub external_inputs: Vec<ExternalInput>,
}

/// A verification request with a pattern set.
#[derive(Debug, Clone)]
pub struct EmailWithRegex {
    pub email: Email,
    pub regex_info: RegexInfo,
}

/// Output of the DKIM-only flow.
#[derive(Debug, Clone)]
pub struct EmailVerifierOutput {
    pub from_domain_hash: Vec<u8>,
    pub public_key_hash: Vec<u8>,
    pub external_inputs: Vec<String>,
}

/// Output of the DKIM-plus-pattern flow.
#[derive(Debug, Clone)]
pub struct EmailWithRegexVerifierOutput {
    pub email: EmailVerifierOutput,
    pub regex_matches: Vec<String>,
}

/// One declarative pattern of the configuration: either a bare "must match"
/// pattern, or a (prefix, capture, suffix) triple whose middle group is
/// disclosed.
#[derive(Debug, Clone)]
pub enum RegexPattern {
    Match { pattern: String },
    Capture { prefix: String, capture: String, suffix: String },
}

/// Pattern configuration: optional ordered lists for the header and body
/// regions.
#[derive(Debug, Clone)]
pub struct RegexConfig {
    pub header_parts: Option<Vec<RegexPattern>>,
    pub body_parts: Option<Vec<RegexPattern>>,
}

} // verus!
