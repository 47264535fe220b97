//! The pattern compiler: declarative patterns become serialized automata
//! plus, for capture patterns, the oracle capture string established
//! against the trusted input.
//!
//! Compilation is a correctness gate: a pattern that does not match the
//! input exactly once, or whose capture does not occur exactly once inside
//! the match, is rejected here and never reaches the runtime verifier.

use vstd::prelude::*;
use vstd::utf8::encode_utf8;
use vstd::utf8::valid_utf8;
use crate::regex::cr_bview;
use crate::regex::count_occurrences;
use crate::regex::dfa_search;
use crate::regex::single_part_ok;
use crate::structs::CompiledRegex;
use crate::structs::RegexPattern;
use crate::structs::DFA;

verus! {

/// The serialized forward and backward automata of a pattern: a function
/// of the pattern alone.  Nothing on an invalid pattern.  Its definition
/// is left to regex-automata.
pub uninterp spec fn dfa_build_of(pattern: Seq<char>) -> Option<(Seq<u8>, Seq<u8>)>;

/// Relies on regex_automata's dfa::regex::Regex::new and dense DFA
/// serialization (little endian, padding trimmed): the bytes are a
/// function of the pattern alone, and deserializing them yields the same
/// automaton, so the `dfa_search` of these bytes is the pattern's search.
#[verifier::external_body]
fn dfa_build(pattern: &str) -> (r: Option<(Vec<u8>, Vec<u8>)>)
    ensures
        match r {
            Some(p) => dfa_build_of(pattern@) == Some((p.0@, p.1@)),
            None => dfa_build_of(pattern@) is None,
        },
{
    let re = regex_automata::dfa::regex::Regex::new(pattern).ok()?;
    let (f, fpad) = re.forward().to_bytes_little_endian();
    let (b, bpad) = re.reverse().to_bytes_little_endian();
    Some((f[fpad..].to_vec(), b[bpad..].to_vec()))
}

/// The range of a capture group of a pattern on a haystack: a function of
/// the pattern, haystack and group alone.  Its definition is left to
/// regex-automata's meta engine.
pub uninterp spec fn meta_capture_of(pattern: Seq<char>, hay: Seq<u8>, group: usize) -> Option<(usize, usize)>;

/// Relies on regex_automata's meta::Regex captures: the group range
/// depends on the pattern, haystack and group alone and lies within the
/// haystack.
#[verifier::external_body]
fn meta_capture(pattern: &str, hay: &[u8], group: usize) -> (r: Option<(usize, usize)>)
    ensures
        r == meta_capture_of(pattern@, hay@, group),
        match r {
            Some(p) => p.0 <= p.1 <= hay@.len(),
            None => true,
        },
{
    let re = regex_automata::meta::Regex::new(pattern).ok()?;
    let mut caps = re.create_captures();
    re.captures(hay, &mut caps);
    caps.get_group(group).map(|sp| (sp.start, sp.end))
}

/// Builds the serialized automata of one pattern.
pub fn create_dfa(pattern: &str) -> (r: Option<DFA>)
    ensures
        match r {
            Some(d) => dfa_build_of(pattern@) == Some((d.fwd@, d.bwd@)),
            None => dfa_build_of(pattern@) is None,
        },
{
    match dfa_build(pattern) {
        Some(p) => Some(DFA { fwd: p.0, bwd: p.1 }),
        None => None,
    }
}

/// The composed capturing pattern `(prefix)(capture)(suffix)`.
pub open spec fn meta_pattern_of(p: Seq<char>, c: Seq<char>, s: Seq<char>) -> Seq<char> {
    "("@ + p + ")("@ + c + ")("@ + s + ")"@
}

/// One pattern of the configuration can be compiled against `input`: its
/// automata build, they match `input` exactly once, and, for a capture
/// triple, group 2 yields a UTF-8 slice that occurs exactly once inside
/// the match.
pub open spec fn part_compilable(part: RegexPattern, input: Seq<u8>) -> bool {
    match part {
        RegexPattern::Match { pattern } => match dfa_build_of(pattern@) {
            Some(fb) => single_part_ok(fb.0, fb.1, None, input),
            None => false,
        },
        RegexPattern::Capture { prefix, capture, suffix } => match dfa_build_of(
            prefix@ + capture@ + suffix@,
        ) {
            Some(fb) => match meta_capture_of(
                meta_pattern_of(prefix@, capture@, suffix@),
                input,
                2,
            ) {
                Some(se) => valid_utf8(input.subrange(se.0 as int, se.1 as int))
                    && single_part_ok(
                        fb.0,
                        fb.1,
                        Some(input.subrange(se.0 as int, se.1 as int)),
                        input,
                    ),
                None => false,
            },
            None => false,
        },
    }
}

/// A compiled pattern is what compilation of `part` against `input`
/// produces: the pattern's automata, and for a capture triple the oracle
/// capture taken from group 2.
pub open spec fn compiled_part_spec(part: RegexPattern, input: Seq<u8>, out: CompiledRegex) -> bool {
    match part {
        RegexPattern::Match { pattern } => {
            &&& dfa_build_of(pattern@) == Some((out.verify_re.fwd@, out.verify_re.bwd@))
            &&& out.capture_str is None
            &&& single_part_ok(out.verify_re.fwd@, out.verify_re.bwd@, None, input)
        },
        RegexPattern::Capture { prefix, capture, suffix } => {
            &&& dfa_build_of(prefix@ + capture@ + suffix@)
                == Some((out.verify_re.fwd@, out.verify_re.bwd@))
            &&& match (out.capture_str, meta_capture_of(
                meta_pattern_of(prefix@, capture@, suffix@),
                input,
                2,
            )) {
                (Some(cs), Some(se)) => encode_utf8(cs@)
                    == input.subrange(se.0 as int, se.1 as int),
                _ => false,
            }
            &&& single_part_ok(out.verify_re.fwd@, out.verify_re.bwd@, cr_bview(out).2, input)
        },
    }
}

/// An unusable pattern: it does not build, does not match the input
/// exactly once, or its capture cannot be established.
#[derive(Debug, Clone, Copy, PartialEq, Eq, Structural)]
pub enum CompileError {
    Pattern,
}

/// Compiles a pattern list against the trusted input, failing on the
/// first pattern that is unusable.
pub fn compile_regex_parts(parts: &[RegexPattern], input: &[u8]) -> (r: Result<
    Vec<CompiledRegex>,
    CompileError,
>)
    ensures
        match r {
            Ok(v) => v@.len() == parts@.len()
                && forall|k: int| 0 <= k < v@.len()
                    ==> compiled_part_spec(parts@[k], input@, v@[k]),
            Err(_) => exists|k: int| 0 <= k < parts@.len()
                && !part_compilable(parts@[k], input@),
        },
{
    let n = parts.len();
    let mut out: Vec<CompiledRegex> = Vec::new();
    let mut k: usize = 0;
    while k < n
        invariant
            n == parts@.len(),
            k <= n,
            out@.len() == k,
            forall|j: int| 0 <= j < k ==> compiled_part_spec(parts@[j], input@, out@[j]),
        decreases n - k
    {
        match &parts[k] {
            RegexPattern::Match { pattern } => {
                let fb = match dfa_build(pattern.as_str()) {
                    Some(fb) => fb,
                    None => {
                        proof {
                            assert(!part_compilable(parts@[k as int], input@));
                        }
                        return Err(CompileError::Pattern);
                    },
                };
                let ms = match crate::regex::dfa_find_matches(
                    fb.0.as_slice(),
                    fb.1.as_slice(),
                    input,
                ) {
                    Some(ms) => ms,
                    None => {
                        proof {
                            assert(!part_compilable(parts@[k as int], input@));
                        }
                        return Err(CompileError::Pattern);
                    },
                };
                if ms.len() != 1 {
                    proof {
                        assert(!part_compilable(parts@[k as int], input@));
                    }
                    return Err(CompileError::Pattern);
                }
                out.push(CompiledRegex {
                    verify_re: DFA { fwd: fb.0, bwd: fb.1 },
                    capture_str: None,
                });
                proof {
                    assert(compiled_part_spec(parts@[k as int], input@, out@[k as int]));
                }
            },
            RegexPattern::Capture { prefix, capture, suffix } => {
                let mut pd = String::new();
                pd.append(prefix.as_str());
                pd.append(capture.as_str());
                pd.append(suffix.as_str());
                proof {
                    assert(pd@ =~= prefix@ + capture@ + suffix@);
                }
                let mut pm = String::new();
                pm.append("(");
                pm.append(prefix.as_str());
                pm.append(")(");
                pm.append(capture.as_str());
                pm.append(")(");
                pm.append(suffix.as_str());
                pm.append(")");
                proof {
                    assert(pm@ =~= meta_pattern_of(prefix@, capture@, suffix@));
                }
                let fb = match dfa_build(pd.as_str()) {
                    Some(fb) => fb,
                    None => {
                        proof {
                            assert(!part_compilable(parts@[k as int], input@));
                        }
                        return Err(CompileError::Pattern);
                    },
                };
                let ms = match crate::regex::dfa_find_matches(
                    fb.0.as_slice(),
                    fb.1.as_slice(),
                    input,
                ) {
                    Some(ms) => ms,
                    None => {
                        proof {
                            assert(!part_compilable(parts@[k as int], input@));
                        }
                        return Err(CompileError::Pattern);
                    },
                };
                if ms.len() != 1 {
                    proof {
                        assert(!part_compilable(parts@[k as int], input@));
                    }
                    return Err(CompileError::Pattern);
                }
                let se = match meta_capture(pm.as_str(), input, 2) {
                    Some(se) => se,
                    None => {
                        proof {
                            assert(!part_compilable(parts@[k as int], input@));
                        }
                        return Err(CompileError::Pattern);
                    },
                };
                // the oracle capture, decoded from the trusted input
                let mut capb: Vec<u8> = Vec::new();
                let mut t: usize = se.0;
                proof {
                    assert(capb@ =~= input@.subrange(se.0 as int, se.0 as int));
                }
                while t < se.1
                    invariant
                        se.0 <= t <= se.1,
                        se.1 <= input@.len(),
                        capb@ == input@.subrange(se.0 as int, t as int),
                    decreases se.1 - t
                {
                    capb.push(input[t]);
                    t = t + 1;
                    proof {
                        assert(input@.subrange(se.0 as int, t as int)
                            =~= input@.subrange(se.0 as int, t - 1).push(input@[t - 1]));
                    }
                }
                let cs = match crate::dkim::string_from_utf8(capb) {
                    Some(cs) => cs,
                    None => {
                        proof {
                            assert(!part_compilable(parts@[k as int], input@));
                        }
                        return Err(CompileError::Pattern);
                    },
                };
                // the matched slice must hold the capture exactly once
                proof {
                    assert(ms@[0].0 <= ms@[0].1 && ms@[0].1 <= input@.len());
                }
                let (mstart, mend) = (ms[0].0, ms[0].1);
                let mut matched: Vec<u8> = Vec::new();
                let mut t2: usize = mstart;
                proof {
                    assert(matched@ =~= input@.subrange(mstart as int, mstart as int));
                }
                while t2 < mend
                    invariant
                        mstart <= t2 <= mend,
                        mend <= input@.len(),
                        matched@ == input@.subrange(mstart as int, t2 as int),
                    decreases mend - t2
                {
                    matched.push(input[t2]);
                    t2 = t2 + 1;
                    proof {
                        assert(input@.subrange(mstart as int, t2 as int)
                            =~= input@.subrange(mstart as int, t2 - 1).push(input@[t2 - 1]));
                    }
                }
                let utf8_ok = match crate::dkim::string_from_utf8(matched.clone()) {
                    Some(_) => true,
                    None => false,
                };
                if !utf8_ok {
                    proof {
                        assert(!part_compilable(parts@[k as int], input@));
                    }
                    return Err(CompileError::Pattern);
                }
                let csb = cs.as_str().as_bytes();
                let once = if csb.len() == 0 {
                    matched.len() == 0
                } else {
                    crate::regex::count_occurrences_bytes(matched.as_slice(), csb) == 1
                };
                if !once {
                    proof {
                        assert(!part_compilable(parts@[k as int], input@));
                    }
                    return Err(CompileError::Pattern);
                }
                out.push(CompiledRegex {
                    verify_re: DFA { fwd: fb.0, bwd: fb.1 },
                    capture_str: Some(cs),
                });
                proof {
                    assert(cr_bview(out@.last()).2 == Some(input@.subrange(se.0 as int, se.1 as int)));
                    assert(compiled_part_spec(parts@[k as int], input@, out@[k as int]));
                }
            },
        }
        k = k + 1;
    }
    Ok(out)
}

} // verus!
