//! The two end-to-end verification flows: DKIM-only, and DKIM plus
//! pattern matching over the canonical header and cleaned body.

use vstd::prelude::*;
use vstd::utf8::encode_utf8;
use crate::crypto::sha256_of;
use crate::dkim::dkim_passes;
use crate::email::qp_cleaned_buffer;
use crate::headers::header_region;
use crate::regex::cap_list;
use crate::regex::crs_bview;
use crate::regex::parts_all_pass;
use crate::structs::CompiledRegex;
use crate::structs::Email;
use crate::structs::EmailVerifierOutput;
use crate::structs::EmailWithRegex;
use crate::structs::EmailWithRegexVerifierOutput;
use crate::structs::ExternalInput;

verus! {

/// A failing verification: the DKIM check failed, an external input had
/// no value, no DKIM-Signature header was usable, or a pattern set failed.
#[derive(Debug, Clone, Copy, PartialEq, Eq, Structural)]
pub enum VerifyError {
    Dkim,
    Input,
    Canon,
    Pattern,
}

/// Every external input carries a value.
pub open spec fn inputs_all_some(inputs: Seq<ExternalInput>) -> bool {
    forall|i: int| 0 <= i < inputs.len() ==> (#[trigger] inputs[i]).value is Some
}

/// The external inputs flattened to `[name, value, name, value, ...]`.
pub open spec fn flatten_inputs(inputs: Seq<ExternalInput>, i: int) -> Seq<Seq<char>>
    decreases inputs.len() - i when 0 <= i
{
    if i >= inputs.len() {
        Seq::empty()
    } else {
        match inputs[i].value {
            Some(v) => seq![inputs[i].name@, v@] + flatten_inputs(inputs, i + 1),
            None => flatten_inputs(inputs, i + 1),
        }
    }
}

/// The output record of a successful DKIM-only verification: the hash of
/// the claimed domain, the hash of the key bytes, and the flattened
/// external inputs.
pub open spec fn email_output_matches(email: Email, o: EmailVerifierOutput) -> bool {
    &&& o.from_domain_hash@ == sha256_of(encode_utf8(email.from_domain@))
    &&& o.public_key_hash@ == sha256_of(email.public_key.key@)
    &&& o.external_inputs@.map_values(|s: String| s@) == flatten_inputs(email.external_inputs@, 0)
}

/// Whether the DKIM check of this request passes.
pub open spec fn email_dkim_passes(email: Email) -> bool {
    dkim_passes(
        email.raw_email@,
        encode_utf8(email.from_domain@),
        email.public_key.key@,
        encode_utf8(email.public_key.key_type@),
    )
}

/// The DKIM-only flow: verify the signature for the claimed domain, then
/// emit the domain hash, the key hash and the external inputs.
/// Fails closed: a failing signature is `Err(Dkim)`; a missing external
/// input value is `Err(Input)`.
pub fn verify_email(email: &Email) -> (r: Result<EmailVerifierOutput, VerifyError>)
    ensures
        match r {
            Ok(o) => email_dkim_passes(*email) && inputs_all_some(email.external_inputs@)
                && email_output_matches(*email, o)
                && o.from_domain_hash@.len() == 32 && o.public_key_hash@.len() == 32,
            Err(e) => (e == VerifyError::Dkim && !email_dkim_passes(*email))
                || (e == VerifyError::Input && email_dkim_passes(*email)
                    && !inputs_all_some(email.external_inputs@)),
        },
{
    let verified = crate::dkim::verify_dkim(email);
    if !verified {
        return Err(VerifyError::Dkim);
    }
    let mut flat: Vec<String> = Vec::new();
    let n = email.external_inputs.len();
    let mut i: usize = 0;
    proof {
        assert(flat@.map_values(|s: String| s@) =~= Seq::<Seq<char>>::empty());
    }
    while i < n
        invariant
            n == email.external_inputs@.len(),
            i <= n,
            email_dkim_passes(*email),
            forall|j: int| 0 <= j < i ==> (#[trigger] email.external_inputs@[j]).value is Some,
            flat@.map_values(|s: String| s@) + flatten_inputs(email.external_inputs@, i as int)
                == flatten_inputs(email.external_inputs@, 0),
        decreases n - i
    {
        let inp = &email.external_inputs[i];
        match &inp.value {
            Some(v) => {
                flat.push(inp.name.clone());
                flat.push(v.clone());
                proof {
                    assert(flat@.map_values(|s: String| s@)
                        =~= flat@.drop_last().drop_last().map_values(|s: String| s@)
                            .push(flat@[flat@.len() - 2]@).push(flat@.last()@));
                    assert((flat@.map_values(|s: String| s@))
                        + flatten_inputs(email.external_inputs@, i + 1)
                        =~= flat@.drop_last().drop_last().map_values(|s: String| s@)
                            + (seq![email.external_inputs@[i as int].name@,
                                email.external_inputs@[i as int].value->Some_0@]
                                + flatten_inputs(email.external_inputs@, i + 1)));
                }
            },
            None => {
                proof {
                    assert((email.external_inputs@[i as int]).value is None);
                    assert(!inputs_all_some(email.external_inputs@));
                    assert(email_dkim_passes(*email));
                }
                return Err(VerifyError::Input);
            },
        }
        i = i + 1;
    }
    proof {
        assert(flatten_inputs(email.external_inputs@, n as int) =~= Seq::<Seq<char>>::empty());
        assert(flat@.map_values(|s: String| s@) =~= flatten_inputs(email.external_inputs@, 0));
    }
    let from_domain_hash = crate::crypto::hash_bytes(email.from_domain.as_str().as_bytes());
    let public_key_hash = crate::crypto::hash_bytes(email.public_key.key.as_slice());
    Ok(EmailVerifierOutput { from_domain_hash, public_key_hash, external_inputs: flat })
}

/// The view of an optional pattern list.
pub open spec fn parts_view(p: Option<Vec<CompiledRegex>>) -> Option<Seq<CompiledRegex>> {
    match p {
        Some(ps) => Some(ps@),
        None => None,
    }
}

/// The pattern sets of one region pass over their target and yield its
/// captures; a missing region passes with no captures.
pub open spec fn region_passes(parts: Option<Seq<CompiledRegex>>, target: Seq<u8>) -> bool {
    match parts {
        Some(ps) => parts_all_pass(crs_bview(ps), target, 0),
        None => true,
    }
}

/// The captures of one region, in declaration order.
pub open spec fn region_caps(parts: Option<Seq<CompiledRegex>>) -> Seq<Seq<char>> {
    match parts {
        Some(ps) => cap_list(ps, 0),
        None => Seq::empty(),
    }
}

/// The canonical targets of the pattern flow, when canonicalization
/// succeeds: the signed header block and the cleaned canonical body.
pub open spec fn canon_targets(raw: Seq<u8>) -> Option<(Seq<u8>, Seq<u8>)> {
    let fields = crate::headers::parsed_fields_from(header_region(raw), 0);
    let first = crate::dkim::first_canon_candidate(fields, raw, 0);
    if first >= 0 {
        match crate::dkim::canon_parts_of(fields, fields[first].1, raw) {
            Some(p) => Some((p.0, qp_cleaned_buffer(p.1))),
            None => None,
        }
    } else {
        None
    }
}

/// The DKIM-plus-pattern flow: the DKIM-only flow must succeed, then every
/// header pattern is replayed over the signed header block and every body
/// pattern over the cleaned canonical body.  Header captures come before
/// body captures.  Fails closed: any failing pattern set is
/// `Err(Pattern)`, and no partial matches are exposed.
pub fn verify_email_with_regex(input: &EmailWithRegex) -> (r: Result<
    EmailWithRegexVerifierOutput,
    VerifyError,
>)
    ensures
        match r {
            Ok(o) => {
                &&& email_dkim_passes(input.email)
                &&& inputs_all_some(input.email.external_inputs@)
                &&& email_output_matches(input.email, o.email)
                &&& canon_targets(input.email.raw_email@) matches Some(t)
                    && region_passes(parts_view(input.regex_info.header_parts), t.0)
                    && region_passes(parts_view(input.regex_info.body_parts), t.1)
                &&& o.regex_matches@.map_values(|s: String| s@)
                    == region_caps(parts_view(input.regex_info.header_parts))
                        + region_caps(parts_view(input.regex_info.body_parts))
            },
            Err(e) => (e == VerifyError::Dkim && !email_dkim_passes(input.email))
                || (e == VerifyError::Input && email_dkim_passes(input.email)
                    && !inputs_all_some(input.email.external_inputs@))
                || (e == VerifyError::Canon && email_dkim_passes(input.email)
                    && inputs_all_some(input.email.external_inputs@)
                    && (canon_targets(input.email.raw_email@) is None))
                || (e == VerifyError::Pattern && email_dkim_passes(input.email)
                    && inputs_all_some(input.email.external_inputs@)
                    && (canon_targets(input.email.raw_email@) matches Some(t)
                        && !(region_passes(parts_view(input.regex_info.header_parts), t.0)
                            && region_passes(parts_view(input.regex_info.body_parts), t.1)))),
        },
{
    let email_out = match verify_email(&input.email) {
        Ok(o) => o,
        Err(e) => {
            return Err(e);
        },
    };
    let (canon_header, canon_body, _sig) = match crate::dkim::canonicalize_signed_email(
        input.email.raw_email.as_slice(),
    ) {
        Ok(t) => t,
        Err(_) => {
            return Err(VerifyError::Canon);
        },
    };
    let (cleaned_body, _index_map) = crate::email::remove_quoted_printable_soft_breaks(canon_body);
    let header_matches: Vec<String> = match &input.regex_info.header_parts {
        Some(parts) => {
            let (ok, caps) = crate::regex::process_regex_parts(
                parts.as_slice(),
                canon_header.as_slice(),
            );
            if !ok {
                return Err(VerifyError::Pattern);
            }
            caps
        },
        None => Vec::new(),
    };
    let body_matches: Vec<String> = match &input.regex_info.body_parts {
        Some(parts) => {
            let (ok, caps) = crate::regex::process_regex_parts(
                parts.as_slice(),
                cleaned_body.as_slice(),
            );
            if !ok {
                return Err(VerifyError::Pattern);
            }
            caps
        },
        None => Vec::new(),
    };
    let mut regex_matches = header_matches;
    let ghost hm = regex_matches@;
    let nb = body_matches.len();
    let mut i: usize = 0;
    proof {
        assert(regex_matches@ =~= hm + body_matches@.take(0));
    }
    while i < nb
        invariant
            nb == body_matches@.len(),
            i <= nb,
            regex_matches@ == hm + body_matches@.take(i as int),
        decreases nb - i
    {
        regex_matches.push(body_matches[i].clone());
        i = i + 1;
        proof {
            assert(body_matches@.take(i as int)
                =~= body_matches@.take(i - 1).push(body_matches@[i - 1]));
        }
    }
    proof {
        assert(body_matches@.take(nb as int) =~= body_matches@);
        assert(regex_matches@.map_values(|s: String| s@)
            =~= hm.map_values(|s: String| s@) + body_matches@.map_values(|s: String| s@));
    }
    Ok(EmailWithRegexVerifierOutput { email: email_out, regex_matches })
}

} // verus!
