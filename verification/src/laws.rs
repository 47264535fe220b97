//! The library's laws, stated and proved on their own: determinism of the
//! output record, idempotence and length preservation of quoted-printable
//! cleaning, the single-match rule, hash independence, and capture
//! fidelity between the compiler and the runtime verifier.

use vstd::prelude::*;
use crate::circuits::email_output_matches;
use crate::compile::compiled_part_spec;
use crate::email::qp_cleaned_buffer;
use crate::email::qp_clean_from;
use crate::email::qp_no_soft_break_from;
use crate::email::lemma_qp_clean_len;
use crate::email::lemma_qp_clean_untouched;
use crate::regex::cap_list;
use crate::regex::crs_bview;
use crate::regex::parts_all_pass;
use crate::regex::lemma_parts_all_pass_all;
use crate::structs::CompiledRegex;
use crate::structs::Email;
use crate::structs::EmailVerifierOutput;
use crate::structs::RegexPattern;

verus! {

/// Determinism: for one request, any two output records that the DKIM-only
/// flow can produce are equal, field for field, and their tuple encodings
/// are byte-identical.  With the matched-literal list pinned to `cap_list`
/// by the runtime verifier's contract, the same holds of the pattern
/// flow's output.
pub proof fn lemma_output_deterministic(
    email: Email,
    o1: EmailVerifierOutput,
    o2: EmailVerifierOutput,
)
    requires
        email_output_matches(email, o1),
        email_output_matches(email, o2),
    ensures
        o1.from_domain_hash@ == o2.from_domain_hash@,
        o1.public_key_hash@ == o2.public_key_hash@,
        o1.external_inputs@.map_values(|s: String| s@)
            == o2.external_inputs@.map_values(|s: String| s@),
        crate::io::abi_email_output(
            o1.from_domain_hash@,
            o1.public_key_hash@,
            crate::io::strings_bytes(o1.external_inputs@),
        ) == crate::io::abi_email_output(
            o2.from_domain_hash@,
            o2.public_key_hash@,
            crate::io::strings_bytes(o2.external_inputs@),
        ),
{
    assert(crate::io::strings_bytes(o1.external_inputs@)
        =~= crate::io::strings_bytes(o2.external_inputs@)) by {
        let m1 = o1.external_inputs@.map_values(|s: String| s@);
        let m2 = o2.external_inputs@.map_values(|s: String| s@);
        assert(m1 == m2);
        assert(m1.len() == o1.external_inputs@.len());
        assert(m2.len() == o2.external_inputs@.len());
        assert forall|i: int| 0 <= i < o1.external_inputs@.len()
            implies crate::io::strings_bytes(o1.external_inputs@)[i]
                == crate::io::strings_bytes(o2.external_inputs@)[i] by {
            assert(m1[i] == o1.external_inputs@[i]@);
            assert(m2[i] == o2.external_inputs@[i]@);
            assert(m1[i] == m2[i]);
            assert(crate::io::strings_bytes(o1.external_inputs@)[i]
                == vstd::utf8::encode_utf8(o1.external_inputs@[i]@));
            assert(crate::io::strings_bytes(o2.external_inputs@)[i]
                == vstd::utf8::encode_utf8(o2.external_inputs@[i]@));
        }
    }
}

/// Cleaning idempotence: cleaning an already-cleaned buffer changes
/// nothing, provided the cleaned buffer holds no soft line break.  (A
/// cleaned buffer can still hold one: removing a break can make `=`
/// adjacent to a later CRLF, as in `==\r\n\r\n`, and such inputs are the
/// one exception to this law.)
pub proof fn lemma_cleaning_idempotent(body: Seq<u8>)
    requires
        qp_no_soft_break_from(qp_cleaned_buffer(body), 0),
    ensures
        qp_cleaned_buffer(qp_cleaned_buffer(body)) == qp_cleaned_buffer(body),
{
    let c = qp_cleaned_buffer(body);
    lemma_qp_clean_len(body, 0);
    lemma_cleaning_preserves_length(body);
    lemma_qp_clean_untouched(c, 0);
    assert(c.skip(0) =~= c);
    assert(qp_clean_from(c, 0) == c);
    assert(qp_cleaned_buffer(c) =~= c);
}

/// Length invariant: the cleaned buffer is exactly as long as the
/// original body, zero padding included.
pub proof fn lemma_cleaning_preserves_length(body: Seq<u8>)
    ensures
        qp_cleaned_buffer(body).len() == body.len(),
{
    lemma_qp_clean_len(body, 0);
}

/// The single-match rule: a pattern whose automaton search does not yield
/// exactly one match on its target fails its whole pattern set, so the
/// overall result is failure.  (Restated from the runtime verifier's
/// module so the laws stand together; the runtime's contract turns
/// `!parts_all_pass` into a `(false, [])` result.)
pub proof fn lemma_single_match_invariant(
    parts: Seq<(Seq<u8>, Seq<u8>, Option<Seq<u8>>)>,
    target: Seq<u8>,
    k: int,
)
    requires
        0 <= k < parts.len(),
        match crate::regex::dfa_search(parts[k].0, parts[k].1, target) {
            Some(ms) => ms.len() != 1,
            None => true,
        },
    ensures
        !parts_all_pass(parts, target, 0),
{
    crate::regex::lemma_single_match_required(parts, target, k);
}

/// Hash independence: the domain hash depends only on the domain string
/// and the key hash only on the key bytes; the raw e-mail bodies of the
/// two requests may differ arbitrarily.
pub proof fn lemma_hash_independence(
    e1: Email,
    e2: Email,
    o1: EmailVerifierOutput,
    o2: EmailVerifierOutput,
)
    requires
        email_output_matches(e1, o1),
        email_output_matches(e2, o2),
    ensures
        e1.from_domain@ == e2.from_domain@ ==> o1.from_domain_hash@ == o2.from_domain_hash@,
        e1.public_key.key@ == e2.public_key.key@ ==> o1.public_key_hash@ == o2.public_key_hash@,
{
}

/// Capture fidelity: a pattern set that compiled against an input passes
/// the runtime verifier on that same input, and the captures the runtime
/// re-derives are exactly the oracle captures recorded at compile time
/// (`cap_list` of the compiled set, which the runtime verifier's contract
/// returns on success).
pub proof fn lemma_capture_fidelity(
    parts: Seq<RegexPattern>,
    input: Seq<u8>,
    compiled: Seq<CompiledRegex>,
)
    requires
        compiled.len() == parts.len(),
        forall|k: int| 0 <= k < compiled.len()
            ==> compiled_part_spec(parts[k], input, compiled[k]),
    ensures
        parts_all_pass(crs_bview(compiled), input, 0),
{
    assert forall|j: int| 0 <= j < crs_bview(compiled).len()
        implies crate::regex::single_part_ok(
            crs_bview(compiled)[j].0,
            crs_bview(compiled)[j].1,
            crs_bview(compiled)[j].2,
            input,
        ) by {
        assert(compiled_part_spec(parts[j], input, compiled[j]));
        assert(crs_bview(compiled)[j] == crate::regex::cr_bview(compiled[j]));
        match parts[j] {
            RegexPattern::Match { pattern } => {
                assert(crate::regex::cr_bview(compiled[j]).2 is None);
            },
            RegexPattern::Capture { prefix, capture, suffix } => {},
        }
    }
    lemma_parts_all_pass_all(crs_bview(compiled), input, 0);
}

} // verus!
