//! DKIM verification: tag validation, the canonical parts of a signed
//! e-mail, signature and body-hash checks, and the verdict for a claimed
//! domain and supplied key.

use vstd::prelude::*;
use vstd::utf8::encode_utf8;
use rsa::pkcs1::DecodeRsaPublicKey;
use rsa::pkcs8::DecodePublicKey;
use crate::canon::ascii_lower;
use crate::canon::body_relaxed;
use crate::canon::bytes_eq;
use crate::canon::bytes_eq_ignore_ascii_case;
use crate::crypto::base64_decode_of;
use crate::crypto::base64_of;
use crate::crypto::sha256_of;
use crate::headers::body_region;
use crate::headers::fields_view;
use crate::headers::header_region;
use crate::select::dkim_sig_lower;
use crate::select::headers_hash_input;
use crate::select::names_of_h;
use crate::structs::Email;
use crate::tags::parse_tags_spec;
use crate::tags::tag_lookup;

verus! {

/// The result of RSA PKCS#1 v1.5 SHA-256 signature verification: a
/// function of the DER key bytes (PKCS#1 form, else SPKI form), the digest
/// and the signature; nothing when the key parses in neither form.
pub uninterp spec fn rsa_sha256_verify_of(key_der: Seq<u8>, hashed: Seq<u8>, sig: Seq<u8>) -> Option<bool>;

/// Relies on rsa's RsaPublicKey::verify with Pkcs1v15Sign over SHA-256:
/// the outcome depends on the key bytes, digest and signature alone.
#[verifier::external_body]
fn rsa_sha256_verify(key_der: &[u8], hashed: &[u8], sig: &[u8]) -> (r: Option<bool>)
    ensures
        r == rsa_sha256_verify_of(key_der@, hashed@, sig@),
{
    let key: rsa::RsaPublicKey = rsa::RsaPublicKey::from_pkcs1_der(key_der)
        .map_err(|_| ())
        .or_else(|_| rsa::RsaPublicKey::from_public_key_der(key_der).map_err(|_| ()))
        .ok()?;
    let padding = rsa::Pkcs1v15Sign::new::<sha2::Sha256>();
    Some(key.verify(padding, hashed, sig).is_ok())
}

/// The result of Ed25519 strict verification: a function of the 32-byte
/// key, the message and the 64-byte signature; nothing when the key or the
/// signature has the wrong form.
pub uninterp spec fn ed25519_verify_of(key: Seq<u8>, msg: Seq<u8>, sig: Seq<u8>) -> Option<bool>;

/// Relies on ed25519-dalek's VerifyingKey::verify_strict: the outcome
/// depends on the key bytes, message and signature alone.
#[verifier::external_body]
fn ed25519_verify(key: &[u8], msg: &[u8], sig: &[u8]) -> (r: Option<bool>)
    ensures
        r == ed25519_verify_of(key@, msg@, sig@),
{
    let kb: &[u8; 32] = key.try_into().ok()?;
    let vk = ed25519_dalek::VerifyingKey::from_bytes(kb).ok()?;
    let sb: &[u8; 64] = sig.try_into().ok()?;
    let s = ed25519_dalek::Signature::from_bytes(sb);
    Some(vk.verify_strict(msg, &s).is_ok())
}

/// Relies on String::from_utf8: it succeeds exactly on valid UTF-8 and
/// keeps the bytes.
#[verifier::external_body]
pub(crate) fn string_from_utf8(v: Vec<u8>) -> (r: Option<String>)
    ensures
        match r {
            Some(s) => vstd::utf8::valid_utf8(v@) && encode_utf8(s@) == v@,
            None => !vstd::utf8::valid_utf8(v@),
        },
{
    String::from_utf8(v).ok()
}

/// `a` ends with `b`.
pub open spec fn seq_ends_with(a: Seq<u8>, b: Seq<u8>) -> bool {
    b.len() <= a.len() && a.skip(a.len() - b.len()) == b
}

/// Whether the byte string `a` ends with `b`.
pub fn bytes_ends_with(a: &[u8], b: &[u8]) -> (r: bool)
    ensures
        r == seq_ends_with(a@, b@),
{
    let n = a.len();
    let m = b.len();
    if m > n {
        return false;
    }
    let off = n - m;
    let mut k: usize = 0;
    while k < m
        invariant
            n == a@.len(),
            m == b@.len(),
            off == n - m,
            k <= m,
            forall|j: int| 0 <= j < k ==> a@[off + j] == b@[j],
        decreases m - k
    {
        proof {
            assert(off + k < n);
        }
        if a[off + k] != b[k] {
            proof {
                assert(a@.skip(off as int)[k as int] == a@[off + k]);
            }
            return false;
        }
        k = k + 1;
    }
    proof {
        assert(a@.skip(off as int) =~= b@);
    }
    true
}

/// Drops trailing double quotes.
pub open spec fn trim_end_quotes(s: Seq<u8>) -> Seq<u8>
    decreases s.len()
{
    if s.len() > 0 && s[s.len() - 1] == 34u8 {
        trim_end_quotes(s.take(s.len() - 1))
    } else {
        s
    }
}

/// Drops leading double quotes.
pub open spec fn trim_start_quotes(s: Seq<u8>) -> Seq<u8>
    decreases s.len()
{
    if s.len() > 0 && s[0] == 34u8 {
        trim_start_quotes(s.skip(1))
    } else {
        s
    }
}

/// Drops surrounding double quotes.
pub open spec fn trim_quotes(s: Seq<u8>) -> Seq<u8> {
    trim_start_quotes(trim_end_quotes(s))
}

proof fn lemma_trim_end_quotes_prefix(s: Seq<u8>, e: int)
    requires
        0 <= e <= s.len(),
        forall|j: int| e <= j < s.len() ==> s[j] == 34u8,
        e == 0 || s[e - 1] != 34u8,
    ensures
        trim_end_quotes(s) == s.take(e),
    decreases s.len()
{
    if s.len() > 0 && s[s.len() - 1] == 34u8 {
        assert(e < s.len());
        lemma_trim_end_quotes_prefix(s.take(s.len() - 1), e);
        assert(s.take(s.len() - 1).take(e) =~= s.take(e));
    } else {
        assert(e == s.len());
        assert(s.take(e) =~= s);
    }
}

proof fn lemma_trim_start_quotes_suffix(s: Seq<u8>, a: int)
    requires
        0 <= a <= s.len(),
        forall|j: int| 0 <= j < a ==> s[j] == 34u8,
        a == s.len() || s[a] != 34u8,
    ensures
        trim_start_quotes(s) == s.skip(a),
    decreases a
{
    if a > 0 {
        lemma_trim_start_quotes_suffix(s.skip(1), a - 1);
        assert(s.skip(1).skip(a - 1) =~= s.skip(a));
    } else {
        assert(s.skip(0) =~= s);
    }
}

/// Strips surrounding double quotes from a byte string.
pub fn trim_quotes_bytes(s: &[u8]) -> (r: Vec<u8>)
    ensures
        r@ == trim_quotes(s@),
{
    let n = s.len();
    let mut e: usize = n;
    while e > 0 && s[e - 1] == 34
        invariant
            n == s@.len(),
            e <= n,
            forall|j: int| e <= j < n ==> s@[j] == 34u8,
        decreases e
    {
        e = e - 1;
    }
    proof {
        lemma_trim_end_quotes_prefix(s@, e as int);
    }
    let mut a: usize = 0;
    while a < e && s[a] == 34
        invariant
            n == s@.len(),
            a <= e <= n,
            forall|j: int| 0 <= j < a ==> s@[j] == 34u8,
        decreases e - a
    {
        a = a + 1;
    }
    proof {
        lemma_trim_start_quotes_suffix(s@.take(e as int), a as int);
    }
    let mut out: Vec<u8> = Vec::new();
    let mut i: usize = a;
    proof {
        assert(out@ =~= s@.subrange(a as int, a as int));
    }
    while i < e
        invariant
            n == s@.len(),
            a <= i <= e <= n,
            out@ == s@.subrange(a as int, i as int),
        decreases e - i
    {
        out.push(s[i]);
        i = i + 1;
        proof {
            assert(s@.subrange(a as int, i as int)
                =~= s@.subrange(a as int, i - 1).push(s@[i - 1]));
        }
    }
    proof {
        assert(s@.take(e as int).skip(a as int) =~= s@.subrange(a as int, e as int));
    }
    out
}

/// The `h=` name list contains `from`.
pub open spec fn h_contains_from(h: Seq<u8>) -> bool {
    exists|k: int| 0 <= k < names_of_h(h).len()
        && names_of_h(h)[k] == seq![102u8, 114u8, 111u8, 109u8]
}

/// A DKIM-Signature value is acceptable: the required tags are present,
/// the version is 1, the From header is signed, an `i=` identity ends with
/// the signing domain, and a `q=` method is `dns/txt`.  (An `x=`
/// expiration is not checked: the verifier is a deterministic computation
/// with no clock.)
pub open spec fn validate_dkim_value(value: Seq<u8>) -> bool {
    let tags = parse_tags_spec(value);
    &&& match tag_lookup(tags, seq![118u8]) {
        Some(v) => v.0 == seq![49u8],
        None => false,
    }
    &&& tag_lookup(tags, seq![97u8]) is Some
    &&& tag_lookup(tags, seq![98u8]) is Some
    &&& tag_lookup(tags, seq![98u8, 104u8]) is Some
    &&& tag_lookup(tags, seq![100u8]) is Some
    &&& match tag_lookup(tags, seq![104u8]) {
        Some(h) => h_contains_from(h.0),
        None => false,
    }
    &&& tag_lookup(tags, seq![115u8]) is Some
    &&& match tag_lookup(tags, seq![105u8]) {
        Some(iv) => match tag_lookup(tags, seq![100u8]) {
            Some(dv) => seq_ends_with(iv.0, dv.0),
            None => false,
        },
        None => true,
    }
    &&& match tag_lookup(tags, seq![113u8]) {
        Some(q) => q.0 == seq![100u8, 110u8, 115u8, 47u8, 116u8, 120u8, 116u8],
        None => true,
    }
}

/// Checks a DKIM-Signature header value for acceptability.
pub fn validate_dkim_header(value: &[u8]) -> (r: bool)
    ensures
        r == validate_dkim_value(value@),
{
    let tags = crate::tags::parse_dkim_tag_list(value);
    let vn: Vec<u8> = vec![118u8];
    let an: Vec<u8> = vec![97u8];
    let bn: Vec<u8> = vec![98u8];
    let bhn: Vec<u8> = vec![98u8, 104u8];
    let dn: Vec<u8> = vec![100u8];
    let hn: Vec<u8> = vec![104u8];
    let sn: Vec<u8> = vec![115u8];
    let in_: Vec<u8> = vec![105u8];
    let qn: Vec<u8> = vec![113u8];
    proof {
        assert(vn@ =~= seq![118u8]);
        assert(an@ =~= seq![97u8]);
        assert(bn@ =~= seq![98u8]);
        assert(bhn@ =~= seq![98u8, 104u8]);
        assert(dn@ =~= seq![100u8]);
        assert(hn@ =~= seq![104u8]);
        assert(sn@ =~= seq![115u8]);
        assert(in_@ =~= seq![105u8]);
        assert(qn@ =~= seq![113u8]);
    }
    let one: Vec<u8> = vec![49u8];
    proof {
        assert(one@ =~= seq![49u8]);
    }
    match crate::tags::find_tag(&tags, vn.as_slice()) {
        Some(ix) => {
            if !bytes_eq(tags[ix].value.as_slice(), one.as_slice()) {
                return false;
            }
        },
        None => {
            return false;
        },
    }
    if crate::tags::find_tag(&tags, an.as_slice()).is_none() {
        return false;
    }
    if crate::tags::find_tag(&tags, bn.as_slice()).is_none() {
        return false;
    }
    if crate::tags::find_tag(&tags, bhn.as_slice()).is_none() {
        return false;
    }
    let d_ix = match crate::tags::find_tag(&tags, dn.as_slice()) {
        Some(ix) => ix,
        None => {
            return false;
        },
    };
    let h_ix = match crate::tags::find_tag(&tags, hn.as_slice()) {
        Some(ix) => ix,
        None => {
            return false;
        },
    };
    if crate::tags::find_tag(&tags, sn.as_slice()).is_none() {
        return false;
    }
    // From must be among the signed header names
    let names = crate::select::split_h_names(tags[h_ix].value.as_slice());
    let from: Vec<u8> = vec![102u8, 114u8, 111u8, 109u8];
    proof {
        assert(from@ =~= seq![102u8, 114u8, 111u8, 109u8]);
    }
    let mut has_from: bool = false;
    let nn = names.len();
    let mut k: usize = 0;
    while k < nn
        invariant
            nn == names@.len(),
            k <= nn,
            from@ == seq![102u8, 114u8, 111u8, 109u8],
            names@.map_values(|x: Vec<u8>| x@) == names_of_h(tags@[h_ix as int].value@),
            has_from ==> h_contains_from(tags@[h_ix as int].value@),
            !has_from ==> forall|j: int| 0 <= j < k
                ==> names_of_h(tags@[h_ix as int].value@)[j] != seq![102u8, 114u8, 111u8, 109u8],
        decreases nn - k
    {
        if bytes_eq(names[k].as_slice(), from.as_slice()) {
            has_from = true;
            proof {
                assert(names_of_h(tags@[h_ix as int].value@)[k as int] == names@[k as int]@);
            }
        } else {
            proof {
                assert(names_of_h(tags@[h_ix as int].value@)[k as int] == names@[k as int]@);
            }
        }
        k = k + 1;
    }
    if !has_from {
        return false;
    }
    // an i= identity must end with the signing domain
    match crate::tags::find_tag(&tags, in_.as_slice()) {
        Some(iix) => {
            if !bytes_ends_with(tags[iix].value.as_slice(), tags[d_ix].value.as_slice()) {
                return false;
            }
        },
        None => {},
    }
    // a q= method must be dns/txt
    match crate::tags::find_tag(&tags, qn.as_slice()) {
        Some(qix) => {
            let dnstxt: Vec<u8> = vec![100u8, 110u8, 115u8, 47u8, 116u8, 120u8, 116u8];
            proof {
                assert(dnstxt@ =~= seq![100u8, 110u8, 115u8, 47u8, 116u8, 120u8, 116u8]);
            }
            if !bytes_eq(tags[qix].value.as_slice(), dnstxt.as_slice()) {
                return false;
            }
        },
        None => {},
    }
    true
}

/// Errors of canonicalization: no DKIM-Signature header at all, or none
/// whose value can be used.
#[derive(Debug, Clone, Copy, PartialEq, Eq, Structural)]
pub enum CanonError {
    MissingSignature,
    HeaderParse,
}

/// A header field is a DKIM-Signature header.
pub open spec fn is_dkim_field(fields: Seq<(Seq<u8>, Seq<u8>)>, k: int) -> bool {
    ascii_lower(fields[k].0) == dkim_sig_lower()
}

/// The canonical parts derived from one DKIM-Signature value: the signed
/// header block, the relaxed body, and the decoded signature.  Nothing
/// when the value does not validate, lacks `h=` or `b=`, or the signature
/// is not base64.
pub open spec fn canon_parts_of(
    fields: Seq<(Seq<u8>, Seq<u8>)>,
    value: Seq<u8>,
    raw: Seq<u8>,
) -> Option<(Seq<u8>, Seq<u8>, Seq<u8>)> {
    if !validate_dkim_value(value) {
        None
    } else {
        match headers_hash_input(fields, value) {
            None => None,
            Some(hi) => match tag_lookup(parse_tags_spec(value), seq![98u8]) {
                None => None,
                Some(bv) => match base64_decode_of(bv.0) {
                    None => None,
                    Some(sig) => Some((hi, body_relaxed(body_region(raw)), sig)),
                },
            },
        }
    }
}

/// The first DKIM-Signature field at or after `k` whose value yields
/// canonical parts, or -1.
pub open spec fn first_canon_candidate(
    fields: Seq<(Seq<u8>, Seq<u8>)>,
    raw: Seq<u8>,
    k: int,
) -> int
    decreases fields.len() - k when 0 <= k
{
    if k >= fields.len() {
        -1
    } else if is_dkim_field(fields, k) && canon_parts_of(fields, fields[k].1, raw) is Some {
        k
    } else {
        first_canon_candidate(fields, raw, k + 1)
    }
}

/// Canonicalizes a signed e-mail: the signed header block, the relaxed
/// canonical body, and the signature bytes of the first usable
/// DKIM-Signature header.  `MissingSignature` when no DKIM-Signature
/// header exists; `HeaderParse` when none of them is usable.
pub fn canonicalize_signed_email(raw: &[u8]) -> (r: Result<(Vec<u8>, Vec<u8>, Vec<u8>), CanonError>)
    ensures
        ({
            let fields = crate::headers::parsed_fields_from(header_region(raw@), 0);
            let first = first_canon_candidate(fields, raw@, 0);
            match r {
                Ok(t) => first >= 0
                    && canon_parts_of(fields, fields[first].1, raw@) == Some((t.0@, t.1@, t.2@)),
                Err(e) => first == -1
                    && (e == CanonError::MissingSignature
                        <==> (forall|k: int| 0 <= k < fields.len() ==> !is_dkim_field(fields, k))),
            }
        }),
{
    let (hreg, breg) = crate::headers::split_header_body(raw);
    let fields = crate::headers::parse_header_fields(hreg.as_slice());
    let ghost fv = fields_view(fields@);
    let dkim_name = crate::select::dkim_sig_lower_bytes();
    let nf = fields.len();
    let mut k: usize = 0;
    let mut seen_any: bool = false;
    while k < nf
        invariant
            nf == fields@.len(),
            fv == fields_view(fields@),
            fv == crate::headers::parsed_fields_from(header_region(raw@), 0),
            breg@ == body_region(raw@),
            dkim_name@ == dkim_sig_lower(),
            k <= nf,
            first_canon_candidate(fv, raw@, 0) == first_canon_candidate(fv, raw@, k as int),
            seen_any <==> exists|j: int| 0 <= j < k && is_dkim_field(fv, j),
        decreases nf - k
    {
        if bytes_eq_ignore_ascii_case(fields[k].name.as_slice(), dkim_name.as_slice()) {
            proof {
                assert(ascii_lower(dkim_sig_lower()) =~= dkim_sig_lower());
                assert(is_dkim_field(fv, k as int));
            }
            seen_any = true;
            let value = &fields[k].value;
            if validate_dkim_header(value.as_slice()) {
                match crate::select::build_headers_hash_input(&fields, value.as_slice()) {
                    Some(hi) => {
                        let bn: Vec<u8> = vec![98u8];
                        proof {
                            assert(bn@ =~= seq![98u8]);
                        }
                        let tags = crate::tags::parse_dkim_tag_list(value.as_slice());
                        match crate::tags::find_tag(&tags, bn.as_slice()) {
                            Some(bix) => {
                                match crate::crypto::base64_decode_bytes(tags[bix].value.as_slice()) {
                                    Some(sig) => {
                                        let body = crate::canon::canonicalize_body_relaxed(breg.as_slice());
                                        proof {
                                            assert(canon_parts_of(fv, fv[k as int].1, raw@)
                                                == Some((hi@, body@, sig@)));
                                        }
                                        return Ok((hi, body, sig));
                                    },
                                    None => {
                                        proof {
                                            assert(canon_parts_of(fv, fv[k as int].1, raw@) is None);
                                        }
                                    },
                                }
                            },
                            None => {
                                proof {
                                    assert(canon_parts_of(fv, fv[k as int].1, raw@) is None);
                                }
                            },
                        }
                    },
                    None => {
                        proof {
                            assert(canon_parts_of(fv, fv[k as int].1, raw@) is None);
                        }
                    },
                }
            } else {
                proof {
                    assert(canon_parts_of(fv, fv[k as int].1, raw@) is None);
                }
            }
        } else {
            proof {
                assert(ascii_lower(dkim_sig_lower()) =~= dkim_sig_lower());
                assert(fv[k as int].0 == fields@[k as int].name@);
                assert(!is_dkim_field(fv, k as int));
            }
        }
        k = k + 1;
    }
    proof {
        assert(first_canon_candidate(fv, raw@, nf as int) == -1);
    }
    if seen_any {
        Err(CanonError::HeaderParse)
    } else {
        Err(CanonError::MissingSignature)
    }
}

/// All-ASCII byte strings are valid UTF-8.
pub proof fn lemma_ascii_valid_utf8(s: Seq<u8>)
    requires
        forall|i: int| 0 <= i < s.len() ==> s[i] < 128,
    ensures
        vstd::utf8::valid_utf8(s),
{
    assert(s.subrange(0, 0) =~= Seq::<u8>::empty());
    assert(vstd::utf8::partial_valid_utf8(s, 0));
    assert forall|i: int| 0 <= 0 <= i < s.len() <= s.len()
        implies #[trigger] vstd::utf8::is_leading_byte_width_1(s[i]) by {
        assert(s[i] < 128);
    }
    vstd::utf8::partial_valid_utf8_extend_ascii_block(s, 0, s.len() as int);
    assert(s.subrange(0, s.len() as int) =~= s);
}

/// Malformed key material: the bytes parse as no supported key.
#[derive(Debug, Clone, Copy, PartialEq, Eq, Structural)]
pub enum KeyError {
    Malformed,
}

/// Verifies an RSA-SHA256 signature over the canonical header bytes, with
/// the public key given as DER bytes (PKCS#1 form, else SPKI form).
/// `Ok(false)` is a cryptographic mismatch; `Err` means the key bytes are
/// malformed.
pub fn verify_signature(header: &[u8], signature: &[u8], public_key_der: &[u8]) -> (r: Result<
    bool,
    KeyError,
>)
    ensures
        match r {
            Ok(b) => rsa_sha256_verify_of(public_key_der@, sha256_of(header@), signature@)
                == Some(b),
            Err(_) => rsa_sha256_verify_of(public_key_der@, sha256_of(header@), signature@)
                is None,
        },
{
    let hash = crate::crypto::hash_bytes(header);
    match rsa_sha256_verify(public_key_der, hash.as_slice(), signature) {
        Some(b) => Ok(b),
        None => Err(KeyError::Malformed),
    }
}

/// Checks the body hash: SHA-256 of the canonical body, base64-encoded,
/// compared byte for byte against the `bh=` value.
pub fn verify_body(body: &[u8], body_hash: &str) -> (r: bool)
    ensures
        r == (base64_of(sha256_of(body@)) == encode_utf8(body_hash@)),
{
    let hash = crate::crypto::hash_bytes(body);
    let encoded = crate::crypto::base64_encode_bytes(hash.as_slice());
    bytes_eq(encoded.as_slice(), body_hash.as_bytes())
}

/// A base64-alphabet byte (including the `=` pad).
pub open spec fn is_b64_char(b: u8) -> bool {
    (65 <= b && b <= 90) || (97 <= b && b <= 122) || (48 <= b && b <= 57)
        || b == 43u8 || b == 47u8 || b == 61u8
}

/// A byte that may close the `bh=` run: `;` or whitespace.
pub open spec fn is_bh_end(b: u8) -> bool {
    b == 59u8 || b == 32u8 || b == 9u8 || b == 10u8 || b == 11u8 || b == 12u8 || b == 13u8
}

fn is_b64_byte(b: u8) -> (r: bool)
    ensures
        r == is_b64_char(b),
{
    (65 <= b && b <= 90) || (97 <= b && b <= 122) || (48 <= b && b <= 57)
        || b == 43 || b == 47 || b == 61
}

/// The length of the base64 run starting at `j`.
pub open spec fn b64_run_len(h: Seq<u8>, j: int) -> int
    decreases h.len() - j when 0 <= j
{
    if j >= h.len() {
        0
    } else if is_b64_char(h[j]) {
        1 + b64_run_len(h, j + 1)
    } else {
        0
    }
}

pub proof fn lemma_b64_run_len_bounds(h: Seq<u8>, j: int)
    requires
        0 <= j <= h.len(),
    ensures
        0 <= b64_run_len(h, j) <= h.len() - j,
    decreases h.len() - j
{
    if j < h.len() && is_b64_char(h[j]) {
        lemma_b64_run_len_bounds(h, j + 1);
    }
}

/// `bh=` followed by a non-empty base64 run and a closing byte starts at
/// `i`.
pub open spec fn bh_match_at(h: Seq<u8>, i: int) -> bool {
    &&& 0 <= i
    &&& i + 3 <= h.len()
    &&& h[i] == 98u8
    &&& h[i + 1] == 104u8
    &&& h[i + 2] == 61u8
    &&& b64_run_len(h, i + 3) >= 1
    &&& i + 3 + b64_run_len(h, i + 3) < h.len()
    &&& is_bh_end(h[i + 3 + b64_run_len(h, i + 3)])
}

/// The first position where the `bh=` pattern matches, or -1.
pub open spec fn first_bh_from(h: Seq<u8>, i: int) -> int
    decreases h.len() - i when 0 <= i
{
    if i >= h.len() {
        -1
    } else if bh_match_at(h, i) {
        i
    } else {
        first_bh_from(h, i + 1)
    }
}

/// The captured body-hash bytes of the first `bh=` match.
pub open spec fn bh_capture(h: Seq<u8>) -> Seq<u8> {
    let p = first_bh_from(h, 0);
    h.subrange(p + 3, p + 3 + b64_run_len(h, p + 3))
}

/// Extracts the `bh=` value from a header block that decodes as UTF-8:
/// the leftmost `bh=` followed by one or more base64 bytes and a `;` or
/// ASCII whitespace.  The captured run is returned as a string; a header
/// that is not UTF-8 is rejected outright.
pub fn extract_body_hash_from_header_regex(header: &[u8]) -> (r: Option<String>)
    ensures
        match r {
            Some(s) => vstd::utf8::valid_utf8(header@) && first_bh_from(header@, 0) >= 0
                && encode_utf8(s@) == bh_capture(header@),
            None => !vstd::utf8::valid_utf8(header@) || first_bh_from(header@, 0) == -1,
        },
{
    let n = header.len();
    // the whole header must decode as UTF-8
    let mut copy: Vec<u8> = Vec::new();
    let mut c: usize = 0;
    proof {
        assert(copy@ =~= header@.take(0));
    }
    while c < n
        invariant
            n == header@.len(),
            c <= n,
            copy@ == header@.take(c as int),
        decreases n - c
    {
        copy.push(header[c]);
        c = c + 1;
        proof {
            assert(header@.take(c as int) =~= header@.take(c - 1).push(header@[c - 1]));
        }
    }
    proof {
        assert(header@.take(n as int) =~= header@);
    }
    let utf8_ok = match string_from_utf8(copy) {
        Some(_) => true,
        None => false,
    };
    if !utf8_ok {
        return None;
    }
    let mut i: usize = 0;
    while i < n
        invariant
            n == header@.len(),
            vstd::utf8::valid_utf8(header@),
            i <= n,
            first_bh_from(header@, 0) == first_bh_from(header@, i as int),
        decreases n - i
    {
        if header[i] == 98 && n - i >= 3 && header[i + 1] == 104 && header[i + 2] == 61 {
            // count the base64 run
            let mut j: usize = i + 3;
            while j < n && is_b64_byte(header[j])
                invariant
                    n == header@.len(),
                    i + 3 <= j <= n,
                    b64_run_len(header@, i + 3) == (j - (i + 3)) + b64_run_len(header@, j as int),
                    forall|q: int| i + 3 <= q < j ==> is_b64_char(header@[q]),
                decreases n - j
            {
                j = j + 1;
            }
            proof {
                assert(b64_run_len(header@, j as int) == 0);
                assert(b64_run_len(header@, i + 3) == j - (i + 3));
            }
            let run = j - (i + 3);
            let term_ok = if j < n {
                let b = header[j];
                b == 59 || b == 32 || b == 9 || b == 10 || b == 11 || b == 12 || b == 13
            } else {
                false
            };
            if run >= 1 && term_ok {
                proof {
                    assert(bh_match_at(header@, i as int));
                    assert(first_bh_from(header@, i as int) == i as int);
                }
                let mut cap: Vec<u8> = Vec::new();
                let mut t: usize = i + 3;
                proof {
                    assert(cap@ =~= header@.subrange(i + 3, i + 3));
                }
                while t < j
                    invariant
                        n == header@.len(),
                        i + 3 <= t <= j <= n,
                        cap@ == header@.subrange(i + 3, t as int),
                    decreases j - t
                {
                    cap.push(header[t]);
                    t = t + 1;
                    proof {
                        assert(header@.subrange(i + 3, t as int)
                            =~= header@.subrange(i + 3, t - 1).push(header@[t - 1]));
                    }
                }
                proof {
                    assert(cap@ =~= bh_capture(header@));
                    assert forall|q: int| 0 <= q < cap@.len() implies cap@[q] < 128 by {
                        assert(cap@[q] == header@[i + 3 + q]);
                        assert(is_b64_char(header@[i + 3 + q]));
                    }
                    lemma_ascii_valid_utf8(cap@);
                }
                match string_from_utf8(cap) {
                    Some(s) => {
                        return Some(s);
                    },
                    None => {
                        proof {
                            assert(false);
                        }
                    },
                }
            } else {
                proof {
                    assert(!bh_match_at(header@, i as int));
                }
            }
        } else {
            proof {
                assert(!bh_match_at(header@, i as int));
            }
        }
        i = i + 1;
    }
    proof {
        assert(first_bh_from(header@, n as int) == -1);
    }
    None
}

/// Drops every repetition of `pat` from the front of `s[i..]`.
pub open spec fn trim_prefix_all_from(s: Seq<u8>, pat: Seq<u8>, i: int) -> Seq<u8>
    decreases s.len() - i when 0 <= i && 1 <= pat.len()
{
    if i + pat.len() <= s.len() && s.subrange(i, i + pat.len() as int) == pat {
        trim_prefix_all_from(s, pat, i + pat.len() as int)
    } else {
        s.skip(i)
    }
}

/// Drops trailing `;` and space bytes.
pub open spec fn trim_end_semisp(s: Seq<u8>) -> Seq<u8>
    decreases s.len()
{
    if s.len() > 0 && (s[s.len() - 1] == 59u8 || s[s.len() - 1] == 32u8) {
        trim_end_semisp(s.take(s.len() - 1))
    } else {
        s
    }
}

proof fn lemma_trim_end_semisp_prefix(s: Seq<u8>, e: int)
    requires
        0 <= e <= s.len(),
        forall|j: int| e <= j < s.len() ==> s[j] == 59u8 || s[j] == 32u8,
        e == 0 || !(s[e - 1] == 59u8 || s[e - 1] == 32u8),
    ensures
        trim_end_semisp(s) == s.take(e),
    decreases s.len()
{
    if s.len() > 0 && (s[s.len() - 1] == 59u8 || s[s.len() - 1] == 32u8) {
        assert(e < s.len());
        lemma_trim_end_semisp_prefix(s.take(s.len() - 1), e);
        assert(s.take(s.len() - 1).take(e) =~= s.take(e));
    } else {
        assert(e == s.len());
        assert(s.take(e) =~= s);
    }
}

/// What the `bh=` extraction by automaton yields: the first match of the
/// precompiled automata over the header block, with every leading `bh=`
/// and the trailing `;` and spaces removed.
pub open spec fn dfa_bh_extract(fwd: Seq<u8>, bwd: Seq<u8>, hay: Seq<u8>) -> Option<Seq<u8>> {
    match crate::regex::dfa_search(fwd, bwd, hay) {
        None => None,
        Some(ms) => if ms.len() == 0 {
            None
        } else {
            Some(trim_end_semisp(trim_prefix_all_from(
                hay.subrange(ms[0].0 as int, ms[0].1 as int),
                seq![98u8, 104u8, 61u8],
                0,
            )))
        },
    }
}

/// Extracts the body hash from the header block by replaying a
/// precompiled `bh=` automaton pair: the first match, with the `bh=`
/// marker and trailing `;` or spaces removed.  Nothing when the automata
/// are rejected, nothing matches, or the result is not UTF-8.
pub fn extract_body_hash_from_header_dfa(header: &[u8], dfa_fwd: &[u8], dfa_rev: &[u8]) -> (r:
    Option<String>)
    ensures
        match r {
            Some(s) => dfa_bh_extract(dfa_fwd@, dfa_rev@, header@) == Some(encode_utf8(s@)),
            None => match dfa_bh_extract(dfa_fwd@, dfa_rev@, header@) {
                None => true,
                Some(b) => !vstd::utf8::valid_utf8(b),
            },
        },
{
    let ms = match crate::regex::dfa_find_matches(dfa_fwd, dfa_rev, header) {
        Some(ms) => ms,
        None => {
            return None;
        },
    };
    if ms.len() == 0 {
        return None;
    }
    proof {
        assert(ms@[0].0 <= ms@[0].1 && ms@[0].1 <= header@.len());
    }
    let (start, end) = (ms[0].0, ms[0].1);
    let mut matched: Vec<u8> = Vec::new();
    let mut t: usize = start;
    proof {
        assert(matched@ =~= header@.subrange(start as int, start as int));
    }
    while t < end
        invariant
            start <= t <= end,
            end <= header@.len(),
            matched@ == header@.subrange(start as int, t as int),
        decreases end - t
    {
        matched.push(header[t]);
        t = t + 1;
        proof {
            assert(header@.subrange(start as int, t as int)
                =~= header@.subrange(start as int, t - 1).push(header@[t - 1]));
        }
    }
    let ghost mseq = header@.subrange(start as int, end as int);
    // drop every leading bh= marker
    let mn = matched.len();
    let mut a: usize = 0;
    proof {
        assert(trim_prefix_all_from(mseq, seq![98u8, 104u8, 61u8], 0)
            == trim_prefix_all_from(mseq, seq![98u8, 104u8, 61u8], 0));
    }
    while mn - a >= 3 && matched[a] == 98 && matched[a + 1] == 104 && matched[a + 2] == 61
        invariant
            mn == matched@.len(),
            matched@ == mseq,
            a <= mn,
            trim_prefix_all_from(mseq, seq![98u8, 104u8, 61u8], 0)
                == trim_prefix_all_from(mseq, seq![98u8, 104u8, 61u8], a as int),
        decreases mn - a
    {
        proof {
            assert(mseq.subrange(a as int, a + 3) =~= seq![98u8, 104u8, 61u8]);
        }
        a = a + 3;
    }
    proof {
        if mn - a >= 3 {
            assert(mseq.subrange(a as int, a + 3) != seq![98u8, 104u8, 61u8]) by {
                if mseq.subrange(a as int, a + 3) == seq![98u8, 104u8, 61u8] {
                    assert(mseq.subrange(a as int, a + 3)[0] == 98u8);
                    assert(mseq.subrange(a as int, a + 3)[1] == 104u8);
                    assert(mseq.subrange(a as int, a + 3)[2] == 61u8);
                }
            }
        }
        assert(trim_prefix_all_from(mseq, seq![98u8, 104u8, 61u8], a as int) == mseq.skip(a as int));
    }
    // drop trailing ';' and spaces
    let mut e: usize = mn;
    while e > a && (matched[e - 1] == 59 || matched[e - 1] == 32)
        invariant
            mn == matched@.len(),
            matched@ == mseq,
            a <= e <= mn,
            forall|j: int| e <= j < mn ==> mseq[j] == 59u8 || mseq[j] == 32u8,
        decreases e
    {
        e = e - 1;
    }
    proof {
        lemma_trim_end_semisp_prefix(mseq.skip(a as int), e - a);
        assert(mseq.skip(a as int).take(e - a) =~= mseq.subrange(a as int, e as int));
    }
    let mut outb: Vec<u8> = Vec::new();
    let mut q: usize = a;
    proof {
        assert(outb@ =~= mseq.subrange(a as int, a as int));
    }
    while q < e
        invariant
            mn == matched@.len(),
            matched@ == mseq,
            a <= q <= e <= mn,
            outb@ == mseq.subrange(a as int, q as int),
        decreases e - q
    {
        outb.push(matched[q]);
        q = q + 1;
        proof {
            assert(mseq.subrange(a as int, q as int)
                =~= mseq.subrange(a as int, q - 1).push(mseq[q - 1]));
        }
    }
    string_from_utf8(outb)
}

/// `rsa`, as bytes.
pub open spec fn rsa_seq() -> Seq<u8> {
    seq![114u8, 115u8, 97u8]
}

/// `ed25519`, as bytes.
pub open spec fn ed25519_seq() -> Seq<u8> {
    seq![101u8, 100u8, 50u8, 53u8, 53u8, 49u8, 57u8]
}

/// `rsa-sha256`, as bytes.
pub open spec fn rsa_sha256_seq() -> Seq<u8> {
    seq![114u8, 115u8, 97u8, 45u8, 115u8, 104u8, 97u8, 50u8, 53u8, 54u8]
}

/// `ed25519-sha256`, as bytes.
pub open spec fn ed25519_sha256_seq() -> Seq<u8> {
    seq![101u8, 100u8, 50u8, 53u8, 53u8, 49u8, 57u8, 45u8, 115u8, 104u8, 97u8, 50u8, 53u8, 54u8]
}

/// The `a=` algorithm agrees with the supplied key type: `rsa-sha256` for
/// an `rsa` key, `ed25519-sha256` for an `ed25519` key.  Any other
/// declared algorithm is a hard failure.
pub open spec fn algo_key_match(tags: Seq<(Seq<u8>, Seq<u8>, Seq<u8>)>, key_type: Seq<u8>) -> bool {
    match tag_lookup(tags, seq![97u8]) {
        Some(av) => (av.0 == rsa_sha256_seq() && key_type == rsa_seq())
            || (av.0 == ed25519_sha256_seq() && key_type == ed25519_seq()),
        None => false,
    }
}

/// The cryptographic check for the selected key type succeeds.
pub open spec fn crypto_ok(key_type: Seq<u8>, key: Seq<u8>, hashed: Seq<u8>, sig: Seq<u8>) -> bool {
    if key_type == rsa_seq() {
        rsa_sha256_verify_of(key, hashed, sig) == Some(true)
    } else {
        ed25519_verify_of(key, hashed, sig) == Some(true)
    }
}

/// One DKIM-Signature header verifies for the claimed domain and key:
/// it is acceptable, its `d=` matches the domain, its algorithm matches
/// the key type, the body hash matches, and the signature verifies over
/// the signed header block.
pub open spec fn candidate_passes(
    fields: Seq<(Seq<u8>, Seq<u8>)>,
    k: int,
    raw: Seq<u8>,
    domain: Seq<u8>,
    key: Seq<u8>,
    key_type: Seq<u8>,
) -> bool {
    let value = fields[k].1;
    let tags = parse_tags_spec(value);
    &&& is_dkim_field(fields, k)
    &&& validate_dkim_value(value)
    &&& match tag_lookup(tags, seq![100u8]) {
        Some(dv) => ascii_lower(dv.0) == ascii_lower(domain),
        None => false,
    }
    &&& algo_key_match(tags, key_type)
    &&& match tag_lookup(tags, seq![98u8, 104u8]) {
        Some(bh) => base64_of(sha256_of(body_relaxed(body_region(raw)))) == trim_quotes(bh.0),
        None => false,
    }
    &&& match canon_parts_of(fields, value, raw) {
        Some(p) => crypto_ok(key_type, key, sha256_of(p.0), p.2),
        None => false,
    }
}

/// Some DKIM-Signature header of the e-mail verifies for the claimed
/// domain with the supplied key.
pub open spec fn dkim_passes(raw: Seq<u8>, domain: Seq<u8>, key: Seq<u8>, key_type: Seq<u8>) -> bool {
    let fields = crate::headers::parsed_fields_from(header_region(raw), 0);
    exists|k: int| 0 <= k < fields.len()
        && candidate_passes(fields, k, raw, domain, key, key_type)
}

/// The text value of the first DKIM-Signature header that mail_parser
/// finds in a message: a function of the message bytes alone.
pub uninterp spec fn dkim_header_text_of(eml: Seq<u8>) -> Option<Seq<char>>;

/// Relies on mail_parser's MessageParser: parsing and header lookup are
/// functions of the message bytes alone.
#[verifier::external_body]
fn find_dkim_header_text(eml: &[u8]) -> (r: Option<String>)
    ensures
        match r {
            Some(s) => dkim_header_text_of(eml@) == Some(s@),
            None => dkim_header_text_of(eml@) is None,
        },
{
    let message = mail_parser::MessageParser::default().parse(eml)?;
    let header = message.headers().iter().find(|h| h.name().eq("DKIM-Signature"))?;
    let text = header.value().as_text()?;
    Some(text.to_string())
}

/// Extracts the tag map of the first DKIM-Signature header of an e-mail:
/// each `name=value` field of the header value, names and values trimmed.
/// Nothing when the e-mail does not parse or carries no such header.
pub fn extract_dkim_fields(eml_content: &[u8]) -> (r: Option<Vec<crate::tags::DkimTag>>)
    ensures
        match r {
            Some(tags) => dkim_header_text_of(eml_content@) matches Some(t)
                && crate::tags::tags_view(tags@) == parse_tags_spec(encode_utf8(t)),
            None => dkim_header_text_of(eml_content@) is None,
        },
{
    match find_dkim_header_text(eml_content) {
        Some(text) => Some(crate::tags::parse_dkim_tag_list(text.as_str().as_bytes())),
        None => None,
    }
}

/// The selectors of the usable signature candidates for a claimed domain,
/// in header order: every acceptable DKIM-Signature header whose `d=`
/// matches the domain and that names a selector.
pub open spec fn candidate_selectors(
    fields: Seq<(Seq<u8>, Seq<u8>)>,
    domain: Seq<u8>,
    i: int,
) -> Seq<Seq<u8>>
    decreases fields.len() - i when 0 <= i
{
    if i >= fields.len() {
        Seq::empty()
    } else {
        let tags = parse_tags_spec(fields[i].1);
        let here = if is_dkim_field(fields, i) && validate_dkim_value(fields[i].1)
            && (match tag_lookup(tags, seq![100u8]) {
                Some(dv) => ascii_lower(dv.0) == ascii_lower(domain),
                None => false,
            }) {
            match tag_lookup(tags, seq![115u8]) {
                Some(sv) => seq![sv.0],
                None => Seq::<Seq<u8>>::empty(),
            }
        } else {
            Seq::<Seq<u8>>::empty()
        };
        here + candidate_selectors(fields, domain, i + 1)
    }
}

/// Lists the selectors of the signature candidates for a claimed domain,
/// in the order the orchestrator retries them: the key of each is fetched
/// and tried until one verifies.
pub fn dkim_candidate_selectors(raw: &[u8], from_domain: &[u8]) -> (r: Vec<Vec<u8>>)
    ensures
        r@.map_values(|x: Vec<u8>| x@) == candidate_selectors(
            crate::headers::parsed_fields_from(header_region(raw@), 0),
            from_domain@,
            0,
        ),
{
    let (hreg, _breg) = crate::headers::split_header_body(raw);
    let fields = crate::headers::parse_header_fields(hreg.as_slice());
    let ghost fv = fields_view(fields@);
    let dkim_name = crate::select::dkim_sig_lower_bytes();
    let dn: Vec<u8> = vec![100u8];
    let sn: Vec<u8> = vec![115u8];
    proof {
        assert(dn@ =~= seq![100u8]);
        assert(sn@ =~= seq![115u8]);
    }
    let mut out: Vec<Vec<u8>> = Vec::new();
    let nf = fields.len();
    let mut k: usize = 0;
    proof {
        assert(out@.map_values(|x: Vec<u8>| x@) =~= Seq::<Seq<u8>>::empty());
    }
    while k < nf
        invariant
            nf == fields@.len(),
            fv == fields_view(fields@),
            fv == crate::headers::parsed_fields_from(header_region(raw@), 0),
            dkim_name@ == dkim_sig_lower(),
            dn@ == seq![100u8],
            sn@ == seq![115u8],
            k <= nf,
            candidate_selectors(fv, from_domain@, 0)
                == out@.map_values(|x: Vec<u8>| x@) + candidate_selectors(fv, from_domain@, k as int),
        decreases nf - k
    {
        proof {
            assert(fv[k as int] == (fields@[k as int].name@, fields@[k as int].value@));
            assert(ascii_lower(dkim_sig_lower()) =~= dkim_sig_lower());
        }
        let mut taken: bool = false;
        if bytes_eq_ignore_ascii_case(fields[k].name.as_slice(), dkim_name.as_slice()) {
            if validate_dkim_header(fields[k].value.as_slice()) {
                let tags = crate::tags::parse_dkim_tag_list(fields[k].value.as_slice());
                match crate::tags::find_tag(&tags, dn.as_slice()) {
                    Some(dix) => {
                        if bytes_eq_ignore_ascii_case(tags[dix].value.as_slice(), from_domain) {
                            match crate::tags::find_tag(&tags, sn.as_slice()) {
                                Some(six) => {
                                    out.push(tags[six].value.clone());
                                    taken = true;
                                    proof {
                                        assert(out@.map_values(|x: Vec<u8>| x@)
                                            =~= out@.drop_last().map_values(|x: Vec<u8>| x@)
                                                .push(out@.last()@));
                                        assert(candidate_selectors(fv, from_domain@, k as int)
                                            =~= seq![out@.last()@]
                                                + candidate_selectors(fv, from_domain@, k + 1));
                                        assert(candidate_selectors(fv, from_domain@, 0)
                                            =~= out@.map_values(|x: Vec<u8>| x@)
                                                + candidate_selectors(fv, from_domain@, k + 1));
                                    }
                                },
                                None => {},
                            }
                        }
                    },
                    None => {},
                }
            }
        }
        if !taken {
            proof {
                assert(candidate_selectors(fv, from_domain@, k as int)
                    =~= candidate_selectors(fv, from_domain@, k + 1));
                assert(candidate_selectors(fv, from_domain@, 0)
                    =~= out@.map_values(|x: Vec<u8>| x@)
                        + candidate_selectors(fv, from_domain@, k + 1));
            }
        }
        k = k + 1;
    }
    proof {
        assert(candidate_selectors(fv, from_domain@, nf as int) =~= Seq::<Seq<u8>>::empty());
        assert(out@.map_values(|x: Vec<u8>| x@)
            =~= out@.map_values(|x: Vec<u8>| x@) + Seq::<Seq<u8>>::empty());
    }
    out
}

fn check_candidate(
    fields: &Vec<crate::headers::HeaderField>,
    k: usize,
    bh_b64: &[u8],
    domain: &[u8],
    key: &[u8],
    key_type: &[u8],
    Ghost(raw): Ghost<Seq<u8>>,
) -> (r: bool)
    requires
        k < fields@.len(),
        bh_b64@ == base64_of(sha256_of(body_relaxed(body_region(raw)))),
    ensures
        r == candidate_passes(fields_view(fields@), k as int, raw, domain@, key@, key_type@),
{
    let ghost fv = fields_view(fields@);
    proof {
        assert(fv[k as int] == (fields@[k as int].name@, fields@[k as int].value@));
    }
    let dkim_name = crate::select::dkim_sig_lower_bytes();
    if !bytes_eq_ignore_ascii_case(fields[k].name.as_slice(), dkim_name.as_slice()) {
        proof {
            assert(ascii_lower(dkim_sig_lower()) =~= dkim_sig_lower());
        }
        return false;
    }
    proof {
        assert(ascii_lower(dkim_sig_lower()) =~= dkim_sig_lower());
        assert(is_dkim_field(fv, k as int));
    }
    let value = &fields[k].value;
    if !validate_dkim_header(value.as_slice()) {
        return false;
    }
    let tags = crate::tags::parse_dkim_tag_list(value.as_slice());
    // d= must match the claimed domain, ASCII case-insensitively
    let dn: Vec<u8> = vec![100u8];
    proof {
        assert(dn@ =~= seq![100u8]);
    }
    match crate::tags::find_tag(&tags, dn.as_slice()) {
        Some(dix) => {
            if !bytes_eq_ignore_ascii_case(tags[dix].value.as_slice(), domain) {
                return false;
            }
        },
        None => {
            return false;
        },
    }
    // the algorithm must agree with the key type
    let an: Vec<u8> = vec![97u8];
    let rsa_b: Vec<u8> = vec![114u8, 115u8, 97u8];
    let ed_b: Vec<u8> = vec![101u8, 100u8, 50u8, 53u8, 53u8, 49u8, 57u8];
    let rsa_sha: Vec<u8> = vec![114u8, 115u8, 97u8, 45u8, 115u8, 104u8, 97u8, 50u8, 53u8, 54u8];
    let ed_sha: Vec<u8> = vec![101u8, 100u8, 50u8, 53u8, 53u8, 49u8, 57u8, 45u8, 115u8, 104u8,
        97u8, 50u8, 53u8, 54u8];
    proof {
        assert(an@ =~= seq![97u8]);
        assert(rsa_b@ =~= rsa_seq());
        assert(ed_b@ =~= ed25519_seq());
        assert(rsa_sha@ =~= rsa_sha256_seq());
        assert(ed_sha@ =~= ed25519_sha256_seq());
    }
    let is_rsa: bool;
    match crate::tags::find_tag(&tags, an.as_slice()) {
        Some(aix) => {
            let rsa_match = bytes_eq(tags[aix].value.as_slice(), rsa_sha.as_slice())
                && bytes_eq(key_type, rsa_b.as_slice());
            let ed_match = bytes_eq(tags[aix].value.as_slice(), ed_sha.as_slice())
                && bytes_eq(key_type, ed_b.as_slice());
            if !(rsa_match || ed_match) {
                return false;
            }
            is_rsa = rsa_match;
        },
        None => {
            return false;
        },
    }
    // the body hash must match bh=
    let bhn: Vec<u8> = vec![98u8, 104u8];
    proof {
        assert(bhn@ =~= seq![98u8, 104u8]);
    }
    match crate::tags::find_tag(&tags, bhn.as_slice()) {
        Some(bhix) => {
            let unquoted = trim_quotes_bytes(tags[bhix].value.as_slice());
            if !bytes_eq(bh_b64, unquoted.as_slice()) {
                return false;
            }
        },
        None => {
            return false;
        },
    }
    // the signature must verify over the signed header block
    let hi = match crate::select::build_headers_hash_input(fields, value.as_slice()) {
        Some(hi) => hi,
        None => {
            return false;
        },
    };
    let bn: Vec<u8> = vec![98u8];
    proof {
        assert(bn@ =~= seq![98u8]);
    }
    let sig = match crate::tags::find_tag(&tags, bn.as_slice()) {
        Some(bix) => match crate::crypto::base64_decode_bytes(tags[bix].value.as_slice()) {
            Some(sig) => sig,
            None => {
                return false;
            },
        },
        None => {
            return false;
        },
    };
    let hashed = crate::crypto::hash_bytes(hi.as_slice());
    proof {
        assert(canon_parts_of(fv, fv[k as int].1, raw)
            == Some((hi@, body_relaxed(body_region(raw)), sig@)));
    }
    if is_rsa {
        match rsa_sha256_verify(key, hashed.as_slice(), sig.as_slice()) {
            Some(b) => b,
            None => false,
        }
    } else {
        proof {
            assert(key_type@ == ed25519_seq());
            assert(key_type@ != rsa_seq());
        }
        match ed25519_verify(key, hashed.as_slice(), sig.as_slice()) {
            Some(b) => b,
            None => false,
        }
    }
}

/// Verifies the DKIM signature of `input.raw_email` for the claimed
/// domain with the supplied key material.  Never panics; a malformed
/// e-mail or key is simply a failing verification.
pub fn verify_dkim(input: &Email) -> (r: bool)
    ensures
        r == dkim_passes(
            input.raw_email@,
            encode_utf8(input.from_domain@),
            input.public_key.key@,
            encode_utf8(input.public_key.key_type@),
        ),
{
    let raw = input.raw_email.as_slice();
    let (hreg, breg) = crate::headers::split_header_body(raw);
    let fields = crate::headers::parse_header_fields(hreg.as_slice());
    let ghost fv = fields_view(fields@);
    let body_canon = crate::canon::canonicalize_body_relaxed(breg.as_slice());
    let body_hash = crate::crypto::hash_bytes(body_canon.as_slice());
    let bh_b64 = crate::crypto::base64_encode_bytes(body_hash.as_slice());
    let domain_b = input.from_domain.as_str().as_bytes();
    let key_type_b = input.public_key.key_type.as_str().as_bytes();
    let nf = fields.len();
    let mut k: usize = 0;
    while k < nf
        invariant
            nf == fields@.len(),
            fv == fields_view(fields@),
            fv == crate::headers::parsed_fields_from(header_region(input.raw_email@), 0),
            bh_b64@ == base64_of(sha256_of(body_relaxed(body_region(input.raw_email@)))),
            domain_b@ == encode_utf8(input.from_domain@),
            key_type_b@ == encode_utf8(input.public_key.key_type@),
            k <= nf,
            forall|j: int| 0 <= j < k ==> !candidate_passes(fv, j, input.raw_email@,
                encode_utf8(input.from_domain@), input.public_key.key@,
                encode_utf8(input.public_key.key_type@)),
        decreases nf - k
    {
        if check_candidate(
            &fields,
            k,
            bh_b64.as_slice(),
            domain_b,
            input.public_key.key.as_slice(),
            key_type_b,
            Ghost(input.raw_email@),
        ) {
            return true;
        }
        k = k + 1;
    }
    false
}

} // verus!
