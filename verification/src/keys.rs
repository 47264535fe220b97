//! Parsing DKIM key records: the `k=`/`p=` record fetched from DNS or an
//! archive becomes key bytes and a key type, and a record can be wrapped
//! into a PEM block.  The network fetch itself stays outside the library;
//! these functions decide everything about what came back.

use vstd::prelude::*;
use vstd::string::StringSliceAdditionalSpecFns;
use rsa::pkcs1::DecodeRsaPublicKey;
use rsa::pkcs8::DecodePublicKey;
use vstd::utf8::encode_utf8;
use crate::crypto::base64_decode_of;
use crate::dkim::ed25519_seq;
use crate::dkim::rsa_seq;
use crate::dkim::seq_ends_with;
use crate::dkim::trim_quotes;
use crate::headers::find_byte_from;
use crate::tags::is_fws_byte;
use crate::tags::parse_tags_spec;
use crate::tags::split_at_byte_from;
use crate::tags::tag_lookup;
use crate::tags::trim_fws;

verus! {

/// The PKCS#1 re-encoding of an RSA public key given as DER (SPKI form,
/// else PKCS#1 form): a function of the input bytes alone.  Nothing when
/// the bytes parse in neither form.
pub uninterp spec fn rsa_pkcs1_reencoded_of(der: Seq<u8>) -> Option<Seq<u8>>;

/// Relies on rsa's RsaPublicKey DER parsing and PKCS#1 re-encoding: the
/// outcome depends on the input bytes alone.
#[verifier::external_body]
fn rsa_reencode_pkcs1(der: &[u8]) -> (r: Option<Vec<u8>>)
    ensures
        match r {
            Some(v) => rsa_pkcs1_reencoded_of(der@) == Some(v@),
            None => rsa_pkcs1_reencoded_of(der@) is None,
        },
{
    let key: rsa::RsaPublicKey = rsa::RsaPublicKey::from_public_key_der(der)
        .map_err(|_| ())
        .or_else(|_| rsa::RsaPublicKey::from_pkcs1_der(der).map_err(|_| ()))
        .ok()?;
    let doc = rsa::pkcs1::EncodeRsaPublicKey::to_pkcs1_der(&key).ok()?;
    Some(doc.as_bytes().to_vec())
}

/// A key record that cannot be used: no public key, undecodable key
/// material, or an unsupported key type.
#[derive(Debug, Clone, Copy, PartialEq, Eq, Structural)]
pub enum KeyRecordError {
    NoKey,
    BadKey,
    Unsupported,
}

/// What parsing a `k=`/`p=` key record yields: the key bytes in the form
/// the verifier consumes (PKCS#1 DER for RSA, raw 32 bytes for Ed25519)
/// and the key type.  A missing or empty `k=` means RSA.
pub open spec fn parse_key_record_spec(value: Seq<u8>) -> Result<(Seq<u8>, Seq<u8>), KeyRecordError> {
    let tags = parse_tags_spec(value);
    let kt = match tag_lookup(tags, seq![107u8]) {
        Some(kv) => if kv.0.len() > 0 {
            kv.0
        } else {
            rsa_seq()
        },
        None => rsa_seq(),
    };
    match tag_lookup(tags, seq![112u8]) {
        None => Err(KeyRecordError::NoKey),
        Some(pv) => if pv.0.len() == 0 {
            Err(KeyRecordError::NoKey)
        } else if kt == rsa_seq() {
            match base64_decode_of(pv.0) {
                None => Err(KeyRecordError::BadKey),
                Some(d) => match rsa_pkcs1_reencoded_of(d) {
                    None => Err(KeyRecordError::BadKey),
                    Some(kb) => Ok((kb, rsa_seq())),
                },
            }
        } else if kt == ed25519_seq() {
            match base64_decode_of(pv.0) {
                None => Err(KeyRecordError::BadKey),
                Some(d) => if d.len() == 32 {
                    Ok((d, ed25519_seq()))
                } else {
                    Err(KeyRecordError::BadKey)
                },
            }
        } else {
            Err(KeyRecordError::Unsupported)
        },
    }
}

/// Parses a DKIM key record into key bytes and a key type.
pub fn parse_dkim_key_record(value: &[u8]) -> (r: Result<(Vec<u8>, Vec<u8>), KeyRecordError>)
    ensures
        match r {
            Ok(p) => parse_key_record_spec(value@) == Ok::<_, KeyRecordError>((p.0@, p.1@)),
            Err(e) => parse_key_record_spec(value@) == Err::<(Seq<u8>, Seq<u8>), _>(e),
        },
{
    let tags = crate::tags::parse_dkim_tag_list(value);
    let kn: Vec<u8> = vec![107u8];
    let pn: Vec<u8> = vec![112u8];
    let rsa_b: Vec<u8> = vec![114u8, 115u8, 97u8];
    let ed_b: Vec<u8> = vec![101u8, 100u8, 50u8, 53u8, 53u8, 49u8, 57u8];
    proof {
        assert(kn@ =~= seq![107u8]);
        assert(pn@ =~= seq![112u8]);
        assert(rsa_b@ =~= rsa_seq());
        assert(ed_b@ =~= ed25519_seq());
    }
    let mut is_rsa: bool = true;
    let mut is_ed: bool = false;
    match crate::tags::find_tag(&tags, kn.as_slice()) {
        Some(kix) => {
            if tags[kix].value.len() > 0 {
                is_rsa = crate::canon::bytes_eq(tags[kix].value.as_slice(), rsa_b.as_slice());
                is_ed = crate::canon::bytes_eq(tags[kix].value.as_slice(), ed_b.as_slice());
            }
        },
        None => {},
    }
    let p_ix = match crate::tags::find_tag(&tags, pn.as_slice()) {
        Some(ix) => ix,
        None => {
            return Err(KeyRecordError::NoKey);
        },
    };
    if tags[p_ix].value.len() == 0 {
        return Err(KeyRecordError::NoKey);
    }
    if is_rsa {
        let decoded = match crate::crypto::base64_decode_bytes(tags[p_ix].value.as_slice()) {
            Some(d) => d,
            None => {
                return Err(KeyRecordError::BadKey);
            },
        };
        match rsa_reencode_pkcs1(decoded.as_slice()) {
            Some(kb) => Ok((kb, rsa_b)),
            None => Err(KeyRecordError::BadKey),
        }
    } else if is_ed {
        let decoded = match crate::crypto::base64_decode_bytes(tags[p_ix].value.as_slice()) {
            Some(d) => d,
            None => {
                return Err(KeyRecordError::BadKey);
            },
        };
        if decoded.len() == 32 {
            Ok((decoded, ed_b))
        } else {
            Err(KeyRecordError::BadKey)
        }
    } else {
        Err(KeyRecordError::Unsupported)
    }
}

/// `a` starts with `b`.
pub open spec fn seq_starts_with(a: Seq<u8>, b: Seq<u8>) -> bool {
    b.len() <= a.len() && a.take(b.len() as int) == b
}

/// `pat` occurs somewhere in `s`.
pub open spec fn contains_sub(s: Seq<u8>, pat: Seq<u8>) -> bool {
    exists|i: int| 0 <= i && i + pat.len() <= s.len()
        && #[trigger] s.subrange(i, i + pat.len() as int) == pat
}

/// Whether `pat` occurs somewhere in `s`.
pub fn bytes_contains(s: &[u8], pat: &[u8]) -> (r: bool)
    ensures
        r == contains_sub(s@, pat@),
{
    let n = s.len();
    let m = pat.len();
    if m == 0 {
        proof {
            assert(s@.subrange(0, 0 + pat@.len() as int) =~= pat@);
            assert(contains_sub(s@, pat@));
        }
        return true;
    }
    let mut i: usize = 0;
    while n - i >= m && i < n
        invariant
            n == s@.len(),
            m == pat@.len(),
            1 <= m,
            i <= n,
            forall|j: int| 0 <= j < i
                ==> !(j + pat@.len() <= s@.len()
                    && #[trigger] s@.subrange(j, j + pat@.len() as int) == pat@),
        decreases n - i
    {
        if crate::select::matches_at(s, pat, i) {
            return true;
        }
        i = i + 1;
    }
    proof {
        assert(!contains_sub(s@, pat@));
    }
    false
}

/// One archive record, reduced to what selection reads.
#[derive(Debug, Clone)]
pub struct DkimKeyRecord {
    pub selector: String,
    pub value: String,
}

/// An archive record is usable for a selector: same selector, and a
/// `p=` tag that is present and not empty at the end.
pub open spec fn archive_candidate_ok(rec: DkimKeyRecord, selector: Seq<char>) -> bool {
    &&& rec.selector@ == selector
    &&& contains_sub(encode_utf8(rec.value@), seq![112u8, 61u8])
    &&& !seq_ends_with(encode_utf8(rec.value@), seq![112u8, 61u8])
}

/// Picks the first usable archive record for the selector.
pub fn select_archive_key(records: &Vec<DkimKeyRecord>, selector: &str) -> (r: Option<usize>)
    ensures
        match r {
            Some(ix) => ix < records@.len() && archive_candidate_ok(records@[ix as int], selector@)
                && forall|j: int| 0 <= j < ix
                    ==> !archive_candidate_ok(records@[j], selector@),
            None => forall|j: int| 0 <= j < records@.len()
                ==> !archive_candidate_ok(records@[j], selector@),
        },
{
    let wanted: String = selector.to_owned();
    let pe: Vec<u8> = vec![112u8, 61u8];
    proof {
        assert(pe@ =~= seq![112u8, 61u8]);
    }
    let n = records.len();
    let mut i: usize = 0;
    while i < n
        invariant
            n == records@.len(),
            wanted@ == selector@,
            pe@ == seq![112u8, 61u8],
            i <= n,
            forall|j: int| 0 <= j < i ==> !archive_candidate_ok(records@[j], selector@),
        decreases n - i
    {
        if records[i].selector == wanted {
            let vb = records[i].value.as_str().as_bytes();
            if bytes_contains(vb, pe.as_slice())
                && !crate::dkim::bytes_ends_with(vb, pe.as_slice()) {
                return Some(i);
            }
        }
        i = i + 1;
    }
    None
}

/// One DNS answer, reduced to what selection reads.
#[derive(Debug, Clone)]
pub struct DnsAnswer {
    pub record_type: i32,
    pub data: String,
}

/// Picks the first TXT answer (record type 16).
pub fn select_txt_answer(answers: &Vec<DnsAnswer>) -> (r: Option<usize>)
    ensures
        match r {
            Some(ix) => ix < answers@.len() && answers@[ix as int].record_type == 16
                && forall|j: int| 0 <= j < ix ==> answers@[j].record_type != 16,
            None => forall|j: int| 0 <= j < answers@.len() ==> answers@[j].record_type != 16,
        },
{
    let n = answers.len();
    let mut i: usize = 0;
    while i < n
        invariant
            n == answers@.len(),
            i <= n,
            forall|j: int| 0 <= j < i ==> answers@[j].record_type != 16,
        decreases n - i
    {
        if answers[i].record_type == 16 {
            return Some(i);
        }
        i = i + 1;
    }
    None
}

/// A record split at `;`, with the 64-column PEM body wrapping.
pub open spec fn wrap64(s: Seq<u8>) -> Seq<u8>
    decreases s.len()
{
    if s.len() <= 64 {
        s
    } else {
        s.take(64) + seq![10u8] + wrap64(s.skip(64))
    }
}

/// The first `;`-segment of the record whose trimmed form starts with
/// `p=`, from segment `i` on; -1 when none does.
pub open spec fn first_p_segment(segs: Seq<Seq<u8>>, i: int) -> int
    decreases segs.len() - i when 0 <= i
{
    if i >= segs.len() {
        -1
    } else if seq_starts_with(trim_fws(segs[i]), seq![112u8, 61u8]) {
        i
    } else {
        first_p_segment(segs, i + 1)
    }
}

/// The PEM block of a key: header line, 64-column wrapped key, footer.
pub open spec fn pem_of(key: Seq<u8>) -> Seq<u8> {
    ("-----BEGIN PUBLIC KEY-----\n").spec_bytes() + wrap64(key)
        + ("\n-----END PUBLIC KEY-----").spec_bytes()
}

/// The key bytes of the first `p=` segment: after the marker, quotes
/// stripped.
pub open spec fn record_key_of(record: Seq<u8>) -> Seq<u8> {
    let segs = split_at_byte_from(record, 59u8, 0);
    let p = first_p_segment(segs, 0);
    trim_quotes(trim_fws(segs[p]).skip(2))
}

/// Extracts the public key of a DKIM record and wraps it as a PEM block.
/// `NoKey` when no `p=` part exists; `BadKey` when the wrapped bytes are
/// not a UTF-8 string.
pub fn extract_and_format_key(record: &str) -> (r: Result<String, KeyRecordError>)
    ensures
        ({
            let segs = split_at_byte_from(record.spec_bytes(), 59u8, 0);
            match r {
                Ok(s) => first_p_segment(segs, 0) >= 0
                    && encode_utf8(s@) == pem_of(record_key_of(record.spec_bytes())),
                Err(e) => (e == KeyRecordError::NoKey && first_p_segment(segs, 0) == -1)
                    || (e == KeyRecordError::BadKey && first_p_segment(segs, 0) >= 0
                        && !vstd::utf8::valid_utf8(pem_of(record_key_of(record.spec_bytes())))),
            }
        }),
{
    let rb = record.as_bytes();
    let n = rb.len();
    let ghost segs = split_at_byte_from(rb@, 59u8, 0);
    let pe: Vec<u8> = vec![112u8, 61u8];
    proof {
        assert(pe@ =~= seq![112u8, 61u8]);
        assert(segs.skip(0) =~= segs);
    }
    let mut i: usize = 0;
    let ghost mut seg_ix: int = 0;
    let mut done: bool = false;
    while !done
        invariant
            n == rb@.len(),
            rb@ == record.spec_bytes(),
            pe@ == seq![112u8, 61u8],
            i <= n,
            segs == split_at_byte_from(rb@, 59u8, 0),
            !done ==> 0 <= seg_ix <= segs.len(),
            !done ==> split_at_byte_from(rb@, 59u8, i as int) == segs.skip(seg_ix),
            !done ==> first_p_segment(segs, 0) == first_p_segment(segs, seg_ix),
            done ==> first_p_segment(segs, 0) == -1,
        decreases n - i + (if done { 0int } else { 1int })
    {
        let mut p: usize = i;
        while p < n && rb[p] != 59
            invariant
                n == rb@.len(),
                i <= p <= n,
                find_byte_from(rb@, 59u8, i as int) == find_byte_from(rb@, 59u8, p as int),
            decreases n - p
        {
            p = p + 1;
        }
        let ghost seg = rb@.subrange(i as int, p as int);
        proof {
            if p < n {
                assert(find_byte_from(rb@, 59u8, p as int) == p);
            } else {
                assert(find_byte_from(rb@, 59u8, p as int) == -1);
            }
            assert(segs.skip(seg_ix) =~= seq![seg]
                + (if p < n { split_at_byte_from(rb@, 59u8, p + 1) }
                   else { Seq::<Seq<u8>>::empty() }));
            assert(segs.skip(seg_ix).len() >= 1);
            assert(seg_ix < segs.len());
            assert(segs.skip(seg_ix)[0] == seg);
            assert(segs[seg_ix] == seg);
        }
        let mut buf: Vec<u8> = Vec::new();
        let mut t: usize = i;
        proof {
            assert(buf@ =~= rb@.subrange(i as int, i as int));
        }
        while t < p
            invariant
                n == rb@.len(),
                i <= t <= p <= n,
                buf@ == rb@.subrange(i as int, t as int),
            decreases p - t
        {
            buf.push(rb[t]);
            t = t + 1;
            proof {
                assert(rb@.subrange(i as int, t as int)
                    =~= rb@.subrange(i as int, t - 1).push(rb@[t - 1]));
            }
        }
        let trimmed = crate::tags::trim_fws_bytes(buf.as_slice());
        let starts = trimmed.len() >= 2 && trimmed[0] == 112 && trimmed[1] == 61;
        if starts {
            proof {
                assert(trim_fws(seg).take(2) =~= seq![112u8, 61u8]);
                assert(seq_starts_with(trim_fws(seg), seq![112u8, 61u8]));
                assert(first_p_segment(segs, seg_ix) == seg_ix);
            }
            // the key bytes: after the marker, quotes stripped
            let mut keyb: Vec<u8> = Vec::new();
            let mut q: usize = 2;
            let tn = trimmed.len();
            proof {
                assert(keyb@ =~= trimmed@.subrange(2, 2));
            }
            while q < tn
                invariant
                    tn == trimmed@.len(),
                    2 <= q <= tn,
                    keyb@ == trimmed@.subrange(2, q as int),
                decreases tn - q
            {
                keyb.push(trimmed[q]);
                q = q + 1;
                proof {
                    assert(trimmed@.subrange(2, q as int)
                        =~= trimmed@.subrange(2, q - 1).push(trimmed@[q - 1]));
                }
            }
            proof {
                assert(keyb@ =~= trim_fws(seg).skip(2));
            }
            let key = crate::dkim::trim_quotes_bytes(keyb.as_slice());
            // build the PEM block
            let mut out: Vec<u8> = Vec::new();
            let header = "-----BEGIN PUBLIC KEY-----\n";
            let footer = "\n-----END PUBLIC KEY-----";
            push_all_bytes(&mut out, header.as_bytes());
            let ghost out1 = out@;
            // wrap the key at 64 columns
            let kn = key.len();
            let mut w: usize = 0;
            let ghost mut wdone: Seq<u8> = Seq::empty();
            proof {
                assert(key@.skip(0) =~= key@);
                assert(out@ =~= out1 + wdone);
                assert(wrap64(key@) =~= wdone + wrap64(key@.skip(0)));
            }
            while kn - w > 64
                invariant
                    kn == key@.len(),
                    w <= kn,
                    out@ == out1 + wdone,
                    wrap64(key@) == wdone + wrap64(key@.skip(w as int)),
                decreases kn - w
            {
                let mut c: usize = 0;
                let ghost out2 = out@;
                while c < 64
                    invariant
                        c <= 64,
                        w + 64 <= kn,
                        kn == key@.len(),
                        out@ == out2 + key@.subrange(w as int, w + c),
                    decreases 64 - c
                {
                    out.push(key[w + c]);
                    c = c + 1;
                    proof {
                        assert(key@.subrange(w as int, w + c)
                            =~= key@.subrange(w as int, w + c - 1).push(key@[w + c - 1]));
                    }
                }
                out.push(10u8);
                proof {
                    let rem = key@.skip(w as int);
                    assert(rem.len() > 64);
                    assert(wrap64(rem) =~= rem.take(64) + seq![10u8] + wrap64(rem.skip(64)));
                    assert(rem.take(64) =~= key@.subrange(w as int, w + 64));
                    assert(rem.skip(64) =~= key@.skip(w + 64));
                    wdone = wdone + key@.subrange(w as int, w + 64) + seq![10u8];
                    assert(out@ =~= out1 + wdone);
                    assert(wrap64(key@) =~= wdone + wrap64(key@.skip(w + 64)));
                }
                w = w + 64;
            }
            let mut c2: usize = w;
            let ghost out3 = out@;
            while c2 < kn
                invariant
                    kn == key@.len(),
                    w <= c2 <= kn,
                    out@ == out3 + key@.subrange(w as int, c2 as int),
                decreases kn - c2
            {
                out.push(key[c2]);
                c2 = c2 + 1;
                proof {
                    assert(key@.subrange(w as int, c2 as int)
                        =~= key@.subrange(w as int, c2 - 1).push(key@[c2 - 1]));
                }
            }
            proof {
                let rem = key@.skip(w as int);
                assert(rem.len() <= 64);
                assert(wrap64(rem) == rem);
                assert(key@.subrange(w as int, kn as int) =~= rem);
                assert(out@ =~= out1 + (wdone + wrap64(key@.skip(w as int))));
                assert(out@ =~= out1 + wrap64(key@));
            }
            push_all_bytes(&mut out, footer.as_bytes());
            proof {
                assert(record_key_of(rb@) == key@);
                assert(out@ =~= pem_of(key@));
            }
            match crate::dkim::string_from_utf8(out) {
                Some(s) => {
                    return Ok(s);
                },
                None => {
                    return Err(KeyRecordError::BadKey);
                },
            }
        } else {
            proof {
                if trim_fws(seg).len() >= 2 {
                    assert(trim_fws(seg).take(2)[0] == trim_fws(seg)[0]);
                    assert(trim_fws(seg).take(2)[1] == trim_fws(seg)[1]);
                }
                assert(!seq_starts_with(trim_fws(seg), seq![112u8, 61u8]));
            }
        }
        if p < n {
            i = p + 1;
            proof {
                seg_ix = seg_ix + 1;
                assert(segs.skip(seg_ix - 1).skip(1) =~= segs.skip(seg_ix));
            }
        } else {
            done = true;
            proof {
                assert(seg_ix + 1 == segs.len());
                assert(first_p_segment(segs, seg_ix + 1) == -1);
            }
        }
    }
    Err(KeyRecordError::NoKey)
}

/// Appends all of `s`.
fn push_all_bytes(out: &mut Vec<u8>, s: &[u8])
    ensures
        final(out)@ == old(out)@ + s@,
{
    let n = s.len();
    let mut i: usize = 0;
    let ghost out0 = old(out)@;
    proof {
        assert(out@ =~= out0 + s@.take(0));
    }
    while i < n
        invariant
            n == s@.len(),
            i <= n,
            out@ == out0 + s@.take(i as int),
        decreases n - i
    {
        out.push(s[i]);
        i = i + 1;
        proof {
            assert(s@.take(i as int) =~= s@.take(i - 1).push(s@[i - 1]));
        }
    }
    proof {
        assert(s@.take(n as int) =~= s@);
    }
}

} // verus!
