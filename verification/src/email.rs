//! Body-region selection and quoted-printable cleaning.
//!
//! `remove_quoted_printable_soft_breaks` strips `=\r\n` soft line breaks from
//! a body buffer while keeping the buffer length unchanged (zero padding) and
//! returning an index map from cleaned positions back to original positions.

use vstd::prelude::*;

verus! {

/// A soft line break `=\r\n` starts at position `i` of `s`.
pub open spec fn qp_soft_break_at(s: Seq<u8>, i: int) -> bool {
    &&& 0 <= i
    &&& i + 3 <= s.len()
    &&& s[i] == 61u8
    &&& s[i + 1] == 13u8
    &&& s[i + 2] == 10u8
}

/// `s` holds no soft line break at or after position `i`.
pub open spec fn qp_no_soft_break_from(s: Seq<u8>, i: int) -> bool {
    forall|j: int| i <= j ==> !qp_soft_break_at(s, j)
}

/// The bytes of `s[i..]` that survive soft-break removal, in order.
pub open spec fn qp_clean_from(s: Seq<u8>, i: int) -> Seq<u8>
    decreases s.len() - i when 0 <= i
{
    if i >= s.len() {
        Seq::empty()
    } else if qp_soft_break_at(s, i) {
        qp_clean_from(s, i + 3)
    } else {
        seq![s[i]] + qp_clean_from(s, i + 1)
    }
}

/// The original positions of the surviving bytes of `s[i..]`, in order.
pub open spec fn qp_kept_from(s: Seq<u8>, i: int) -> Seq<int>
    decreases s.len() - i when 0 <= i
{
    if i >= s.len() {
        Seq::empty()
    } else if qp_soft_break_at(s, i) {
        qp_kept_from(s, i + 3)
    } else {
        seq![i] + qp_kept_from(s, i + 1)
    }
}

/// The cleaned buffer: surviving bytes, zero-padded to the original length.
pub open spec fn qp_cleaned_buffer(s: Seq<u8>) -> Seq<u8> {
    qp_clean_from(s, 0) + Seq::new((s.len() - qp_clean_from(s, 0).len()) as nat, |j: int| 0u8)
}

pub proof fn lemma_qp_clean_len(s: Seq<u8>, i: int)
    requires
        0 <= i,
    ensures
        qp_clean_from(s, i).len() <= s.len() - i || (i >= s.len() && qp_clean_from(s, i).len() == 0),
        qp_kept_from(s, i).len() == qp_clean_from(s, i).len(),
    decreases s.len() - i
{
    if i >= s.len() {
    } else if qp_soft_break_at(s, i) {
        lemma_qp_clean_len(s, i + 3);
    } else {
        lemma_qp_clean_len(s, i + 1);
    }
}

/// Where no soft break occurs, cleaning keeps every byte.
pub proof fn lemma_qp_clean_untouched(s: Seq<u8>, i: int)
    requires
        0 <= i <= s.len(),
        qp_no_soft_break_from(s, i),
    ensures
        qp_clean_from(s, i) == s.skip(i),
    decreases s.len() - i
{
    if i >= s.len() {
        assert(qp_clean_from(s, i) =~= s.skip(i));
    } else {
        lemma_qp_clean_untouched(s, i + 1);
        assert(qp_clean_from(s, i) =~= s.skip(i));
    }
}

/// Removes quoted-printable soft line breaks (`=\r\n`) from `body`, padding
/// the result with zeros back to the original length, and returns beside it
/// an index map from cleaned positions to original positions, with
/// `usize::MAX` as the "no source" sentinel on padding positions.
pub fn remove_quoted_printable_soft_breaks(body: Vec<u8>) -> (r: (Vec<u8>, Vec<usize>))
    ensures
        r.0@.len() == body@.len(),
        r.1@.len() == body@.len(),
        r.0@ == qp_cleaned_buffer(body@),
        r.1@.map_values(|v: usize| v as int).take(qp_kept_from(body@, 0).len() as int)
            == qp_kept_from(body@, 0),
        forall|j: int| qp_kept_from(body@, 0).len() <= j < body@.len()
            ==> r.1@[j] == usize::MAX,
{
    let n = body.len();
    let mut cleaned: Vec<u8> = Vec::new();
    let mut index_map: Vec<usize> = Vec::new();
    let mut i: usize = 0;
    while i < n
        invariant
            n == body@.len(),
            i <= n,
            cleaned@.len() == index_map@.len(),
            cleaned@.len() <= i,
            qp_clean_from(body@, 0) == cleaned@ + qp_clean_from(body@, i as int),
            qp_kept_from(body@, 0)
                == index_map@.map_values(|v: usize| v as int) + qp_kept_from(body@, i as int),
        decreases n - i
    {
        if body[i] == 61u8 && n - i >= 3 && body[i + 1] == 13u8 && body[i + 2] == 10u8 {
            proof {
                assert(qp_soft_break_at(body@, i as int));
            }
            i = i + 3;
        } else {
            proof {
                assert(!qp_soft_break_at(body@, i as int));
            }
            cleaned.push(body[i]);
            index_map.push(i);
            proof {
                assert(index_map@.map_values(|v: usize| v as int)
                    =~= index_map@.drop_last().map_values(|v: usize| v as int).push(i as int));
                assert(cleaned@ + qp_clean_from(body@, i + 1)
                    =~= cleaned@.drop_last() + (seq![body@[i as int]] + qp_clean_from(body@, i + 1)));
                assert(index_map@.map_values(|v: usize| v as int) + qp_kept_from(body@, i + 1)
                    =~= index_map@.drop_last().map_values(|v: usize| v as int)
                        + (seq![i as int] + qp_kept_from(body@, i + 1)));
            }
            i = i + 1;
        }
    }
    proof {
        assert(qp_clean_from(body@, i as int) =~= Seq::<u8>::empty());
        assert(qp_kept_from(body@, i as int) =~= Seq::<int>::empty());
        assert(cleaned@ =~= qp_clean_from(body@, 0));
        assert(index_map@.map_values(|v: usize| v as int) =~= qp_kept_from(body@, 0));
        lemma_qp_clean_len(body@, 0);
    }
    let ghost clean_len = cleaned@.len();
    while cleaned.len() < n
        invariant
            n == body@.len(),
            cleaned@.len() == index_map@.len(),
            clean_len <= cleaned@.len() <= n,
            cleaned@.take(clean_len as int) == qp_clean_from(body@, 0),
            clean_len == qp_clean_from(body@, 0).len(),
            clean_len == qp_kept_from(body@, 0).len(),
            forall|j: int| clean_len <= j < cleaned@.len() ==> cleaned@[j] == 0u8,
            index_map@.map_values(|v: usize| v as int).take(clean_len as int)
                == qp_kept_from(body@, 0),
            forall|j: int| clean_len <= j < index_map@.len() ==> index_map@[j] == usize::MAX,
        decreases n - cleaned@.len()
    {
        cleaned.push(0u8);
        index_map.push(usize::MAX);
        proof {
            assert(cleaned@.take(clean_len as int)
                =~= cleaned@.drop_last().take(clean_len as int));
            assert(index_map@.map_values(|v: usize| v as int).take(clean_len as int)
                =~= index_map@.drop_last().map_values(|v: usize| v as int).take(clean_len as int));
        }
    }
    proof {
        assert(cleaned@ =~= qp_cleaned_buffer(body@));
    }
    (cleaned, index_map)
}

/// One MIME part of a parsed e-mail, reduced to what body selection reads:
/// its mime type and its decoded body bytes.
#[derive(Debug, Clone)]
pub struct MimePart {
    pub mimetype: String,
    pub body: Vec<u8>,
}

/// A parsed e-mail, reduced to the whole-message body and its parts.
#[derive(Debug, Clone)]
pub struct MimeEmail {
    pub body: Vec<u8>,
    pub subparts: Vec<MimePart>,
}

/// The body region chosen for pattern scanning: the first `text/html`
/// part, else the first `text/plain` part, else the first part, else the
/// whole body.
pub open spec fn selected_body(parts: Seq<MimePart>, whole: Seq<u8>) -> Seq<u8> {
    if exists|k: int| 0 <= k < parts.len() && parts[k].mimetype@ == "text/html"@ {
        let k = choose|k: int|
            0 <= k < parts.len() && parts[k].mimetype@ == "text/html"@
            && forall|j: int| 0 <= j < k ==> parts[j].mimetype@ != "text/html"@;
        parts[k].body@
    } else if exists|k: int| 0 <= k < parts.len() && parts[k].mimetype@ == "text/plain"@ {
        let k = choose|k: int|
            0 <= k < parts.len() && parts[k].mimetype@ == "text/plain"@
            && forall|j: int| 0 <= j < k ==> parts[j].mimetype@ != "text/plain"@;
        parts[k].body@
    } else if parts.len() > 0 {
        parts[0].body@
    } else {
        whole
    }
}

/// Deterministic, total body-region selection: prefer the first `text/html`
/// part, else the first `text/plain` part, else the first part, else the
/// whole body.
pub fn extract_email_body(email: &MimeEmail) -> (r: Vec<u8>)
    ensures
        r@ == selected_body(email.subparts@, email.body@),
{
    let html = String::from_str("text/html");
    let n = email.subparts.len();
    let mut i: usize = 0;
    while i < n
        invariant
            html@ == "text/html"@,
            n == email.subparts@.len(),
            i <= n,
            forall|j: int| 0 <= j < i ==> email.subparts@[j].mimetype@ != "text/html"@,
        decreases n - i
    {
        if email.subparts[i].mimetype == html {
            proof {
                let k = i as int;
                assert(0 <= k < email.subparts@.len()
                    && email.subparts@[k].mimetype@ == "text/html"@
                    && forall|j: int| 0 <= j < k
                        ==> email.subparts@[j].mimetype@ != "text/html"@);
            }
            return email.subparts[i].body.clone();
        }
        i = i + 1;
    }
    let plain = String::from_str("text/plain");
    let mut p: usize = 0;
    while p < n
        invariant
            plain@ == "text/plain"@,
            n == email.subparts@.len(),
            p <= n,
            forall|j: int| 0 <= j < n ==> email.subparts@[j].mimetype@ != "text/html"@,
            forall|j: int| 0 <= j < p ==> email.subparts@[j].mimetype@ != "text/plain"@,
        decreases n - p
    {
        if email.subparts[p].mimetype == plain {
            proof {
                let k = p as int;
                assert(0 <= k < email.subparts@.len()
                    && email.subparts@[k].mimetype@ == "text/plain"@
                    && forall|j: int| 0 <= j < k
                        ==> email.subparts@[j].mimetype@ != "text/plain"@);
            }
            return email.subparts[p].body.clone();
        }
        p = p + 1;
    }
    if n > 0 {
        email.subparts[0].body.clone()
    } else {
        email.body.clone()
    }
}

} // verus!
