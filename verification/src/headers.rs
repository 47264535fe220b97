//! Splitting a raw e-mail into header fields and body.
//!
//! The header region ends at the first blank line (`\r\n\r\n`); the body is
//! everything after it.  A header field runs up to the first CRLF that is
//! not followed by a space or tab (folded lines belong to the field); its
//! name is what stands before the first colon.  A line without a colon is
//! dropped.

use vstd::prelude::*;

verus! {

/// A CRLF pair starts at `i`.
pub open spec fn crlf_at(s: Seq<u8>, i: int) -> bool {
    0 <= i && i + 2 <= s.len() && s[i] == 13u8 && s[i + 1] == 10u8
}

/// A blank line (`\r\n\r\n`) starts at `i`.
pub open spec fn blank_line_at(s: Seq<u8>, i: int) -> bool {
    0 <= i && i + 4 <= s.len() && s[i] == 13u8 && s[i + 1] == 10u8
        && s[i + 2] == 13u8 && s[i + 3] == 10u8
}

/// The first position at or after `i` where a blank line starts, or -1.
pub open spec fn first_blank_from(s: Seq<u8>, i: int) -> int
    decreases s.len() - i when 0 <= i
{
    if i + 4 > s.len() {
        -1
    } else if blank_line_at(s, i) {
        i
    } else {
        first_blank_from(s, i + 1)
    }
}

/// The header region of a raw e-mail: up to and including the CRLF before
/// the first blank line, or the whole input when there is none.
pub open spec fn header_region(raw: Seq<u8>) -> Seq<u8> {
    let p = first_blank_from(raw, 0);
    if p >= 0 {
        raw.take(p + 2)
    } else {
        raw
    }
}

/// The body region of a raw e-mail: everything after the first blank line,
/// or empty when there is none.
pub open spec fn body_region(raw: Seq<u8>) -> Seq<u8> {
    let p = first_blank_from(raw, 0);
    if p >= 0 {
        raw.skip(p + 4)
    } else {
        Seq::empty()
    }
}

/// Whether byte `b` is a space or tab.
pub open spec fn is_wsp_byte(b: u8) -> bool {
    b == 32u8 || b == 9u8
}

/// A header field that starts at or after `i` ends at the first CRLF not
/// followed by space or tab; `s.len()` when no such CRLF exists.
pub open spec fn field_end_from(s: Seq<u8>, i: int) -> int
    decreases s.len() - i when 0 <= i
{
    if i + 2 > s.len() {
        s.len() as int
    } else if crlf_at(s, i) && (i + 2 == s.len() || !is_wsp_byte(s[i + 2])) {
        i
    } else {
        field_end_from(s, i + 1)
    }
}

pub proof fn lemma_field_end_bounds(s: Seq<u8>, i: int)
    requires
        0 <= i <= s.len(),
    ensures
        i <= field_end_from(s, i) <= s.len(),
        field_end_from(s, i) == s.len() || crlf_at(s, field_end_from(s, i)),
    decreases s.len() - i
{
    if i + 2 > s.len() {
    } else if crlf_at(s, i) && (i + 2 == s.len() || !is_wsp_byte(s[i + 2])) {
    } else {
        lemma_field_end_bounds(s, i + 1);
    }
}

/// The first position of byte `b` in `s` at or after `i`, or -1.
pub open spec fn find_byte_from(s: Seq<u8>, b: u8, i: int) -> int
    decreases s.len() - i when 0 <= i
{
    if i >= s.len() {
        -1
    } else if s[i] == b {
        i
    } else {
        find_byte_from(s, b, i + 1)
    }
}

pub proof fn lemma_find_byte_bounds(s: Seq<u8>, b: u8, i: int)
    requires
        0 <= i <= s.len(),
    ensures
        find_byte_from(s, b, i) == -1 || i <= find_byte_from(s, b, i) < s.len(),
    decreases s.len() - i
{
    if i >= s.len() {
    } else if s[i] == b {
    } else {
        lemma_find_byte_bounds(s, b, i + 1);
    }
}

/// The header fields of the header region `s`, from position `i` on: each
/// one split at its first colon into (name, value); colonless fields are
/// dropped.
pub open spec fn parsed_fields_from(s: Seq<u8>, i: int) -> Seq<(Seq<u8>, Seq<u8>)>
    decreases s.len() - i when 0 <= i <= s.len() via parsed_fields_from_decreases
{
    if i >= s.len() {
        Seq::empty()
    } else {
        let e = field_end_from(s, i);
        let f = s.subrange(i, e);
        let c = find_byte_from(f, 58u8, 0);
        let this = if c >= 0 {
            seq![(f.take(c), f.skip(c + 1))]
        } else {
            Seq::<(Seq<u8>, Seq<u8>)>::empty()
        };
        if e >= s.len() {
            this
        } else {
            this + parsed_fields_from(s, e + 2)
        }
    }
}

#[via_fn]
proof fn parsed_fields_from_decreases(s: Seq<u8>, i: int) {
    if 0 <= i <= s.len() {
        lemma_field_end_bounds(s, i);
    }
}

/// One header field: its name and its raw value (folding kept).
#[derive(Debug, Clone)]
pub struct HeaderField {
    pub name: Vec<u8>,
    pub value: Vec<u8>,
}

/// The view of a header field list as name/value pairs.
pub open spec fn fields_view(v: Seq<HeaderField>) -> Seq<(Seq<u8>, Seq<u8>)> {
    v.map_values(|hf: HeaderField| (hf.name@, hf.value@))
}

/// Splits the header region into header fields.
pub fn parse_header_fields(s: &[u8]) -> (r: Vec<HeaderField>)
    ensures
        fields_view(r@) == parsed_fields_from(s@, 0),
{
    let n = s.len();
    let mut out: Vec<HeaderField> = Vec::new();
    let mut i: usize = 0;
    while i < n
        invariant
            n == s@.len(),
            i <= n,
            parsed_fields_from(s@, 0) == fields_view(out@) + parsed_fields_from(s@, i as int),
        decreases n - i
    {
        // find the end of the field that starts at i
        let mut j: usize = i;
        while n - j >= 2
            && !(s[j] == 13 && s[j + 1] == 10 && (n - j == 2 || !(s[j + 2] == 32 || s[j + 2] == 9)))
            invariant
                n == s@.len(),
                i <= j <= n,
                field_end_from(s@, i as int) == field_end_from(s@, j as int),
            decreases n - j
        {
            j = j + 1;
        }
        let e: usize = if n - j < 2 { n } else { j };
        proof {
            assert(e as int == field_end_from(s@, i as int));
        }
        // split the field at its first colon
        let mut c: usize = i;
        while c < e && s[c] != 58
            invariant
                n == s@.len(),
                e <= n,
                i <= c <= e,
                find_byte_from(s@.subrange(i as int, e as int), 58u8, 0)
                    == find_byte_from(s@.subrange(i as int, e as int), 58u8, c - i),
            decreases e - c
        {
            c = c + 1;
            proof {
                let f = s@.subrange(i as int, e as int);
                assert(f[c - 1 - i] == s@[c - 1]);
            }
        }
        let ghost f = s@.subrange(i as int, e as int);
        if c < e {
            proof {
                assert(f[c - i] == s@[c as int]);
                assert(find_byte_from(f, 58u8, c - i) == c - i);
            }
            let mut name: Vec<u8> = Vec::new();
            let mut k: usize = i;
            proof {
                assert(name@ =~= s@.subrange(i as int, i as int));
            }
            while k < c
                invariant
                    n == s@.len(),
                    i <= k <= c <= n,
                    name@ == s@.subrange(i as int, k as int),
                decreases c - k
            {
                name.push(s[k]);
                k = k + 1;
                proof {
                    assert(s@.subrange(i as int, k as int)
                        =~= s@.subrange(i as int, k - 1).push(s@[k - 1]));
                }
            }
            let mut value: Vec<u8> = Vec::new();
            let mut k2: usize = c + 1;
            proof {
                assert(value@ =~= s@.subrange(c + 1, c + 1));
            }
            while k2 < e
                invariant
                    n == s@.len(),
                    c + 1 <= k2,
                    k2 <= e <= n,
                    value@ == s@.subrange(c + 1, k2 as int),
                decreases e - k2
            {
                value.push(s[k2]);
                k2 = k2 + 1;
                proof {
                    assert(s@.subrange(c + 1, k2 as int)
                        =~= s@.subrange(c + 1, k2 - 1).push(s@[k2 - 1]));
                }
            }
            proof {
                assert(name@ =~= f.take(c - i));
                assert(value@ =~= f.skip(c - i + 1));
            }
            out.push(HeaderField { name, value });
            proof {
                assert(fields_view(out@)
                    =~= fields_view(out@.drop_last()).push((out@.last().name@, out@.last().value@)));
            }
        } else {
            proof {
                assert(c == e);
                assert(find_byte_from(f, 58u8, c - i) == -1) by {
                    assert(c - i >= f.len());
                }
            }
        }
        if e >= n {
            proof {
                assert(parsed_fields_from(s@, i as int)
                    == (if find_byte_from(f, 58u8, 0) >= 0 {
                        seq![(f.take(find_byte_from(f, 58u8, 0)),
                              f.skip(find_byte_from(f, 58u8, 0) + 1))]
                    } else {
                        Seq::<(Seq<u8>, Seq<u8>)>::empty()
                    }));
            }
            i = n;
            proof {
                assert(parsed_fields_from(s@, 0)
                    =~= fields_view(out@) + parsed_fields_from(s@, i as int));
            }
        } else {
            i = e + 2;
            proof {
                assert(parsed_fields_from(s@, 0)
                    =~= fields_view(out@) + parsed_fields_from(s@, i as int));
            }
        }
    }
    proof {
        assert(parsed_fields_from(s@, i as int) =~= Seq::<(Seq<u8>, Seq<u8>)>::empty());
        assert(fields_view(out@) =~= parsed_fields_from(s@, 0));
    }
    out
}

/// Splits a raw e-mail into its header region and its body region at the
/// first blank line.
pub fn split_header_body(raw: &[u8]) -> (r: (Vec<u8>, Vec<u8>))
    ensures
        r.0@ == header_region(raw@),
        r.1@ == body_region(raw@),
{
    let n = raw.len();
    let mut p: usize = 0;
    let mut found: bool = false;
    while !found && n - p >= 4
        invariant
            n == raw@.len(),
            p <= n,
            !found ==> first_blank_from(raw@, 0) == first_blank_from(raw@, p as int),
            found ==> first_blank_from(raw@, 0) == p as int && blank_line_at(raw@, p as int),
        decreases n - p + (if found { 0int } else { 1int })
    {
        if raw[p] == 13 && raw[p + 1] == 10 && raw[p + 2] == 13 && raw[p + 3] == 10 {
            found = true;
        } else {
            p = p + 1;
        }
    }
    proof {
        if !found {
            assert(first_blank_from(raw@, p as int) == -1);
        }
    }
    let mut header: Vec<u8> = Vec::new();
    let mut body: Vec<u8> = Vec::new();
    let hend: usize = if found { p + 2 } else { n };
    let mut k: usize = 0;
    while k < hend
        invariant
            n == raw@.len(),
            hend <= n,
            k <= hend,
            header@ == raw@.take(k as int),
        decreases hend - k
    {
        header.push(raw[k]);
        k = k + 1;
        proof {
            assert(raw@.take(k as int) =~= raw@.take(k - 1).push(raw@[k - 1]));
        }
    }
    if found {
        let mut k2: usize = p + 4;
        while k2 < n
            invariant
                n == raw@.len(),
                p + 4 <= k2 <= n,
                body@ == raw@.subrange(p + 4, k2 as int),
            decreases n - k2
        {
            body.push(raw[k2]);
            k2 = k2 + 1;
            proof {
                assert(raw@.subrange(p + 4, k2 as int)
                    =~= raw@.subrange(p + 4, k2 - 1).push(raw@[k2 - 1]));
            }
        }
        proof {
            assert(body@ =~= raw@.skip(p + 4));
        }
    }
    proof {
        if !found {
            assert(header@ =~= raw@);
            assert(body@ =~= Seq::<u8>::empty());
        }
    }
    (header, body)
}

} // verus!
