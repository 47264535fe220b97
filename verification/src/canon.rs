//! DKIM relaxed canonicalization of header fields and of the message body
//! (RFC 6376, sections 3.4.2 and 3.4.4), together with the small byte
//! helpers the rest of the library shares.

use vstd::prelude::*;

verus! {

/// Lower-cases one ASCII byte.
pub open spec fn lower_byte(b: u8) -> u8 {
    if 65 <= b && b <= 90 {
        (b + 32) as u8
    } else {
        b
    }
}

/// Lower-cases a byte string, ASCII letters only.
pub open spec fn ascii_lower(s: Seq<u8>) -> Seq<u8> {
    s.map_values(|b: u8| lower_byte(b))
}

/// Tabs become spaces.
pub open spec fn tabs_to_spaces(s: Seq<u8>) -> Seq<u8> {
    s.map_values(|b: u8| if b == 9u8 { 32u8 } else { b })
}

/// Collapses runs of spaces in `s[i..]` to a single space; `prev` says
/// whether the byte before `s[i]` was a space.
pub open spec fn collapse_sp_from(s: Seq<u8>, i: int, prev: bool) -> Seq<u8>
    decreases s.len() - i when 0 <= i
{
    if i >= s.len() {
        Seq::empty()
    } else if s[i] == 32u8 && prev {
        collapse_sp_from(s, i + 1, true)
    } else if s[i] == 32u8 {
        seq![32u8] + collapse_sp_from(s, i + 1, true)
    } else {
        seq![s[i]] + collapse_sp_from(s, i + 1, false)
    }
}

/// Drops a space that stands directly before a CRLF, over `s[i..]`.
pub open spec fn strip_eol_sp_from(s: Seq<u8>, i: int) -> Seq<u8>
    decreases s.len() - i when 0 <= i
{
    if i >= s.len() {
        Seq::empty()
    } else if s[i] == 32u8 && i + 3 <= s.len() && s[i + 1] == 13u8 && s[i + 2] == 10u8 {
        strip_eol_sp_from(s, i + 1)
    } else {
        seq![s[i]] + strip_eol_sp_from(s, i + 1)
    }
}

/// Drops CRLF pairs from `s[i..]`.
pub open spec fn remove_crlf_from(s: Seq<u8>, i: int) -> Seq<u8>
    decreases s.len() - i when 0 <= i
{
    if i >= s.len() {
        Seq::empty()
    } else if s[i] == 13u8 && i + 2 <= s.len() && s[i + 1] == 10u8 {
        remove_crlf_from(s, i + 2)
    } else {
        seq![s[i]] + remove_crlf_from(s, i + 1)
    }
}

/// Removes trailing empty lines: while the string ends in two CRLFs, the
/// last one goes.
pub open spec fn strip_trailing_empty_lines(s: Seq<u8>) -> Seq<u8>
    decreases s.len()
{
    if s.len() >= 4 && s[s.len() - 4] == 13u8 && s[s.len() - 3] == 10u8
        && s[s.len() - 2] == 13u8 && s[s.len() - 1] == 10u8 {
        strip_trailing_empty_lines(s.take(s.len() - 2))
    } else {
        s
    }
}

/// Whether `s` ends with CRLF.
pub open spec fn ends_with_crlf(s: Seq<u8>) -> bool {
    s.len() >= 2 && s[s.len() - 2] == 13u8 && s[s.len() - 1] == 10u8
}

/// A non-empty body that does not end with CRLF gets one.
pub open spec fn add_final_crlf(s: Seq<u8>) -> Seq<u8> {
    if s.len() > 0 && !ends_with_crlf(s) {
        s + seq![13u8, 10u8]
    } else {
        s
    }
}

/// Drops trailing spaces.
pub open spec fn trim_end_sp(s: Seq<u8>) -> Seq<u8>
    decreases s.len()
{
    if s.len() > 0 && s[s.len() - 1] == 32u8 {
        trim_end_sp(s.take(s.len() - 1))
    } else {
        s
    }
}

/// Drops leading spaces.
pub open spec fn trim_start_sp(s: Seq<u8>) -> Seq<u8>
    decreases s.len()
{
    if s.len() > 0 && s[0] == 32u8 {
        trim_start_sp(s.skip(1))
    } else {
        s
    }
}

/// The relaxed canonical form of a body: tabs to spaces, space runs
/// collapsed, line-end spaces dropped, trailing empty lines dropped, and a
/// final CRLF supplied on a non-empty body.
pub open spec fn body_relaxed(s: Seq<u8>) -> Seq<u8> {
    add_final_crlf(strip_trailing_empty_lines(
        strip_eol_sp_from(collapse_sp_from(tabs_to_spaces(s), 0, false), 0)))
}

/// The relaxed canonical form of a header value: tabs to spaces, unfolded,
/// trimmed, space runs collapsed.
pub open spec fn header_value_relaxed(v: Seq<u8>) -> Seq<u8> {
    collapse_sp_from(trim_start_sp(trim_end_sp(remove_crlf_from(tabs_to_spaces(v), 0))), 0, false)
}

/// Whitespace at the end of a header name: space, tab, CR, LF.
pub open spec fn is_name_wsp(b: u8) -> bool {
    b == 32u8 || b == 9u8 || b == 13u8 || b == 10u8
}

/// Drops trailing whitespace from a header name.
pub open spec fn trim_end_wsp(s: Seq<u8>) -> Seq<u8>
    decreases s.len()
{
    if s.len() > 0 && is_name_wsp(s[s.len() - 1]) {
        trim_end_wsp(s.take(s.len() - 1))
    } else {
        s
    }
}

/// The relaxed canonical form of a whole header field.
pub open spec fn header_relaxed(key: Seq<u8>, value: Seq<u8>) -> Seq<u8> {
    ascii_lower(trim_end_wsp(key)) + seq![58u8] + header_value_relaxed(value) + seq![13u8, 10u8]
}

/// Byte-string equality.
pub fn bytes_eq(a: &[u8], b: &[u8]) -> (r: bool)
    ensures
        r == (a@ == b@),
{
    if a.len() != b.len() {
        return false;
    }
    let n = a.len();
    let mut i: usize = 0;
    while i < n
        invariant
            n == a@.len() == b@.len(),
            i <= n,
            forall|j: int| 0 <= j < i ==> a@[j] == b@[j],
        decreases n - i
    {
        if a[i] != b[i] {
            return false;
        }
        i = i + 1;
    }
    proof {
        assert(a@ =~= b@);
    }
    true
}

/// ASCII case-insensitive byte-string equality.
pub fn bytes_eq_ignore_ascii_case(a: &[u8], b: &[u8]) -> (r: bool)
    ensures
        r == (ascii_lower(a@) == ascii_lower(b@)),
{
    if a.len() != b.len() {
        proof {
            assert(ascii_lower(a@).len() != ascii_lower(b@).len());
        }
        return false;
    }
    let n = a.len();
    let mut i: usize = 0;
    while i < n
        invariant
            n == a@.len() == b@.len(),
            i <= n,
            forall|j: int| 0 <= j < i
                ==> #[trigger] lower_byte(a@[j]) == lower_byte(b@[j]),
        decreases n - i
    {
        let x = a[i];
        let y = b[i];
        let xl = if 65 <= x && x <= 90 { x + 32 } else { x };
        let yl = if 65 <= y && y <= 90 { y + 32 } else { y };
        if xl != yl {
            proof {
                assert(ascii_lower(a@)[i as int] != ascii_lower(b@)[i as int]);
            }
            return false;
        }
        i = i + 1;
    }
    proof {
        assert(ascii_lower(a@) =~= ascii_lower(b@));
    }
    true
}

/// Lower-cases ASCII letters of a byte string.
pub fn to_ascii_lowercase_bytes(s: &[u8]) -> (r: Vec<u8>)
    ensures
        r@ == ascii_lower(s@),
{
    let mut out: Vec<u8> = Vec::new();
    let n = s.len();
    let mut i: usize = 0;
    while i < n
        invariant
            n == s@.len(),
            i <= n,
            out@ == ascii_lower(s@.take(i as int)),
        decreases n - i
    {
        let b = s[i];
        if 65 <= b && b <= 90 {
            out.push(b + 32);
        } else {
            out.push(b);
        }
        i = i + 1;
        proof {
            assert(ascii_lower(s@.take(i as int))
                =~= ascii_lower(s@.take(i - 1)).push(lower_byte(s@[i - 1])));
        }
    }
    proof {
        assert(s@.take(n as int) =~= s@);
    }
    out
}

fn pass_tabs_to_spaces(s: &[u8]) -> (r: Vec<u8>)
    ensures
        r@ == tabs_to_spaces(s@),
{
    let mut out: Vec<u8> = Vec::new();
    let n = s.len();
    let mut i: usize = 0;
    while i < n
        invariant
            n == s@.len(),
            i <= n,
            out@ == tabs_to_spaces(s@.take(i as int)),
        decreases n - i
    {
        let b = s[i];
        if b == 9 {
            out.push(32);
        } else {
            out.push(b);
        }
        i = i + 1;
        proof {
            assert(tabs_to_spaces(s@.take(i as int))
                =~= tabs_to_spaces(s@.take(i - 1)).push(
                    if s@[i - 1] == 9u8 { 32u8 } else { s@[i - 1] }));
        }
    }
    proof {
        assert(s@.take(n as int) =~= s@);
    }
    out
}

fn pass_collapse_sp(s: &[u8]) -> (r: Vec<u8>)
    ensures
        r@ == collapse_sp_from(s@, 0, false),
{
    let mut out: Vec<u8> = Vec::new();
    let n = s.len();
    let mut i: usize = 0;
    let mut prev: bool = false;
    while i < n
        invariant
            n == s@.len(),
            i <= n,
            collapse_sp_from(s@, 0, false) == out@ + collapse_sp_from(s@, i as int, prev),
        decreases n - i
    {
        let b = s[i];
        if b == 32 {
            if !prev {
                out.push(32);
                prev = true;
            }
        } else {
            out.push(b);
            prev = false;
        }
        i = i + 1;
        proof {
            if out@.len() > 0 {
                assert(out@.drop_last() + (seq![out@.last()] + collapse_sp_from(s@, i as int, prev))
                    =~= out@ + collapse_sp_from(s@, i as int, prev));
            }
        }
    }
    proof {
        assert(collapse_sp_from(s@, n as int, prev) =~= Seq::<u8>::empty());
        assert(out@ =~= out@ + Seq::<u8>::empty());
    }
    out
}

fn pass_strip_eol_sp(s: &[u8]) -> (r: Vec<u8>)
    ensures
        r@ == strip_eol_sp_from(s@, 0),
{
    let mut out: Vec<u8> = Vec::new();
    let n = s.len();
    let mut i: usize = 0;
    while i < n
        invariant
            n == s@.len(),
            i <= n,
            strip_eol_sp_from(s@, 0) == out@ + strip_eol_sp_from(s@, i as int),
        decreases n - i
    {
        let b = s[i];
        if b == 32 && n - i >= 3 && s[i + 1] == 13 && s[i + 2] == 10 {
            // line-end space: dropped
        } else {
            out.push(b);
        }
        i = i + 1;
        proof {
            assert(strip_eol_sp_from(s@, 0) == out@ + strip_eol_sp_from(s@, i as int));
        }
    }
    proof {
        assert(strip_eol_sp_from(s@, n as int) =~= Seq::<u8>::empty());
        assert(out@ =~= out@ + Seq::<u8>::empty());
    }
    out
}

fn pass_remove_crlf(s: &[u8]) -> (r: Vec<u8>)
    ensures
        r@ == remove_crlf_from(s@, 0),
{
    let mut out: Vec<u8> = Vec::new();
    let n = s.len();
    let mut i: usize = 0;
    while i < n
        invariant
            n == s@.len(),
            i <= n,
            remove_crlf_from(s@, 0) == out@ + remove_crlf_from(s@, i as int),
        decreases n - i
    {
        if s[i] == 13 && n - i >= 2 && s[i + 1] == 10 {
            i = i + 2;
        } else {
            out.push(s[i]);
            i = i + 1;
        }
    }
    proof {
        assert(remove_crlf_from(s@, n as int) =~= Seq::<u8>::empty());
        assert(out@ =~= out@ + Seq::<u8>::empty());
    }
    out
}

proof fn lemma_trim_end_sp_prefix(s: Seq<u8>, e: int)
    requires
        0 <= e <= s.len(),
        forall|j: int| e <= j < s.len() ==> s[j] == 32u8,
        e == 0 || s[e - 1] != 32u8,
    ensures
        trim_end_sp(s) == s.take(e),
    decreases s.len()
{
    if s.len() > 0 && s[s.len() - 1] == 32u8 {
        assert(e < s.len());
        lemma_trim_end_sp_prefix(s.take(s.len() - 1), e);
        assert(s.take(s.len() - 1).take(e) =~= s.take(e));
    } else {
        assert(e == s.len());
        assert(s.take(e) =~= s);
    }
}

proof fn lemma_trim_start_sp_suffix(s: Seq<u8>, a: int)
    requires
        0 <= a <= s.len(),
        forall|j: int| 0 <= j < a ==> s[j] == 32u8,
        a == s.len() || s[a] != 32u8,
    ensures
        trim_start_sp(s) == s.skip(a),
    decreases a
{
    if a > 0 {
        assert(s[0] == 32u8);
        lemma_trim_start_sp_suffix(s.skip(1), a - 1);
        assert(s.skip(1).skip(a - 1) =~= s.skip(a));
    } else {
        assert(s.skip(0) =~= s);
    }
}

/// Trims leading and trailing spaces.
fn pass_trim_sp(s: &[u8]) -> (r: Vec<u8>)
    ensures
        r@ == trim_start_sp(trim_end_sp(s@)),
{
    let n = s.len();
    let mut e: usize = n;
    while e > 0 && s[e - 1] == 32
        invariant
            n == s@.len(),
            e <= n,
            forall|j: int| e <= j < n ==> s@[j] == 32u8,
        decreases e
    {
        e = e - 1;
    }
    proof {
        lemma_trim_end_sp_prefix(s@, e as int);
    }
    let mut a: usize = 0;
    while a < e && s[a] == 32
        invariant
            n == s@.len(),
            a <= e <= n,
            forall|j: int| 0 <= j < a ==> s@[j] == 32u8,
        decreases e - a
    {
        a = a + 1;
    }
    proof {
        lemma_trim_start_sp_suffix(s@.take(e as int), a as int);
    }
    let mut out: Vec<u8> = Vec::new();
    let mut i: usize = a;
    while i < e
        invariant
            n == s@.len(),
            a <= e <= n,
            a <= i <= e,
            out@ == s@.subrange(a as int, i as int),
        decreases e - i
    {
        out.push(s[i]);
        i = i + 1;
        proof {
            assert(s@.subrange(a as int, i as int)
                =~= s@.subrange(a as int, i - 1).push(s@[i - 1]));
        }
    }
    proof {
        assert(s@.take(e as int).skip(a as int) =~= s@.subrange(a as int, e as int));
    }
    out
}

fn pass_strip_trailing_empty_lines(s: &[u8]) -> (r: Vec<u8>)
    ensures
        r@ == strip_trailing_empty_lines(s@),
{
    let n = s.len();
    let mut m: usize = n;
    proof {
        assert(s@.take(n as int) =~= s@);
    }
    while m >= 4 && s[m - 4] == 13 && s[m - 3] == 10 && s[m - 2] == 13 && s[m - 1] == 10
        invariant
            n == s@.len(),
            m <= n,
            strip_trailing_empty_lines(s@) == strip_trailing_empty_lines(s@.take(m as int)),
        decreases m
    {
        proof {
            let t = s@.take(m as int);
            assert(t.take(t.len() - 2) =~= s@.take(m - 2));
        }
        m = m - 2;
    }
    proof {
        let t = s@.take(m as int);
        assert(strip_trailing_empty_lines(t) == t);
    }
    let mut out: Vec<u8> = Vec::new();
    let mut i: usize = 0;
    while i < m
        invariant
            n == s@.len(),
            m <= n,
            i <= m,
            out@ == s@.take(i as int),
        decreases m - i
    {
        out.push(s[i]);
        i = i + 1;
        proof {
            assert(s@.take(i as int) =~= s@.take(i - 1).push(s@[i - 1]));
        }
    }
    out
}

/// Canonicalizes a message body with the relaxed algorithm of RFC 6376.
pub fn canonicalize_body_relaxed(body: &[u8]) -> (r: Vec<u8>)
    ensures
        r@ == body_relaxed(body@),
{
    let t = pass_tabs_to_spaces(body);
    let c = pass_collapse_sp(t.as_slice());
    let e = pass_strip_eol_sp(c.as_slice());
    let mut s = pass_strip_trailing_empty_lines(e.as_slice());
    let n = s.len();
    if n > 0 && !(n >= 2 && s[n - 2] == 13 && s[n - 1] == 10) {
        s.push(13);
        s.push(10);
        proof {
            assert(s@ =~= s@.subrange(0, s@.len() - 2) + seq![13u8, 10u8]);
        }
    }
    s
}

/// Canonicalizes one header field with the relaxed algorithm of RFC 6376:
/// lower-cased name, unfolded and collapsed value, `name:value` and CRLF.
pub fn canonicalize_header_relaxed(key: &[u8], value: &[u8]) -> (r: Vec<u8>)
    ensures
        r@ == header_relaxed(key@, value@),
{
    let kt = pass_trim_end_only(key);
    let mut out = to_ascii_lowercase_bytes(kt.as_slice());
    out.push(58);
    let v1 = pass_tabs_to_spaces(value);
    let v2 = pass_remove_crlf(v1.as_slice());
    let v3 = pass_trim_sp(v2.as_slice());
    let v4 = pass_collapse_sp(v3.as_slice());
    let mut i: usize = 0;
    let m = v4.len();
    let ghost head = out@;
    while i < m
        invariant
            m == v4@.len(),
            i <= m,
            out@ == head + v4@.take(i as int),
        decreases m - i
    {
        out.push(v4[i]);
        i = i + 1;
        proof {
            assert(v4@.take(i as int) =~= v4@.take(i - 1).push(v4@[i - 1]));
        }
    }
    out.push(13);
    out.push(10);
    proof {
        assert(v4@.take(m as int) =~= v4@);
        assert(out@ =~= header_relaxed(key@, value@));
    }
    out
}

proof fn lemma_trim_end_wsp_prefix(s: Seq<u8>, e: int)
    requires
        0 <= e <= s.len(),
        forall|j: int| e <= j < s.len() ==> is_name_wsp(s[j]),
        e == 0 || !is_name_wsp(s[e - 1]),
    ensures
        trim_end_wsp(s) == s.take(e),
    decreases s.len()
{
    if s.len() > 0 && is_name_wsp(s[s.len() - 1]) {
        assert(e < s.len());
        lemma_trim_end_wsp_prefix(s.take(s.len() - 1), e);
        assert(s.take(s.len() - 1).take(e) =~= s.take(e));
    } else {
        assert(e == s.len());
        assert(s.take(e) =~= s);
    }
}

/// Trims trailing header-name whitespace only.
fn pass_trim_end_only(s: &[u8]) -> (r: Vec<u8>)
    ensures
        r@ == trim_end_wsp(s@),
{
    let n = s.len();
    let mut e: usize = n;
    while e > 0 && (s[e - 1] == 32 || s[e - 1] == 9 || s[e - 1] == 13 || s[e - 1] == 10)
        invariant
            n == s@.len(),
            e <= n,
            forall|j: int| e <= j < n ==> is_name_wsp(s@[j]),
        decreases e
    {
        e = e - 1;
    }
    proof {
        lemma_trim_end_wsp_prefix(s@, e as int);
    }
    let mut out: Vec<u8> = Vec::new();
    let mut i: usize = 0;
    while i < e
        invariant
            n == s@.len(),
            e <= n,
            i <= e,
            out@ == s@.take(i as int),
        decreases e - i
    {
        out.push(s[i]);
        i = i + 1;
        proof {
            assert(s@.take(i as int) =~= s@.take(i - 1).push(s@[i - 1]));
        }
    }
    out
}

} // verus!
