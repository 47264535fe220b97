//! DKIM-Signature tag-list parsing (RFC 6376, section 3.2).
//!
//! A tag list is a `;`-separated sequence of `name=value` pairs.  The name
//! is trimmed of folding whitespace; the value is kept twice: with all
//! folding whitespace removed (the comparable value) and as spelled, only
//! trimmed (the raw value, needed to blank the `b=` tag out of the header).

use vstd::prelude::*;
use crate::headers::find_byte_from;
use crate::headers::lemma_find_byte_bounds;

verus! {

/// Folding whitespace: space, tab, CR, LF.
pub open spec fn is_fws_byte(b: u8) -> bool {
    b == 32u8 || b == 9u8 || b == 13u8 || b == 10u8
}

/// Drops trailing folding whitespace.
pub open spec fn trim_end_fws(s: Seq<u8>) -> Seq<u8>
    decreases s.len()
{
    if s.len() > 0 && is_fws_byte(s[s.len() - 1]) {
        trim_end_fws(s.take(s.len() - 1))
    } else {
        s
    }
}

/// Drops leading folding whitespace.
pub open spec fn trim_start_fws(s: Seq<u8>) -> Seq<u8>
    decreases s.len()
{
    if s.len() > 0 && is_fws_byte(s[0]) {
        trim_start_fws(s.skip(1))
    } else {
        s
    }
}

/// Drops folding whitespace at both ends.
pub open spec fn trim_fws(s: Seq<u8>) -> Seq<u8> {
    trim_start_fws(trim_end_fws(s))
}

/// Drops every folding-whitespace byte of `s[i..]`.
pub open spec fn strip_fws_from(s: Seq<u8>, i: int) -> Seq<u8>
    decreases s.len() - i when 0 <= i
{
    if i >= s.len() {
        Seq::empty()
    } else if is_fws_byte(s[i]) {
        strip_fws_from(s, i + 1)
    } else {
        seq![s[i]] + strip_fws_from(s, i + 1)
    }
}

/// The segments of `s[i..]` between occurrences of `sep`.
pub open spec fn split_at_byte_from(s: Seq<u8>, sep: u8, i: int) -> Seq<Seq<u8>>
    decreases s.len() - i when 0 <= i <= s.len() via split_at_byte_from_decreases
{
    let p = find_byte_from(s, sep, i);
    if p == -1 {
        seq![s.subrange(i, s.len() as int)]
    } else {
        seq![s.subrange(i, p)] + split_at_byte_from(s, sep, p + 1)
    }
}

#[via_fn]
proof fn split_at_byte_from_decreases(s: Seq<u8>, sep: u8, i: int) {
    if 0 <= i <= s.len() {
        lemma_find_byte_bounds(s, sep, i);
    }
}

/// One `name=value` segment parsed: (name, stripped value, raw value).
/// Nothing for a segment without `=` or with an empty name.
pub open spec fn parse_tag_seg(seg: Seq<u8>) -> Option<(Seq<u8>, Seq<u8>, Seq<u8>)> {
    let c = find_byte_from(seg, 61u8, 0);
    if c >= 0 {
        let name = trim_fws(seg.take(c));
        if name.len() > 0 {
            Some((name, strip_fws_from(seg.skip(c + 1), 0), trim_fws(seg.skip(c + 1))))
        } else {
            None
        }
    } else {
        None
    }
}

/// The tags of the segments `segs[i..]`, in order.
pub open spec fn parse_tags_segs(segs: Seq<Seq<u8>>, i: int) -> Seq<(Seq<u8>, Seq<u8>, Seq<u8>)>
    decreases segs.len() - i when 0 <= i
{
    if i >= segs.len() {
        Seq::empty()
    } else {
        match parse_tag_seg(segs[i]) {
            Some(t) => seq![t] + parse_tags_segs(segs, i + 1),
            None => parse_tags_segs(segs, i + 1),
        }
    }
}

/// All tags of a DKIM-Signature header value.
pub open spec fn parse_tags_spec(value: Seq<u8>) -> Seq<(Seq<u8>, Seq<u8>, Seq<u8>)> {
    parse_tags_segs(split_at_byte_from(value, 59u8, 0), 0)
}

/// The value of tag `name`: the last occurrence wins, as in a map built
/// by insertion.  Yields (stripped value, raw value).
pub open spec fn tag_lookup(
    tags: Seq<(Seq<u8>, Seq<u8>, Seq<u8>)>,
    name: Seq<u8>,
) -> Option<(Seq<u8>, Seq<u8>)>
    decreases tags.len()
{
    if tags.len() == 0 {
        None
    } else if tags.last().0 == name {
        Some((tags.last().1, tags.last().2))
    } else {
        tag_lookup(tags.drop_last(), name)
    }
}

/// One parsed DKIM tag.
#[derive(Debug, Clone)]
pub struct DkimTag {
    pub name: Vec<u8>,
    pub value: Vec<u8>,
    pub raw_value: Vec<u8>,
}

/// The view of a tag list.
pub open spec fn tags_view(v: Seq<DkimTag>) -> Seq<(Seq<u8>, Seq<u8>, Seq<u8>)> {
    v.map_values(|t: DkimTag| (t.name@, t.value@, t.raw_value@))
}

proof fn lemma_trim_end_fws_prefix(s: Seq<u8>, e: int)
    requires
        0 <= e <= s.len(),
        forall|j: int| e <= j < s.len() ==> is_fws_byte(s[j]),
        e == 0 || !is_fws_byte(s[e - 1]),
    ensures
        trim_end_fws(s) == s.take(e),
    decreases s.len()
{
    if s.len() > 0 && is_fws_byte(s[s.len() - 1]) {
        assert(e < s.len());
        lemma_trim_end_fws_prefix(s.take(s.len() - 1), e);
        assert(s.take(s.len() - 1).take(e) =~= s.take(e));
    } else {
        assert(e == s.len());
        assert(s.take(e) =~= s);
    }
}

proof fn lemma_trim_start_fws_suffix(s: Seq<u8>, a: int)
    requires
        0 <= a <= s.len(),
        forall|j: int| 0 <= j < a ==> is_fws_byte(s[j]),
        a == s.len() || !is_fws_byte(s[a]),
    ensures
        trim_start_fws(s) == s.skip(a),
    decreases a
{
    if a > 0 {
        lemma_trim_start_fws_suffix(s.skip(1), a - 1);
        assert(s.skip(1).skip(a - 1) =~= s.skip(a));
    } else {
        assert(s.skip(0) =~= s);
    }
}

fn is_fws(b: u8) -> (r: bool)
    ensures
        r == is_fws_byte(b),
{
    b == 32 || b == 9 || b == 13 || b == 10
}

/// Trims folding whitespace at both ends.
pub fn trim_fws_bytes(s: &[u8]) -> (r: Vec<u8>)
    ensures
        r@ == trim_fws(s@),
{
    let n = s.len();
    let mut e: usize = n;
    while e > 0 && is_fws(s[e - 1])
        invariant
            n == s@.len(),
            e <= n,
            forall|j: int| e <= j < n ==> is_fws_byte(s@[j]),
        decreases e
    {
        e = e - 1;
    }
    proof {
        lemma_trim_end_fws_prefix(s@, e as int);
    }
    let mut a: usize = 0;
    while a < e && is_fws(s[a])
        invariant
            n == s@.len(),
            a <= e <= n,
            forall|j: int| 0 <= j < a ==> is_fws_byte(s@[j]),
        decreases e - a
    {
        a = a + 1;
    }
    proof {
        lemma_trim_start_fws_suffix(s@.take(e as int), a as int);
    }
    let mut out: Vec<u8> = Vec::new();
    let mut i: usize = a;
    proof {
        assert(out@ =~= s@.subrange(a as int, a as int));
    }
    while i < e
        invariant
            n == s@.len(),
            a <= i <= e <= n,
            out@ == s@.subrange(a as int, i as int),
        decreases e - i
    {
        out.push(s[i]);
        i = i + 1;
        proof {
            assert(s@.subrange(a as int, i as int)
                =~= s@.subrange(a as int, i - 1).push(s@[i - 1]));
        }
    }
    proof {
        assert(s@.take(e as int).skip(a as int) =~= s@.subrange(a as int, e as int));
    }
    out
}

/// Drops every folding-whitespace byte.
pub fn strip_fws_bytes(s: &[u8]) -> (r: Vec<u8>)
    ensures
        r@ == strip_fws_from(s@, 0),
{
    let n = s.len();
    let mut out: Vec<u8> = Vec::new();
    let mut i: usize = 0;
    while i < n
        invariant
            n == s@.len(),
            i <= n,
            strip_fws_from(s@, 0) == out@ + strip_fws_from(s@, i as int),
        decreases n - i
    {
        let b = s[i];
        if !(b == 32 || b == 9 || b == 13 || b == 10) {
            out.push(b);
        }
        i = i + 1;
    }
    proof {
        assert(strip_fws_from(s@, n as int) =~= Seq::<u8>::empty());
        assert(out@ =~= out@ + Seq::<u8>::empty());
    }
    out
}

/// Parses a DKIM-Signature header value into its tag list.
pub fn parse_dkim_tag_list(value: &[u8]) -> (r: Vec<DkimTag>)
    ensures
        tags_view(r@) == parse_tags_spec(value@),
{
    let n = value.len();
    let ghost segs = split_at_byte_from(value@, 59u8, 0);
    let mut out: Vec<DkimTag> = Vec::new();
    let mut i: usize = 0;
    let ghost mut seg_ix: int = 0;
    let mut done: bool = false;
    proof {
        assert(tags_view(out@) =~= Seq::<(Seq<u8>, Seq<u8>, Seq<u8>)>::empty());
        assert(parse_tags_spec(value@) =~= tags_view(out@) + parse_tags_segs(segs, 0));
        assert(segs.skip(0) =~= segs);
    }
    while !done
        invariant
            n == value@.len(),
            i <= n,
            segs == split_at_byte_from(value@, 59u8, 0),
            !done ==> 0 <= seg_ix <= segs.len(),
            !done ==> split_at_byte_from(value@, 59u8, i as int) == segs.skip(seg_ix),
            !done ==> parse_tags_spec(value@)
                == tags_view(out@) + parse_tags_segs(segs, seg_ix),
            done ==> parse_tags_spec(value@) == tags_view(out@),
        decreases n - i + (if done { 0int } else { 1int })
    {
        // find the end of this segment
        let mut p: usize = i;
        while p < n && value[p] != 59
            invariant
                n == value@.len(),
                i <= p <= n,
                find_byte_from(value@, 59u8, i as int) == find_byte_from(value@, 59u8, p as int),
            decreases n - p
        {
            p = p + 1;
        }
        let ghost seg = value@.subrange(i as int, p as int);
        proof {
            if p < n {
                assert(find_byte_from(value@, 59u8, p as int) == p);
            } else {
                assert(find_byte_from(value@, 59u8, p as int) == -1);
            }
            assert(segs.skip(seg_ix) =~= seq![seg]
                + (if p < n { split_at_byte_from(value@, 59u8, p + 1) }
                   else { Seq::<Seq<u8>>::empty() }));
            assert(segs.skip(seg_ix).len() >= 1);
            assert(seg_ix < segs.len());
            assert(segs.skip(seg_ix)[0] == seg);
            assert(segs[seg_ix] == seg);
        }
        // split the segment at its first '='
        let mut c: usize = i;
        while c < p && value[c] != 61
            invariant
                n == value@.len(),
                i <= c <= p <= n,
                find_byte_from(value@.subrange(i as int, p as int), 61u8, 0)
                    == find_byte_from(value@.subrange(i as int, p as int), 61u8, c - i),
            decreases p - c
        {
            c = c + 1;
            proof {
                assert(value@.subrange(i as int, p as int)[c - 1 - i] == value@[c - 1]);
            }
        }
        if c < p {
            proof {
                assert(seg[c - i] == value@[c as int]);
                assert(find_byte_from(seg, 61u8, c - i) == c - i);
            }
            // name part
            let mut namebuf: Vec<u8> = Vec::new();
            let mut k: usize = i;
            proof {
                assert(namebuf@ =~= value@.subrange(i as int, i as int));
            }
            while k < c
                invariant
                    n == value@.len(),
                    i <= k <= c <= n,
                    namebuf@ == value@.subrange(i as int, k as int),
                decreases c - k
            {
                namebuf.push(value[k]);
                k = k + 1;
                proof {
                    assert(value@.subrange(i as int, k as int)
                        =~= value@.subrange(i as int, k - 1).push(value@[k - 1]));
                }
            }
            let mut valbuf: Vec<u8> = Vec::new();
            let mut k2: usize = c + 1;
            proof {
                assert(valbuf@ =~= value@.subrange(c + 1, c + 1));
            }
            while k2 < p
                invariant
                    n == value@.len(),
                    c + 1 <= k2,
                    k2 <= p <= n,
                    valbuf@ == value@.subrange(c + 1, k2 as int),
                decreases p - k2
            {
                valbuf.push(value[k2]);
                k2 = k2 + 1;
                proof {
                    assert(value@.subrange(c + 1, k2 as int)
                        =~= value@.subrange(c + 1, k2 - 1).push(value@[k2 - 1]));
                }
            }
            proof {
                assert(namebuf@ =~= seg.take(c - i));
                assert(valbuf@ =~= seg.skip(c - i + 1));
            }
            let name = trim_fws_bytes(namebuf.as_slice());
            if name.len() > 0 {
                let stripped = strip_fws_bytes(valbuf.as_slice());
                let raw = trim_fws_bytes(valbuf.as_slice());
                out.push(DkimTag { name, value: stripped, raw_value: raw });
                proof {
                    assert(parse_tag_seg(seg)
                        == Some((out@.last().name@, out@.last().value@, out@.last().raw_value@)));
                    assert(tags_view(out@)
                        =~= tags_view(out@.drop_last()).push(
                            (out@.last().name@, out@.last().value@, out@.last().raw_value@)));
                }
            } else {
                proof {
                    assert(parse_tag_seg(seg) is None);
                }
            }
        } else {
            proof {
                assert(c == p);
                assert(find_byte_from(seg, 61u8, c - i) == -1) by {
                    assert(c - i >= seg.len());
                }
                assert(parse_tag_seg(seg) is None);
            }
        }
        if p < n {
            i = p + 1;
            proof {
                seg_ix = seg_ix + 1;
                assert(segs.skip(seg_ix - 1).skip(1) =~= segs.skip(seg_ix));
                assert(parse_tags_segs(segs, seg_ix - 1)
                    == (match parse_tag_seg(segs[seg_ix - 1]) {
                        Some(t) => seq![t] + parse_tags_segs(segs, seg_ix),
                        None => parse_tags_segs(segs, seg_ix),
                    }));
                assert(parse_tags_spec(value@)
                    =~= tags_view(out@) + parse_tags_segs(segs, seg_ix));
            }
        } else {
            done = true;
            proof {
                assert(segs.skip(seg_ix) =~= seq![seg]);
                assert(parse_tags_segs(segs, seg_ix + 1) =~= Seq::<(Seq<u8>, Seq<u8>, Seq<u8>)>::empty());
                assert(parse_tags_spec(value@) =~= tags_view(out@));
            }
        }
    }
    out
}

/// Finds the index of tag `name`, where the last occurrence wins.
pub fn find_tag(tags: &Vec<DkimTag>, name: &[u8]) -> (r: Option<usize>)
    ensures
        match r {
            Some(ix) => ix < tags@.len()
                && tags@[ix as int].name@ == name@
                && tag_lookup(tags_view(tags@), name@)
                    == Some((tags@[ix as int].value@, tags@[ix as int].raw_value@)),
            None => tag_lookup(tags_view(tags@), name@) is None,
        },
{
    let n = tags.len();
    let mut k: usize = n;
    proof {
        assert(tags_view(tags@).take(n as int) =~= tags_view(tags@));
    }
    while k > 0
        invariant
            n == tags@.len(),
            k <= n,
            tag_lookup(tags_view(tags@), name@)
                == tag_lookup(tags_view(tags@).take(k as int), name@),
        decreases k
    {
        k = k - 1;
        if crate::canon::bytes_eq(tags[k].name.as_slice(), name) {
            proof {
                let tv = tags_view(tags@).take(k + 1);
                assert(tv.last() == (tags@[k as int].name@, tags@[k as int].value@,
                    tags@[k as int].raw_value@));
            }
            return Some(k);
        }
        proof {
            let tv = tags_view(tags@).take(k + 1);
            assert(tv.last().0 != name@);
            assert(tv.drop_last() =~= tags_view(tags@).take(k as int));
        }
    }
    proof {
        assert(tags_view(tags@).take(0) =~= Seq::<(Seq<u8>, Seq<u8>, Seq<u8>)>::empty());
    }
    None
}

} // verus!
