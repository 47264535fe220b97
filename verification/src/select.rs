//! Assembling the signed header block: the `h=` name list, bottom-up header
//! selection with per-name cursors, blanking of the `b=` value, and the
//! concatenation that is hashed (RFC 6376, section 3.7).

use vstd::prelude::*;
use crate::canon::ascii_lower;
use crate::canon::header_relaxed;
use crate::canon::to_ascii_lowercase_bytes;
use crate::headers::find_byte_from;
use crate::headers::fields_view;
use crate::headers::HeaderField;
use crate::tags::split_at_byte_from;
use crate::tags::parse_tags_spec;
use crate::tags::tag_lookup;

verus! {

/// `dkim-signature`, the lower-cased name of the signature header.
pub open spec fn dkim_sig_lower() -> Seq<u8> {
    seq![100u8, 107u8, 105u8, 109u8, 45u8, 115u8, 105u8, 103u8, 110u8, 97u8, 116u8, 117u8, 114u8, 101u8]
}

/// Builds the `dkim-signature` name at run time.
pub fn dkim_sig_lower_bytes() -> (r: Vec<u8>)
    ensures
        r@ == dkim_sig_lower(),
{
    let v: Vec<u8> = vec![100u8, 107u8, 105u8, 109u8, 45u8, 115u8, 105u8, 103u8, 110u8, 97u8,
        116u8, 117u8, 114u8, 101u8];
    proof {
        assert(v@ =~= dkim_sig_lower());
    }
    v
}

/// `s` with every occurrence of `pat` removed, scanning left to right, over
/// `s[i..]`.
pub open spec fn remove_sub_from(s: Seq<u8>, pat: Seq<u8>, i: int) -> Seq<u8>
    decreases s.len() - i when 0 <= i && 1 <= pat.len()
{
    if i >= s.len() {
        Seq::empty()
    } else if i + pat.len() <= s.len() && s.subrange(i, i + pat.len() as int) == pat {
        remove_sub_from(s, pat, i + pat.len() as int)
    } else {
        seq![s[i]] + remove_sub_from(s, pat, i + 1)
    }
}

/// `s` with every occurrence of `pat` removed; an empty pattern removes
/// nothing.
pub open spec fn remove_all_sub(s: Seq<u8>, pat: Seq<u8>) -> Seq<u8> {
    if pat.len() == 0 {
        s
    } else {
        remove_sub_from(s, pat, 0)
    }
}

/// Whether `pat` occurs at position `i` of `s`.
pub(crate) fn matches_at(s: &[u8], pat: &[u8], i: usize) -> (r: bool)
    requires
        i <= s@.len(),
    ensures
        r == (i + pat@.len() <= s@.len()
            && s@.subrange(i as int, i + pat@.len() as int) == pat@),
{
    let m = pat.len();
    let sl = s.len();
    if sl - i < m {
        return false;
    }
    let mut k: usize = 0;
    while k < m
        invariant
            m == pat@.len(),
            sl == s@.len(),
            i + m <= sl,
            k <= m,
            forall|j: int| 0 <= j < k ==> s@[i + j] == pat@[j],
        decreases m - k
    {
        proof {
            assert(i + k < sl);
        }
        if s[i + k] != pat[k] {
            proof {
                assert(s@.subrange(i as int, i + pat@.len() as int)[k as int] == s@[i + k]);
            }
            return false;
        }
        k = k + 1;
    }
    proof {
        assert(s@.subrange(i as int, i + pat@.len() as int) =~= pat@);
    }
    true
}

/// Removes every occurrence of `pat` from `s`.
pub fn remove_all_sub_bytes(s: &[u8], pat: &[u8]) -> (r: Vec<u8>)
    ensures
        r@ == remove_all_sub(s@, pat@),
{
    let n = s.len();
    let m = pat.len();
    let mut out: Vec<u8> = Vec::new();
    if m == 0 {
        let mut i: usize = 0;
        proof {
            assert(out@ =~= s@.take(0));
        }
        while i < n
            invariant
                n == s@.len(),
                i <= n,
                out@ == s@.take(i as int),
            decreases n - i
        {
            out.push(s[i]);
            i = i + 1;
            proof {
                assert(s@.take(i as int) =~= s@.take(i - 1).push(s@[i - 1]));
            }
        }
        proof {
            assert(s@.take(n as int) =~= s@);
        }
        return out;
    }
    let mut i: usize = 0;
    while i < n
        invariant
            n == s@.len(),
            m == pat@.len(),
            1 <= m,
            i <= n,
            remove_sub_from(s@, pat@, 0) == out@ + remove_sub_from(s@, pat@, i as int),
        decreases n - i
    {
        if matches_at(s, pat, i) {
            i = i + m;
        } else {
            out.push(s[i]);
            i = i + 1;
        }
    }
    proof {
        assert(remove_sub_from(s@, pat@, n as int) =~= Seq::<u8>::empty());
        assert(out@ =~= out@ + Seq::<u8>::empty());
    }
    out
}

/// The signed header names: the `h=` value split on `:`, lower-cased.
pub open spec fn names_of_h(h: Seq<u8>) -> Seq<Seq<u8>> {
    split_at_byte_from(h, 58u8, 0).map_values(|x: Seq<u8>| ascii_lower(x))
}

/// Splits an `h=` value into its lower-cased header names.
pub fn split_h_names(h: &[u8]) -> (r: Vec<Vec<u8>>)
    ensures
        r@.map_values(|x: Vec<u8>| x@) == names_of_h(h@),
{
    let n = h.len();
    let ghost segs = split_at_byte_from(h@, 58u8, 0);
    let mut out: Vec<Vec<u8>> = Vec::new();
    let mut i: usize = 0;
    let ghost mut seg_ix: int = 0;
    let mut done: bool = false;
    proof {
        assert(segs.skip(0) =~= segs);
        assert(out@.map_values(|x: Vec<u8>| x@)
            =~= names_of_h(h@).take(0));
    }
    while !done
        invariant
            n == h@.len(),
            i <= n,
            segs == split_at_byte_from(h@, 58u8, 0),
            !done ==> 0 <= seg_ix <= segs.len(),
            !done ==> split_at_byte_from(h@, 58u8, i as int) == segs.skip(seg_ix),
            !done ==> out@.map_values(|x: Vec<u8>| x@) == names_of_h(h@).take(seg_ix),
            done ==> out@.map_values(|x: Vec<u8>| x@) == names_of_h(h@),
        decreases n - i + (if done { 0int } else { 1int })
    {
        let mut p: usize = i;
        while p < n && h[p] != 58
            invariant
                n == h@.len(),
                i <= p <= n,
                find_byte_from(h@, 58u8, i as int) == find_byte_from(h@, 58u8, p as int),
            decreases n - p
        {
            p = p + 1;
        }
        let ghost seg = h@.subrange(i as int, p as int);
        proof {
            if p < n {
                assert(find_byte_from(h@, 58u8, p as int) == p);
            } else {
                assert(find_byte_from(h@, 58u8, p as int) == -1);
            }
            assert(segs.skip(seg_ix) =~= seq![seg]
                + (if p < n { split_at_byte_from(h@, 58u8, p + 1) }
                   else { Seq::<Seq<u8>>::empty() }));
            assert(segs.skip(seg_ix).len() >= 1);
            assert(seg_ix < segs.len());
            assert(segs.skip(seg_ix)[0] == seg);
            assert(segs[seg_ix] == seg);
        }
        let mut buf: Vec<u8> = Vec::new();
        let mut k: usize = i;
        proof {
            assert(buf@ =~= h@.subrange(i as int, i as int));
        }
        while k < p
            invariant
                n == h@.len(),
                i <= k <= p <= n,
                buf@ == h@.subrange(i as int, k as int),
            decreases p - k
        {
            buf.push(h[k]);
            k = k + 1;
            proof {
                assert(h@.subrange(i as int, k as int)
                    =~= h@.subrange(i as int, k - 1).push(h@[k - 1]));
            }
        }
        let lowered = to_ascii_lowercase_bytes(buf.as_slice());
        out.push(lowered);
        proof {
            assert(out@.map_values(|x: Vec<u8>| x@)
                =~= out@.drop_last().map_values(|x: Vec<u8>| x@).push(out@.last()@));
            assert(names_of_h(h@)[seg_ix] == ascii_lower(seg));
            assert(names_of_h(h@).take(seg_ix + 1)
                =~= names_of_h(h@).take(seg_ix).push(names_of_h(h@)[seg_ix]));
        }
        if p < n {
            i = p + 1;
            proof {
                seg_ix = seg_ix + 1;
                assert(segs.skip(seg_ix - 1).skip(1) =~= segs.skip(seg_ix));
                assert((seq![seg] + split_at_byte_from(h@, 58u8, i as int)).skip(1)
                    =~= split_at_byte_from(h@, 58u8, i as int));
            }
        } else {
            done = true;
            proof {
                assert(seg_ix + 1 == segs.len());
                assert(names_of_h(h@).take(seg_ix + 1) =~= names_of_h(h@));
            }
        }
    }
    out
}

/// Looks a name up in the selection cursor list; the last entry wins.
pub open spec fn assoc_find(m: Seq<(Seq<u8>, int)>, key: Seq<u8>) -> Option<int>
    decreases m.len()
{
    if m.len() == 0 {
        None
    } else if m.last().0 == key {
        Some(m.last().1)
    } else {
        assoc_find(m.drop_last(), key)
    }
}

/// The index of the last header named `name` strictly below `below`, or -1.
pub open spec fn sel_index(fields: Seq<(Seq<u8>, Seq<u8>)>, name: Seq<u8>, below: int) -> int
    decreases below when below <= fields.len()
{
    if below <= 0 {
        -1
    } else if ascii_lower(fields[below - 1].0) == ascii_lower(name) {
        below - 1
    } else {
        sel_index(fields, name, below - 1)
    }
}

/// The headers selected for hashing, per the `h=` names from `names[i..]`:
/// for each name, the next unused header of that name from the bottom up.
pub open spec fn select_rec(
    fields: Seq<(Seq<u8>, Seq<u8>)>,
    names: Seq<Seq<u8>>,
    i: int,
    m: Seq<(Seq<u8>, int)>,
) -> Seq<(Seq<u8>, Seq<u8>)>
    decreases names.len() - i when 0 <= i
{
    if i >= names.len() {
        Seq::empty()
    } else {
        let nm = names[i];
        let below = match assoc_find(m, nm) {
            Some(b) => b,
            None => fields.len() as int,
        };
        let j = sel_index(fields, nm, if below <= fields.len() { below } else { fields.len() as int });
        if j >= 0 {
            seq![fields[j]] + select_rec(fields, names, i + 1, m.push((nm, j)))
        } else {
            select_rec(fields, names, i + 1, m.push((nm, 0)))
        }
    }
}

/// Selects the signed headers, bottom up with per-name cursors.
pub fn select_headers(fields: &Vec<HeaderField>, names: &Vec<Vec<u8>>) -> (r: Vec<HeaderField>)
    ensures
        fields_view(r@) == select_rec(
            fields_view(fields@),
            names@.map_values(|x: Vec<u8>| x@),
            0,
            Seq::empty(),
        ),
{
    let nf = fields.len();
    let nn = names.len();
    let ghost fv = fields_view(fields@);
    let ghost nv = names@.map_values(|x: Vec<u8>| x@);
    let mut cursors: Vec<(Vec<u8>, usize)> = Vec::new();
    let mut out: Vec<HeaderField> = Vec::new();
    let mut i: usize = 0;
    proof {
        assert(cursors@.map_values(|c: (Vec<u8>, usize)| (c.0@, c.1 as int))
            =~= Seq::<(Seq<u8>, int)>::empty());
        assert(fields_view(out@) =~= Seq::<(Seq<u8>, Seq<u8>)>::empty());
        assert(select_rec(fv, nv, 0, Seq::empty())
            =~= fields_view(out@) + select_rec(fv, nv, 0,
                cursors@.map_values(|c: (Vec<u8>, usize)| (c.0@, c.1 as int))));
    }
    while i < nn
        invariant
            nf == fields@.len(),
            nn == names@.len(),
            fv == fields_view(fields@),
            nv == names@.map_values(|x: Vec<u8>| x@),
            i <= nn,
            forall|c: int| 0 <= c < cursors@.len() ==> #[trigger] cursors@[c].1 <= nf,
            select_rec(fv, nv, 0, Seq::empty())
                == fields_view(out@) + select_rec(fv, nv, i as int,
                    cursors@.map_values(|c: (Vec<u8>, usize)| (c.0@, c.1 as int))),
        decreases nn - i
    {
        let ghost m = cursors@.map_values(|c: (Vec<u8>, usize)| (c.0@, c.1 as int));
        let name = &names[i];
        // cursor lookup, last entry wins
        let mut below: usize = nf;
        let mut found: bool = false;
        let mut k: usize = cursors.len();
        proof {
            assert(m.take(cursors@.len() as int) =~= m);
        }
        while k > 0 && !found
            invariant
                k <= cursors@.len(),
                forall|c: int| 0 <= c < cursors@.len() ==> #[trigger] cursors@[c].1 <= nf,
                !found ==> assoc_find(m, name@) == assoc_find(m.take(k as int), name@),
                found ==> assoc_find(m, name@) == Some(below as int),
                !found ==> below == nf,
                below <= nf,
                m == cursors@.map_values(|c: (Vec<u8>, usize)| (c.0@, c.1 as int)),
            decreases k
        {
            k = k - 1;
            if crate::canon::bytes_eq(cursors[k].0.as_slice(), name.as_slice()) {
                below = cursors[k].1;
                found = true;
                proof {
                    assert(m.take(k + 1).last() == (cursors@[k as int].0@, cursors@[k as int].1 as int));
                }
            } else {
                proof {
                    assert(m.take(k + 1).last().0 != name@);
                    assert(m.take(k + 1).drop_last() =~= m.take(k as int));
                }
            }
        }
        proof {
            if !found {
                assert(m.take(0) =~= Seq::<(Seq<u8>, int)>::empty());
                assert(assoc_find(m, name@) is None);
            }
        }
        // scan bottom-up below the cursor
        let mut j: usize = below;
        let mut hit: bool = false;
        while j > 0 && !hit
            invariant
                nf == fields@.len(),
                fv == fields_view(fields@),
                j <= nf,
                !hit ==> sel_index(fv, name@, below as int) == sel_index(fv, name@, j as int),
                hit ==> j < nf && sel_index(fv, name@, below as int) == j as int
                    && ascii_lower(fv[j as int].0) == ascii_lower(name@),
                below <= nf,
            decreases j
        {
            if crate::canon::bytes_eq_ignore_ascii_case(fields[j - 1].name.as_slice(), name.as_slice()) {
                j = j - 1;
                hit = true;
            } else {
                j = j - 1;
            }
        }
        if hit {
            out.push(HeaderField {
                name: fields[j].name.clone(),
                value: fields[j].value.clone(),
            });
            cursors.push((name.clone(), j));
            proof {
                assert(fields_view(out@)
                    =~= fields_view(out@.drop_last()).push((out@.last().name@, out@.last().value@)));
                assert((out@.last().name@, out@.last().value@) == fv[j as int]);
                assert(cursors@.map_values(|c: (Vec<u8>, usize)| (c.0@, c.1 as int))
                    =~= m.push((name@, j as int)));
                assert(nv[i as int] == name@);
                assert(fields_view(out@.drop_last()) + (seq![fv[j as int]]
                    + select_rec(fv, nv, i + 1, m.push((name@, j as int))))
                    =~= fields_view(out@) + select_rec(fv, nv, i + 1, m.push((name@, j as int))));
            }
        } else {
            cursors.push((name.clone(), 0));
            proof {
                assert(sel_index(fv, name@, below as int) == -1);
                assert(cursors@.map_values(|c: (Vec<u8>, usize)| (c.0@, c.1 as int))
                    =~= m.push((name@, 0)));
                assert(nv[i as int] == name@);
            }
        }
        i = i + 1;
    }
    proof {
        assert(select_rec(fv, nv, nn as int,
            cursors@.map_values(|c: (Vec<u8>, usize)| (c.0@, c.1 as int)))
            =~= Seq::<(Seq<u8>, Seq<u8>)>::empty());
        assert(fields_view(out@) =~= fields_view(out@) + Seq::<(Seq<u8>, Seq<u8>)>::empty());
    }
    out
}

/// The concatenated relaxed canonicalization of the selected headers.
pub open spec fn concat_headers_relaxed(sel: Seq<(Seq<u8>, Seq<u8>)>, i: int) -> Seq<u8>
    decreases sel.len() - i when 0 <= i
{
    if i >= sel.len() {
        Seq::empty()
    } else {
        header_relaxed(sel[i].0, sel[i].1) + concat_headers_relaxed(sel, i + 1)
    }
}

/// The canonicalized DKIM-Signature header itself, with the `b=` value
/// blanked and without its trailing CRLF.
pub open spec fn dkim_self_canon(value: Seq<u8>, braw: Seq<u8>) -> Seq<u8> {
    let hr = header_relaxed(dkim_sig_lower(), remove_all_sub(value, braw));
    hr.take(hr.len() - 2)
}

/// The byte string whose SHA-256 the signature signs: the selected headers,
/// then the blanked signature header.  Nothing when the `h=` or `b=` tag is
/// missing.
pub open spec fn headers_hash_input(
    fields: Seq<(Seq<u8>, Seq<u8>)>,
    dkim_value: Seq<u8>,
) -> Option<Seq<u8>> {
    let tags = parse_tags_spec(dkim_value);
    match tag_lookup(tags, seq![104u8]) {
        None => None,
        Some(hv) => match tag_lookup(tags, seq![98u8]) {
            None => None,
            Some(bv) => Some(
                concat_headers_relaxed(select_rec(fields, names_of_h(hv.0), 0, Seq::empty()), 0)
                    + dkim_self_canon(dkim_value, bv.1),
            ),
        },
    }
}

/// Builds the signed header block for one DKIM-Signature header value.
pub fn build_headers_hash_input(fields: &Vec<HeaderField>, dkim_value: &[u8]) -> (r: Option<
    Vec<u8>,
>)
    ensures
        match r {
            Some(v) => headers_hash_input(fields_view(fields@), dkim_value@) == Some(v@),
            None => headers_hash_input(fields_view(fields@), dkim_value@) is None,
        },
{
    let tags = crate::tags::parse_dkim_tag_list(dkim_value);
    let hname: Vec<u8> = vec![104u8];
    let bname: Vec<u8> = vec![98u8];
    proof {
        assert(hname@ =~= seq![104u8]);
        assert(bname@ =~= seq![98u8]);
    }
    let h_ix = match crate::tags::find_tag(&tags, hname.as_slice()) {
        Some(ix) => ix,
        None => {
            return None;
        },
    };
    let b_ix = match crate::tags::find_tag(&tags, bname.as_slice()) {
        Some(ix) => ix,
        None => {
            return None;
        },
    };
    let names = split_h_names(tags[h_ix].value.as_slice());
    let sel = select_headers(fields, &names);
    let mut input: Vec<u8> = Vec::new();
    let ghost selv = fields_view(sel@);
    let ns = sel.len();
    let mut i: usize = 0;
    proof {
        assert(input@ =~= Seq::<u8>::empty());
        assert(concat_headers_relaxed(selv, 0) =~= input@ + concat_headers_relaxed(selv, 0));
    }
    while i < ns
        invariant
            ns == sel@.len(),
            selv == fields_view(sel@),
            i <= ns,
            concat_headers_relaxed(selv, 0) == input@ + concat_headers_relaxed(selv, i as int),
        decreases ns - i
    {
        let ch = crate::canon::canonicalize_header_relaxed(
            sel[i].name.as_slice(),
            sel[i].value.as_slice(),
        );
        let ghost input0 = input@;
        let m = ch.len();
        let mut k: usize = 0;
        proof {
            assert(input@ =~= input0 + ch@.take(0));
        }
        while k < m
            invariant
                m == ch@.len(),
                k <= m,
                input@ == input0 + ch@.take(k as int),
            decreases m - k
        {
            input.push(ch[k]);
            k = k + 1;
            proof {
                assert(ch@.take(k as int) =~= ch@.take(k - 1).push(ch@[k - 1]));
            }
        }
        proof {
            assert(ch@.take(m as int) =~= ch@);
            assert(selv[i as int] == (sel@[i as int].name@, sel@[i as int].value@));
            assert(concat_headers_relaxed(selv, i as int)
                =~= ch@ + concat_headers_relaxed(selv, i + 1));
            assert(input0 + (ch@ + concat_headers_relaxed(selv, i + 1))
                =~= (input0 + ch@) + concat_headers_relaxed(selv, i + 1));
        }
        i = i + 1;
    }
    proof {
        assert(concat_headers_relaxed(selv, ns as int) =~= Seq::<u8>::empty());
        assert(input@ =~= concat_headers_relaxed(selv, 0));
    }
    // the signature header itself, with b= blanked
    let blanked = remove_all_sub_bytes(dkim_value, tags[b_ix].raw_value.as_slice());
    let keyname = dkim_sig_lower_bytes();
    let selfh = crate::canon::canonicalize_header_relaxed(keyname.as_slice(), blanked.as_slice());
    let ghost input1 = input@;
    proof {
        assert(selfh@.len() >= 2) by {
            assert(selfh@ == header_relaxed(dkim_sig_lower(),
                remove_all_sub(dkim_value@, tags@[b_ix as int].raw_value@)));
        }
        assert(input@ =~= input1 + selfh@.take(0));
    }
    let m2 = selfh.len() - 2;
    let mut k2: usize = 0;
    while k2 < m2
        invariant
            m2 == selfh@.len() - 2,
            k2 <= m2,
            input@ == input1 + selfh@.take(k2 as int),
        decreases m2 - k2
    {
        input.push(selfh[k2]);
        k2 = k2 + 1;
        proof {
            assert(selfh@.take(k2 as int) =~= selfh@.take(k2 - 1).push(selfh@[k2 - 1]));
        }
    }
    proof {
        assert(selfh@.take(m2 as int) =~= dkim_self_canon(dkim_value@, tags@[b_ix as int].raw_value@));
        assert(input@ =~= input1 + dkim_self_canon(dkim_value@, tags@[b_ix as int].raw_value@));
    }
    Some(input)
}

} // verus!
