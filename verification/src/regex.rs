//! Replaying compiled automata over canonical bytes.
//!
//! The runtime never compiles a pattern: it deserializes precompiled
//! forward/backward automata, enumerates matches, enforces that each
//! pattern matches exactly once, and re-derives the oracle capture.  A
//! failing pattern fails the whole set, and no partial matches are
//! exposed.

use vstd::prelude::*;
use vstd::utf8::encode_utf8;
use vstd::utf8::valid_utf8;
use regex_automata::dfa::dense;
use regex_automata::dfa::Automaton;
use regex_automata::Anchored;
use regex_automata::Input;
use crate::structs::CompiledRegex;

verus! {

/// The end offset of the leftmost match of the serialized forward
/// automaton over `hay[start..]`: `None` when the bytes are rejected or
/// the search errs; `Some(None)` when nothing matches.  A function of the
/// bytes, haystack and start alone; its definition is left to
/// regex-automata.
pub uninterp spec fn dfa_fwd_end_of(fwd: Seq<u8>, hay: Seq<u8>, start: usize) -> Option<Option<usize>>;

/// The start offset of the match of the serialized backward automaton
/// that ends at `end`, anchored within `hay[start..end]`: `None` when the
/// bytes are rejected, the search errs, or nothing matches.  A function of
/// the bytes, haystack and span alone.
pub uninterp spec fn dfa_rev_start_of(bwd: Seq<u8>, hay: Seq<u8>, start: usize, end: usize) -> Option<usize>;

/// Relies on regex_automata's dense DFA::from_bytes and the fallible
/// forward search: after an aligned copy of the bytes (the deserializer
/// demands 4-byte alignment), both are functions of the bytes, haystack
/// and start alone; search errors come back as `None`, never a panic; a
/// reported end lies in `start ..= haystack length`.
#[verifier::external_body]
fn dfa_fwd_end(fwd: &[u8], hay: &[u8], start: usize) -> (r: Option<Option<usize>>)
    requires
        start <= hay@.len(),
    ensures
        r == dfa_fwd_end_of(fwd@, hay@, start),
        match r {
            Some(Some(e)) => start <= e <= hay@.len(),
            _ => true,
        },
{
    let mut fa = vec![0u8; fwd.len() + 4];
    let fo = (4 - (fa.as_ptr() as usize % 4)) % 4;
    fa[fo..fo + fwd.len()].copy_from_slice(fwd);
    let f = dense::DFA::from_bytes(&fa[fo..fo + fwd.len()]).ok()?.0;
    match f.try_search_fwd(&Input::new(hay).span(start..hay.len())) {
        Err(_) => None,
        Ok(None) => Some(None),
        Ok(Some(h)) => Some(Some(h.offset())),
    }
}

/// Relies on regex_automata's dense DFA::from_bytes and the fallible
/// anchored reverse search: after an aligned copy of the bytes, both are
/// functions of the bytes, haystack and span alone; errors come back as
/// `None`, never a panic; a reported start lies in `start ..= end`.
#[verifier::external_body]
fn dfa_rev_start(bwd: &[u8], hay: &[u8], start: usize, end: usize) -> (r: Option<usize>)
    requires
        start <= end <= hay@.len(),
    ensures
        r == dfa_rev_start_of(bwd@, hay@, start, end),
        match r {
            Some(s) => start <= s <= end,
            None => true,
        },
{
    let mut ba = vec![0u8; bwd.len() + 4];
    let bo = (4 - (ba.as_ptr() as usize % 4)) % 4;
    ba[bo..bo + bwd.len()].copy_from_slice(bwd);
    let b = dense::DFA::from_bytes(&ba[bo..bo + bwd.len()]).ok()?.0;
    let rev = Input::new(hay).span(start..end).anchored(Anchored::Yes);
    match b.try_search_rev(&rev) {
        Ok(Some(h)) => Some(h.offset()),
        _ => None,
    }
}

/// One bidirectional search step from `start`: the forward automaton
/// finds the end of the leftmost match, the backward automaton its start.
/// An end equal to `start` is an empty match there and needs no reverse
/// search.  A reverse search that errs or disagrees is a failed step.
pub open spec fn dfa_step_of(fwd: Seq<u8>, bwd: Seq<u8>, hay: Seq<u8>, start: usize) -> Option<
    Option<(usize, usize)>,
> {
    match dfa_fwd_end_of(fwd, hay, start) {
        None => None,
        Some(None) => Some(None),
        Some(Some(e)) => if e == start {
            Some(Some((start, start)))
        } else {
            match dfa_rev_start_of(bwd, hay, start, e) {
                None => None,
                Some(s) => Some(Some((s, e))),
            }
        },
    }
}

/// Performs one bidirectional search step from `start`.
fn dfa_search_step(fwd: &[u8], bwd: &[u8], hay: &[u8], start: usize) -> (r: Option<
    Option<(usize, usize)>,
>)
    requires
        start <= hay@.len(),
    ensures
        r == dfa_step_of(fwd@, bwd@, hay@, start),
        match r {
            Some(Some(m)) => start <= m.0 <= m.1 <= hay@.len(),
            _ => true,
        },
{
    match dfa_fwd_end(fwd, hay, start) {
        None => None,
        Some(None) => Some(None),
        Some(Some(e)) => if e == start {
            Some(Some((start, start)))
        } else {
            match dfa_rev_start(bwd, hay, start, e) {
                None => None,
                Some(s) => Some(Some((s, e))),
            }
        },
    }
}

/// The non-overlapping leftmost matches from position `at` on, with
/// `last_end` the end of the match before (-1 for none): an empty match
/// ending where the previous match ended is skipped by one position, as
/// the engine's iterator does.  A step outside its bounds counts as a
/// search error.
pub open spec fn dfa_matches_from(
    fwd: Seq<u8>,
    bwd: Seq<u8>,
    hay: Seq<u8>,
    at: int,
    last_end: int,
) -> Option<Seq<(usize, usize)>>
    decreases 2 * (hay.len() - at) + (if last_end == at { 0int } else { 1int })
        when 0 <= at <= hay.len() via dfa_matches_from_decreases
{
    match dfa_step_of(fwd, bwd, hay, at as usize) {
        None => None,
        Some(None) => Some(Seq::empty()),
        Some(Some(m)) => if !(at <= m.0 <= m.1 <= hay.len()) {
            None
        } else if m.0 == m.1 && last_end == m.1 {
            if at == hay.len() {
                Some(Seq::empty())
            } else {
                dfa_matches_from(fwd, bwd, hay, at + 1, last_end)
            }
        } else {
            match dfa_matches_from(fwd, bwd, hay, m.1 as int, m.1 as int) {
                None => None,
                Some(rest) => Some(seq![m] + rest),
            }
        },
    }
}

#[via_fn]
proof fn dfa_matches_from_decreases(fwd: Seq<u8>, bwd: Seq<u8>, hay: Seq<u8>, at: int, last_end: int) {
    if 0 <= at <= hay.len() {
        match dfa_step_of(fwd, bwd, hay, at as usize) {
            Some(Some(m)) => {
                if at <= m.0 <= m.1 <= hay.len() {
                    if m.0 == m.1 && last_end == m.1 {
                    } else if m.1 == at {
                        assert(m.0 == at && last_end != at);
                    }
                }
            },
            _ => {},
        }
    }
}

/// What the bidirectional automaton search yields on a haystack: the
/// non-overlapping leftmost match ranges, or nothing when the automaton
/// bytes are rejected or a search errs.
pub open spec fn dfa_search(fwd: Seq<u8>, bwd: Seq<u8>, hay: Seq<u8>) -> Option<Seq<(usize, usize)>> {
    dfa_matches_from(fwd, bwd, hay, 0, -1)
}

/// Enumerates the non-overlapping leftmost matches of a serialized
/// automaton pair over a haystack.  `None` when the automaton bytes are
/// rejected or a search errs.
pub(crate) fn dfa_find_matches(fwd: &[u8], bwd: &[u8], hay: &[u8]) -> (r: Option<Vec<(usize, usize)>>)
    ensures
        match r {
            Some(v) => dfa_search(fwd@, bwd@, hay@) == Some(v@)
                && forall|i: int| 0 <= i < v@.len()
                    ==> (#[trigger] v@[i]).0 <= v@[i].1 && v@[i].1 <= hay@.len(),
            None => dfa_search(fwd@, bwd@, hay@) is None,
        },
{
    let n = hay.len();
    let mut out: Vec<(usize, usize)> = Vec::new();
    let mut at: usize = 0;
    let mut has_last: bool = false;
    let mut last: usize = 0;
    proof {
        assert(out@ + Seq::<(usize, usize)>::empty() =~= out@);
    }
    while at <= n
        invariant
            n == hay@.len(),
            at <= n,
            forall|i: int| 0 <= i < out@.len()
                ==> (#[trigger] out@[i]).0 <= out@[i].1 && out@[i].1 <= hay@.len(),
            ({
                let lastv: int = if has_last { last as int } else { -1int };
                match dfa_matches_from(fwd@, bwd@, hay@, at as int, lastv) {
                    None => dfa_search(fwd@, bwd@, hay@) is None,
                    Some(rest) => dfa_search(fwd@, bwd@, hay@) == Some(out@ + rest),
                }
            }),
        decreases 2 * (n - at) + (if has_last && last == at { 0int } else { 1int })
    {
        let ghost lastv: int = if has_last { last as int } else { -1int };
        match dfa_search_step(fwd, bwd, hay, at) {
            None => {
                return None;
            },
            Some(None) => {
                proof {
                    assert(dfa_matches_from(fwd@, bwd@, hay@, at as int, lastv)
                        == Some(Seq::<(usize, usize)>::empty()));
                    assert(out@ + Seq::<(usize, usize)>::empty() =~= out@);
                }
                return Some(out);
            },
            Some(Some(m)) => {
                let (s, e) = m;
                if s == e && has_last && last == e {
                    if at == n {
                        proof {
                            assert(out@ + Seq::<(usize, usize)>::empty() =~= out@);
                        }
                        return Some(out);
                    }
                    at = at + 1;
                } else {
                    out.push((s, e));
                    has_last = true;
                    last = e;
                    proof {
                        let prev = out@.drop_last();
                        match dfa_matches_from(fwd@, bwd@, hay@, e as int, e as int) {
                            None => {},
                            Some(rest) => {
                                assert(prev + (seq![(s, e)] + rest) =~= out@ + rest);
                            },
                        }
                    }
                    at = e;
                }
            },
        }
    }
    proof {
        assert(false);
    }
    None
}

/// Non-overlapping occurrences of `pat` in `s[i..]`, leftmost first.
pub open spec fn count_occ_from(s: Seq<u8>, pat: Seq<u8>, i: int) -> int
    decreases s.len() - i when 0 <= i && 1 <= pat.len()
{
    if i + pat.len() > s.len() {
        0
    } else if s.subrange(i, i + pat.len() as int) == pat {
        1 + count_occ_from(s, pat, i + pat.len() as int)
    } else {
        count_occ_from(s, pat, i + 1)
    }
}

/// Non-overlapping occurrences of `pat` in `s`; the empty pattern occurs
/// at every position, the length plus one times.
pub open spec fn count_occurrences(s: Seq<u8>, pat: Seq<u8>) -> int {
    if pat.len() == 0 {
        s.len() as int + 1
    } else {
        count_occ_from(s, pat, 0)
    }
}

/// Counts non-overlapping occurrences of `pat` in `s`, leftmost first.
pub fn count_occurrences_bytes(s: &[u8], pat: &[u8]) -> (r: usize)
    requires
        pat@.len() == 0 ==> s@.len() < usize::MAX,
    ensures
        r == count_occurrences(s@, pat@),
{
    let n = s.len();
    let m = pat.len();
    if m == 0 {
        return n + 1;
    }
    let mut count: usize = 0;
    let mut i: usize = 0;
    while i < n
        invariant
            n == s@.len(),
            m == pat@.len(),
            1 <= m,
            i <= n,
            count + count_occ_from(s@, pat@, i as int) == count_occ_from(s@, pat@, 0),
            count <= i,
        decreases n - i
    {
        if crate::select::matches_at(s, pat, i) {
            count = count + 1;
            i = i + m;
        } else {
            i = i + 1;
        }
    }
    proof {
        assert(count_occ_from(s@, pat@, i as int) == 0);
    }
    count
}

/// The byte-level shape of a compiled pattern: forward bytes, backward
/// bytes, and the expected capture as encoded bytes.
pub open spec fn cr_bview(p: CompiledRegex) -> (Seq<u8>, Seq<u8>, Option<Seq<u8>>) {
    (
        p.verify_re.fwd@,
        p.verify_re.bwd@,
        match p.capture_str {
            Some(s) => Some(encode_utf8(s@)),
            None => None,
        },
    )
}

/// The byte-level views of a pattern list.
pub open spec fn crs_bview(parts: Seq<CompiledRegex>) -> Seq<(Seq<u8>, Seq<u8>, Option<Seq<u8>>)> {
    parts.map_values(|p: CompiledRegex| cr_bview(p))
}

/// One compiled pattern passes on `input`: its automata deserialize, it
/// matches exactly once, and, with an expected capture, the matched slice
/// is UTF-8 and holds the capture exactly once.
pub open spec fn single_part_ok(
    fwd: Seq<u8>,
    bwd: Seq<u8>,
    cap: Option<Seq<u8>>,
    input: Seq<u8>,
) -> bool {
    match dfa_search(fwd, bwd, input) {
        None => false,
        Some(ms) => ms.len() == 1 && match cap {
            None => true,
            Some(c) => {
                let matched = input.subrange(ms[0].0 as int, ms[0].1 as int);
                valid_utf8(matched) && count_occurrences(matched, c) == 1
            },
        },
    }
}

/// Every pattern of `parts[i..]` passes on `input`.
pub open spec fn parts_all_pass(
    parts: Seq<(Seq<u8>, Seq<u8>, Option<Seq<u8>>)>,
    input: Seq<u8>,
    i: int,
) -> bool
    decreases parts.len() - i when 0 <= i
{
    if i >= parts.len() {
        true
    } else {
        single_part_ok(parts[i].0, parts[i].1, parts[i].2, input)
            && parts_all_pass(parts, input, i + 1)
    }
}

/// The expected captures of `parts[i..]`, in declaration order.
pub open spec fn cap_list(parts: Seq<CompiledRegex>, i: int) -> Seq<Seq<char>>
    decreases parts.len() - i when 0 <= i
{
    if i >= parts.len() {
        Seq::empty()
    } else {
        match parts[i].capture_str {
            Some(s) => seq![s@] + cap_list(parts, i + 1),
            None => cap_list(parts, i + 1),
        }
    }
}

/// Checks one compiled pattern against `input`, returning its capture if
/// it has one.  `Err(())` on any failure.
fn process_single_regex_part(part: &CompiledRegex, input: &[u8]) -> (r: Result<Option<String>, ()>)
    ensures
        match r {
            Ok(c) => single_part_ok(
                part.verify_re.fwd@,
                part.verify_re.bwd@,
                cr_bview(*part).2,
                input@,
            ) && (match (c, part.capture_str) {
                (Some(cs), Some(ps)) => cs@ == ps@,
                (None, None) => true,
                _ => false,
            }),
            Err(_) => !single_part_ok(
                part.verify_re.fwd@,
                part.verify_re.bwd@,
                cr_bview(*part).2,
                input@,
            ),
        },
{
    let ms = match dfa_find_matches(
        part.verify_re.fwd.as_slice(),
        part.verify_re.bwd.as_slice(),
        input,
    ) {
        Some(ms) => ms,
        None => {
            return Err(());
        },
    };
    if ms.len() != 1 {
        return Err(());
    }
    match &part.capture_str {
        None => Ok(None),
        Some(cap) => {
            proof {
                assert(ms@[0].0 <= ms@[0].1 && ms@[0].1 <= input@.len());
            }
            let (start, end) = (ms[0].0, ms[0].1);
            let mut matched: Vec<u8> = Vec::new();
            let mut t: usize = start;
            proof {
                assert(matched@ =~= input@.subrange(start as int, start as int));
            }
            while t < end
                invariant
                    start <= t <= end,
                    end <= input@.len(),
                    matched@ == input@.subrange(start as int, t as int),
                decreases end - t
            {
                matched.push(input[t]);
                t = t + 1;
                proof {
                    assert(input@.subrange(start as int, t as int)
                        =~= input@.subrange(start as int, t - 1).push(input@[t - 1]));
                }
            }
            // the matched slice must be UTF-8
            let ok_utf8 = match crate::dkim::string_from_utf8(matched.clone()) {
                Some(_) => true,
                None => false,
            };
            if !ok_utf8 {
                return Err(());
            }
            // the expected capture must occur exactly once inside the match
            let capb = cap.as_str().as_bytes();
            let once = if capb.len() == 0 {
                matched.len() == 0
            } else {
                count_occurrences_bytes(matched.as_slice(), capb) == 1
            };
            if !once {
                return Err(());
            }
            Ok(Some(cap.clone()))
        },
    }
}

/// Replays a compiled pattern set over `input`.  All patterns must match
/// exactly once and reproduce their captures; on any failure the result
/// is `(false, [])` — no partial matches are exposed.  On success the
/// captures come in declaration order.
pub fn process_regex_parts(compiled_regexes: &[CompiledRegex], input: &[u8]) -> (r: (bool, Vec<
    String,
>))
    ensures
        r.0 == parts_all_pass(crs_bview(compiled_regexes@), input@, 0),
        r.0 ==> r.1@.map_values(|s: String| s@) == cap_list(compiled_regexes@, 0),
        !r.0 ==> r.1@.len() == 0,
{
    let n = compiled_regexes.len();
    let ghost pb = crs_bview(compiled_regexes@);
    let mut out: Vec<String> = Vec::new();
    let mut k: usize = 0;
    proof {
        assert(out@.map_values(|s: String| s@) =~= Seq::<Seq<char>>::empty());
    }
    while k < n
        invariant
            n == compiled_regexes@.len(),
            pb == crs_bview(compiled_regexes@),
            k <= n,
            forall|j: int| 0 <= j < k ==> single_part_ok(pb[j].0, pb[j].1, pb[j].2, input@),
            out@.map_values(|s: String| s@) + cap_list(compiled_regexes@, k as int)
                == cap_list(compiled_regexes@, 0),
        decreases n - k
    {
        match process_single_regex_part(&compiled_regexes[k], input) {
            Ok(c) => {
                proof {
                    assert(pb[k as int] == cr_bview(compiled_regexes@[k as int]));
                }
                match c {
                    Some(cs) => {
                        out.push(cs);
                        proof {
                            assert(out@.map_values(|s: String| s@)
                                =~= out@.drop_last().map_values(|s: String| s@).push(out@.last()@));
                            assert((out@.drop_last().map_values(|s: String| s@).push(out@.last()@))
                                + cap_list(compiled_regexes@, k + 1)
                                =~= out@.drop_last().map_values(|s: String| s@)
                                    + (seq![out@.last()@] + cap_list(compiled_regexes@, k + 1)));
                        }
                    },
                    None => {},
                }
            },
            Err(_) => {
                proof {
                    assert(pb[k as int] == cr_bview(compiled_regexes@[k as int]));
                    assert(!parts_all_pass(pb, input@, k as int));
                    assert forall|i0: int| 0 <= i0 < k as int
                        implies !parts_all_pass(pb, input@, i0) by {
                        lemma_parts_all_pass_prefix(pb, input@, i0, k as int);
                    }
                }
                let empty: Vec<String> = Vec::new();
                return (false, empty);
            },
        }
        k = k + 1;
    }
    proof {
        assert(cap_list(compiled_regexes@, n as int) =~= Seq::<Seq<char>>::empty());
        assert(out@.map_values(|s: String| s@) =~= cap_list(compiled_regexes@, 0));
        lemma_parts_all_pass_all(pb, input@, 0);
    }
    (true, out)
}

/// If some pattern at or after `i` fails, the set fails from `i` on.
proof fn lemma_parts_all_pass_prefix(
    parts: Seq<(Seq<u8>, Seq<u8>, Option<Seq<u8>>)>,
    input: Seq<u8>,
    i: int,
    bad: int,
)
    requires
        0 <= i <= bad < parts.len(),
        !parts_all_pass(parts, input, bad),
    ensures
        !parts_all_pass(parts, input, i),
    decreases bad - i
{
    if i < bad {
        lemma_parts_all_pass_prefix(parts, input, i + 1, bad);
    }
}

/// If every pattern from `i` on passes singly, the set passes from `i`.
pub proof fn lemma_parts_all_pass_all(
    parts: Seq<(Seq<u8>, Seq<u8>, Option<Seq<u8>>)>,
    input: Seq<u8>,
    i: int,
)
    requires
        0 <= i <= parts.len(),
        forall|j: int| i <= j < parts.len()
            ==> single_part_ok(parts[j].0, parts[j].1, parts[j].2, input),
    ensures
        parts_all_pass(parts, input, i),
    decreases parts.len() - i
{
    if i < parts.len() {
        lemma_parts_all_pass_all(parts, input, i + 1);
    }
}

/// The single-match rule, stated on its own: a pattern whose automaton
/// search does not yield exactly one match fails its whole set.
pub proof fn lemma_single_match_required(
    parts: Seq<(Seq<u8>, Seq<u8>, Option<Seq<u8>>)>,
    input: Seq<u8>,
    k: int,
)
    requires
        0 <= k < parts.len(),
        match dfa_search(parts[k].0, parts[k].1, input) {
            Some(ms) => ms.len() != 1,
            None => true,
        },
    ensures
        !parts_all_pass(parts, input, 0),
{
    assert(!single_part_ok(parts[k].0, parts[k].1, parts[k].2, input));
    assert(!parts_all_pass(parts, input, k));
    if k > 0 {
        lemma_parts_all_pass_prefix(parts, input, 0, k);
    }
}

} // verus!
