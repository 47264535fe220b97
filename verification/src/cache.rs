//! An explicit, bounded, append-only cache of failing pattern-set
//! evaluations.  Entries keep the full pattern set and input, so a hit is
//! provably the same evaluation; nothing is ever mutated in place, and the
//! entry count is bounded.

use vstd::prelude::*;
use crate::regex::cap_list;
use crate::regex::cr_bview;
use crate::regex::crs_bview;
use crate::regex::parts_all_pass;
use crate::structs::CompiledRegex;
use crate::structs::DFA;

verus! {

/// One remembered evaluation: a pattern set, an input, and whether the
/// set passed on it.
pub struct CacheEntry {
    pub parts: Vec<CompiledRegex>,
    pub input: Vec<u8>,
    pub pass: bool,
}

/// The bounded, append-only cache.
pub struct RegexCache {
    pub entries: Vec<CacheEntry>,
}

/// The number of evaluations the cache may remember.
pub const REGEX_CACHE_BOUND: usize = 64;

/// Every entry records the true outcome of its own evaluation.
pub open spec fn cache_wf(c: RegexCache) -> bool {
    &&& c.entries@.len() <= REGEX_CACHE_BOUND
    &&& forall|e: int| 0 <= e < c.entries@.len()
        ==> (#[trigger] c.entries@[e]).pass
            == parts_all_pass(crs_bview(c.entries@[e].parts@), c.entries@[e].input@, 0)
}

impl RegexCache {
    /// An empty cache.
    pub fn new() -> (r: Self)
        ensures
            cache_wf(r),
            r.entries@.len() == 0,
    {
        RegexCache { entries: Vec::new() }
    }
}

/// Whether two pattern lists agree byte for byte; `true` only when their
/// byte-level views agree.
fn parts_equal(a: &[CompiledRegex], b: &Vec<CompiledRegex>) -> (r: bool)
    ensures
        r ==> crs_bview(a@) == crs_bview(b@),
{
    if a.len() != b.len() {
        return false;
    }
    let n = a.len();
    let mut i: usize = 0;
    while i < n
        invariant
            n == a@.len() == b@.len(),
            i <= n,
            forall|j: int| 0 <= j < i ==> cr_bview(a@[j]) == cr_bview(b@[j]),
        decreases n - i
    {
        if !crate::canon::bytes_eq(a[i].verify_re.fwd.as_slice(), b[i].verify_re.fwd.as_slice()) {
            return false;
        }
        if !crate::canon::bytes_eq(a[i].verify_re.bwd.as_slice(), b[i].verify_re.bwd.as_slice()) {
            return false;
        }
        match (&a[i].capture_str, &b[i].capture_str) {
            (Some(x), Some(y)) => {
                if !crate::canon::bytes_eq(x.as_str().as_bytes(), y.as_str().as_bytes()) {
                    return false;
                }
            },
            (None, None) => {},
            _ => {
                return false;
            },
        }
        proof {
            assert(cr_bview(a@[i as int]) == cr_bview(b@[i as int]));
        }
        i = i + 1;
    }
    proof {
        assert(crs_bview(a@) =~= crs_bview(b@));
    }
    true
}

/// Copies a pattern list, field by field.
fn copy_parts(parts: &[CompiledRegex]) -> (r: Vec<CompiledRegex>)
    ensures
        crs_bview(r@) == crs_bview(parts@),
{
    let n = parts.len();
    let mut out: Vec<CompiledRegex> = Vec::new();
    let mut i: usize = 0;
    while i < n
        invariant
            n == parts@.len(),
            i <= n,
            out@.len() == i,
            forall|j: int| 0 <= j < i ==> cr_bview(out@[j]) == cr_bview(parts@[j]),
        decreases n - i
    {
        let cap: Option<String> = match &parts[i].capture_str {
            Some(s) => Some(s.clone()),
            None => None,
        };
        out.push(CompiledRegex {
            verify_re: DFA {
                fwd: parts[i].verify_re.fwd.clone(),
                bwd: parts[i].verify_re.bwd.clone(),
            },
            capture_str: cap,
        });
        proof {
            assert(cr_bview(out@[i as int]) == cr_bview(parts@[i as int]));
        }
        i = i + 1;
    }
    proof {
        assert(crs_bview(out@) =~= crs_bview(parts@));
    }
    out
}

/// Copies a byte buffer.
fn copy_bytes(s: &[u8]) -> (r: Vec<u8>)
    ensures
        r@ == s@,
{
    let n = s.len();
    let mut out: Vec<u8> = Vec::new();
    let mut i: usize = 0;
    proof {
        assert(out@ =~= s@.take(0));
    }
    while i < n
        invariant
            n == s@.len(),
            i <= n,
            out@ == s@.take(i as int),
        decreases n - i
    {
        out.push(s[i]);
        i = i + 1;
        proof {
            assert(s@.take(i as int) =~= s@.take(i - 1).push(s@[i - 1]));
        }
    }
    proof {
        assert(s@.take(n as int) =~= s@);
    }
    out
}

/// Replays a pattern set as `process_regex_parts` does, remembering
/// failing evaluations in the supplied bounded cache and answering
/// repeated failing evaluations from it.
pub fn process_regex_parts_cached(
    cache: &mut RegexCache,
    compiled_regexes: &[CompiledRegex],
    input: &[u8],
) -> (r: (bool, Vec<String>))
    requires
        cache_wf(*old(cache)),
    ensures
        cache_wf(*final(cache)),
        r.0 == parts_all_pass(crs_bview(compiled_regexes@), input@, 0),
        r.0 ==> r.1@.map_values(|s: String| s@) == cap_list(compiled_regexes@, 0),
        !r.0 ==> r.1@.len() == 0,
{
    // a remembered failure answers at once
    let ne = cache.entries.len();
    let mut e: usize = 0;
    while e < ne
        invariant
            cache_wf(*cache),
            cache == old(cache),
            ne == cache.entries@.len(),
            e <= ne,
        decreases ne - e
    {
        if !cache.entries[e].pass {
            if parts_equal(compiled_regexes, &cache.entries[e].parts) {
                if crate::canon::bytes_eq(input, cache.entries[e].input.as_slice()) {
                    proof {
                        assert(!parts_all_pass(crs_bview(compiled_regexes@), input@, 0));
                    }
                    let empty: Vec<String> = Vec::new();
                    return (false, empty);
                }
            }
        }
        e = e + 1;
    }
    // evaluate, and remember a failure
    let (ok, caps) = crate::regex::process_regex_parts(compiled_regexes, input);
    if !ok && cache.entries.len() < REGEX_CACHE_BOUND {
        let entry = CacheEntry {
            parts: copy_parts(compiled_regexes),
            input: copy_bytes(input),
            pass: false,
        };
        cache.entries.push(entry);
        proof {
            assert(cache_wf(*cache)) by {
                assert(forall|j: int| 0 <= j < cache.entries@.len() - 1
                    ==> cache.entries@[j] == old(cache).entries@[j]);
                assert((cache.entries@.last()).pass
                    == parts_all_pass(crs_bview(cache.entries@.last().parts@),
                        cache.entries@.last().input@, 0));
            }
        }
    }
    (ok, caps)
}

} // verus!
