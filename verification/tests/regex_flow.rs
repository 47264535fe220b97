use zkemail::compile_regex_parts;
use zkemail::count_occurrences_bytes;
use zkemail::create_dfa;
use zkemail::extract_body_hash_from_header_dfa;
use zkemail::extract_body_hash_from_header_regex;
use zkemail::process_regex_parts;
use zkemail::process_regex_parts_cached;
use zkemail::structs::RegexPattern;
use zkemail::RegexCache;

#[test]
fn test_process_regex_parts() {
    // A capture pattern compiled against the trusted input replays there.
    let parts = vec![RegexPattern::Capture {
        prefix: "contains ".to_string(),
        capture: "\\$[0-9,.]+".to_string(),
        suffix: " as".to_string(),
    }];
    let matching_input = b"This email contains $1,234.56 as the amount.";
    let compiled = compile_regex_parts(&parts, matching_input).expect("compile");
    let (is_match, captures) = process_regex_parts(&compiled, matching_input);
    assert!(is_match, "the compiled pattern must match its own input");
    assert_eq!(captures, vec!["$1,234.56".to_string()]);

    // The same compiled pattern fails on an input without the pattern,
    // and no partial matches leak out.
    let non_matching_input = b"This email contains no dollar amounts.";
    let (is_match, captures) = process_regex_parts(&compiled, non_matching_input);
    assert!(!is_match);
    assert!(captures.is_empty());
}

#[test]
fn capture_scenario_amount() {
    // {prefix: "Amount: ", capture: "\$[0-9,.]+", suffix: ""} against
    // "Amount: $1,234.56" discloses exactly that amount.
    let parts = vec![RegexPattern::Capture {
        prefix: "Amount: ".to_string(),
        capture: "\\$[0-9,.]+".to_string(),
        suffix: "".to_string(),
    }];
    let input = b"Amount: $1,234.56";
    let compiled = compile_regex_parts(&parts, input).expect("compile");
    let (ok, captures) = process_regex_parts(&compiled, input);
    assert!(ok);
    assert_eq!(captures, vec!["$1,234.56".to_string()]);

    // Two qualifying amounts under the same pattern are ambiguous: the
    // compiler rejects the set.
    let ambiguous = b"Amount: $1,234.56 or Amount: $2.00";
    assert!(compile_regex_parts(&parts, ambiguous).is_err());

    // The runtime likewise fails the precompiled pattern on that input.
    let (ok, captures) = process_regex_parts(&compiled, ambiguous);
    assert!(!ok, "zero or many matches must fail the whole set");
    assert!(captures.is_empty());
}

#[test]
fn bare_match_patterns() {
    let parts = vec![RegexPattern::Match { pattern: "ID: [A-Z0-9]+".to_string() }];
    let input = b"ref ID: ABC123XYZ end";
    let compiled = compile_regex_parts(&parts, input).expect("compile");
    assert!(compiled[0].capture_str.is_none());
    let (ok, captures) = process_regex_parts(&compiled, input);
    assert!(ok);
    assert!(captures.is_empty());
}

#[test]
fn capture_must_occur_once_inside_match() {
    // The capture "a" occurs twice inside the matched slice "aa", so the
    // compiler refuses the pattern even though the match is unique.
    let parts = vec![RegexPattern::Capture {
        prefix: "a".to_string(),
        capture: ".".to_string(),
        suffix: "".to_string(),
    }];
    assert!(compile_regex_parts(&parts, b"xaay").is_err());
}

#[test]
fn counting_occurrences() {
    assert_eq!(count_occurrences_bytes(b"aaa", b"aa"), 1); // non-overlapping
    assert_eq!(count_occurrences_bytes(b"aaaa", b"aa"), 2);
    assert_eq!(count_occurrences_bytes(b"abcabc", b"abc"), 2);
    assert_eq!(count_occurrences_bytes(b"abc", b"zz"), 0);
    assert_eq!(count_occurrences_bytes(b"ab", b""), 3);
}

#[test]
fn cached_processing_agrees_with_direct() {
    let parts = vec![RegexPattern::Match { pattern: "needle".to_string() }];
    let good = b"hay needle hay";
    let compiled = compile_regex_parts(&parts, good).expect("compile");
    let mut cache = RegexCache::new();
    let bad = b"just hay";
    // a miss, remembered
    let (ok1, caps1) = process_regex_parts_cached(&mut cache, &compiled, bad);
    assert!(!ok1);
    assert!(caps1.is_empty());
    // a remembered failure answers the same
    let (ok2, caps2) = process_regex_parts_cached(&mut cache, &compiled, bad);
    assert!(!ok2);
    assert!(caps2.is_empty());
    // a pass is not cached but still answered correctly
    let (ok3, _) = process_regex_parts_cached(&mut cache, &compiled, good);
    assert!(ok3);
    let (direct, _) = process_regex_parts(&compiled, good);
    assert!(direct);
}

#[test]
fn body_hash_extraction_by_scan() {
    let header = b"dkim-signature:v=1; bh=abc+12/3=; b=xyz";
    let got = extract_body_hash_from_header_regex(header).expect("a bh= match");
    assert_eq!(got, "abc+12/3=".to_string());
    // without a closing byte after the run there is no match
    assert!(extract_body_hash_from_header_regex(b"bh=abc").is_none());
    // the leftmost match wins
    let two = b"x bh=first; bh=second;";
    assert_eq!(extract_body_hash_from_header_regex(two).unwrap(), "first".to_string());
    // a header that does not decode as UTF-8 is rejected outright
    let bad: &[u8] = &[0xff, 0xfe, 0x20, 0x62, 0x68, 0x3d, 0x61, 0x62, 0x63, 0x3b];
    assert!(extract_body_hash_from_header_regex(bad).is_none());
}

#[test]
fn body_hash_extraction_by_automaton_agrees() {
    let header = b"dkim-signature:v=1; bh=abc+12/3=; b=xyz";
    let dfa = create_dfa("bh=[A-Za-z0-9+/=]+[;\\s]").expect("build");
    let by_dfa = extract_body_hash_from_header_dfa(header, &dfa.fwd, &dfa.bwd).expect("match");
    let by_scan = extract_body_hash_from_header_regex(header).expect("match");
    assert_eq!(by_dfa, by_scan);
}
