use zkemail::canonicalize_body_relaxed;
use zkemail::canonicalize_header_relaxed;
use zkemail::parse_header_fields;
use zkemail::remove_quoted_printable_soft_breaks;
use zkemail::split_header_body;

#[test]
fn qp_cleaning_scenario() {
    // "abc=\r\ndef" cleans to "abcdef" padded to 9 bytes; the index map for
    // positions 0-5 is {0,1,2,6,7,8}; the rest is the no-source sentinel.
    let body = b"abc=\r\ndef".to_vec();
    let (cleaned, index_map) = remove_quoted_printable_soft_breaks(body);
    assert_eq!(cleaned, b"abcdef\0\0\0".to_vec());
    assert_eq!(
        index_map,
        vec![0, 1, 2, 6, 7, 8, usize::MAX, usize::MAX, usize::MAX]
    );
}

#[test]
fn qp_cleaning_keeps_length() {
    for input in [
        b"".to_vec(),
        b"plain".to_vec(),
        b"a=\r\nb=\r\nc".to_vec(),
        b"ends with=\r\n".to_vec(),
        b"=\r\n".to_vec(),
        b"=\r".to_vec(),
    ] {
        let n = input.len();
        let (cleaned, map) = remove_quoted_printable_soft_breaks(input);
        assert_eq!(cleaned.len(), n);
        assert_eq!(map.len(), n);
    }
}

#[test]
fn qp_cleaning_idempotent_on_clean_output() {
    let body = b"abc=\r\ndef".to_vec();
    let (once, _) = remove_quoted_printable_soft_breaks(body);
    let (twice, _) = remove_quoted_printable_soft_breaks(once.clone());
    assert_eq!(twice, once);
}

#[test]
fn qp_cleaning_can_uncover_a_new_soft_break() {
    // Removing one soft break can make `=` adjacent to a later CRLF; such
    // inputs are the exception to cleaning idempotence.
    let body = b"==\r\n\r\n".to_vec();
    let (once, _) = remove_quoted_printable_soft_breaks(body);
    assert_eq!(once, b"=\r\n\0\0\0".to_vec());
    let (twice, _) = remove_quoted_printable_soft_breaks(once.clone());
    assert_ne!(twice, once);
}

#[test]
fn header_relaxed_canonicalization() {
    assert_eq!(
        canonicalize_header_relaxed(b"SUBJect", b" AbC\r\n"),
        b"subject:AbC\r\n".to_vec()
    );
    assert_eq!(
        canonicalize_header_relaxed(b"Subject \t", b"\t Your Name\t \r\n"),
        b"subject:Your Name\r\n".to_vec()
    );
    assert_eq!(
        canonicalize_header_relaxed(b"Subject \t", b"\t Kimi \t \r\n No \t\r\n Na Wa\r\n"),
        b"subject:Kimi No Na Wa\r\n".to_vec()
    );
}

#[test]
fn body_relaxed_canonicalization() {
    assert_eq!(canonicalize_body_relaxed(b"\r\n"), b"\r\n".to_vec());
    assert_eq!(canonicalize_body_relaxed(b"hey        \r\n"), b"hey\r\n".to_vec());
    assert_eq!(canonicalize_body_relaxed(b""), b"".to_vec());
    assert_eq!(
        canonicalize_body_relaxed(b"a\tb  c \r\n\r\n\r\n"),
        b"a b c\r\n".to_vec()
    );
    assert_eq!(canonicalize_body_relaxed(b"no newline"), b"no newline\r\n".to_vec());
}

#[test]
fn header_body_split_and_fields() {
    let raw = b"From: a@x.io\r\nSubject: Hi\r\n there\r\n\r\nBody text";
    let (hreg, body) = split_header_body(raw);
    assert_eq!(body, b"Body text".to_vec());
    let fields = parse_header_fields(&hreg);
    assert_eq!(fields.len(), 2);
    assert_eq!(fields[0].name, b"From".to_vec());
    assert_eq!(fields[0].value, b" a@x.io".to_vec());
    assert_eq!(fields[1].name, b"Subject".to_vec());
    // the folded continuation stays part of the value
    assert_eq!(fields[1].value, b" Hi\r\n there".to_vec());
}

#[test]
fn signed_header_selection_is_bottom_up() {
    // With h=subject:subject, the later Subject header is hashed first,
    // then the earlier one; the blanked signature header closes the block.
    let raw = b"Subject: one\r\nSubject: two\r\n\r\nBody";
    let (hreg, _body) = split_header_body(raw);
    let fields = parse_header_fields(&hreg);
    let dkim_value = b"h=subject:subject; b=";
    let block = zkemail::build_headers_hash_input(&fields, dkim_value).expect("h= and b= present");
    assert_eq!(
        block,
        b"subject:two\r\nsubject:one\r\ndkim-signature:h=subject:subject; b=".to_vec()
    );
}

#[test]
fn canonical_parts_of_a_signed_email() {
    // The signed header block lists the h= headers in relaxed form and
    // ends with the signature header, its b= value blanked, no trailing
    // CRLF; the body comes back in relaxed canonical form, the signature
    // base64-decoded.
    let raw = b"From: Alice <a@x.io>\r\nSubject:  hi \r\nDKIM-Signature: v=1; a=rsa-sha256; d=x.io; s=s1; h=from:subject; bh=QUJD; b=WFla\r\n\r\nline one  \r\n\r\n\r\n";
    let (header_block, body, sig) = zkemail::canonicalize_signed_email(raw).expect("canonicalize");
    assert_eq!(
        header_block,
        b"from:Alice <a@x.io>\r\nsubject:hi\r\ndkim-signature:v=1; a=rsa-sha256; d=x.io; s=s1; h=from:subject; bh=QUJD; b=".to_vec()
    );
    assert_eq!(body, b"line one\r\n".to_vec());
    assert_eq!(sig, b"XYZ".to_vec()); // WFla is base64 for XYZ
}

#[test]
fn header_split_without_blank_line() {
    let raw = b"From: a@x.io\r\nSubject: Hi\r\n";
    let (hreg, body) = split_header_body(raw);
    assert_eq!(hreg, raw.to_vec());
    assert_eq!(body, Vec::<u8>::new());
}
