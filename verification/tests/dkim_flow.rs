use ed25519_dalek::Signer;
use rsa::pkcs1::EncodeRsaPublicKey;
use zkemail::canonicalize_body_relaxed;
use zkemail::canonicalize_signed_email;
use zkemail::dkim_candidate_selectors;
use zkemail::hash_bytes;
use zkemail::structs::Email;
use zkemail::structs::EmailWithRegex;
use zkemail::structs::ExternalInput;
use zkemail::structs::PublicKey;
use zkemail::structs::RegexInfo;
use zkemail::validate_dkim_header;
use zkemail::verify_body;
use zkemail::verify_dkim;
use zkemail::verify_email;
use zkemail::verify_email_with_regex;
use zkemail::verify_signature;
use zkemail::CanonError;
use zkemail::VerifyError;

const KEY_P: &str = "c03987108976e334e2817efdae8492171d53434bb88139b9ae270da702f06b90f143262fdc5c0eed8da0365bf89897b9405cacec877409a977d21e02ff01cf99";
const KEY_Q: &str = "9343e6ea985a9548c0ba22a47213e7ccf89617fa6493f5efff5376a4bb48bbbaac735be00ceeddc22737f345388629ffb2a0f778809d644453ab3cce264ae04f";
const KEY_N: &str = "6e940500ae97bbb6b5a5461f146352ff47ea9f3f707485beff96c20475c862fcb993000b81d458d57df581cc8eda727009eeed92c6cc92b1cca31d544c837c18bbaa605998a817387ff86b60d0385a80ea0a87ce719c4e8a254b60f522a35955f95710757b3cf1d323372f0d6f2c28acdcb8bb0f393bc6aad921c682ff6ef037";
const KEY_D: &str = "4e7acd662383db1d1ca455351fb232a8adb0ee1f07401be067e3e68565d6b7b2683ed56c5553914ccc5ddf268048b7a99ed32d57dbb23b76e726e95cf804e5a073365b3a021be681f6c222692c9a4abee3ab3bc0f24507fc05ed7d7ed79eab2f40c29deda67c5f7b3b0d437b043b5cd346129b4e652089e47b77335c01d60751";

fn hex_to_bytes(s: &str) -> Vec<u8> {
    let digits: Vec<u8> = s
        .bytes()
        .map(|b| match b {
            b'0'..=b'9' => b - b'0',
            b'a'..=b'f' => b - b'a' + 10,
            _ => panic!("not a hex digit"),
        })
        .collect();
    digits.chunks(2).map(|p| (p[0] << 4) | p[1]).collect()
}

fn test_key() -> rsa::RsaPrivateKey {
    let p = rsa::BigUint::from_bytes_be(&hex_to_bytes(KEY_P));
    let q = rsa::BigUint::from_bytes_be(&hex_to_bytes(KEY_Q));
    let n = rsa::BigUint::from_bytes_be(&hex_to_bytes(KEY_N));
    let d = rsa::BigUint::from_bytes_be(&hex_to_bytes(KEY_D));
    let e = rsa::BigUint::from_bytes_be(&[0x01, 0x00, 0x01]);
    rsa::RsaPrivateKey::from_components(n, e, d, vec![p, q]).expect("key from components")
}

fn b64(data: &[u8]) -> String {
    base64::Engine::encode(&base64::engine::general_purpose::STANDARD, data)
}

/// Builds a relaxed-canonicalized, RSA-SHA256-signed e-mail for
/// `example.com` with the given body, plus the signer's public key in
/// PKCS#1 DER form.
fn signed_email(body: &str) -> (Vec<u8>, Vec<u8>) {
    let key = test_key();
    let pub_der = key.to_public_key().to_pkcs1_der().expect("der").as_bytes().to_vec();
    let body_canon = canonicalize_body_relaxed(body.as_bytes());
    let bh = b64(&hash_bytes(&body_canon));
    let unsigned = format!(
        "From: alice@example.com\r\nSubject: Hello\r\nDKIM-Signature: v=1; a=rsa-sha256; c=relaxed/relaxed; d=example.com; s=sel; h=from:subject; bh={}; b=\r\n\r\n{}",
        bh, body
    );
    let (header_block, _cbody, _sig) =
        canonicalize_signed_email(unsigned.as_bytes()).expect("canonicalize");
    let hashed = hash_bytes(&header_block);
    let sig = key
        .sign(rsa::Pkcs1v15Sign::new::<sha2::Sha256>(), &hashed)
        .expect("sign");
    let email = format!(
        "From: alice@example.com\r\nSubject: Hello\r\nDKIM-Signature: v=1; a=rsa-sha256; c=relaxed/relaxed; d=example.com; s=sel; h=from:subject; bh={}; b={}\r\n\r\n{}",
        bh,
        b64(&sig),
        body
    );
    (email.into_bytes(), pub_der)
}

#[test]
fn valid_signature_verifies() {
    let (raw, pub_der) = signed_email("Hello World\r\n");
    let email = Email {
        from_domain: "example.com".to_string(),
        raw_email: raw,
        public_key: PublicKey { key: pub_der.clone(), key_type: "rsa".to_string() },
        external_inputs: vec![],
    };
    assert!(verify_dkim(&email), "a correctly signed e-mail must verify");
    let out = verify_email(&email).expect("verified output");
    assert_eq!(out.from_domain_hash, hash_bytes(b"example.com"));
    assert_eq!(out.public_key_hash, hash_bytes(&pub_der));
    assert!(out.external_inputs.is_empty());
}

#[test]
fn flipped_body_byte_fails() {
    let (mut raw, pub_der) = signed_email("Hello World\r\n");
    // flip one byte of the body, after signing
    let n = raw.len();
    raw[n - 3] ^= 1;
    let email = Email {
        from_domain: "example.com".to_string(),
        raw_email: raw,
        public_key: PublicKey { key: pub_der, key_type: "rsa".to_string() },
        external_inputs: vec![],
    };
    assert!(!verify_dkim(&email), "a body changed after signing must fail");
    assert!(matches!(verify_email(&email), Err(VerifyError::Dkim)));
}

#[test]
fn wrong_domain_fails() {
    let (raw, pub_der) = signed_email("Hello World\r\n");
    let email = Email {
        from_domain: "other.org".to_string(),
        raw_email: raw,
        public_key: PublicKey { key: pub_der, key_type: "rsa".to_string() },
        external_inputs: vec![],
    };
    assert!(!verify_dkim(&email));
}

#[test]
fn malformed_key_fails_without_panic() {
    let (raw, _) = signed_email("Hello World\r\n");
    let email = Email {
        from_domain: "example.com".to_string(),
        raw_email: raw,
        public_key: PublicKey { key: b"invalid key data".to_vec(), key_type: "rsa".to_string() },
        external_inputs: vec![],
    };
    assert!(!verify_dkim(&email), "a malformed key is a failing verification");
}

#[test]
fn missing_signature_is_reported() {
    let raw = b"Subject: Test\r\n\r\nThis email has no DKIM signature".to_vec();
    assert_eq!(
        canonicalize_signed_email(&raw).unwrap_err(),
        CanonError::MissingSignature
    );
    let email = Email {
        from_domain: "example.com".to_string(),
        raw_email: raw,
        public_key: PublicKey { key: vec![], key_type: "rsa".to_string() },
        external_inputs: vec![],
    };
    assert!(!verify_dkim(&email), "no signature, no pass; and never a crash");
}

#[test]
fn malformed_email_fails_without_panic() {
    let email = Email {
        from_domain: "example.com".to_string(),
        raw_email: b"This is not a valid email format".to_vec(),
        public_key: PublicKey { key: vec![1, 2, 3], key_type: "rsa".to_string() },
        external_inputs: vec![],
    };
    assert!(!verify_dkim(&email));
}

#[test]
fn external_inputs_pass_through_in_order() {
    let (raw, pub_der) = signed_email("Hello World\r\n");
    let email = Email {
        from_domain: "example.com".to_string(),
        raw_email: raw,
        public_key: PublicKey { key: pub_der, key_type: "rsa".to_string() },
        external_inputs: vec![
            ExternalInput {
                name: "test_input_1".to_string(),
                value: Some("test_value_1".to_string()),
                max_length: 50,
            },
            ExternalInput {
                name: "test_input_2".to_string(),
                value: Some("test_value_2".to_string()),
                max_length: 100,
            },
        ],
    };
    let out = verify_email(&email).expect("verified");
    assert_eq!(
        out.external_inputs,
        vec![
            "test_input_1".to_string(),
            "test_value_1".to_string(),
            "test_input_2".to_string(),
            "test_value_2".to_string(),
        ]
    );
    // a missing value is a typed failure, not a crash
    let mut email2 = email.clone();
    email2.external_inputs[1].value = None;
    assert!(matches!(verify_email(&email2), Err(VerifyError::Input)));
}

#[test]
fn determinism_of_repeated_verification() {
    let (raw, pub_der) = signed_email("Hello World\r\n");
    let email = Email {
        from_domain: "example.com".to_string(),
        raw_email: raw,
        public_key: PublicKey { key: pub_der, key_type: "rsa".to_string() },
        external_inputs: vec![],
    };
    let o1 = verify_email(&email).expect("first run");
    let o2 = verify_email(&email).expect("second run");
    assert_eq!(o1.from_domain_hash, o2.from_domain_hash);
    assert_eq!(o1.public_key_hash, o2.public_key_hash);
    assert_eq!(o1.external_inputs, o2.external_inputs);
}

#[test]
fn hash_independence_across_bodies() {
    let (raw1, pub_der) = signed_email("Hello World\r\n");
    let (raw2, _) = signed_email("Entirely different body\r\n");
    let mk = |raw: Vec<u8>| Email {
        from_domain: "example.com".to_string(),
        raw_email: raw,
        public_key: PublicKey { key: pub_der.clone(), key_type: "rsa".to_string() },
        external_inputs: vec![],
    };
    let o1 = verify_email(&mk(raw1)).expect("first");
    let o2 = verify_email(&mk(raw2)).expect("second");
    assert_eq!(o1.from_domain_hash, o2.from_domain_hash);
    assert_eq!(o1.public_key_hash, o2.public_key_hash);
}

#[test]
fn decomposed_checks_agree() {
    let (raw, pub_der) = signed_email("Hello World\r\n");
    let (header_block, cbody, sig) = canonicalize_signed_email(&raw).expect("canonicalize");
    assert_eq!(verify_signature(&header_block, &sig, &pub_der), Ok(true));
    let bh = b64(&hash_bytes(&cbody));
    assert!(verify_body(&cbody, &bh));
    assert!(!verify_body(b"other body", &bh));
    // candidate selection sees the one signature and its selector
    let sels = dkim_candidate_selectors(&raw, b"example.com");
    assert_eq!(sels, vec![b"sel".to_vec()]);
    assert!(dkim_candidate_selectors(&raw, b"nobody.example").is_empty());
    // malformed key material is a typed error, not a crash
    assert!(verify_signature(&header_block, &sig, b"garbage").is_err());
}

#[test]
fn unusable_signature_header_is_a_parse_error() {
    // a DKIM-Signature header exists but lacks required tags
    let raw = b"From: a@x.io\r\nDKIM-Signature: v=1; d=x.io\r\n\r\nBody";
    assert_eq!(canonicalize_signed_email(raw).unwrap_err(), CanonError::HeaderParse);
}

#[test]
fn ed25519_signature_verifies() {
    let sk = ed25519_dalek::SigningKey::from_bytes(&[42u8; 32]);
    let vk_bytes = sk.verifying_key().to_bytes().to_vec();
    let body = "Hello over Ed25519\r\n";
    let body_canon = canonicalize_body_relaxed(body.as_bytes());
    let bh = b64(&hash_bytes(&body_canon));
    let unsigned = format!(
        "From: alice@example.com\r\nSubject: Hello\r\nDKIM-Signature: v=1; a=ed25519-sha256; c=relaxed/relaxed; d=example.com; s=sel; h=from:subject; bh={}; b=\r\n\r\n{}",
        bh, body
    );
    let (header_block, _cbody, _sig) =
        canonicalize_signed_email(unsigned.as_bytes()).expect("canonicalize");
    let hashed = hash_bytes(&header_block);
    let sig = sk.sign(&hashed);
    let raw = format!(
        "From: alice@example.com\r\nSubject: Hello\r\nDKIM-Signature: v=1; a=ed25519-sha256; c=relaxed/relaxed; d=example.com; s=sel; h=from:subject; bh={}; b={}\r\n\r\n{}",
        bh,
        b64(&sig.to_bytes()),
        body
    )
    .into_bytes();
    let email = Email {
        from_domain: "example.com".to_string(),
        raw_email: raw.clone(),
        public_key: PublicKey { key: vk_bytes.clone(), key_type: "ed25519".to_string() },
        external_inputs: vec![],
    };
    assert!(verify_dkim(&email), "a correctly Ed25519-signed e-mail must verify");
    // the declared algorithm must agree with the key type
    let email_wrong_type = Email {
        from_domain: "example.com".to_string(),
        raw_email: raw,
        public_key: PublicKey { key: vk_bytes, key_type: "rsa".to_string() },
        external_inputs: vec![],
    };
    assert!(!verify_dkim(&email_wrong_type), "a key-type mismatch is a hard failure");
}

#[test]
fn validate_header_checks_required_tags() {
    assert!(validate_dkim_header(
        b"v=1; a=rsa-sha256; d=x.io; s=sel; h=from:subject; bh=QUJD; b=QUJD"
    ));
    // missing h= tag
    assert!(!validate_dkim_header(b"v=1; a=rsa-sha256; d=x.io; s=sel; bh=QUJD; b=QUJD"));
    // wrong version
    assert!(!validate_dkim_header(
        b"v=2; a=rsa-sha256; d=x.io; s=sel; h=from; bh=QUJD; b=QUJD"
    ));
    // From not signed
    assert!(!validate_dkim_header(
        b"v=1; a=rsa-sha256; d=x.io; s=sel; h=subject; bh=QUJD; b=QUJD"
    ));
}

#[test]
fn pattern_flow_end_to_end() {
    let (raw, pub_der) = signed_email("Amount: $1,234.56\r\n");
    let (header_block, cbody, _sig) = canonicalize_signed_email(&raw).expect("canonicalize");
    let (cleaned, _) = zkemail::remove_quoted_printable_soft_breaks(cbody);
    let body_parts = zkemail::compile_regex_parts(
        &[zkemail::structs::RegexPattern::Capture {
            prefix: "Amount: ".to_string(),
            capture: "\\$[0-9,.]+".to_string(),
            suffix: "".to_string(),
        }],
        &cleaned,
    )
    .expect("compile body pattern");
    let header_parts = zkemail::compile_regex_parts(
        &[zkemail::structs::RegexPattern::Capture {
            prefix: "from:".to_string(),
            capture: "[a-z]+@example.com".to_string(),
            suffix: "".to_string(),
        }],
        &header_block,
    )
    .expect("compile header pattern");
    let request = EmailWithRegex {
        email: Email {
            from_domain: "example.com".to_string(),
            raw_email: raw,
            public_key: PublicKey { key: pub_der, key_type: "rsa".to_string() },
            external_inputs: vec![],
        },
        regex_info: RegexInfo {
            header_parts: Some(header_parts),
            body_parts: Some(body_parts),
        },
    };
    let out = verify_email_with_regex(&request).expect("verified with patterns");
    // header captures come before body captures
    assert_eq!(
        out.regex_matches,
        vec!["alice@example.com".to_string(), "$1,234.56".to_string()]
    );

    // a pattern set compiled against another input fails closed
    let stray = zkemail::compile_regex_parts(
        &[zkemail::structs::RegexPattern::Match { pattern: "absent".to_string() }],
        b"the word absent is here",
    )
    .expect("compile");
    let mut bad = request;
    bad.regex_info.body_parts = Some(stray);
    assert!(matches!(verify_email_with_regex(&bad), Err(VerifyError::Pattern)));
}
