use zkemail::hash_bytes;
use zkemail::hash_bytes_batch;
use zkemail::hash_bytes_concat;
use zkemail::hash_bytes_small;
use zkemail::structs::EmailVerifierOutput;
use zkemail::VerificationOutput;

fn hex_to_bytes(s: &str) -> Vec<u8> {
    let digits: Vec<u8> = s
        .bytes()
        .map(|b| match b {
            b'0'..=b'9' => b - b'0',
            b'a'..=b'f' => b - b'a' + 10,
            b'A'..=b'F' => b - b'A' + 10,
            _ => panic!("not a hex digit"),
        })
        .collect();
    digits.chunks(2).map(|p| (p[0] << 4) | p[1]).collect()
}

#[test]
fn sha256_known_vectors() {
    // SHA-256 of the empty string and of "abc".
    assert_eq!(
        hash_bytes(b""),
        hex_to_bytes("e3b0c44298fc1c149afbf4c8996fb92427ae41e4649b934ca495991b7852b855")
    );
    assert_eq!(
        hash_bytes(b"abc"),
        hex_to_bytes("ba7816bf8f01cfea414140de5dae2223b00361a396177a9cb410ff61f20015ad")
    );
}

#[test]
fn hashing_is_deterministic_and_input_sensitive() {
    let data = b"some email bytes";
    let h1 = hash_bytes(data);
    let h2 = hash_bytes(data);
    assert_eq!(h1, h2);
    let h3 = hash_bytes(b"some email bytes plus extra data");
    assert_ne!(h1, h3);
    assert_eq!(h1.len(), 32);
}

#[test]
fn hash_variants_agree() {
    let a: &[u8] = b"first";
    let b: &[u8] = b"second part";
    let batch = hash_bytes_batch(&[a, b]);
    assert_eq!(batch.len(), 2);
    assert_eq!(batch[0], hash_bytes(a));
    assert_eq!(batch[1], hash_bytes(b));
    assert_eq!(hash_bytes_concat(&[a, b]), hash_bytes(b"firstsecond part"));
    assert_eq!(hash_bytes_small(a), hash_bytes(a));
    let long = vec![7u8; 100];
    assert_eq!(hash_bytes_small(&long), hash_bytes(&long));
}

fn word(v: u64) -> Vec<u8> {
    let mut w = vec![0u8; 32];
    w[24..].copy_from_slice(&v.to_be_bytes());
    w
}

#[test]
fn abi_encode_email_only_layout() {
    let out = EmailVerifierOutput {
        from_domain_hash: vec![0x11; 32],
        public_key_hash: vec![0x22; 32],
        external_inputs: vec!["ab".to_string()],
    };
    let rec = VerificationOutput::from_parts(out, None);
    let enc = rec.abi_encode();
    let mut expected: Vec<u8> = Vec::new();
    expected.extend_from_slice(&[0x11; 32]);
    expected.extend_from_slice(&[0x22; 32]);
    expected.extend_from_slice(&word(96)); // offset of the string array
    expected.extend_from_slice(&word(1)); // one string
    expected.extend_from_slice(&word(32)); // its offset, past one offset word
    expected.extend_from_slice(&word(2)); // its length
    expected.extend_from_slice(b"ab");
    expected.extend_from_slice(&[0u8; 30]); // padding to the word boundary
    assert_eq!(enc, expected);
}

#[test]
fn abi_encode_with_matches_layout() {
    let out = EmailVerifierOutput {
        from_domain_hash: vec![0xaa; 32],
        public_key_hash: vec![0xbb; 32],
        external_inputs: vec![],
    };
    let rec = VerificationOutput::from_parts(out, Some(vec!["x".to_string()]));
    let enc = rec.abi_encode();
    let mut expected: Vec<u8> = Vec::new();
    expected.extend_from_slice(&word(64)); // offset of the inner record
    expected.extend_from_slice(&word(64 + 96 + 32)); // offset of the match array
    expected.extend_from_slice(&[0xaa; 32]);
    expected.extend_from_slice(&[0xbb; 32]);
    expected.extend_from_slice(&word(96));
    expected.extend_from_slice(&word(0)); // no external inputs
    expected.extend_from_slice(&word(1)); // one match
    expected.extend_from_slice(&word(32));
    expected.extend_from_slice(&word(1));
    expected.extend_from_slice(b"x");
    expected.extend_from_slice(&[0u8; 31]);
    assert_eq!(enc, expected);
}

#[test]
fn from_parts_keeps_the_variant() {
    let out = EmailVerifierOutput {
        from_domain_hash: vec![0; 32],
        public_key_hash: vec![0; 32],
        external_inputs: vec![],
    };
    match VerificationOutput::from_parts(out.clone(), None) {
        VerificationOutput::EmailOnly(_) => {},
        VerificationOutput::WithRegex { .. } => panic!("wrong variant"),
    }
    match VerificationOutput::from_parts(out, Some(vec!["m".to_string()])) {
        VerificationOutput::WithRegex { matches, .. } => {
            assert_eq!(matches, vec!["m".to_string()]);
        },
        VerificationOutput::EmailOnly(_) => panic!("wrong variant"),
    }
}
