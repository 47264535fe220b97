use rsa::pkcs1::EncodeRsaPublicKey;
use rsa::pkcs8::EncodePublicKey;
use zkemail::extract_and_format_key;
use zkemail::extract_dkim_fields;
use zkemail::parse_dkim_key_record;
use zkemail::select_archive_key;
use zkemail::select_txt_answer;
use zkemail::MimeEmail;
use zkemail::MimePart;
use zkemail::DkimKeyRecord;
use zkemail::DnsAnswer;
use zkemail::KeyRecordError;

fn b64(data: &[u8]) -> String {
    base64::Engine::encode(&base64::engine::general_purpose::STANDARD, data)
}

fn sample_rsa_key() -> rsa::RsaPublicKey {
    // a small fixed key: enough for parsing round trips
    let n = rsa::BigUint::from_bytes_be(&[
        0xc9, 0x3a, 0x29, 0x47, 0x6f, 0x7d, 0x2f, 0x4f, 0x0c, 0x35, 0x2b, 0xb1, 0x9f, 0x12,
        0x89, 0x61, 0x6f, 0x55, 0x34, 0x22, 0xa7, 0x3d, 0x57, 0x48, 0x8d, 0x57, 0x51, 0x50,
        0x45, 0x43, 0x39, 0x3b,
    ]);
    let e = rsa::BigUint::from_bytes_be(&[0x01, 0x00, 0x01]);
    rsa::RsaPublicKey::new_unchecked(n, e)
}

#[test]
fn key_record_rsa_round_trip() {
    let key = sample_rsa_key();
    let spki = key.to_public_key_der().expect("spki").as_bytes().to_vec();
    let pkcs1 = key.to_pkcs1_der().expect("pkcs1").as_bytes().to_vec();
    // an SPKI p= value comes back re-encoded as PKCS#1
    let record = format!("v=DKIM1; k=rsa; p={}", b64(&spki));
    let (kb, kt) = parse_dkim_key_record(record.as_bytes()).expect("usable record");
    assert_eq!(kb, pkcs1);
    assert_eq!(kt, b"rsa".to_vec());
    // a missing k= defaults to rsa
    let record2 = format!("p={}", b64(&pkcs1));
    let (kb2, kt2) = parse_dkim_key_record(record2.as_bytes()).expect("usable record");
    assert_eq!(kb2, pkcs1);
    assert_eq!(kt2, b"rsa".to_vec());
}

#[test]
fn key_record_ed25519_and_errors() {
    let raw32 = [7u8; 32];
    let record = format!("k=ed25519; p={}", b64(&raw32));
    let (kb, kt) = parse_dkim_key_record(record.as_bytes()).expect("usable record");
    assert_eq!(kb, raw32.to_vec());
    assert_eq!(kt, b"ed25519".to_vec());
    // wrong length
    let record = format!("k=ed25519; p={}", b64(&[7u8; 16]));
    assert_eq!(parse_dkim_key_record(record.as_bytes()), Err(KeyRecordError::BadKey));
    // unsupported type
    let record = format!("k=unknown; p={}", b64(&raw32));
    assert_eq!(parse_dkim_key_record(record.as_bytes()), Err(KeyRecordError::Unsupported));
    // no key at all
    assert_eq!(parse_dkim_key_record(b"v=DKIM1; k=rsa"), Err(KeyRecordError::NoKey));
    assert_eq!(parse_dkim_key_record(b"v=DKIM1; k=rsa; p="), Err(KeyRecordError::NoKey));
    // undecodable key bytes
    let record = b"k=ed25519; p=!!!notbase64!!!";
    assert_eq!(parse_dkim_key_record(record), Err(KeyRecordError::BadKey));
}

#[test]
fn pem_wrapping_at_64_columns() {
    let long: String = "A".repeat(70);
    let record = format!("v=DKIM1; p={}", long);
    let pem = extract_and_format_key(&record).expect("a p= part");
    let expected = format!(
        "-----BEGIN PUBLIC KEY-----\n{}\n{}\n-----END PUBLIC KEY-----",
        "A".repeat(64),
        "A".repeat(6)
    );
    assert_eq!(pem, expected);
    // quotes around the key are stripped
    let pem2 = extract_and_format_key("p=\"SHORT\"").expect("a p= part");
    assert_eq!(pem2, "-----BEGIN PUBLIC KEY-----\nSHORT\n-----END PUBLIC KEY-----");
    // no p= part at all
    assert_eq!(extract_and_format_key("v=DKIM1; k=rsa"), Err(KeyRecordError::NoKey));
}

#[test]
fn archive_and_dns_selection() {
    let records = vec![
        DkimKeyRecord { selector: "sel".to_string(), value: "k=rsa; p=".to_string() },
        DkimKeyRecord { selector: "other".to_string(), value: "k=rsa; p=QUJD".to_string() },
        DkimKeyRecord { selector: "sel".to_string(), value: "k=rsa; p=QUJD".to_string() },
    ];
    // the first record has an empty key (value ends with p=), the second a
    // wrong selector; the third is the first usable one
    assert_eq!(select_archive_key(&records, "sel"), Some(2));
    assert_eq!(select_archive_key(&records, "missing"), None);

    let answers = vec![
        DnsAnswer { record_type: 5, data: "cname".to_string() },
        DnsAnswer { record_type: 16, data: "v=DKIM1; p=QUJD".to_string() },
    ];
    assert_eq!(select_txt_answer(&answers), Some(1));
    assert_eq!(select_txt_answer(&answers[..1].to_vec()), None);
}

#[test]
fn dkim_fields_of_an_email() {
    let raw = b"DKIM-Signature: v=1; a=rsa-sha256; d=example.com; s=sel; h=from; bh=QUJD; b=WFla\r\nFrom: a@example.com\r\n\r\nBody";
    let tags = extract_dkim_fields(raw).expect("a DKIM-Signature header");
    let d = tags.iter().find(|t| t.name == b"d".to_vec()).expect("d tag");
    assert_eq!(d.value, b"example.com".to_vec());
    let s = tags.iter().find(|t| t.name == b"s".to_vec()).expect("s tag");
    assert_eq!(s.value, b"sel".to_vec());
    // no DKIM header at all
    assert!(extract_dkim_fields(b"From: a@x.io\r\n\r\nBody").is_none());
}

#[test]
fn body_region_selection() {
    let html = MimePart { mimetype: "text/html".to_string(), body: b"<p>hi</p>".to_vec() };
    let plain = MimePart { mimetype: "text/plain".to_string(), body: b"hi".to_vec() };
    let pdf = MimePart { mimetype: "application/pdf".to_string(), body: b"%PDF".to_vec() };
    // the first text/html part wins
    let email = MimeEmail {
        body: b"whole".to_vec(),
        subparts: vec![plain.clone(), html.clone()],
    };
    assert_eq!(zkemail::extract_email_body(&email), b"<p>hi</p>".to_vec());
    // without one, the first text/plain part wins, wherever it stands
    let email = MimeEmail {
        body: b"whole".to_vec(),
        subparts: vec![pdf.clone(), plain.clone()],
    };
    assert_eq!(zkemail::extract_email_body(&email), b"hi".to_vec());
    // else the first part
    let email = MimeEmail { body: b"whole".to_vec(), subparts: vec![pdf.clone()] };
    assert_eq!(zkemail::extract_email_body(&email), b"%PDF".to_vec());
    // else the whole body
    let email = MimeEmail { body: b"whole".to_vec(), subparts: vec![] };
    assert_eq!(zkemail::extract_email_body(&email), b"whole".to_vec());
}
