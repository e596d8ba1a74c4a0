use dnssec_client::{
    bytes_le, decode_message, ds_digest, ds_matches, read_name, rsa_parts, signature_check,
    sorted_rdatas, Dnskey, Ds, Message, Name, ParseError, Query, Record, CLASS_IN,
    DIGEST_SHA1, DIGEST_SHA256, TYPE_A, TYPE_DNSKEY,
};

fn name(labels: &[&str]) -> Name {
    Name::from_labels(labels.iter().map(|l| l.as_bytes().to_vec()).collect()).unwrap()
}

fn sample() -> Message {
    let mut m = Message::new(0x1234);
    m.flags = 0x8180;
    m.queries.push(Query { name: name(&["www", "example", "com"]), query_type: TYPE_A, query_class: CLASS_IN });
    m.answers.push(Record {
        name: name(&["www", "example", "com"]),
        rr_type: TYPE_A,
        dns_class: CLASS_IN,
        ttl: 86400,
        rdata: vec![93, 184, 216, 34],
    });
    m
}

#[test]
fn encode_decode_encode_is_identity() {
    let bytes = sample().to_vec();
    let (m, compressed) = decode_message(&bytes).unwrap();
    assert!(!compressed);
    assert_eq!(m.to_vec(), bytes);
    assert_eq!(m.id, 0x1234);
    assert_eq!(m.response_code(), 0);
}

#[test]
fn header_and_name_bytes_are_exact() {
    let bytes = sample().to_vec();
    assert_eq!(&bytes[0..12], &[0x12, 0x34, 0x81, 0x80, 0, 1, 0, 1, 0, 0, 0, 0]);
    assert_eq!(&bytes[12..29], b"\x03www\x07example\x03com\x00");
}

#[test]
fn compressed_name_is_followed() {
    let mut bytes = sample().to_vec();
    // Replace the answer's owner with a pointer to the question's name at 12.
    let answer_start = 12 + 17 + 4;
    let tail = bytes.split_off(answer_start + 17);
    bytes.truncate(answer_start);
    bytes.extend_from_slice(&[0xC0, 12]);
    bytes.extend_from_slice(&tail);
    let (m, compressed) = decode_message(&bytes).unwrap();
    assert!(compressed);
    assert!(m.answers[0].name.eq_ignore_case(&name(&["www", "example", "com"])));
    assert_eq!(m.answers[0].rdata, vec![93, 184, 216, 34]);
}

#[test]
fn pointer_loop_is_refused() {
    let bytes = vec![0xC0, 0];
    assert_eq!(read_name(&bytes, 0).unwrap_err(), ParseError::PointerLoop);
    let forward = vec![1, b'a', 0xC0, 0];
    assert_eq!(read_name(&forward, 0).unwrap_err(), ParseError::PointerLoop);
}

#[test]
fn bad_label_length_is_refused() {
    assert_eq!(read_name(&vec![64, 0], 0).unwrap_err(), ParseError::InvalidLabel);
    assert_eq!(read_name(&vec![3, b'a'], 0).unwrap_err(), ParseError::ShortBuffer);
    assert_eq!(Name::from_labels(vec![vec![]]).unwrap_err(), ParseError::InvalidLabel);
    assert_eq!(Name::from_labels(vec![vec![b'a'; 64]]).unwrap_err(), ParseError::InvalidLabel);
    assert_eq!(Name::from_labels(vec![vec![b'a'; 63]; 4]).unwrap_err(), ParseError::NameTooLong);
}

#[test]
fn canonical_form_ignores_case() {
    let mixed = name(&["WWW", "Example", "COM"]);
    let mut a = Vec::new();
    mixed.emit_canonical(&mut a);
    let mut b = Vec::new();
    mixed.to_lowercase().emit_canonical(&mut b);
    assert_eq!(a, b);
    assert_eq!(a, b"\x03www\x07example\x03com\x00".to_vec());
    let mut plain = Vec::new();
    mixed.emit(&mut plain);
    assert_eq!(plain, b"\x03WWW\x07Example\x03COM\x00".to_vec());
}

#[test]
fn zones_and_case_insensitive_names() {
    let com = name(&["COM"]);
    let www = name(&["www", "example", "com"]);
    assert!(com.zone_of(&www));
    assert!(Name::root().zone_of(&www));
    assert!(!www.zone_of(&com));
    assert!(!name(&["org"]).zone_of(&www));
    assert!(www.eq_ignore_case(&name(&["WWW", "EXAMPLE", "Com"])));
}

#[test]
fn rdata_sorted_canonically() {
    let mk = |d: Vec<u8>| Record { name: Name::root(), rr_type: TYPE_A, dns_class: CLASS_IN, ttl: 1, rdata: d };
    let rs = vec![mk(vec![2, 0]), mk(vec![1, 9, 9]), mk(vec![2]), mk(vec![1, 9])];
    assert_eq!(sorted_rdatas(&rs), vec![vec![1, 9], vec![1, 9, 9], vec![2], vec![2, 0]]);
    assert!(bytes_le(&vec![1, 2], &vec![1, 2, 0]));
    assert!(!bytes_le(&vec![1, 3], &vec![1, 2, 0]));
}

#[test]
fn ds_digest_uses_sha() {
    let input = b"abc".to_vec();
    let d1 = ds_digest(DIGEST_SHA1, &input).unwrap();
    assert_eq!(d1[0..4], [0xa9, 0x99, 0x3e, 0x36]);
    let d2 = ds_digest(DIGEST_SHA256, &input).unwrap();
    assert_eq!(d2[0..4], [0xba, 0x78, 0x16, 0xbf]);
    assert_eq!(ds_digest(3, &input), None);
}

#[test]
fn ds_matches_digest_of_owner_and_key() {
    let key = Record {
        name: name(&["Example", "com"]),
        rr_type: TYPE_DNSKEY,
        dns_class: CLASS_IN,
        ttl: 1,
        rdata: Dnskey { flags: 257, protocol: 3, algorithm: 8, public_key: vec![1, 2, 3] }.to_rdata(),
    };
    let mut input = b"\x07example\x03com\x00".to_vec();
    input.extend_from_slice(&key.rdata);
    let digest = openssl::sha::sha256(&input).to_vec();
    let good = Ds { key_tag: 1, algorithm: 8, digest_type: DIGEST_SHA256, digest: digest.clone() };
    assert!(ds_matches(&good, &key));
    let mut wrong = digest;
    wrong[0] ^= 1;
    let bad = Ds { key_tag: 1, algorithm: 8, digest_type: DIGEST_SHA256, digest: wrong };
    assert!(!ds_matches(&bad, &key));
}

#[test]
fn rsa_key_split_and_unsupported_algorithm() {
    let (e, n) = rsa_parts(&vec![1, 3, 0xAB, 0xCD]).unwrap();
    assert_eq!(e, vec![3]);
    assert_eq!(n, vec![0xAB, 0xCD]);
    let (e, n) = rsa_parts(&vec![0, 0, 2, 1, 0, 7]).unwrap();
    assert_eq!(e, vec![1, 0]);
    assert_eq!(n, vec![7]);
    assert_eq!(rsa_parts(&vec![2, 3]), None);
    assert_eq!(signature_check(15, &vec![1], &vec![], &vec![]), Err(dnssec_client::ClientError::UnsupportedAlgorithm(15)));
    assert_eq!(signature_check(13, &vec![1], &vec![], &vec![]), Ok(false));
    assert_eq!(signature_check(8, &vec![2, 3], &vec![], &vec![]), Ok(false));
}

#[test]
fn dnskey_flags_read() {
    let k = Dnskey::from_rdata(&vec![1, 129, 3, 8, 9]).unwrap();
    assert!(k.zone_key());
    assert!(k.secure_entry_point());
    assert!(k.revoke());
    assert_eq!(k.public_key, vec![9]);
    assert!(Dnskey::from_rdata(&vec![1, 0, 3]).is_none());
}

#[test]
fn ecdsa_p256_signature_checks() {
    use_ecdsa_p256();
}

fn use_ecdsa_p256() {
    let group = openssl::ec::EcGroup::from_curve_name(openssl::nid::Nid::X9_62_PRIME256V1).unwrap();
    let key = openssl::ec::EcKey::generate(&group).unwrap();
    let mut ctx = openssl::bn::BigNumContext::new().unwrap();
    let mut x = openssl::bn::BigNum::new().unwrap();
    let mut y = openssl::bn::BigNum::new().unwrap();
    key.public_key().affine_coordinates(&group, &mut x, &mut y, &mut ctx).unwrap();
    let mut public_key = x.to_vec_padded(32).unwrap();
    public_key.extend_from_slice(&y.to_vec_padded(32).unwrap());
    let data = b"signed octets".to_vec();
    let digest = openssl::sha::sha256(&data);
    let sig = openssl::ecdsa::EcdsaSig::sign(&digest, &key).unwrap();
    let mut signature = sig.r().to_vec_padded(32).unwrap();
    signature.extend_from_slice(&sig.s().to_vec_padded(32).unwrap());
    assert_eq!(signature_check(13, &public_key, &data, &signature), Ok(true));
    let mut other = data.clone();
    other.push(0);
    assert_eq!(signature_check(13, &public_key, &other, &signature), Ok(false));
    assert_eq!(signature_check(14, &public_key, &data, &signature), Ok(false));
}
