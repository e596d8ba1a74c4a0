use dnssec_client::{
    build_query, check_response, decode_message, Client, ClientConnection, ClientError, Dnskey,
    Message, Name, Record, Sig, TrustAnchor, ALG_RSASHA1, ALG_RSASHA256, CLASS_IN,
    FLAG_RESPONSE, RCODE_NXDOMAIN, RCODE_SERVFAIL, TYPE_A, TYPE_DNSKEY, TYPE_DS, TYPE_RRSIG,
};

const FIRST_ID: u16 = 1037;

use openssl::hash::MessageDigest;
use openssl::pkey::PKey;
use openssl::rsa::Rsa;

/// A transport that answers from a queue and keeps what it was sent.
struct Scripted {
    responses: Vec<Vec<u8>>,
    sent: Vec<Vec<u8>>,
}

impl Scripted {
    fn new(responses: Vec<Vec<u8>>) -> Scripted {
        Scripted { responses, sent: Vec::new() }
    }
}

impl ClientConnection for Scripted {
    fn send(&mut self, request: &Vec<u8>) -> Result<Vec<u8>, ClientError> {
        self.sent.push(request.clone());
        if self.responses.is_empty() {
            Err(ClientError::Io("no response left".to_string()))
        } else {
            Ok(self.responses.remove(0))
        }
    }
}

fn name(labels: &[&str]) -> Name {
    Name::from_labels(labels.iter().map(|l| l.as_bytes().to_vec()).collect()).unwrap()
}

fn record(owner: Name, rr_type: u16, rdata: Vec<u8>) -> Record {
    Record { name: owner, rr_type, dns_class: CLASS_IN, ttl: 300, rdata }
}

fn response(id: u16, rcode: u16, answers: Vec<Record>) -> Vec<u8> {
    let mut m = Message::new(id);
    m.flags = FLAG_RESPONSE + rcode;
    m.answers = answers;
    m.to_vec()
}

fn a_record(owner: Name) -> Record {
    record(owner, TYPE_A, vec![93, 184, 216, 34])
}

fn dnskey_rdata(flags: u16, algorithm: u8, public_key: Vec<u8>) -> Vec<u8> {
    Dnskey { flags, protocol: 3, algorithm, public_key }.to_rdata()
}

fn sig_for(type_covered: u16, algorithm: u8, signer: Name, signature: Vec<u8>) -> Sig {
    Sig {
        type_covered,
        algorithm,
        labels: 2,
        original_ttl: 300,
        expiration: 2000000000,
        inception: 1500000000,
        key_tag: 20326,
        signer_name: signer,
        signature,
    }
}

fn sig_rdata(sig: &Sig) -> Vec<u8> {
    let mut buf = Vec::new();
    sig.emit_signed_prefix(&mut buf);
    buf.extend_from_slice(&sig.signature);
    buf
}

fn www_example() -> Name {
    name(&["www", "example", "com"])
}

#[test]
fn query_returns_answer_with_request_id() {
    let reply = response(FIRST_ID, 0, vec![a_record(www_example())]);
    let mut client = Client::new(Scripted::new(vec![reply]), TrustAnchor::empty(), FIRST_ID);
    let m = client.query(&www_example(), CLASS_IN, TYPE_A).unwrap();
    assert_eq!(m.id, FIRST_ID);
    assert_eq!(m.answers.len(), 1);
    assert_eq!(m.answers[0].rdata, vec![93, 184, 216, 34]);
    assert!(m.answers[0].name.eq_ignore_case(&www_example()));
    assert_eq!(client.next_id, FIRST_ID + 1);
    let sent = decode_message(&client.client_connection.sent[0]).unwrap().0;
    assert_eq!(sent.id, FIRST_ID);
    assert_eq!(sent.queries[0].query_type, TYPE_A);
}

#[test]
fn response_with_next_id_is_refused() {
    let reply = response(FIRST_ID + 1, 0, vec![a_record(www_example())]);
    let mut client = Client::new(Scripted::new(vec![reply]), TrustAnchor::empty(), FIRST_ID);
    let r = client.query(&www_example(), CLASS_IN, TYPE_A);
    assert_eq!(r.unwrap_err(), ClientError::IncorrectMessageId { got: FIRST_ID + 1, expect: FIRST_ID });
}

#[test]
fn nxdomain_is_an_error_response() {
    let reply = response(FIRST_ID, RCODE_NXDOMAIN as u16, vec![]);
    let mut client = Client::new(Scripted::new(vec![reply]), TrustAnchor::empty(), FIRST_ID);
    let r = client.query(&www_example(), CLASS_IN, TYPE_A);
    assert_eq!(r.unwrap_err(), ClientError::ErrorResponse(3));
}

#[test]
fn servfail_is_an_error_response() {
    let reply = response(FIRST_ID, RCODE_SERVFAIL as u16, vec![]);
    let mut client = Client::new(Scripted::new(vec![reply]), TrustAnchor::empty(), FIRST_ID);
    let r = client.secure_query(&www_example(), CLASS_IN, TYPE_A);
    assert_eq!(r.unwrap_err(), ClientError::ErrorResponse(2));
}

#[test]
fn truncated_response_is_a_parse_error() {
    let mut client = Client::new(Scripted::new(vec![vec![4, 13, 0]]), TrustAnchor::empty(), FIRST_ID);
    let r = client.query(&www_example(), CLASS_IN, TYPE_A);
    assert!(matches!(r, Err(ClientError::Parse(_))));
}

#[test]
fn answer_without_rrsig_fails_after_one_query() {
    let reply = response(FIRST_ID, 0, vec![a_record(www_example())]);
    let mut client = Client::new(Scripted::new(vec![reply]), TrustAnchor::empty(), FIRST_ID);
    let r = client.secure_query(&www_example(), CLASS_IN, TYPE_A);
    assert_eq!(r.unwrap_err(), ClientError::NoRRSIG);
    assert_eq!(client.client_connection.sent.len(), 1);
}

#[test]
fn verify_answers_without_rrsig_sends_nothing() {
    let mut client = Client::new(Scripted::new(vec![]), TrustAnchor::empty(), FIRST_ID);
    let r = client.verify_answers(&vec![a_record(www_example())], TYPE_A, CLASS_IN);
    assert_eq!(r.unwrap_err(), ClientError::NoRRSIG);
    assert!(client.client_connection.sent.is_empty());
    assert_eq!(client.next_id, FIRST_ID);
}

#[test]
fn algorithm_mismatch_gives_no_rrsig() {
    let sig = sig_for(TYPE_A, ALG_RSASHA256, name(&["example", "com"]), vec![1; 64]);
    let answer = response(
        FIRST_ID,
        0,
        vec![a_record(www_example()), record(www_example(), TYPE_RRSIG, sig_rdata(&sig))],
    );
    let keys = response(
        FIRST_ID + 1,
        0,
        vec![record(name(&["example", "com"]), TYPE_DNSKEY, dnskey_rdata(256, ALG_RSASHA1, vec![1, 3, 5, 7]))],
    );
    let mut client = Client::new(Scripted::new(vec![answer, keys]), TrustAnchor::empty(), FIRST_ID);
    let r = client.secure_query(&www_example(), CLASS_IN, TYPE_A);
    assert_eq!(r.unwrap_err(), ClientError::NoRRSIG);
    assert_eq!(client.client_connection.sent.len(), 2);
}

#[test]
fn ds_digest_mismatch_gives_no_ds() {
    let zone = name(&["example", "com"]);
    let key = record(zone.clone(), TYPE_DNSKEY, dnskey_rdata(257, ALG_RSASHA256, vec![1, 3, 5, 7]));
    let sig = sig_for(TYPE_DNSKEY, ALG_RSASHA256, zone.clone(), vec![1; 64]);
    let answer = response(FIRST_ID, 0, vec![key, record(zone.clone(), TYPE_RRSIG, sig_rdata(&sig))]);
    let ds_rdata = dnskey_client_ds(20326, ALG_RSASHA256, 2, vec![0; 32]);
    let ds = response(FIRST_ID + 1, 0, vec![record(zone.clone(), TYPE_DS, ds_rdata)]);
    let mut client = Client::new(Scripted::new(vec![answer, ds]), TrustAnchor::empty(), FIRST_ID);
    let r = client.secure_query(&zone, CLASS_IN, TYPE_DNSKEY);
    assert_eq!(r.unwrap_err(), ClientError::NoDS);
    let sent = decode_message(&client.client_connection.sent[1]).unwrap().0;
    assert_eq!(sent.queries[0].query_type, TYPE_DS);
}

fn dnskey_client_ds(key_tag: u16, algorithm: u8, digest_type: u8, digest: Vec<u8>) -> Vec<u8> {
    dnssec_client::Ds { key_tag, algorithm, digest_type, digest }.to_rdata()
}

#[test]
fn root_key_without_anchor_falls_through_to_ds() {
    let root = Name::root();
    let key = record(root.clone(), TYPE_DNSKEY, dnskey_rdata(257, ALG_RSASHA256, vec![1, 3, 5, 7]));
    let sig = sig_for(TYPE_DNSKEY, ALG_RSASHA256, root.clone(), vec![1; 64]);
    let answer = response(FIRST_ID, 0, vec![key, record(root.clone(), TYPE_RRSIG, sig_rdata(&sig))]);
    let empty_ds = response(FIRST_ID + 1, 0, vec![]);
    let mut client = Client::new(Scripted::new(vec![answer, empty_ds]), TrustAnchor::empty(), FIRST_ID);
    let r = client.secure_query(&root, CLASS_IN, TYPE_DNSKEY);
    assert_eq!(r.unwrap_err(), ClientError::NoDS);
    assert_eq!(client.client_connection.sent.len(), 2);
}

#[test]
fn anchored_root_key_proves_itself() {
    let root = Name::root();
    let public_key = vec![1, 3, 5, 7];
    let key = record(root.clone(), TYPE_DNSKEY, dnskey_rdata(257, ALG_RSASHA256, public_key.clone()));
    let sig = sig_for(TYPE_DNSKEY, ALG_RSASHA256, root.clone(), vec![1; 64]);
    let answer = response(FIRST_ID, 0, vec![key, record(root.clone(), TYPE_RRSIG, sig_rdata(&sig))]);
    let mut anchor = TrustAnchor::empty();
    anchor.insert(public_key);
    let mut client = Client::new(Scripted::new(vec![answer]), anchor, FIRST_ID);
    let m = client.secure_query(&root, CLASS_IN, TYPE_DNSKEY).unwrap();
    assert_eq!(m.answers.len(), 2);
    assert_eq!(client.client_connection.sent.len(), 1);
}

#[test]
fn secure_query_follows_signature_to_anchored_root() {
    let rsa = Rsa::generate(1024).unwrap();
    let e = rsa.e().to_vec();
    let n = rsa.n().to_vec();
    let mut public_key = vec![e.len() as u8];
    public_key.extend_from_slice(&e);
    public_key.extend_from_slice(&n);
    let pkey = PKey::from_rsa(rsa).unwrap();

    let root = Name::root();
    let a = a_record(www_example());
    let unsigned = sig_for(TYPE_A, ALG_RSASHA256, root.clone(), vec![]);
    let data = dnssec_client::signed_data(&unsigned, &vec![a.clone()]);
    let mut signer = openssl::sign::Signer::new(MessageDigest::sha256(), &pkey).unwrap();
    let signature = signer.sign_oneshot_to_vec(&data).unwrap();
    let sig = sig_for(TYPE_A, ALG_RSASHA256, root.clone(), signature);

    let answer = response(FIRST_ID, 0, vec![a.clone(), record(www_example(), TYPE_RRSIG, sig_rdata(&sig))]);
    let key = record(root.clone(), TYPE_DNSKEY, dnskey_rdata(257, ALG_RSASHA256, public_key.clone()));
    let keys = response(FIRST_ID + 1, 0, vec![key.clone()]);
    let keys_first = response(FIRST_ID, 0, vec![key]);
    let mut anchor = TrustAnchor::empty();
    anchor.insert(public_key.clone());
    let mut client = Client::new(Scripted::new(vec![answer.clone(), keys.clone()]), anchor, FIRST_ID);
    let m = client.secure_query(&www_example(), CLASS_IN, TYPE_A).unwrap();
    assert_eq!(m.answers[0].rdata, vec![93, 184, 216, 34]);

    let proofs = {
        let mut anchor = TrustAnchor::empty();
        anchor.insert(public_key.clone());
        let mut c = Client::new(Scripted::new(vec![keys_first]), anchor, FIRST_ID);
        c.verify_answers(&decode_message(&answer).unwrap().0.answers, TYPE_A, CLASS_IN).unwrap()
    };
    assert_eq!(proofs.len(), 1);
    assert_eq!(proofs[0].rr_type, TYPE_A);
    let chain = &proofs[0].proof;
    assert!(chain[0].name.is_root());
    assert_eq!(chain[0].rr_type, TYPE_DNSKEY);
    assert_eq!(chain.last().unwrap().rr_type, TYPE_DNSKEY);

    // A tampered signature no longer verifies.
    let mut bad = sig.clone();
    bad.signature[0] ^= 1;
    let answer = response(FIRST_ID, 0, vec![a, record(www_example(), TYPE_RRSIG, sig_rdata(&bad))]);
    let mut anchor = TrustAnchor::empty();
    anchor.insert(public_key);
    let mut client = Client::new(Scripted::new(vec![answer, keys]), anchor, FIRST_ID);
    assert_eq!(client.secure_query(&www_example(), CLASS_IN, TYPE_A).unwrap_err(), ClientError::NoRRSIG);
}

#[test]
fn build_query_sets_flags_and_edns() {
    let q = build_query(7, &www_example(), CLASS_IN, TYPE_A, true);
    assert_eq!(q.id, 7);
    assert_eq!(q.flags, 256 + 32);
    assert_eq!(q.additionals.len(), 1);
    assert_eq!(q.additionals[0].dns_class, 1500);
    assert_eq!(q.additionals[0].ttl, 32768);
    let plain = build_query(7, &www_example(), CLASS_IN, TYPE_A, false);
    assert_eq!(plain.flags, 256);
    assert_eq!(plain.additionals[0].ttl, 0);
}

#[test]
fn check_response_reports_each_case() {
    let ok = response(9, 0, vec![]);
    assert_eq!(check_response(9, &ok).unwrap().id, 9);
    assert_eq!(check_response(8, &ok).unwrap_err(), ClientError::IncorrectMessageId { got: 9, expect: 8 });
    let fail = response(9, 2, vec![]);
    assert_eq!(check_response(9, &fail).unwrap_err(), ClientError::ErrorResponse(2));
    assert!(matches!(check_response(9, &vec![0, 9]), Err(ClientError::Parse(_))));
}

#[test]
fn root_anchor_holds_the_2017_key() {
    let anchor = TrustAnchor::new();
    assert_eq!(anchor.keys().len(), 1);
    let key = anchor.keys()[0].clone();
    assert_eq!(key.len(), 260);
    let root_key = record(Name::root(), TYPE_DNSKEY, dnskey_rdata(257, ALG_RSASHA256, key.clone()));
    let digest = vec![
        0xe0, 0x6d, 0x44, 0xb8, 0x0b, 0x8f, 0x1d, 0x39, 0xa9, 0x5c, 0x0b, 0x0d, 0x7c, 0x65, 0xd0, 0x84,
        0x58, 0xe8, 0x80, 0x40, 0x9b, 0xbc, 0x68, 0x34, 0x57, 0x10, 0x42, 0x37, 0xc7, 0xf8, 0xec, 0x8d,
    ];
    let ds = dnssec_client::Ds { key_tag: 20326, algorithm: 8, digest_type: 2, digest };
    assert!(dnssec_client::ds_matches(&ds, &root_key));
    assert!(anchor.contains(&key));
}

#[test]
fn answer_of_signatures_alone_is_refused() {
    let sig = sig_for(TYPE_A, ALG_RSASHA256, Name::root(), vec![1; 64]);
    let only_sigs = vec![record(www_example(), TYPE_RRSIG, sig_rdata(&sig))];
    let mut client = Client::new(Scripted::new(vec![]), TrustAnchor::new(), FIRST_ID);
    assert_eq!(client.verify_answers(&only_sigs, TYPE_A, CLASS_IN).unwrap_err(), ClientError::NoRRSIG);
    assert!(client.client_connection.sent.is_empty());
}

#[test]
fn first_matching_ds_and_first_verifying_key() {
    let zone = name(&["example", "com"]);
    let key = record(zone.clone(), TYPE_DNSKEY, dnskey_rdata(257, ALG_RSASHA256, vec![1, 3, 5, 7]));
    let mut input = b"\x07example\x03com\x00".to_vec();
    input.extend_from_slice(&key.rdata);
    let good = dnskey_client_ds(1, 8, 2, openssl::sha::sha256(&input).to_vec());
    let bad = dnskey_client_ds(1, 8, 2, vec![0; 32]);
    let records = vec![
        record(zone.clone(), TYPE_DS, bad.clone()),
        record(zone.clone(), TYPE_DS, good),
        record(zone.clone(), TYPE_DS, bad),
    ];
    assert_eq!(dnssec_client::first_matching_ds(&records, &key), Some(1));
    assert_eq!(dnssec_client::first_matching_ds(&records[..1].to_vec(), &key), None);

    let sig = sig_for(TYPE_A, ALG_RSASHA256, zone.clone(), vec![1; 64]);
    let keys = vec![
        record(zone.clone(), TYPE_DNSKEY, dnskey_rdata(256, ALG_RSASHA1, vec![1, 3, 5, 7])),
        record(zone.clone(), TYPE_DNSKEY, dnskey_rdata(256 + 128, ALG_RSASHA256, vec![1, 3, 5, 7])),
    ];
    assert_eq!(dnssec_client::first_verifying_key(&keys, &sig, &vec![1, 2, 3]), None);
}

#[test]
fn addresses_keep_only_matching_records() {
    let answers = vec![
        a_record(www_example()),
        record(www_example(), TYPE_A, vec![1, 2, 3]),
        record(www_example(), dnssec_client::TYPE_AAAA, vec![0; 16]),
        record(www_example(), TYPE_A, vec![10, 0, 0, 1]),
    ];
    assert_eq!(dnssec_client::addresses(&answers, TYPE_A), vec![vec![93, 184, 216, 34], vec![10, 0, 0, 1]]);
    assert_eq!(dnssec_client::addresses(&answers, dnssec_client::TYPE_AAAA), vec![vec![0; 16]]);
}

#[test]
fn key_owned_by_another_name_is_not_used() {
    let rsa = Rsa::generate(1024).unwrap();
    let e = rsa.e().to_vec();
    let n = rsa.n().to_vec();
    let mut public_key = vec![e.len() as u8];
    public_key.extend_from_slice(&e);
    public_key.extend_from_slice(&n);
    let pkey = PKey::from_rsa(rsa).unwrap();

    let root = Name::root();
    let a = a_record(www_example());
    let unsigned = sig_for(TYPE_A, ALG_RSASHA256, root.clone(), vec![]);
    let data = dnssec_client::signed_data(&unsigned, &vec![a.clone()]);
    let mut signer = openssl::sign::Signer::new(MessageDigest::sha256(), &pkey).unwrap();
    let sig = sig_for(TYPE_A, ALG_RSASHA256, root.clone(), signer.sign_oneshot_to_vec(&data).unwrap());

    let answer = response(FIRST_ID, 0, vec![a, record(www_example(), TYPE_RRSIG, sig_rdata(&sig))]);
    let stray = record(name(&["com"]), TYPE_DNSKEY, dnskey_rdata(257, ALG_RSASHA256, public_key.clone()));
    let keys = response(FIRST_ID + 1, 0, vec![stray]);
    let mut anchor = TrustAnchor::empty();
    anchor.insert(public_key);
    let mut client = Client::new(Scripted::new(vec![answer, keys]), anchor, FIRST_ID);
    assert_eq!(client.secure_query(&www_example(), CLASS_IN, TYPE_A).unwrap_err(), ClientError::NoRRSIG);
    assert_eq!(client.client_connection.sent.len(), 2);
    let sent = decode_message(&client.client_connection.sent[1]).unwrap().0;
    assert_eq!(sent.queries[0].query_type, TYPE_DNSKEY);
    assert!(sent.queries[0].name.is_root());
}

#[test]
fn parse_keeps_final_dot_optional() {
    let a = Name::parse("www.example.com.").unwrap();
    let b = Name::parse("www.example.com").unwrap();
    assert_eq!(a.num_labels(), 3);
    assert!(a.eq_ignore_case(&b));
    assert!(Name::parse("www.example.com..").is_err());
}
