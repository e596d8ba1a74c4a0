use vstd::prelude::*;
use vstd::seq_lib::lemma_multiset_commutative;
use crate::error::ClientError;
use crate::name::{Name, canonical_name_wire, in_zone, same_name};
use crate::wire::{Record, u16_wire, u32_wire, push_u16, push_u32, push_bytes, read_bytes};
use crate::rdata::{
    Dnskey, Ds, Sig, spec_revoke, spec_zone_key, sig_signed_prefix, ds_digest_input,
    is_dnskey_record, record_flags, record_public_key,
};
use crate::message::TYPE_DS;
use crate::crypto::{
    DIGEST_SHA1, DIGEST_SHA256, DIGEST_SHA384, DIGEST_SHA512, sha1, sha256, sha384, sha1_of,
    sha256_of, sha384_of, rsa_verify, rsa_pkcs1_valid, ecdsa_verify, ecdsa_valid,
};

verus! {

pub const ALG_RSASHA1: u8 = 5;
pub const ALG_RSASHA1_NSEC3_SHA1: u8 = 7;
pub const ALG_RSASHA256: u8 = 8;
pub const ALG_RSASHA512: u8 = 10;
pub const ALG_ECDSAP256SHA256: u8 = 13;
pub const ALG_ECDSAP384SHA384: u8 = 14;

/// The digest of an RSA signing algorithm; none for other algorithms.
pub open spec fn spec_rsa_digest(alg: u8) -> Option<u8> {
    if alg == ALG_RSASHA1 || alg == ALG_RSASHA1_NSEC3_SHA1 {
        Some(DIGEST_SHA1)
    } else if alg == ALG_RSASHA256 {
        Some(DIGEST_SHA256)
    } else if alg == ALG_RSASHA512 {
        Some(DIGEST_SHA512)
    } else {
        None
    }
}

pub fn rsa_digest(alg: u8) -> (r: Option<u8>)
    ensures
        r == spec_rsa_digest(alg),
{
    if alg == ALG_RSASHA1 || alg == ALG_RSASHA1_NSEC3_SHA1 {
        Some(DIGEST_SHA1)
    } else if alg == ALG_RSASHA256 {
        Some(DIGEST_SHA256)
    } else if alg == ALG_RSASHA512 {
        Some(DIGEST_SHA512)
    } else {
        None
    }
}

/// Where the exponent of an RSA public key in DNSKEY form starts and how long
/// it is: one length octet, or a zero octet and two length octets.
pub open spec fn rsa_exponent_span(key: Seq<u8>) -> Option<(int, int)> {
    if key.len() >= 1 && key[0] != 0 {
        Some((1, key[0] as int))
    } else if key.len() >= 3 && key[0] == 0 {
        Some((3, key[1] as int * 256 + key[2] as int))
    } else {
        None
    }
}

/// The exponent and the modulus of an RSA public key in DNSKEY form; both
/// must be non-empty.
pub open spec fn spec_rsa_parts(key: Seq<u8>) -> Option<(Seq<u8>, Seq<u8>)> {
    match rsa_exponent_span(key) {
        Some((start, len)) => if len >= 1 && start + len < key.len() {
            Some((key.subrange(start, start + len), key.subrange(start + len, key.len() as int)))
        } else {
            None
        },
        None => None,
    }
}

pub fn rsa_parts(key: &Vec<u8>) -> (r: Option<(Vec<u8>, Vec<u8>)>)
    ensures
        match (r, spec_rsa_parts(key@)) {
            (Some((e, n)), Some((se, sn))) => e@ == se && n@ == sn,
            (None, None) => true,
            _ => false,
        },
{
    let (start, len): (usize, usize) = if key.len() >= 1 && key[0] != 0 {
        (1, key[0] as usize)
    } else if key.len() >= 3 && key[0] == 0 {
        (3, key[1] as usize * 256 + key[2] as usize)
    } else {
        return None;
    };
    if len < 1 || start + len >= key.len() {
        return None;
    }
    let e = match read_bytes(key, start, len) {
        Ok(v) => v,
        Err(_) => return None,
    };
    let n = match read_bytes(key, start + len, key.len() - start - len) {
        Ok(v) => v,
        Err(_) => return None,
    };
    Some((e, n))
}

/// The size of one coordinate of an ECDSA algorithm's curve; none for other
/// algorithms.
pub open spec fn spec_ecdsa_size(alg: u8) -> Option<int> {
    if alg == ALG_ECDSAP256SHA256 {
        Some(32)
    } else if alg == ALG_ECDSAP384SHA384 {
        Some(48)
    } else {
        None
    }
}

/// The digest that an ECDSA algorithm signs.
pub open spec fn spec_ecdsa_digest(alg: u8, data: Seq<u8>) -> Seq<u8> {
    if alg == ALG_ECDSAP384SHA384 {
        sha384_of(data)
    } else {
        sha256_of(data)
    }
}

/// Whether `signature` signs `data` under a DNSKEY's public key with the
/// given algorithm. An RSA key is exponent and modulus; an ECDSA key is the
/// point's two coordinates and the signature its two halves, each of the
/// curve's size. A key or signature of the wrong shape, or longer than
/// record data can be, does not verify; algorithms other than these are not
/// implemented.
pub open spec fn spec_signature_check(alg: u8, key: Seq<u8>, data: Seq<u8>, signature: Seq<u8>) -> Result<bool, ClientError> {
    if (spec_rsa_digest(alg) is Some || spec_ecdsa_size(alg) is Some) && (key.len() > 65535
        || signature.len() > 65535) {
        Ok(false)
    } else {
        spec_signature_shape_check(alg, key, data, signature)
    }
}

pub open spec fn spec_signature_shape_check(alg: u8, key: Seq<u8>, data: Seq<u8>, signature: Seq<u8>) -> Result<bool, ClientError> {
    match spec_rsa_digest(alg) {
        Some(d) => match spec_rsa_parts(key) {
            Some((e, n)) => Ok(rsa_pkcs1_valid(d, n, e, data, signature)),
            None => Ok(false),
        },
        None => match spec_ecdsa_size(alg) {
            Some(n) => if key.len() == 2 * n && signature.len() == 2 * n {
                Ok(
                    ecdsa_valid(
                        alg == ALG_ECDSAP384SHA384,
                        key.subrange(0, n),
                        key.subrange(n, 2 * n),
                        spec_ecdsa_digest(alg, data),
                        signature.subrange(0, n),
                        signature.subrange(n, 2 * n),
                    ),
                )
            } else {
                Ok(false)
            },
            None => Err(ClientError::UnsupportedAlgorithm(alg)),
        },
    }
}

pub fn signature_check(alg: u8, key: &Vec<u8>, data: &Vec<u8>, signature: &Vec<u8>) -> (r: Result<bool, ClientError>)
    ensures
        r == spec_signature_check(alg, key@, data@, signature@),
{
    let supported = alg == ALG_RSASHA1 || alg == ALG_RSASHA1_NSEC3_SHA1 || alg == ALG_RSASHA256
        || alg == ALG_RSASHA512 || alg == ALG_ECDSAP256SHA256 || alg == ALG_ECDSAP384SHA384;
    if supported && (key.len() > 65535 || signature.len() > 65535) {
        return Ok(false);
    }
    match rsa_digest(alg) {
        Some(d) => {
            return match rsa_parts(key) {
                Some((e, n)) => Ok(rsa_verify(d, &n, &e, data, signature)),
                None => Ok(false),
            };
        },
        None => {},
    }
    let n: usize = if alg == ALG_ECDSAP256SHA256 {
        32
    } else if alg == ALG_ECDSAP384SHA384 {
        48
    } else {
        return Err(ClientError::UnsupportedAlgorithm(alg));
    };
    if key.len() != 2 * n || signature.len() != 2 * n {
        return Ok(false);
    }
    let digest = if alg == ALG_ECDSAP384SHA384 {
        sha384(data)
    } else {
        sha256(data)
    };
    let (x, y, r, s) = match (
        read_bytes(key, 0, n),
        read_bytes(key, n, n),
        read_bytes(signature, 0, n),
        read_bytes(signature, n, n),
    ) {
        (Ok(x), Ok(y), Ok(r), Ok(s)) => (x, y, r, s),
        _ => return Ok(false),
    };
    Ok(ecdsa_verify(alg == ALG_ECDSAP384SHA384, &x, &y, &digest, &r, &s))
}

/// The digest of a DS record's digest type over `input`; none for types
/// that are not implemented.
pub open spec fn spec_ds_digest(digest_type: u8, input: Seq<u8>) -> Option<Seq<u8>> {
    if digest_type == DIGEST_SHA1 {
        Some(sha1_of(input))
    } else if digest_type == DIGEST_SHA256 {
        Some(sha256_of(input))
    } else if digest_type == DIGEST_SHA384 {
        Some(sha384_of(input))
    } else {
        None
    }
}

pub fn ds_digest(digest_type: u8, input: &Vec<u8>) -> (r: Option<Vec<u8>>)
    ensures
        match (r, spec_ds_digest(digest_type, input@)) {
            (Some(d), Some(sd)) => d@ == sd,
            (None, None) => true,
            _ => false,
        },
{
    if digest_type == DIGEST_SHA1 {
        Some(sha1(input))
    } else if digest_type == DIGEST_SHA256 {
        Some(sha256(input))
    } else if digest_type == DIGEST_SHA384 {
        Some(sha384(input))
    } else {
        None
    }
}

/// A DS record vouches for a DNSKEY record when the digest of the key's
/// canonical owner and data equals the DS digest.
pub open spec fn spec_ds_matches(ds: Ds, dnskey: Record) -> bool {
    match spec_ds_digest(ds.digest_type, ds_digest_input(dnskey)) {
        Some(d) => d == ds.digest@,
        None => false,
    }
}

/// Whether the digest that `ds` carries is the digest of `dnskey`.
pub fn ds_matches(ds: &Ds, dnskey: &Record) -> (r: bool)
    ensures
        r == spec_ds_matches(*ds, *dnskey),
{
    let mut input: Vec<u8> = Vec::new();
    dnskey.name.emit_canonical(&mut input);
    push_bytes(&mut input, &dnskey.rdata);
    assert(input@ =~= ds_digest_input(*dnskey));
    match ds_digest(ds.digest_type, &input) {
        Some(d) => crate::name::bytes_eq(&d, &ds.digest),
        None => false,
    }
}

/// A DNSKEY may check an RRSIG when it is a zone key, is not revoked and has
/// the RRSIG's algorithm.
pub open spec fn spec_key_usable(k: Dnskey, alg: u8) -> bool {
    spec_zone_key(k.flags) && !spec_revoke(k.flags) && k.algorithm == alg
}

pub fn key_usable(k: &Dnskey, alg: u8) -> (r: bool)
    ensures
        r == spec_key_usable(*k, alg),
{
    k.zone_key() && !k.revoke() && k.algorithm == alg
}

/// An RRSIG may cover an rrset of `name` and `rr_type` when it names that
/// type and its signer is `name` or an ancestor of it.
pub open spec fn spec_sig_applies(s: Sig, name: Seq<Seq<u8>>, rr_type: u16) -> bool {
    s.type_covered == rr_type && in_zone(s.signer_name@, name)
}

pub fn sig_applies(s: &Sig, name: &Name, rr_type: u16) -> (r: bool)
    ensures
        r == spec_sig_applies(*s, name@, rr_type),
{
    s.type_covered == rr_type && s.signer_name.zone_of(name)
}

/// Canonical order of record data: octet strings compared left-justified,
/// a proper prefix first.
pub open spec fn lex_le(a: Seq<u8>, b: Seq<u8>) -> bool
    decreases a.len(),
{
    if a.len() == 0 {
        true
    } else if b.len() == 0 {
        false
    } else if a[0] != b[0] {
        a[0] < b[0]
    } else {
        lex_le(a.drop_first(), b.drop_first())
    }
}

proof fn lemma_lex_total(a: Seq<u8>, b: Seq<u8>)
    ensures
        lex_le(a, b) || lex_le(b, a),
    decreases a.len(),
{
    if a.len() > 0 && b.len() > 0 && a[0] == b[0] {
        lemma_lex_total(a.drop_first(), b.drop_first());
    }
}

proof fn lemma_lex_skip(a: Seq<u8>, b: Seq<u8>, i: int)
    requires
        0 <= i < a.len(),
        i < b.len(),
        a[i] == b[i],
    ensures
        lex_le(a.subrange(i, a.len() as int), b.subrange(i, b.len() as int)) == lex_le(
            a.subrange(i + 1, a.len() as int),
            b.subrange(i + 1, b.len() as int),
        ),
{
    assert(a.subrange(i, a.len() as int).drop_first() =~= a.subrange(i + 1, a.len() as int));
    assert(b.subrange(i, b.len() as int).drop_first() =~= b.subrange(i + 1, b.len() as int));
}

pub fn bytes_le(a: &Vec<u8>, b: &Vec<u8>) -> (r: bool)
    ensures
        r == lex_le(a@, b@),
{
    let mut i: usize = 0;
    assert(a@.subrange(0, a@.len() as int) =~= a@);
    assert(b@.subrange(0, b@.len() as int) =~= b@);
    while i < a.len() && i < b.len()
        invariant
            i <= a.len(),
            i <= b.len(),
            lex_le(a@, b@) == lex_le(
                a@.subrange(i as int, a@.len() as int),
                b@.subrange(i as int, b@.len() as int),
            ),
        decreases a.len() - i,
    {
        if a[i] != b[i] {
            return a[i] < b[i];
        }
        proof {
            lemma_lex_skip(a@, b@, i as int);
        }
        i += 1;
    }
    i == a.len()
}

pub open spec fn sorted_rdata(s: Seq<Seq<u8>>) -> bool {
    forall|i: int| 0 <= i < s.len() - 1 ==> #[trigger] lex_le(s[i], s[i + 1])
}

/// The record data of each record.
pub open spec fn rdata_of(rs: Seq<Record>) -> Seq<Seq<u8>> {
    rs.map_values(|r: Record| r.rdata@)
}

pub open spec fn bytes_view(v: Seq<Vec<u8>>) -> Seq<Seq<u8>> {
    v.map_values(|b: Vec<u8>| b@)
}

proof fn lemma_insert_multiset(s: Seq<Seq<u8>>, k: int, x: Seq<u8>)
    requires
        0 <= k <= s.len(),
    ensures
        s.insert(k, x).to_multiset() == s.to_multiset().insert(x),
{
    let a = s.subrange(0, k);
    let b = s.subrange(k, s.len() as int);
    assert(s =~= a + b);
    assert(s.insert(k, x) =~= a.push(x) + b);
    lemma_multiset_commutative(a, b);
    lemma_multiset_commutative(a.push(x), b);
    a.to_multiset_ensures();
}

/// The record data of an rrset in canonical order.
pub fn sorted_rdatas(rrset: &Vec<Record>) -> (r: Vec<Vec<u8>>)
    ensures
        sorted_rdata(bytes_view(r@)),
        bytes_view(r@).to_multiset() == rdata_of(rrset@).to_multiset(),
{
    let mut out: Vec<Vec<u8>> = Vec::new();
    let mut i: usize = 0;
    assert(rdata_of(rrset@).subrange(0, 0) =~= Seq::<Seq<u8>>::empty());
    assert(bytes_view(out@) =~= Seq::<Seq<u8>>::empty());
    while i < rrset.len()
        invariant
            i <= rrset.len(),
            sorted_rdata(bytes_view(out@)),
            bytes_view(out@).to_multiset() == rdata_of(rrset@).subrange(0, i as int).to_multiset(),
        decreases rrset.len() - i,
    {
        let x = match read_bytes(&rrset[i].rdata, 0, rrset[i].rdata.len()) {
            Ok(v) => v,
            Err(_) => Vec::new(),
        };
        assert(x@ =~= rrset@[i as int].rdata@) by {
            assert(rrset@[i as int].rdata@.subrange(0, rrset@[i as int].rdata@.len() as int)
                =~= rrset@[i as int].rdata@);
        }
        let mut k: usize = 0;
        let mut placed = false;
        while k < out.len() && !placed
            invariant
                k <= out.len(),
                forall|j: int| 0 <= j < k ==> lex_le(#[trigger] bytes_view(out@)[j], x@),
                placed ==> k < out.len() && !lex_le(bytes_view(out@)[k as int], x@),
            decreases out.len() - k, if placed { 0int } else { 1int },
        {
            if bytes_le(&out[k], &x) {
                k += 1;
            } else {
                placed = true;
            }
        }
        let ghost before = bytes_view(out@);
        proof {
            if k < out.len() {
                lemma_lex_total(before[k as int], x@);
            }
        }
        out.insert(k, x);
        proof {
            let after = bytes_view(out@);
            assert(after =~= before.insert(k as int, x@));
            lemma_insert_multiset(before, k as int, x@);
            let pre = rdata_of(rrset@).subrange(0, i as int + 1);
            assert(pre =~= rdata_of(rrset@).subrange(0, i as int).push(x@));
            rdata_of(rrset@).subrange(0, i as int).to_multiset_ensures();
            assert forall|j: int| 0 <= j < after.len() - 1 implies #[trigger] lex_le(
                after[j],
                after[j + 1],
            ) by {
                if j + 1 < k {
                    assert(after[j] == before[j] && after[j + 1] == before[j + 1]);
                    assert(lex_le(before[j], before[j + 1]));
                } else if j + 1 == k {
                    assert(after[j] == before[j]);
                    assert(lex_le(before[j], x@));
                } else if j == k {
                    assert(after[j + 1] == before[j]);
                    assert(lex_le(x@, before[j]));
                } else {
                    assert(after[j] == before[j - 1] && after[j + 1] == before[j]);
                    assert(lex_le(before[j - 1], before[(j - 1) + 1]));
                }
            }
        }
        i += 1;
    }
    assert(rdata_of(rrset@).subrange(0, i as int) =~= rdata_of(rrset@));
    out
}

/// One record as it enters the signed octets: canonical owner, type, class,
/// the RRSIG's original TTL, then the data with its length.
pub open spec fn rr_signed_wire(owner: Seq<Seq<u8>>, rr_type: u16, class: u16, ttl: u32, rdata: Seq<u8>) -> Seq<u8> {
    canonical_name_wire(owner) + u16_wire(rr_type) + u16_wire(class) + u32_wire(ttl) + u16_wire(
        rdata.len() as u16,
    ) + rdata
}

pub open spec fn rrs_signed_wire(owner: Seq<Seq<u8>>, rr_type: u16, class: u16, ttl: u32, rdatas: Seq<Seq<u8>>) -> Seq<u8>
    decreases rdatas.len(),
{
    if rdatas.len() == 0 {
        Seq::empty()
    } else {
        rrs_signed_wire(owner, rr_type, class, ttl, rdatas.drop_last()) + rr_signed_wire(
            owner,
            rr_type,
            class,
            ttl,
            rdatas.last(),
        )
    }
}

/// The octets that an RRSIG signs over an rrset: the RRSIG data without the
/// signature, then each record in canonical form and canonical order.
pub open spec fn spec_signed_data(s: Sig, owner: Record, sorted: Seq<Seq<u8>>) -> Seq<u8> {
    sig_signed_prefix(s) + rrs_signed_wire(
        owner.name@,
        owner.rr_type,
        owner.dns_class,
        s.original_ttl,
        sorted,
    )
}

/// Builds the octets that `sig` signs over `rrset`. The owner, type and
/// class are those of the first record, which the whole rrset shares.
pub fn signed_data(sig: &Sig, rrset: &Vec<Record>) -> (r: Vec<u8>)
    requires
        rrset.len() > 0,
    ensures
        exists|sorted: Seq<Seq<u8>>|
            {
                &&& sorted_rdata(sorted)
                &&& sorted.to_multiset() == rdata_of(rrset@).to_multiset()
                &&& r@ == spec_signed_data(*sig, rrset@[0], sorted)
            },
{
    let rdatas = sorted_rdatas(rrset);
    let first = &rrset[0];
    let mut buf: Vec<u8> = Vec::new();
    sig.emit_signed_prefix(&mut buf);
    let ghost prefix = buf@;
    let ghost sorted = bytes_view(rdatas@);
    let mut i: usize = 0;
    while i < rdatas.len()
        invariant
            i <= rdatas.len(),
            sorted == bytes_view(rdatas@),
            buf@ == prefix + rrs_signed_wire(
                first.name@,
                first.rr_type,
                first.dns_class,
                sig.original_ttl,
                sorted.subrange(0, i as int),
            ),
        decreases rdatas.len() - i,
    {
        let ghost start = buf@;
        first.name.emit_canonical(&mut buf);
        push_u16(&mut buf, first.rr_type);
        push_u16(&mut buf, first.dns_class);
        push_u32(&mut buf, sig.original_ttl);
        push_u16(&mut buf, rdatas[i].len() as u16);
        push_bytes(&mut buf, &rdatas[i]);
        proof {
            assert(sorted.subrange(0, i + 1).drop_last() =~= sorted.subrange(0, i as int));
            assert(sorted[i as int] == rdatas@[i as int]@);
        }
        i += 1;
        assert(buf@ =~= prefix + rrs_signed_wire(
            first.name@,
            first.rr_type,
            first.dns_class,
            sig.original_ttl,
            sorted.subrange(0, i as int),
        ));
    }
    assert(sorted.subrange(0, i as int) =~= sorted);
    buf
}

/// `data` is the octets that `s` signs over `rrset`, in some canonical order
/// of the rrset's data.
pub open spec fn signs_rrset(s: Sig, rrset: Seq<Record>, data: Seq<u8>) -> bool {
    exists|sorted: Seq<Seq<u8>>|
        {
            &&& sorted_rdata(sorted)
            &&& sorted.to_multiset() == rdata_of(rrset).to_multiset()
            &&& data == spec_signed_data(s, rrset[0], sorted)
        }
}

/// A DNSKEY record checks `s` over `data`: a key of the signer (case
/// ignored), a zone key, not revoked, of the RRSIG's algorithm, whose
/// public key verifies the signature.
pub open spec fn key_verifies(r: Record, s: Sig, data: Seq<u8>) -> bool {
    &&& is_dnskey_record(r)
    &&& same_name(r.name@, s.signer_name@)
    &&& spec_zone_key(record_flags(r))
    &&& !spec_revoke(record_flags(r))
    &&& r.rdata@[3] == s.algorithm
    &&& spec_signature_check(s.algorithm, record_public_key(r), data, s.signature@) == Ok::<
        bool,
        ClientError,
    >(true)
}

/// The first of `keys` that checks `sig` over `data`; keys of another
/// owner than the signer, of another algorithm, revoked or non-zone keys, keys that do not parse and
/// algorithms not implemented are passed over.
pub fn first_verifying_key(keys: &Vec<Record>, sig: &Sig, data: &Vec<u8>) -> (r: Option<usize>)
    ensures
        match r {
            Some(j) => j < keys.len() && key_verifies(keys@[j as int], *sig, data@) && forall|m: int|
                0 <= m < j ==> !key_verifies(#[trigger] keys@[m], *sig, data@),
            None => forall|m: int| 0 <= m < keys.len() ==> !key_verifies(#[trigger] keys@[m], *sig, data@),
        },
{
    let mut j: usize = 0;
    while j < keys.len()
        invariant
            j <= keys.len(),
            forall|m: int| 0 <= m < j ==> !key_verifies(#[trigger] keys@[m], *sig, data@),
        decreases keys.len() - j,
    {
        let rec = &keys[j];
        if let Some(k) = rec.dnskey() {
            if key_usable(&k, sig.algorithm) && rec.name.eq_ignore_case(&sig.signer_name) {
                if let Ok(true) = signature_check(k.algorithm, &k.public_key, data, &sig.signature) {
                    return Some(j);
                }
            }
        }
        j += 1;
    }
    None
}

/// A DS record whose digest is that of `dnskey`.
pub open spec fn ds_record_matches(r: Record, dnskey: Record) -> bool {
    &&& r.rr_type == TYPE_DS
    &&& r.rdata@.len() >= 4
    &&& match spec_ds_digest(r.rdata@[3], ds_digest_input(dnskey)) {
        Some(d) => d == r.rdata@.subrange(4, r.rdata@.len() as int),
        None => false,
    }
}

/// The first record of `ds_records` that is a DS vouching for `dnskey`.
pub fn first_matching_ds(ds_records: &Vec<Record>, dnskey: &Record) -> (r: Option<usize>)
    ensures
        match r {
            Some(j) => j < ds_records.len() && ds_record_matches(ds_records@[j as int], *dnskey)
                && forall|m: int| 0 <= m < j ==> !ds_record_matches(#[trigger] ds_records@[m], *dnskey),
            None => forall|m: int|
                0 <= m < ds_records.len() ==> !ds_record_matches(#[trigger] ds_records@[m], *dnskey),
        },
{
    let mut j: usize = 0;
    while j < ds_records.len()
        invariant
            j <= ds_records.len(),
            forall|m: int| 0 <= m < j ==> !ds_record_matches(#[trigger] ds_records@[m], *dnskey),
        decreases ds_records.len() - j,
    {
        if let Some(ds) = ds_records[j].ds() {
            if ds_matches(&ds, dnskey) {
                return Some(j);
            }
        }
        j += 1;
    }
    None
}

} // verus!
