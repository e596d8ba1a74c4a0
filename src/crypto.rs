use vstd::prelude::*;
use openssl::bn::BigNum;
use openssl::ec::{EcGroup, EcKey};
use openssl::ecdsa::EcdsaSig;
use openssl::nid::Nid;
use openssl::hash::MessageDigest;
use openssl::pkey::PKey;
use openssl::rsa::Rsa;
use openssl::sign::Verifier;

verus! {

/// Digests that the library asks of openssl, by the numbers that DS
/// records give them; SHA-512 has none there and takes 6.
pub const DIGEST_SHA1: u8 = 1;
pub const DIGEST_SHA256: u8 = 2;
pub const DIGEST_SHA384: u8 = 4;
pub const DIGEST_SHA512: u8 = 6;

pub uninterp spec fn sha1_of(data: Seq<u8>) -> Seq<u8>;

pub uninterp spec fn sha256_of(data: Seq<u8>) -> Seq<u8>;

pub uninterp spec fn sha384_of(data: Seq<u8>) -> Seq<u8>;

/// Whether `signature` is an RSA PKCS#1 v1.5 signature of `data` under the
/// public key (`modulus`, `exponent`), with the digest numbered `digest`.
pub uninterp spec fn rsa_pkcs1_valid(
    digest: u8,
    modulus: Seq<u8>,
    exponent: Seq<u8>,
    data: Seq<u8>,
    signature: Seq<u8>,
) -> bool;

/// Whether (`r`, `s`) is an ECDSA signature of `digest` under the public
/// point (`x`, `y`) on P-384 when `p384` holds, else on P-256.
pub uninterp spec fn ecdsa_valid(
    p384: bool,
    x: Seq<u8>,
    y: Seq<u8>,
    digest: Seq<u8>,
    r: Seq<u8>,
    s: Seq<u8>,
) -> bool;

/// Relies on openssl::sha::sha1: the 20-octet SHA-1 digest of `data`.
#[verifier::external_body]
pub(crate) fn sha1(data: &Vec<u8>) -> (r: Vec<u8>)
    ensures
        r@ == sha1_of(data@),
        r@.len() == 20,
{
    openssl::sha::sha1(data).to_vec()
}

/// Relies on openssl::sha::sha256: the 32-octet SHA-256 digest of `data`.
#[verifier::external_body]
pub(crate) fn sha256(data: &Vec<u8>) -> (r: Vec<u8>)
    ensures
        r@ == sha256_of(data@),
        r@.len() == 32,
{
    openssl::sha::sha256(data).to_vec()
}

/// Relies on openssl::sha::sha384: the 48-octet SHA-384 digest of `data`.
#[verifier::external_body]
pub(crate) fn sha384(data: &Vec<u8>) -> (r: Vec<u8>)
    ensures
        r@ == sha384_of(data@),
        r@.len() == 48,
{
    openssl::sha::sha384(data).to_vec()
}

/// Relies on openssl's `Verifier::verify_oneshot` over the key that
/// `Rsa::from_public_components` builds from `modulus` and `exponent`
/// (big-endian): whether `signature` signs `data`. A key or digest that
/// openssl refuses counts as a failed check.
#[verifier::external_body]
pub(crate) fn rsa_verify(
    digest: u8,
    modulus: &Vec<u8>,
    exponent: &Vec<u8>,
    data: &Vec<u8>,
    signature: &Vec<u8>,
) -> (r: bool)
    requires
        modulus@.len() <= 65535,
        exponent@.len() <= 65535,
        signature@.len() <= 65535,
    ensures
        r == rsa_pkcs1_valid(digest, modulus@, exponent@, data@, signature@),
{
    let md = match digest {
        DIGEST_SHA1 => MessageDigest::sha1(),
        DIGEST_SHA256 => MessageDigest::sha256(),
        DIGEST_SHA384 => MessageDigest::sha384(),
        DIGEST_SHA512 => MessageDigest::sha512(),
        _ => return false,
    };
    let key = match (BigNum::from_slice(modulus), BigNum::from_slice(exponent)) {
        (Ok(n), Ok(e)) => Rsa::from_public_components(n, e).and_then(PKey::from_rsa),
        (Err(err), _) | (_, Err(err)) => Err(err),
    };
    let Ok(key) = key else { return false };
    Verifier::new(md, &key).and_then(|mut v| v.verify_oneshot(signature, data)).unwrap_or(false)
}

/// Relies on openssl's `EcdsaSig::verify`, with the signature that
/// `EcdsaSig::from_private_components` builds from `r` and `s` and the key
/// that `EcKey::from_public_key_affine_coordinates` builds from `x` and `y`
/// on the named curve: whether the signature signs `digest`. Values that
/// openssl refuses count as a failed check.
#[verifier::external_body]
pub(crate) fn ecdsa_verify(
    p384: bool,
    x: &Vec<u8>,
    y: &Vec<u8>,
    digest: &Vec<u8>,
    r: &Vec<u8>,
    s: &Vec<u8>,
) -> (ok: bool)
    requires
        x@.len() <= 65535,
        y@.len() <= 65535,
        r@.len() <= 65535,
        s@.len() <= 65535,
        digest@.len() <= 64,
    ensures
        ok == ecdsa_valid(p384, x@, y@, digest@, r@, s@),
{
    let nid = if p384 { Nid::SECP384R1 } else { Nid::X9_62_PRIME256V1 };
    let (x, y, r, s) = match (BigNum::from_slice(x), BigNum::from_slice(y), BigNum::from_slice(r), BigNum::from_slice(s)) {
        (Ok(x), Ok(y), Ok(r), Ok(s)) => (x, y, r, s),
        _ => return false,
    };
    let key = EcGroup::from_curve_name(nid).and_then(|g| EcKey::from_public_key_affine_coordinates(&g, &x, &y));
    let sig = EcdsaSig::from_private_components(r, s);
    match (key, sig) {
        (Ok(key), Ok(sig)) => sig.verify(digest, &key).unwrap_or(false),
        _ => false,
    }
}

} // verus!
