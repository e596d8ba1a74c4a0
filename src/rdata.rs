use vstd::prelude::*;
use crate::name::{Name, name_wire, canonical_name_wire};
use crate::wire::{Record, name_at, u16_wire, u32_wire, push_u16, push_u32, push_bytes, read_u16, read_u32, read_name, read_bytes};
use crate::message::{TYPE_DNSKEY, TYPE_DS, TYPE_RRSIG};

verus! {

/// The data of a DNSKEY record.
#[derive(Debug, Clone)]
pub struct Dnskey {
    pub flags: u16,
    pub protocol: u8,
    pub algorithm: u8,
    pub public_key: Vec<u8>,
}

pub open spec fn dnskey_wire(k: Dnskey) -> Seq<u8> {
    u16_wire(k.flags) + seq![k.protocol, k.algorithm] + k.public_key@
}

pub open spec fn spec_zone_key(flags: u16) -> bool {
    (flags / 256) % 2 == 1
}

pub open spec fn spec_secure_entry_point(flags: u16) -> bool {
    flags % 2 == 1
}

pub open spec fn spec_revoke(flags: u16) -> bool {
    (flags / 128) % 2 == 1
}

/// A record that carries DNSKEY data: its type says so and the data holds
/// at least the flags, protocol and algorithm.
pub open spec fn is_dnskey_record(r: Record) -> bool {
    r.rr_type == TYPE_DNSKEY && r.rdata@.len() >= 4
}

/// The flags of a DNSKEY record, from its first two octets.
pub open spec fn record_flags(r: Record) -> u16 {
    (r.rdata@[0] as int * 256 + r.rdata@[1] as int) as u16
}

proof fn lemma_u16_from_wire(v: u16)
    ensures
        v == ((u16_wire(v)[0] as int) * 256 + u16_wire(v)[1] as int) as u16,
{
}

/// The public key octets of a DNSKEY record.
pub open spec fn record_public_key(r: Record) -> Seq<u8> {
    r.rdata@.subrange(4, r.rdata@.len() as int)
}

/// The octets that a DS digest covers: the owner in canonical form, then
/// the DNSKEY data.
pub open spec fn ds_digest_input(r: Record) -> Seq<u8> {
    canonical_name_wire(r.name@) + r.rdata@
}

impl Dnskey {
    pub fn zone_key(&self) -> (r: bool)
        ensures
            r == spec_zone_key(self.flags),
    {
        (self.flags / 256) % 2 == 1
    }

    pub fn secure_entry_point(&self) -> (r: bool)
        ensures
            r == spec_secure_entry_point(self.flags),
    {
        self.flags % 2 == 1
    }

    pub fn revoke(&self) -> (r: bool)
        ensures
            r == spec_revoke(self.flags),
    {
        (self.flags / 128) % 2 == 1
    }

    /// Reads DNSKEY data: two octets of flags, protocol, algorithm, then the key.
    pub fn from_rdata(rdata: &Vec<u8>) -> (r: Option<Dnskey>)
        ensures
            r is Some <==> rdata@.len() >= 4,
            r matches Some(k) ==> dnskey_wire(k) == rdata@,
    {
        let flags = match read_u16(rdata, 0) {
            Ok(v) => v,
            Err(_) => return None,
        };
        if rdata.len() < 4 {
            return None;
        }
        let public_key = match read_bytes(rdata, 4, rdata.len() - 4) {
            Ok(v) => v,
            Err(_) => return None,
        };
        let k = Dnskey { flags, protocol: rdata[2], algorithm: rdata[3], public_key };
        assert(rdata@ =~= rdata@.subrange(0, 2) + seq![rdata@[2], rdata@[3]] + rdata@.subrange(
            4,
            rdata.len() as int,
        ));
        Some(k)
    }

    pub fn to_rdata(&self) -> (r: Vec<u8>)
        ensures
            r@ == dnskey_wire(*self),
    {
        let mut buf: Vec<u8> = Vec::new();
        push_u16(&mut buf, self.flags);
        buf.push(self.protocol);
        buf.push(self.algorithm);
        push_bytes(&mut buf, &self.public_key);
        assert(buf@ =~= dnskey_wire(*self));
        buf
    }
}

/// The data of a DS record.
#[derive(Debug, Clone)]
pub struct Ds {
    pub key_tag: u16,
    pub algorithm: u8,
    pub digest_type: u8,
    pub digest: Vec<u8>,
}

pub open spec fn ds_wire(d: Ds) -> Seq<u8> {
    u16_wire(d.key_tag) + seq![d.algorithm, d.digest_type] + d.digest@
}

impl Ds {
    /// Reads DS data: key tag, algorithm, digest type, then the digest.
    pub fn from_rdata(rdata: &Vec<u8>) -> (r: Option<Ds>)
        ensures
            r is Some <==> rdata@.len() >= 4,
            r matches Some(d) ==> ds_wire(d) == rdata@,
    {
        let key_tag = match read_u16(rdata, 0) {
            Ok(v) => v,
            Err(_) => return None,
        };
        if rdata.len() < 4 {
            return None;
        }
        let digest = match read_bytes(rdata, 4, rdata.len() - 4) {
            Ok(v) => v,
            Err(_) => return None,
        };
        let d = Ds { key_tag, algorithm: rdata[2], digest_type: rdata[3], digest };
        assert(rdata@ =~= rdata@.subrange(0, 2) + seq![rdata@[2], rdata@[3]] + rdata@.subrange(
            4,
            rdata.len() as int,
        ));
        Some(d)
    }

    pub fn to_rdata(&self) -> (r: Vec<u8>)
        ensures
            r@ == ds_wire(*self),
    {
        let mut buf: Vec<u8> = Vec::new();
        push_u16(&mut buf, self.key_tag);
        buf.push(self.algorithm);
        buf.push(self.digest_type);
        push_bytes(&mut buf, &self.digest);
        assert(buf@ =~= ds_wire(*self));
        buf
    }
}

/// The data of an RRSIG record.
#[derive(Debug, Clone)]
pub struct Sig {
    pub type_covered: u16,
    pub algorithm: u8,
    pub labels: u8,
    pub original_ttl: u32,
    pub expiration: u32,
    pub inception: u32,
    pub key_tag: u16,
    pub signer_name: Name,
    pub signature: Vec<u8>,
}

/// The fixed fields of RRSIG data, before the signer's name.
pub open spec fn sig_fields_wire(s: Sig) -> Seq<u8> {
    u16_wire(s.type_covered) + seq![s.algorithm, s.labels] + u32_wire(s.original_ttl) + u32_wire(
        s.expiration,
    ) + u32_wire(s.inception) + u16_wire(s.key_tag)
}

pub open spec fn sig_wire(s: Sig) -> Seq<u8> {
    sig_fields_wire(s) + name_wire(s.signer_name@) + s.signature@
}

/// RRSIG data as it enters the signed octets: without the signature, the
/// signer's name in canonical form.
pub open spec fn sig_signed_prefix(s: Sig) -> Seq<u8> {
    sig_fields_wire(s) + canonical_name_wire(s.signer_name@)
}

impl Sig {
    /// Reads RRSIG data. The signer's name must stand uncompressed.
    pub fn from_rdata(rdata: &Vec<u8>) -> (r: Option<Sig>)
        ensures
            r matches Some(s) ==> sig_wire(s) == rdata@ && s.signer_name.wf(),
            rdata@.len() < 19 ==> r is None,
            forall|s: Sig| #[trigger] sig_wire(s) == rdata@ && s.signer_name.wf() ==> (r matches Some(
                got,
            ) && got.type_covered == s.type_covered && got.signer_name@ == s.signer_name@),
    {
        proof {
            assert forall|s: Sig| #[trigger] sig_wire(s) == rdata@ && s.signer_name.wf() implies name_at(
                rdata@,
                18,
                s.signer_name@,
            ) by {
                let nw = name_wire(s.signer_name@);
                assert(sig_fields_wire(s).len() == 18);
                assert(sig_wire(s).subrange(18, 18 + nw.len() as int) =~= nw);
            }
        }
        if rdata.len() < 19 {
            return None;
        }
        let type_covered = match read_u16(rdata, 0) {
            Ok(v) => v,
            Err(_) => return None,
        };
        let original_ttl = match read_u32(rdata, 4) {
            Ok(v) => v,
            Err(_) => return None,
        };
        let expiration = match read_u32(rdata, 8) {
            Ok(v) => v,
            Err(_) => return None,
        };
        let inception = match read_u32(rdata, 12) {
            Ok(v) => v,
            Err(_) => return None,
        };
        let key_tag = match read_u16(rdata, 16) {
            Ok(v) => v,
            Err(_) => return None,
        };
        let (signer_name, end, compressed) = match read_name(rdata, 18) {
            Ok(t) => t,
            Err(_) => return None,
        };
        if compressed {
            return None;
        }
        let signature = match read_bytes(rdata, end, rdata.len() - end) {
            Ok(v) => v,
            Err(_) => return None,
        };
        let s = Sig {
            type_covered,
            algorithm: rdata[2],
            labels: rdata[3],
            original_ttl,
            expiration,
            inception,
            key_tag,
            signer_name,
            signature,
        };
        proof {
            assert forall|t: Sig| #[trigger] sig_wire(t) == rdata@ && t.signer_name.wf() implies type_covered
                == t.type_covered by {
                assert(sig_wire(t).subrange(0, 2) =~= u16_wire(t.type_covered));
                crate::wire::lemma_u16_wire_inj(type_covered, t.type_covered);
            }
        }
        let ghost b = rdata@;
        assert(b =~= b.subrange(0, 2) + seq![b[2], b[3]] + b.subrange(4, 8) + b.subrange(8, 12)
            + b.subrange(12, 16) + b.subrange(16, 18) + b.subrange(18, end as int) + b.subrange(
            end as int,
            b.len() as int,
        ));
        assert(sig_wire(s) =~= b);
        Some(s)
    }

    /// Appends the RRSIG data that a signature covers: the fields without
    /// the signature, the signer's name in canonical form.
    pub fn emit_signed_prefix(&self, buf: &mut Vec<u8>)
        ensures
            final(buf)@ == old(buf)@ + sig_signed_prefix(*self),
    {
        push_u16(buf, self.type_covered);
        buf.push(self.algorithm);
        buf.push(self.labels);
        push_u32(buf, self.original_ttl);
        push_u32(buf, self.expiration);
        push_u32(buf, self.inception);
        push_u16(buf, self.key_tag);
        self.signer_name.emit_canonical(buf);
        assert(buf@ =~= old(buf)@ + sig_signed_prefix(*self));
    }
}

impl Record {
    /// The DNSKEY data of this record, if it is one.
    pub fn dnskey(&self) -> (r: Option<Dnskey>)
        ensures
            r is Some <==> is_dnskey_record(*self),
            r matches Some(k) ==> dnskey_wire(k) == self.rdata@ && k.public_key@
                == record_public_key(*self) && k.flags == record_flags(*self) && k.algorithm
                == self.rdata@[3],
    {
        if self.rr_type != TYPE_DNSKEY {
            return None;
        }
        let k = Dnskey::from_rdata(&self.rdata);
        assert(k matches Some(kk) ==> self.rdata@.subrange(4, self.rdata@.len() as int)
            =~= kk.public_key@);
        proof {
            if k is Some {
                let kk = k->Some_0;
                assert(u16_wire(kk.flags) =~= self.rdata@.subrange(0, 2));
                assert(self.rdata@[2] == kk.protocol && self.rdata@[3] == kk.algorithm) by {
                    assert(dnskey_wire(kk)[2] == kk.protocol);
                    assert(dnskey_wire(kk)[3] == kk.algorithm);
                }
                lemma_u16_from_wire(kk.flags);
            }
        }
        k
    }

    /// The DS data of this record, if it is one.
    pub fn ds(&self) -> (r: Option<Ds>)
        ensures
            r is Some <==> self.rr_type == TYPE_DS && self.rdata@.len() >= 4,
            r matches Some(d) ==> ds_wire(d) == self.rdata@ && d.digest_type == self.rdata@[3]
                && d.digest@ == self.rdata@.subrange(4, self.rdata@.len() as int),
    {
        if self.rr_type != TYPE_DS {
            return None;
        }
        let d = Ds::from_rdata(&self.rdata);
        proof {
            if d is Some {
                let dd = d->Some_0;
                assert(ds_wire(dd)[3] == dd.digest_type);
                assert(ds_wire(dd).subrange(4, ds_wire(dd).len() as int) =~= dd.digest@);
            }
        }
        d
    }

    /// The RRSIG data of this record, if it is one and reads.
    pub fn sig(&self) -> (r: Option<Sig>)
        ensures
            r matches Some(s) ==> self.rr_type == TYPE_RRSIG && sig_wire(s) == self.rdata@
                && s.signer_name.wf(),
            forall|s: Sig| #[trigger] sig_wire(s) == self.rdata@ && s.signer_name.wf()
                && self.rr_type == TYPE_RRSIG ==> (r matches Some(got) && got.type_covered
                == s.type_covered && got.signer_name@ == s.signer_name@),
    {
        if self.rr_type != TYPE_RRSIG {
            return None;
        }
        Sig::from_rdata(&self.rdata)
    }
}

} // verus!
