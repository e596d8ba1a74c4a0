use vstd::prelude::*;
use crate::error::ClientError;
use crate::name::{Name, same_name, lemma_same_name_refl};
use crate::wire::{Record, same_record, read_bytes};
use crate::message::{
    Message, Query, decode_message, spec_response_code, plain_message, message_wire, same_records, TYPE_DNSKEY, TYPE_DS,
    TYPE_OPT, TYPE_RRSIG, FLAG_RECURSION_DESIRED, FLAG_AUTHENTIC_DATA, EDNS_DNSSEC_OK,
};
use crate::wire::{u16_wire, lemma_u16_wire_inj};
use crate::rdata::{sig_wire, is_dnskey_record, record_public_key, record_flags, spec_zone_key, spec_secure_entry_point, Sig};
use crate::dnssec::{
    sig_applies, signed_data, first_verifying_key, first_matching_ds, key_verifies, signs_rrset,
    spec_sig_applies, ds_record_matches,
};

verus! {

/// The UDP payload size that queries announce through EDNS.
pub const EDNS_PAYLOAD: u16 = 1500;

/// The longest chain of DNSKEY, DS and RRSIG steps that the validator follows.
pub const MAX_CHAIN: u32 = 64;

/// A transport: hands one request to a name server and returns its response.
pub trait ClientConnection {
    fn send(&mut self, request: &Vec<u8>) -> Result<Vec<u8>, ClientError>;
}

/// The public key of the root zone's key-signing key of 2017.
pub open spec fn spec_root_ksk() -> Seq<u8> {
    seq![
        3u8, 1u8, 0u8, 1u8, 172u8, 255u8, 180u8, 9u8, 188u8, 201u8, 57u8, 248u8, 49u8, 247u8, 161u8, 229u8,
        236u8, 136u8, 247u8, 165u8, 146u8, 85u8, 236u8, 83u8, 4u8, 11u8, 228u8, 50u8, 2u8, 115u8, 144u8, 164u8,
        206u8, 137u8, 109u8, 111u8, 144u8, 134u8, 243u8, 197u8, 225u8, 119u8, 251u8, 254u8, 17u8, 129u8, 99u8, 170u8,
        236u8, 122u8, 241u8, 70u8, 44u8, 71u8, 148u8, 89u8, 68u8, 196u8, 226u8, 192u8, 38u8, 190u8, 94u8, 152u8,
        187u8, 205u8, 237u8, 37u8, 151u8, 130u8, 114u8, 225u8, 227u8, 224u8, 121u8, 197u8, 9u8, 77u8, 87u8, 63u8,
        14u8, 131u8, 201u8, 47u8, 2u8, 179u8, 45u8, 53u8, 19u8, 177u8, 85u8, 11u8, 130u8, 105u8, 41u8, 200u8,
        13u8, 208u8, 249u8, 44u8, 172u8, 150u8, 109u8, 23u8, 118u8, 159u8, 213u8, 134u8, 123u8, 100u8, 124u8, 63u8,
        56u8, 2u8, 154u8, 189u8, 196u8, 129u8, 82u8, 235u8, 143u8, 32u8, 113u8, 89u8, 236u8, 197u8, 210u8, 50u8,
        199u8, 193u8, 83u8, 124u8, 121u8, 244u8, 183u8, 172u8, 40u8, 255u8, 17u8, 104u8, 47u8, 33u8, 104u8, 27u8,
        246u8, 214u8, 171u8, 165u8, 85u8, 3u8, 43u8, 246u8, 249u8, 240u8, 54u8, 190u8, 178u8, 170u8, 165u8, 179u8,
        119u8, 141u8, 110u8, 235u8, 251u8, 166u8, 191u8, 158u8, 161u8, 145u8, 190u8, 74u8, 176u8, 202u8, 234u8, 117u8,
        158u8, 47u8, 119u8, 58u8, 31u8, 144u8, 41u8, 199u8, 62u8, 203u8, 141u8, 87u8, 53u8, 185u8, 50u8, 29u8,
        176u8, 133u8, 241u8, 184u8, 226u8, 216u8, 3u8, 143u8, 226u8, 148u8, 25u8, 146u8, 84u8, 140u8, 238u8, 13u8,
        103u8, 221u8, 69u8, 71u8, 225u8, 29u8, 214u8, 58u8, 249u8, 201u8, 252u8, 28u8, 84u8, 102u8, 251u8, 104u8,
        76u8, 240u8, 9u8, 215u8, 25u8, 124u8, 44u8, 247u8, 158u8, 121u8, 42u8, 181u8, 1u8, 230u8, 168u8, 161u8,
        202u8, 81u8, 154u8, 242u8, 203u8, 155u8, 95u8, 99u8, 103u8, 233u8, 76u8, 13u8, 71u8, 80u8, 36u8, 81u8,
        53u8, 123u8, 225u8, 181u8,
    ]
}

/// Root public keys that are trusted without proof.
#[derive(Debug, Clone)]
pub struct TrustAnchor {
    keys: Vec<Vec<u8>>,
}

impl View for TrustAnchor {
    type V = Seq<Seq<u8>>;

    closed spec fn view(&self) -> Seq<Seq<u8>> {
        self.keys@.map_values(|k: Vec<u8>| k@)
    }
}

impl TrustAnchor {
    /// A store that trusts no key.
    pub fn empty() -> (r: TrustAnchor)
        ensures
            r@ == Seq::<Seq<u8>>::empty(),
    {
        let r = TrustAnchor { keys: Vec::new() };
        assert(r@ =~= Seq::<Seq<u8>>::empty());
        r
    }

    /// A store holding the root zone's key-signing key of 2017 (key tag
    /// 20326, RSA/SHA-256), the one that the root's DS digest
    /// E06D44B8...C7F8EC8D names.
    pub fn new() -> (r: TrustAnchor)
        ensures
            r@.len() == 1,
            r@[0] == spec_root_ksk(),
    {
        let key: Vec<u8> = vec![
            3, 1, 0, 1, 172, 255, 180, 9, 188, 201, 57, 248, 49, 247, 161, 229,
            236, 136, 247, 165, 146, 85, 236, 83, 4, 11, 228, 50, 2, 115, 144, 164,
            206, 137, 109, 111, 144, 134, 243, 197, 225, 119, 251, 254, 17, 129, 99, 170,
            236, 122, 241, 70, 44, 71, 148, 89, 68, 196, 226, 192, 38, 190, 94, 152,
            187, 205, 237, 37, 151, 130, 114, 225, 227, 224, 121, 197, 9, 77, 87, 63,
            14, 131, 201, 47, 2, 179, 45, 53, 19, 177, 85, 11, 130, 105, 41, 200,
            13, 208, 249, 44, 172, 150, 109, 23, 118, 159, 213, 134, 123, 100, 124, 63,
            56, 2, 154, 189, 196, 129, 82, 235, 143, 32, 113, 89, 236, 197, 210, 50,
            199, 193, 83, 124, 121, 244, 183, 172, 40, 255, 17, 104, 47, 33, 104, 27,
            246, 214, 171, 165, 85, 3, 43, 246, 249, 240, 54, 190, 178, 170, 165, 179,
            119, 141, 110, 235, 251, 166, 191, 158, 161, 145, 190, 74, 176, 202, 234, 117,
            158, 47, 119, 58, 31, 144, 41, 199, 62, 203, 141, 87, 53, 185, 50, 29,
            176, 133, 241, 184, 226, 216, 3, 143, 226, 148, 25, 146, 84, 140, 238, 13,
            103, 221, 69, 71, 225, 29, 214, 58, 249, 201, 252, 28, 84, 102, 251, 104,
            76, 240, 9, 215, 25, 124, 44, 247, 158, 121, 42, 181, 1, 230, 168, 161,
            202, 81, 154, 242, 203, 155, 95, 99, 103, 233, 76, 13, 71, 80, 36, 81,
            53, 123, 225, 181,
        ];
        assert(key@ == spec_root_ksk());
        let mut r = TrustAnchor::empty();
        r.insert(key);
        r
    }

    /// Adds a root public key, in DNSKEY form.
    pub fn insert(&mut self, public_key: Vec<u8>)
        ensures
            final(self)@ == old(self)@.push(public_key@),
    {
        self.keys.push(public_key);
        assert(self@ =~= old(self)@.push(public_key@));
    }

    /// The trusted keys, in the order they were added.
    pub fn keys(&self) -> (r: &Vec<Vec<u8>>)
        ensures
            r@.map_values(|k: Vec<u8>| k@) == self@,
    {
        &self.keys
    }

    pub fn contains(&self, public_key: &Vec<u8>) -> (r: bool)
        ensures
            r == self@.contains(public_key@),
    {
        let mut i: usize = 0;
        while i < self.keys.len()
            invariant
                i <= self.keys.len(),
                forall|j: int| 0 <= j < i ==> self@[j] != public_key@,
            decreases self.keys.len() - i,
        {
            if crate::name::bytes_eq(&self.keys[i], public_key) {
                assert(self@[i as int] == public_key@);
                return true;
            }
            i += 1;
        }
        false
    }
}

/// The flags of a query: recursion desired, and authentic data when secure.
pub open spec fn spec_query_flags(secure: bool) -> u16 {
    if secure {
        (FLAG_RECURSION_DESIRED + FLAG_AUTHENTIC_DATA) as u16
    } else {
        FLAG_RECURSION_DESIRED
    }
}

/// The EDNS pseudo-record of a query: root owner, the payload size in the
/// class field, version 0, and DNSSEC OK when secure.
pub open spec fn is_query_edns(r: Record, secure: bool) -> bool {
    &&& r.name@.len() == 0
    &&& r.rr_type == TYPE_OPT
    &&& r.dns_class == EDNS_PAYLOAD
    &&& r.ttl == (if secure { EDNS_DNSSEC_OK } else { 0u32 })
    &&& r.rdata@.len() == 0
}

/// Builds a query for `name`, `query_class` and `query_type` with one
/// question and an EDNS record.
pub fn build_query(id: u16, name: &Name, query_class: u16, query_type: u16, secure: bool) -> (r: Message)
    ensures
        r.id == id,
        r.flags == spec_query_flags(secure),
        r.queries@.len() == 1,
        r.queries@[0].name@ == name@,
        r.queries@[0].query_type == query_type,
        r.queries@[0].query_class == query_class,
        r.answers@.len() == 0,
        r.name_servers@.len() == 0,
        r.additionals@.len() == 1,
        is_query_edns(r.additionals@[0], secure),
        r.wf(),
{
    let mut message = Message::new(id);
    message.flags = if secure {
        FLAG_RECURSION_DESIRED + FLAG_AUTHENTIC_DATA
    } else {
        FLAG_RECURSION_DESIRED
    };
    let edns = Record {
        name: Name::root(),
        rr_type: TYPE_OPT,
        dns_class: EDNS_PAYLOAD,
        ttl: if secure { EDNS_DNSSEC_OK } else { 0 },
        rdata: Vec::new(),
    };
    message.additionals.push(edns);
    message.queries.push(Query { name: name.duplicate(), query_type, query_class });
    assert(crate::wire::records_wf(message.additionals@));
    message
}

/// `req` is the plain wire form of a query with this id, question and
/// security setting, as `build_query` makes it.
pub open spec fn query_request(req: Seq<u8>, id: u16, name: Seq<Seq<u8>>, query_class: u16, query_type: u16, secure: bool) -> bool {
    exists|m: Message|
        {
            &&& #[trigger] message_wire(m) == req
            &&& m.id == id
            &&& m.flags == spec_query_flags(secure)
            &&& m.queries@.len() == 1
            &&& m.queries@[0].name@ == name
            &&& m.queries@[0].query_type == query_type
            &&& m.queries@[0].query_class == query_class
            &&& m.answers@.len() == 0
            &&& m.name_servers@.len() == 0
            &&& m.additionals@.len() == 1
            &&& is_query_edns(m.additionals@[0], secure)
        }
}

/// A query that asks for DNSSEC records (DNSSEC OK and authentic data set).
pub open spec fn secure_request(req: Seq<u8>) -> bool {
    exists|id: u16, name: Seq<Seq<u8>>, query_class: u16, query_type: u16|
        #[trigger] query_request(req, id, name, query_class, query_type, true)
}

/// `new` extends `old`, and every request added asks for DNSSEC records.
pub open spec fn secure_log_extends(old: Seq<Seq<u8>>, new: Seq<Seq<u8>>) -> bool {
    &&& old.len() <= new.len()
    &&& forall|k: int| 0 <= k < old.len() ==> #[trigger] new[k] == old[k]
    &&& forall|k: int| old.len() <= k < new.len() ==> secure_request(#[trigger] new[k])
}

/// `new` keeps `old` as its beginning.
pub open spec fn log_keeps<A>(old: Seq<A>, new: Seq<A>) -> bool {
    &&& old.len() <= new.len()
    &&& forall|k: int| 0 <= k < old.len() ==> #[trigger] new[k] == old[k]
}

/// What the check of a response owes when the response is a plain message
/// `m0`: a wrong id gives `IncorrectMessageId`, then a non-zero response
/// code `ErrorResponse`, else the message itself.
pub open spec fn check_outcome(response: Seq<u8>, expect: u16, r: Result<Message, ClientError>) -> bool {
    forall|m0: Message| #[trigger]
        plain_message(response, m0) ==> if m0.id != expect {
            r == Err::<Message, ClientError>(ClientError::IncorrectMessageId { got: m0.id, expect })
        } else if spec_response_code(m0.flags) != 0 {
            r == Err::<Message, ClientError>(
                ClientError::ErrorResponse(spec_response_code(m0.flags)),
            )
        } else {
            r matches Ok(m) && message_wire(m) == response && same_records(m.answers@, m0.answers@)
        }
}

/// What the check of a decoded reply gives: a wrong id, then a non-zero
/// response code, fail; otherwise the message itself.
pub open spec fn spec_check_decoded(expect: u16, m: Message) -> Result<Message, ClientError> {
    if m.id != expect {
        Err(ClientError::IncorrectMessageId { got: m.id, expect })
    } else if spec_response_code(m.flags) != 0 {
        Err(ClientError::ErrorResponse(spec_response_code(m.flags)))
    } else {
        Ok(m)
    }
}

pub fn check_decoded(expect: u16, m: Message) -> (r: Result<Message, ClientError>)
    ensures
        r == spec_check_decoded(expect, m),
{
    if m.id != expect {
        return Err(ClientError::IncorrectMessageId { got: m.id, expect });
    }
    let code = m.response_code();
    if code != 0 {
        return Err(ClientError::ErrorResponse(code));
    }
    Ok(m)
}

/// `m` is what decoding `bytes` gave: its id and flags are the header's,
/// and where `bytes` is a plain message, `m` is that message.
pub open spec fn decoded_from(bytes: Seq<u8>, m: Message) -> bool {
    &&& m.wf()
    &&& u16_wire(m.id) == bytes.subrange(0, 2)
    &&& u16_wire(m.flags) == bytes.subrange(2, 4)
    &&& forall|m0: Message| #[trigger]
        plain_message(bytes, m0) ==> message_wire(m) == bytes && same_records(m.answers@, m0.answers@)
}

/// One exchange with the transport: `sent` is what it returned, `d0` and
/// `d1` the decoded replies before and after. A transport error is passed
/// on as it is; a reply that does not decode gives `Parse` (a plain message
/// always decodes); a decoded reply is logged and checked.
pub open spec fn exchange_outcome(
    sent: Result<Seq<u8>, ClientError>,
    d0: Seq<Message>,
    d1: Seq<Message>,
    expect: u16,
    r: Result<Message, ClientError>,
) -> bool {
    match sent {
        Err(e) => r == Err::<Message, ClientError>(e) && d1 == d0,
        Ok(bytes) => {
            ||| d1 == d0 && r is Err && r->Err_0 is Parse && !(exists|m0: Message|
                #[trigger] plain_message(bytes, m0))
            ||| d1 == d0.push(d1.last()) && decoded_from(bytes, d1.last()) && r == spec_check_decoded(
                expect,
                d1.last(),
            )
        },
    }
}

/// What the first exchange of a secure query decides: a transport error, a
/// reply that does not decode, a wrong id, a non-zero response code, or an
/// answer without RRSIG each end the query with that single request sent
/// (`one_request`); otherwise an accepted message is that decoded reply.
pub open spec fn first_secure_outcome(
    sent: Result<Seq<u8>, ClientError>,
    d0: Seq<Message>,
    d1: Seq<Message>,
    expect: u16,
    r: Result<Message, ClientError>,
    one_request: bool,
) -> bool {
    match sent {
        Err(e) => r == Err::<Message, ClientError>(e) && one_request,
        Ok(bytes) => if d1.len() == d0.len() {
            r is Err && r->Err_0 is Parse && one_request && !(exists|m0: Message|
                #[trigger] plain_message(bytes, m0))
        } else {
            let m1 = d1[d0.len() as int];
            &&& decoded_from(bytes, m1)
            &&& spec_check_decoded(expect, m1) is Err ==> r == spec_check_decoded(expect, m1)
                && one_request
            &&& spec_check_decoded(expect, m1) is Ok && !has_rrsig(m1.answers@) ==> r == Err::<
                Message,
                ClientError,
            >(ClientError::NoRRSIG) && one_request
            &&& r matches Ok(m) ==> m == m1
        },
    }
}

/// `key` is, record for record, one of the answers of a reply decoded from
/// index `from` of `decoded` on.
pub open spec fn key_from_reply(key: Record, from: int, decoded: Seq<Message>) -> bool {
    exists|k: int, w: int|
        from <= k < decoded.len() && 0 <= w < decoded[k].answers@.len() && same_record(
            key,
            #[trigger] decoded[k].answers@[w],
        )
}

/// `req` asks for the DNSKEYs of the signer of the first RRSIG of `rrsigs`
/// that may apply to the rrset of `name` and `rr_type`.
pub open spec fn first_key_request(
    rrsigs: Seq<Record>,
    name: Seq<Seq<u8>>,
    rr_type: u16,
    query_class: u16,
    id: u16,
    req: Seq<u8>,
) -> bool {
    exists|i: int, s: Sig|
        #![trigger rrsigs[i], sig_wire(s)]
        {
            &&& 0 <= i < rrsigs.len()
            &&& rrsig_may_apply(rrsigs[i], name, rr_type)
            &&& forall|m: int| 0 <= m < i ==> !rrsig_may_apply(#[trigger] rrsigs[m], name, rr_type)
            &&& sig_wire(s) == rrsigs[i].rdata@
            &&& s.signer_name.wf()
            &&& query_request(req, id, s.signer_name@, query_class, TYPE_DNSKEY, true)
        }
}

/// `ds_set` is a set of DS records of `answers` that the chain `proof`
/// proves for the zone `name`.
pub open spec fn ds_set_proved(
    anchor: Seq<Seq<u8>>,
    name: Seq<Seq<u8>>,
    answers: Seq<Record>,
    ds_set: Seq<Record>,
    proof: Seq<Record>,
) -> bool {
    &&& forall|k: int| 0 <= k < ds_set.len() ==> #[trigger] among(ds_set[k], answers)
    &&& forall|k: int| 0 <= k < ds_set.len() ==> (#[trigger] ds_set[k]).rr_type == TYPE_DS
    &&& proves_rrset(anchor, name, ds_set, answers, proof)
}

/// What the DS exchange for `dnskey` decides: a transport error, a reply
/// that does not decode, a wrong id or a non-zero response code fail as the
/// exchange says; a reply with no DS record matching the key's digest gives
/// `NoDS`; a proof is the key after a chain that proves a DS set of that
/// reply, one of whose records matches.
pub open spec fn ds_outcome(
    sent: Result<Seq<u8>, ClientError>,
    d0: Seq<Message>,
    d1: Seq<Message>,
    expect: u16,
    anchor: Seq<Seq<u8>>,
    dnskey: Record,
    r: Result<Vec<Record>, ClientError>,
) -> bool {
    match sent {
        Err(e) => r == Err::<Vec<Record>, ClientError>(e),
        Ok(bytes) => if d1.len() == d0.len() {
            r is Err && r->Err_0 is Parse
        } else {
            let m1 = d1[d0.len() as int];
            &&& decoded_from(bytes, m1)
            &&& spec_check_decoded(expect, m1) matches Err(e) ==> r == Err::<Vec<Record>, ClientError>(e)
            &&& spec_check_decoded(expect, m1) is Ok && (forall|k: int|
                0 <= k < m1.answers@.len() ==> !ds_record_matches(#[trigger] m1.answers@[k], dnskey))
                ==> r == Err::<Vec<Record>, ClientError>(ClientError::NoDS)
            &&& r matches Ok(p) ==> {
                &&& exists|k: int|
                    0 <= k < m1.answers@.len() && ds_record_matches(#[trigger] m1.answers@[k], dnskey)
                &&& exists|ds_set: Seq<Record>|
                    #[trigger] ds_set_proved(anchor, dnskey.name@, m1.answers@, ds_set, p@.drop_last())
            }
        },
    }
}

/// Decodes a response and checks it against the request: the id must be the
/// one sent and the response code NoError.
pub fn check_response(expect: u16, response: &Vec<u8>) -> (r: Result<Message, ClientError>)
    ensures
        match r {
            Ok(m) => {
                &&& m.id == expect
                &&& spec_response_code(m.flags) == 0
                &&& u16_wire(expect) == response@.subrange(0, 2)
                &&& u16_wire(m.flags) == response@.subrange(2, 4)
                &&& m.wf()
            },
            Err(ClientError::IncorrectMessageId { got, expect: e }) => {
                &&& e == expect
                &&& got != expect
                &&& u16_wire(got) == response@.subrange(0, 2)
            },
            Err(ClientError::ErrorResponse(c)) => {
                &&& u16_wire(expect) == response@.subrange(0, 2)
                &&& c != 0
                &&& exists|f: u16| u16_wire(f) == response@.subrange(2, 4) && c
                    == spec_response_code(f)
            },
            Err(e) => e is Parse,
        },
        response@.len() < 12 ==> r is Err && r->Err_0 is Parse,
        check_outcome(response@, expect, r),
{
    let (m, loose) = match decode_message(response) {
        Ok(t) => t,
        Err(e) => return Err(ClientError::Parse(e)),
    };
    proof {
        assert forall|m0: Message| #[trigger] plain_message(response@, m0) implies m0.id == m.id
            && m0.flags == m.flags && !loose && message_wire(m) == response@ && same_records(
            m.answers@,
            m0.answers@,
        ) by {
            let w = message_wire(m0);
            assert(w.subrange(0, 2) =~= u16_wire(m0.id));
            assert(w.subrange(2, 4) =~= u16_wire(m0.flags));
            lemma_u16_wire_inj(m0.id, m.id);
            lemma_u16_wire_inj(m0.flags, m.flags);
        }
    }
    if m.id != expect {
        return Err(ClientError::IncorrectMessageId { got: m.id, expect });
    }
    let code = m.response_code();
    if code != 0 {
        return Err(ClientError::ErrorResponse(code));
    }
    Ok(m)
}

/// A chain of proof: DNSKEY records only, the first a root key whose public
/// key the trust anchor holds.
pub open spec fn anchored(anchor: Seq<Seq<u8>>, proof: Seq<Record>) -> bool {
    &&& proof.len() > 0
    &&& forall|i: int| 0 <= i < proof.len() ==> is_dnskey_record(#[trigger] proof[i])
    &&& proof[0].name@.len() == 0
    &&& anchor.contains(record_public_key(proof[0]))
}

/// With no key in the trust anchor, no chain is anchored: a root DNSKEY is
/// never accepted on its own and validation cannot succeed.
pub proof fn lemma_empty_anchor_proves_nothing(anchor: Seq<Seq<u8>>, proof: Seq<Record>)
    requires
        anchor.len() == 0,
    ensures
        !anchored(anchor, proof),
{
}

/// A DNSKEY record with the zone-key and secure-entry-point flags: the
/// validator proves such a key through the parent's DS records.
pub open spec fn is_entry_key(r: Record) -> bool {
    &&& is_dnskey_record(r)
    &&& spec_zone_key(record_flags(r))
    &&& spec_secure_entry_point(record_flags(r))
}

/// A root DNSKEY whose public key the trust anchor holds.
pub open spec fn is_anchored_root_key(anchor: Seq<Seq<u8>>, r: Record) -> bool {
    &&& r.name@.len() == 0
    &&& is_dnskey_record(r)
    &&& anchor.contains(record_public_key(r))
}

/// `proof` proves `rrset`, owned by `name`: it is anchored, and either the
/// rrset is an entry key that ends the proof, or the proof ends in a key
/// that checks an RRSIG covering the rrset's type, signed by `name` or an
/// ancestor, over the rrset's canonical octets.
pub open spec fn proves_rrset(
    anchor: Seq<Seq<u8>>,
    name: Seq<Seq<u8>>,
    rrset: Seq<Record>,
    rrsigs: Seq<Record>,
    proof: Seq<Record>,
) -> bool {
    &&& anchored(anchor, proof)
    &&& rrset.len() > 0
    &&& if is_entry_key(rrset[0]) {
        same_record(proof.last(), rrset[0])
    } else {
        exists|i: int, s: Sig, data: Seq<u8>|
            #![trigger rrsigs[i], sig_wire(s), signs_rrset(s, rrset, data)]
            {
                &&& 0 <= i < rrsigs.len()
                &&& rrsigs[i].rr_type == TYPE_RRSIG
                &&& same_name(rrsigs[i].name@, name)
                &&& sig_wire(s) == rrsigs[i].rdata@
                &&& spec_sig_applies(s, name, rrset[0].rr_type)
                &&& signs_rrset(s, rrset, data)
                &&& key_verifies(proof.last(), s, data)
            }
    }
}

proof fn lemma_proves_among(
    anchor: Seq<Seq<u8>>,
    name: Seq<Seq<u8>>,
    rrset: Seq<Record>,
    rrsigs: Seq<Record>,
    answers: Seq<Record>,
    proof: Seq<Record>,
)
    requires
        proves_rrset(anchor, name, rrset, rrsigs, proof),
        forall|k: int| 0 <= k < rrsigs.len() ==> #[trigger] among(rrsigs[k], answers),
    ensures
        proves_rrset(anchor, name, rrset, answers, proof),
{
    if !is_entry_key(rrset[0]) {
        let (i, s, data) = choose|i: int, s: Sig, data: Seq<u8>|
            #![trigger rrsigs[i], sig_wire(s), signs_rrset(s, rrset, data)]
            {
                &&& 0 <= i < rrsigs.len()
                &&& rrsigs[i].rr_type == TYPE_RRSIG
                &&& same_name(rrsigs[i].name@, name)
                &&& sig_wire(s) == rrsigs[i].rdata@
                &&& spec_sig_applies(s, name, rrset[0].rr_type)
                &&& signs_rrset(s, rrset, data)
                &&& key_verifies(proof.last(), s, data)
            };
        assert(among(rrsigs[i], answers));
        let j = choose|j: int| 0 <= j < answers.len() && same_record(rrsigs[i], #[trigger] answers[j]);
        assert(sig_wire(s) == answers[j].rdata@);
        assert(signs_rrset(s, rrset, data));
    }
}

/// An RRSIG record owned by `name` whose data reads as a signature that
/// covers `rr_type` with a signer that is `name` or an ancestor.
pub open spec fn rrsig_may_apply(rec: Record, name: Seq<Seq<u8>>, rr_type: u16) -> bool {
    &&& rec.rr_type == TYPE_RRSIG
    &&& same_name(rec.name@, name)
    &&& exists|s: Sig|
        #[trigger] sig_wire(s) == rec.rdata@ && s.signer_name.wf() && spec_sig_applies(s, name, rr_type)
}

/// The proof found for one rrset of an answer.
#[derive(Debug, Clone)]
pub struct RrsetProof {
    pub name: Name,
    pub rr_type: u16,
    pub rrset: Vec<Record>,
    pub proof: Vec<Record>,
}

pub open spec fn has_rrsig(answers: Seq<Record>) -> bool {
    exists|i: int| 0 <= i < answers.len() && #[trigger] answers[i].rr_type == TYPE_RRSIG
}

/// The entry's proof proves its rrset, which starts with a record of the
/// entry's owner and type.
pub open spec fn entry_proved(anchor: Seq<Seq<u8>>, answers: Seq<Record>, e: RrsetProof) -> bool {
    &&& proves_rrset(anchor, e.name@, e.rrset@, answers, e.proof@)
    &&& rrset_exact(e.rrset@, answers, e.name@, e.rr_type)
    &&& e.rrset@[0].name@ == e.name@
    &&& e.rrset@[0].rr_type == e.rr_type
}

pub open spec fn entries_proved(anchor: Seq<Seq<u8>>, answers: Seq<Record>, proofs: Seq<RrsetProof>) -> bool {
    forall|j: int| 0 <= j < proofs.len() ==> #[trigger] entry_proved(anchor, answers, proofs[j])
}

/// Each rrset of the answer other than signatures has a proof of its own,
/// whose rrset starts with a record of that owner and type.
pub open spec fn proofs_cover(anchor: Seq<Seq<u8>>, proofs: Seq<RrsetProof>, answers: Seq<Record>) -> bool {
    &&& entries_proved(anchor, answers, proofs)
    &&& forall|i: int|
        0 <= i < answers.len() && #[trigger] answers[i].rr_type != TYPE_RRSIG ==> exists|j: int|
            0 <= j < proofs.len() && same_name(#[trigger] proofs[j].name@, answers[i].name@)
                && proofs[j].rr_type == answers[i].rr_type
}

/// Every non-signature record of the answer is an entry key that the trust
/// anchor holds at the root.
pub open spec fn all_anchored_roots(anchor: Seq<Seq<u8>>, answers: Seq<Record>) -> bool {
    forall|i: int|
        0 <= i < answers.len() && #[trigger] answers[i].rr_type != TYPE_RRSIG ==> is_entry_key(
            answers[i],
        ) && is_anchored_root_key(anchor, answers[i])
}

/// The records of `records` that have type `rr_type` (and, for DNSKEYs, data
/// that reads as one).
fn records_of_type(records: &Vec<Record>, rr_type: u16) -> (r: Vec<Record>)
    ensures
        forall|i: int| 0 <= i < r.len() ==> (#[trigger] r@[i]).rr_type == rr_type,
        rr_type == TYPE_DNSKEY ==> forall|i: int| 0 <= i < r.len() ==> is_dnskey_record(
            #[trigger] r@[i],
        ),
        rr_type != TYPE_DNSKEY ==> (r.len() == 0 <==> forall|i: int|
            0 <= i < records.len() ==> (#[trigger] records@[i]).rr_type != rr_type),
        forall|k: int| 0 <= k < r.len() ==> #[trigger] among(r@[k], records@),
        forall|j: int|
            0 <= j < records.len() && (#[trigger] records@[j]).rr_type == rr_type && (rr_type
                != TYPE_DNSKEY || records@[j].rdata@.len() >= 4) ==> among(records@[j], r@),
{
    let mut out: Vec<Record> = Vec::new();
    let mut i: usize = 0;
    while i < records.len()
        invariant
            i <= records.len(),
            forall|k: int| 0 <= k < out.len() ==> (#[trigger] out@[k]).rr_type == rr_type,
            rr_type == TYPE_DNSKEY ==> forall|k: int| 0 <= k < out.len() ==> is_dnskey_record(
                #[trigger] out@[k],
            ),
            rr_type != TYPE_DNSKEY ==> (out.len() == 0 <==> forall|k: int|
                0 <= k < i ==> (#[trigger] records@[k]).rr_type != rr_type),
            forall|k: int| 0 <= k < out.len() ==> #[trigger] among(out@[k], records@),
            forall|j: int|
                0 <= j < i && (#[trigger] records@[j]).rr_type == rr_type && (rr_type
                    != TYPE_DNSKEY || records@[j].rdata@.len() >= 4) ==> among(records@[j], out@),
        decreases records.len() - i,
    {
        let rec = &records[i];
        let ghost before = out@;
        if rec.rr_type == rr_type && (rr_type != TYPE_DNSKEY || rec.rdata.len() >= 4) {
            out.push(rec.duplicate());
            proof {
                assert(same_record(out@[before.len() as int], records@[i as int]));
                assert(among(records@[i as int], out@));
                assert forall|k: int| 0 <= k < out.len() implies #[trigger] among(out@[k], records@) by {
                    if k < before.len() {
                        assert(out@[k] == before[k]);
                        assert(among(before[k], records@));
                    } else {
                        assert(same_record(out@[k], records@[i as int]));
                    }
                }
                assert forall|j: int|
                    0 <= j < i && (#[trigger] records@[j]).rr_type == rr_type && (rr_type
                        != TYPE_DNSKEY || records@[j].rdata@.len() >= 4) implies among(records@[j], out@) by {
                    assert(among(records@[j], before));
                    let k = choose|k: int| 0 <= k < before.len() && same_record(records@[j], #[trigger] before[k]);
                    assert(out@[k] == before[k]);
                }
            }
        }
        i += 1;
    }
    out
}

/// `rec` has the same owner, type, class, TTL and data as some record of `rs`.
pub open spec fn among(rec: Record, rs: Seq<Record>) -> bool {
    exists|j: int| 0 <= j < rs.len() && same_record(rec, #[trigger] rs[j])
}

/// `rrset` is exactly the records of `answers` with the owner `name` (case
/// ignored) and type `rr_type`.
pub open spec fn rrset_exact(rrset: Seq<Record>, answers: Seq<Record>, name: Seq<Seq<u8>>, rr_type: u16) -> bool {
    &&& forall|k: int|
        0 <= k < rrset.len() ==> #[trigger] among(rrset[k], answers) && rrset[k].rr_type == rr_type
            && same_name(rrset[k].name@, name)
    &&& forall|j: int|
        0 <= j < answers.len() && (#[trigger] answers[j]).rr_type == rr_type && same_name(
            answers[j].name@,
            name,
        ) ==> among(answers[j], rrset)
}

/// `answers[idx]` followed by the other records of `answers` with its owner
/// (case ignored) and type.
fn rrset_of(answers: &Vec<Record>, idx: usize) -> (r: Vec<Record>)
    requires
        idx < answers.len(),
    ensures
        r.len() > 0,
        same_record(r@[0], answers@[idx as int]),
        forall|k: int|
            0 <= k < r.len() ==> (#[trigger] r@[k]).rr_type == answers@[idx as int].rr_type,
        rrset_exact(r@, answers@, answers@[idx as int].name@, answers@[idx as int].rr_type),
{
    let mut out: Vec<Record> = Vec::new();
    out.push(answers[idx].duplicate());
    let name = &answers[idx].name;
    let rr_type = answers[idx].rr_type;
    let ghost nm = answers@[idx as int].name@;
    proof {
        lemma_same_name_refl(nm);
        assert(same_record(out@[0], answers@[idx as int]));
        assert(among(out@[0], answers@));
    }
    let mut i: usize = 0;
    while i < answers.len()
        invariant
            i <= answers.len(),
            idx < answers.len(),
            rr_type == answers@[idx as int].rr_type,
            nm == answers@[idx as int].name@,
            name@ == nm,
            out.len() > 0,
            same_record(out@[0], answers@[idx as int]),
            forall|k: int| 0 <= k < out.len() ==> (#[trigger] out@[k]).rr_type == rr_type,
            forall|k: int|
                0 <= k < out.len() ==> #[trigger] among(out@[k], answers@) && same_name(out@[k].name@, nm),
            forall|j: int|
                0 <= j < i && (#[trigger] answers@[j]).rr_type == rr_type && same_name(answers@[j].name@, nm)
                    ==> among(answers@[j], out@),
        decreases answers.len() - i,
    {
        let rec = &answers[i];
        let ghost before = out@;
        if i != idx && rec.rr_type == rr_type && rec.name.eq_ignore_case(name) {
            out.push(rec.duplicate());
            proof {
                assert(same_record(out@[before.len() as int], answers@[i as int]));
                assert forall|k: int| 0 <= k < out.len() implies #[trigger] among(out@[k], answers@)
                    && same_name(out@[k].name@, nm) by {
                    if k < before.len() {
                        assert(out@[k] == before[k]);
                        assert(among(before[k], answers@));
                        assert(same_name(before[k].name@, nm));
                    } else {
                        assert(same_record(out@[k], answers@[i as int]));
                        assert(same_name(answers@[i as int].name@, nm));
                        assert(out@[k].name@ == answers@[i as int].name@);
                    }
                }
            }
        }
        proof {
            assert forall|k: int| 0 <= k < out.len() implies #[trigger] among(out@[k], answers@)
                && same_name(out@[k].name@, nm) by {
                if k < before.len() {
                    assert(out@[k] == before[k]);
                    assert(among(before[k], answers@));
                    assert(same_name(before[k].name@, nm));
                }
            }
            assert forall|j: int|
                0 <= j < i + 1 && (#[trigger] answers@[j]).rr_type == rr_type && same_name(answers@[j].name@, nm)
                    implies among(answers@[j], out@) by {
                if j == idx {
                    assert(out@[0] == before[0]);
                    assert(same_record(answers@[j], out@[0]));
                } else if j < i {
                    assert(among(answers@[j], before));
                    let k = choose|k: int| 0 <= k < before.len() && same_record(answers@[j], #[trigger] before[k]);
                    assert(out@[k] == before[k]);
                } else {
                    assert(same_record(answers@[j], out@[before.len() as int]));
                }
            }
        }
        i += 1;
    }
    out
}

/// An answer record that is not a signature.
pub open spec fn has_data(answers: Seq<Record>) -> bool {
    exists|i: int| 0 <= i < answers.len() && #[trigger] answers[i].rr_type != TYPE_RRSIG
}

fn find_data(answers: &Vec<Record>) -> (r: bool)
    ensures
        r == has_data(answers@),
{
    let mut i: usize = 0;
    while i < answers.len()
        invariant
            i <= answers.len(),
            forall|m: int| 0 <= m < i ==> (#[trigger] answers@[m]).rr_type == TYPE_RRSIG,
        decreases answers.len() - i,
    {
        if answers[i].rr_type != TYPE_RRSIG {
            return true;
        }
        i += 1;
    }
    false
}

/// Whether a proof for the owner and type of `rec` was found already.
fn covered(proofs: &Vec<RrsetProof>, rec: &Record) -> (r: bool)
    ensures
        r == exists|j: int|
            0 <= j < proofs.len() && same_name(#[trigger] proofs@[j].name@, rec.name@)
                && proofs@[j].rr_type == rec.rr_type,
{
    let mut j: usize = 0;
    while j < proofs.len()
        invariant
            j <= proofs.len(),
            forall|k: int|
                0 <= k < j ==> !(same_name(#[trigger] proofs@[k].name@, rec.name@)
                    && proofs@[k].rr_type == rec.rr_type),
        decreases proofs.len() - j,
    {
        if proofs[j].rr_type == rec.rr_type && proofs[j].name.eq_ignore_case(&rec.name) {
            return true;
        }
        j += 1;
    }
    false
}

/// A DNS client over a transport, with the trust anchor that its proofs end in.
pub struct Client<C: ClientConnection> {
    pub client_connection: C,
    pub next_id: u16,
    pub trust_anchor: TrustAnchor,
    /// Every request handed to the transport, in order.
    pub requests: Ghost<Seq<Seq<u8>>>,
    /// What the transport returned for each request, in order.
    pub responses: Ghost<Seq<Result<Seq<u8>, ClientError>>>,
    /// Every reply that decoded, in order.
    pub decoded: Ghost<Seq<Message>>,
}

impl<C: ClientConnection> Client<C> {
    /// A client whose first transaction id is `first_id`; callers should
    /// draw it at random, so that off-path answers are hard to forge.
    pub fn new(client_connection: C, trust_anchor: TrustAnchor, first_id: u16) -> (r: Client<C>)
        ensures
            r.client_connection == client_connection,
            r.next_id == first_id,
            r.trust_anchor@ == trust_anchor@,
            r.requests@.len() == 0,
            r.responses@.len() == 0,
            r.decoded@.len() == 0,
    {
        Client {
            client_connection,
            next_id: first_id,
            trust_anchor,
            requests: Ghost(Seq::empty()),
            responses: Ghost(Seq::empty()),
            decoded: Ghost(Seq::empty()),
        }
    }

    /// Hands out the next transaction id, wrapping after 65535.
    fn next_id(&mut self) -> (r: u16)
        ensures
            r == old(self).next_id,
            final(self).next_id == old(self).next_id.wrapping_add(1),
            final(self).trust_anchor == old(self).trust_anchor,
            final(self).client_connection == old(self).client_connection,
            final(self).requests == old(self).requests,
            final(self).responses == old(self).responses,
            final(self).decoded == old(self).decoded,
    {
        let id = self.next_id;
        self.next_id = id.wrapping_add(1);
        id
    }

    /// Sends a query without asking for DNSSEC records.
    pub fn query(&mut self, name: &Name, query_class: u16, query_type: u16) -> (r: Result<Message, ClientError>)
        ensures
            final(self).next_id == old(self).next_id.wrapping_add(1),
            final(self).trust_anchor == old(self).trust_anchor,
            final(self).requests@ == old(self).requests@.push(final(self).requests@.last()),
            query_request(
                final(self).requests@.last(),
                old(self).next_id,
                name@,
                query_class,
                query_type,
                false,
            ),
            final(self).responses@ == old(self).responses@.push(final(self).responses@.last()),
            exchange_outcome(
                final(self).responses@.last(),
                old(self).decoded@,
                final(self).decoded@,
                old(self).next_id,
                r,
            ),
    {
        self.inner_query(name, query_class, query_type, false)
    }

    /// Builds the query with a fresh id, sends it and checks the response.
    fn inner_query(&mut self, name: &Name, query_class: u16, query_type: u16, secure: bool) -> (r: Result<Message, ClientError>)
        ensures
            final(self).next_id == old(self).next_id.wrapping_add(1),
            final(self).trust_anchor == old(self).trust_anchor,
            r matches Ok(m) ==> m.id == old(self).next_id && spec_response_code(m.flags) == 0
                && m.wf(),
            final(self).requests@ == old(self).requests@.push(final(self).requests@.last()),
            query_request(
                final(self).requests@.last(),
                old(self).next_id,
                name@,
                query_class,
                query_type,
                secure,
            ),
            final(self).responses@ == old(self).responses@.push(final(self).responses@.last()),
            exchange_outcome(
                final(self).responses@.last(),
                old(self).decoded@,
                final(self).decoded@,
                old(self).next_id,
                r,
            ),
    {
        let id = self.next_id();
        let message = build_query(id, name, query_class, query_type, secure);
        let request = message.to_vec();
        self.requests = Ghost(self.requests@.push(request@));
        assert(query_request(request@, id, name@, query_class, query_type, secure));
        let response = match self.client_connection.send(&request) {
            Ok(b) => {
                self.responses = Ghost(self.responses@.push(Ok(b@)));
                b
            },
            Err(e) => {
                self.responses = Ghost(self.responses@.push(Err(e)));
                return Err(e);
            },
        };
        let m = match decode_message(&response) {
            Ok((m, _)) => m,
            Err(e) => return Err(ClientError::Parse(e)),
        };
        self.decoded = Ghost(self.decoded@.push(m));
        check_decoded(id, m)
    }

    /// Sends a query that asks for DNSSEC records and proves each rrset of
    /// the answer back to the trust anchor. Returns the answer message.
    pub fn secure_query(&mut self, name: &Name, query_class: u16, query_type: u16) -> (r: Result<Message, ClientError>)
        ensures
            final(self).trust_anchor == old(self).trust_anchor,
            old(self).trust_anchor@.len() == 0 ==> r is Err,
            final(self).requests@.len() > old(self).requests@.len(),
            query_request(
                final(self).requests@[old(self).requests@.len() as int],
                old(self).next_id,
                name@,
                query_class,
                query_type,
                true,
            ),
            secure_log_extends(old(self).requests@, final(self).requests@),
            log_keeps(old(self).responses@, final(self).responses@),
            log_keeps(old(self).decoded@, final(self).decoded@),
            final(self).responses@.len() > old(self).responses@.len(),
            first_secure_outcome(
                final(self).responses@[old(self).responses@.len() as int],
                old(self).decoded@,
                final(self).decoded@,
                old(self).next_id,
                r,
                final(self).requests@.len() == old(self).requests@.len() + 1
                    && final(self).next_id == old(self).next_id.wrapping_add(1),
            ),
            r matches Ok(m) ==> {
                &&& m.id == old(self).next_id
                &&& spec_response_code(m.flags) == 0
                &&& has_rrsig(m.answers@)
                &&& has_data(m.answers@)
                &&& exists|ps: Seq<RrsetProof>| proofs_cover(old(self).trust_anchor@, ps, m.answers@)
            },
    {
        let ghost anchor = self.trust_anchor@;
        let response = self.inner_query(name, query_class, query_type, true)?;
        match self.verify_answers(&response.answers, query_type, query_class) {
            Ok(proofs) => {
                proof {
                    let answers = response.answers@;
                    let i = choose|i: int| 0 <= i < answers.len() && #[trigger] answers[i].rr_type != TYPE_RRSIG;
                    let j = choose|j: int|
                        0 <= j < proofs@.len() && same_name(#[trigger] proofs@[j].name@, answers[i].name@)
                            && proofs@[j].rr_type == answers[i].rr_type;
                    assert(entry_proved(anchor, answers, proofs@[j]));
                    assert(anchor.contains(record_public_key(proofs@[j].proof@[0])));
                }
                Ok(response)
            },
            Err(e) => Err(e),
        }
    }

    /// Proves every rrset of `answers` other than the signatures. Without a
    /// signature in `answers`, or with nothing but signatures, this fails at
    /// once with `NoRRSIG`, sending nothing.
    pub fn verify_answers(&mut self, answers: &Vec<Record>, query_type: u16, query_class: u16) -> (r: Result<Vec<RrsetProof>, ClientError>)
        ensures
            secure_log_extends(old(self).requests@, final(self).requests@),
            log_keeps(old(self).responses@, final(self).responses@),
            log_keeps(old(self).decoded@, final(self).decoded@),
            final(self).trust_anchor == old(self).trust_anchor,
            !has_rrsig(answers@) ==> r == Err::<Vec<RrsetProof>, ClientError>(ClientError::NoRRSIG)
                && *final(self) == *old(self),
            has_rrsig(answers@) && !has_data(answers@) ==> r == Err::<Vec<RrsetProof>, ClientError>(
                ClientError::NoRRSIG,
            ) && *final(self) == *old(self),
            has_rrsig(answers@) && has_data(answers@) && all_anchored_roots(
                old(self).trust_anchor@,
                answers@,
            ) ==> r is Ok,
            r matches Ok(ps) ==> has_rrsig(answers@) && has_data(answers@) && proofs_cover(
                old(self).trust_anchor@,
                ps@,
                answers@,
            ),
    {
        let rrsigs = records_of_type(answers, TYPE_RRSIG);
        if rrsigs.len() == 0 || !find_data(answers) {
            return Err(ClientError::NoRRSIG);
        }
        let ghost anchor = self.trust_anchor@;
        assert(has_rrsig(answers@));
        let mut proofs: Vec<RrsetProof> = Vec::new();
        let mut i: usize = 0;
        while i < answers.len()
            invariant
                i <= answers.len(),
                has_rrsig(answers@),
                self.trust_anchor@ == anchor,
                anchor == old(self).trust_anchor@,
                self.trust_anchor == old(self).trust_anchor,
                secure_log_extends(old(self).requests@, self.requests@),
                log_keeps(old(self).responses@, self.responses@),
                log_keeps(old(self).decoded@, self.decoded@),
                entries_proved(anchor, answers@, proofs@),
                forall|k: int| 0 <= k < rrsigs.len() ==> #[trigger] among(rrsigs@[k], answers@),
                forall|k: int|
                    0 <= k < i && #[trigger] answers@[k].rr_type != TYPE_RRSIG ==> exists|j: int|
                        0 <= j < proofs.len() && same_name(#[trigger] proofs@[j].name@, answers@[k].name@)
                            && proofs@[j].rr_type == answers@[k].rr_type,
            decreases answers.len() - i,
        {
            let rec = &answers[i];
            let ghost before = proofs@;
            if rec.rr_type != TYPE_RRSIG && !covered(&proofs, rec) {
                let rrset = rrset_of(answers, i);
                assert(rrset@[0].name@ == answers@[i as int].name@);
                let proof = self.recursive_query_verify(
                    &rec.name,
                    &rrset,
                    &rrsigs,
                    query_type,
                    query_class,
                    MAX_CHAIN,
                )?;
                let ghost n = proofs.len();
                let ghost rrset_v = rrset@;
                let ghost proof_v = proof@;
                let entry_name = rec.name.duplicate();
                proof {
                    lemma_proves_among(anchor, entry_name@, rrset_v, rrsigs@, answers@, proof_v);
                }
                assert(proves_rrset(anchor, entry_name@, rrset_v, answers@, proof_v));
                proofs.push(RrsetProof { name: entry_name, rr_type: rec.rr_type, rrset, proof });
                proof {
                    assert(proofs@[n as int].rrset@ == rrset_v);
                    assert(proofs@[n as int].proof@ == proof_v);
                    assert forall|j: int| 0 <= j < proofs.len() implies #[trigger] entry_proved(anchor, answers@, proofs@[j]) by {
                        if j < n {
                            assert(proofs@[j] == before[j]);
                        }
                    }
                    assert(same_name(proofs@[n as int].name@, answers@[i as int].name@));
                    assert forall|j: int| 0 <= j < before.len() implies proofs@[j] == before[j] by {}
                }
            }
            proof {
                assert forall|k: int|
                    0 <= k < i + 1 && #[trigger] answers@[k].rr_type != TYPE_RRSIG implies exists|j: int|
                        0 <= j < proofs.len() && same_name(#[trigger] proofs@[j].name@, answers@[k].name@)
                            && proofs@[j].rr_type == answers@[k].rr_type by {
                    if k < i {
                        let j = choose|j: int|
                            0 <= j < before.len() && same_name(#[trigger] before[j].name@, answers@[k].name@)
                                && before[j].rr_type == answers@[k].rr_type;
                        assert(proofs@[j] == before[j]);
                    }
                }
            }
            i += 1;
        }
        Ok(proofs)
    }

    /// Proves `rrset`, owned by `name`, from the signatures in `rrsigs`,
    /// following the signers' DNSKEYs and the DS records of the parents up to
    /// the trust anchor. At most `depth` more steps are taken.
    #[verifier::rlimit(100)]
    fn recursive_query_verify(
        &mut self,
        name: &Name,
        rrset: &Vec<Record>,
        rrsigs: &Vec<Record>,
        query_type: u16,
        query_class: u16,
        depth: u32,
    ) -> (r: Result<Vec<Record>, ClientError>)
        requires
            rrset.len() > 0,
        ensures
            secure_log_extends(old(self).requests@, final(self).requests@),
            log_keeps(old(self).responses@, final(self).responses@),
            log_keeps(old(self).decoded@, final(self).decoded@),
            final(self).trust_anchor == old(self).trust_anchor,
            depth == 0 ==> r == Err::<Vec<Record>, ClientError>(ClientError::ChainTooLong)
                && *final(self) == *old(self),
            depth >= 2 && is_entry_key(rrset@[0]) && is_anchored_root_key(
                old(self).trust_anchor@,
                rrset@[0],
            ) ==> (r matches Ok(p) && p@.len() == 2 && same_record(p@[0], rrset@[0])
                && same_record(p@[1], rrset@[0])) && *final(self) == *old(self),
            depth > 0 && !is_entry_key(rrset@[0]) && (forall|i: int|
                0 <= i < rrsigs.len() ==> !rrsig_may_apply(#[trigger] rrsigs@[i], name@, rrset@[0].rr_type)) ==> r
                == Err::<Vec<Record>, ClientError>(ClientError::NoRRSIG) && *final(self) == *old(self),
            r matches Ok(p) ==> proves_rrset(old(self).trust_anchor@, name@, rrset@, rrsigs@, p@),
            depth > 0 && !is_entry_key(rrset@[0]) && final(self).requests@.len() > old(
                self,
            ).requests@.len() ==> first_key_request(
                rrsigs@,
                name@,
                rrset@[0].rr_type,
                query_class,
                old(self).next_id,
                final(self).requests@[old(self).requests@.len() as int],
            ),
            !is_entry_key(rrset@[0]) && r is Ok ==> key_from_reply(
                r->Ok_0@.last(),
                old(self).decoded@.len() as int,
                final(self).decoded@,
            ),
            depth >= 2 && is_entry_key(rrset@[0]) && !is_anchored_root_key(
                old(self).trust_anchor@,
                rrset@[0],
            ) ==> final(self).requests@.len() > old(self).requests@.len() && query_request(
                final(self).requests@[old(self).requests@.len() as int],
                old(self).next_id,
                rrset@[0].name@,
                rrset@[0].dns_class,
                TYPE_DS,
                true,
            ),
        decreases depth,
    {
        if depth == 0 {
            return Err(ClientError::ChainTooLong);
        }
        let first = &rrset[0];
        if let Some(k) = first.dnskey() {
            if k.zone_key() && k.secure_entry_point() {
                let mut proof = self.verify_dnskey(first, depth - 1)?;
                let ghost prev = proof@;
                proof.push(first.duplicate());
                assert(forall|m: int| 0 <= m < prev.len() ==> proof@[m] == prev[m]);
                return Ok(proof);
            }
        }
        assert(!is_entry_key(rrset@[0]));
        let mut i: usize = 0;
        while i < rrsigs.len()
            invariant
                rrset.len() > 0,
                depth > 0,
                !is_entry_key(rrset@[0]),
                i <= rrsigs.len(),
                self.trust_anchor == old(self).trust_anchor,
                secure_log_extends(old(self).requests@, self.requests@),
                log_keeps(old(self).responses@, self.responses@),
                log_keeps(old(self).decoded@, self.decoded@),
                (forall|m: int| 0 <= m < i ==> !rrsig_may_apply(#[trigger] rrsigs@[m], name@, rrset@[0].rr_type)) ==> *self
                    == *old(self),
                self.requests@.len() == old(self).requests@.len() ==> forall|m: int|
                    0 <= m < i ==> !rrsig_may_apply(#[trigger] rrsigs@[m], name@, rrset@[0].rr_type),
                self.requests@.len() > old(self).requests@.len() ==> first_key_request(
                    rrsigs@,
                    name@,
                    rrset@[0].rr_type,
                    query_class,
                    old(self).next_id,
                    self.requests@[old(self).requests@.len() as int],
                ),
            decreases rrsigs.len() - i,
        {
            let rrsig = &rrsigs[i];
            let ghost si = i as int;
            i += 1;
            if !rrsig.name.eq_ignore_case(name) {
                continue;
            }
            let sig = match rrsig.sig() {
                Some(s) => s,
                None => continue,
            };
            if !sig_applies(&sig, name, rrset[0].rr_type) {
                continue;
            }
            proof {
                assert(rrsig_may_apply(rrsigs@[si], name@, rrset@[0].rr_type));
            }
            let ghost before = *self;
            let res = self.inner_query(&sig.signer_name, query_class, TYPE_DNSKEY, true);
            proof {
                let q = old(self).requests@.len() as int;
                if before.requests@.len() == q {
                    assert(before == *old(self));
                    assert(self.requests@[q] == self.requests@.last());
                    assert(first_key_request(rrsigs@, name@, rrset@[0].rr_type, query_class, old(self).next_id, self.requests@[q]));
                } else {
                    assert(self.requests@[q] == before.requests@[q]);
                }
            }
            let key_response = match res {
                Ok(m) => m,
                Err(e) => return Err(e),
            };
            let ghost kd = self.decoded@.len() - 1;
            proof {
                assert(self.decoded@[kd] == key_response);
            }
            let key_rrset = records_of_type(&key_response.answers, TYPE_DNSKEY);
            let key_rrsigs = records_of_type(&key_response.answers, TYPE_RRSIG);
            let data = signed_data(&sig, rrset);
            if let Some(j) = first_verifying_key(&key_rrset, &sig, &data) {
                let dnskey = &key_rrset[j];
                let mut proof = if sig.signer_name.eq_ignore_case(name) && query_type == TYPE_DNSKEY {
                    self.verify_dnskey(dnskey, depth - 1)?
                } else {
                    self.recursive_query_verify(
                        &sig.signer_name,
                        &key_rrset,
                        &key_rrsigs,
                        TYPE_DNSKEY,
                        query_class,
                        depth - 1,
                    )?
                };
                let ghost prev = proof@;
                proof.push(dnskey.duplicate());
                proof {
                    assert(forall|m: int| 0 <= m < prev.len() ==> proof@[m] == prev[m]);
                    assert(among(key_rrset@[j as int], key_response.answers@));
                    let w = choose|w: int| 0 <= w < key_response.answers@.len() && same_record(key_rrset@[j as int], #[trigger] key_response.answers@[w]);
                    assert(self.decoded@[kd] == key_response);
                    assert(same_record(proof@.last(), self.decoded@[kd].answers@[w]));
                    assert(key_from_reply(proof@.last(), old(self).decoded@.len() as int, self.decoded@));
                    assert(key_verifies(proof@.last(), sig, data@));
                    assert(rrsigs@[si].rr_type == TYPE_RRSIG);
                    assert(same_name(rrsigs@[si].name@, name@));
                    assert(sig_wire(sig) == rrsigs@[si].rdata@);
                    assert(spec_sig_applies(sig, name@, rrset@[0].rr_type));
                    assert(signs_rrset(sig, rrset@, data@));
                }
                return Ok(proof);
            }
        }
        Err(ClientError::NoRRSIG)
    }

    /// Proves a DNSKEY record: a root key that the trust anchor holds stands
    /// by itself; any other needs a DS record of the parent whose digest
    /// matches, and a proof of that DS rrset.
    #[verifier::rlimit(100)]
    fn verify_dnskey(&mut self, dnskey: &Record, depth: u32) -> (r: Result<Vec<Record>, ClientError>)
        requires
            is_dnskey_record(*dnskey),
        ensures
            secure_log_extends(old(self).requests@, final(self).requests@),
            log_keeps(old(self).responses@, final(self).responses@),
            log_keeps(old(self).decoded@, final(self).decoded@),
            final(self).trust_anchor == old(self).trust_anchor,
            depth == 0 ==> r == Err::<Vec<Record>, ClientError>(ClientError::ChainTooLong)
                && *final(self) == *old(self),
            depth > 0 && is_anchored_root_key(old(self).trust_anchor@, *dnskey) ==> (r matches Ok(p)
                && p@.len() == 1 && same_record(p@[0], *dnskey)) && *final(self) == *old(self),
            r matches Ok(p) ==> anchored(old(self).trust_anchor@, p@) && same_record(
                p@.last(),
                *dnskey,
            ),
            depth > 0 && !is_anchored_root_key(old(self).trust_anchor@, *dnskey) ==> {
                &&& final(self).requests@.len() > old(self).requests@.len()
                &&& query_request(
                    final(self).requests@[old(self).requests@.len() as int],
                    old(self).next_id,
                    dnskey.name@,
                    dnskey.dns_class,
                    TYPE_DS,
                    true,
                )
                &&& final(self).responses@.len() > old(self).responses@.len()
                &&& ds_outcome(
                    final(self).responses@[old(self).responses@.len() as int],
                    old(self).decoded@,
                    final(self).decoded@,
                    old(self).next_id,
                    old(self).trust_anchor@,
                    *dnskey,
                    r,
                )
            },
        decreases depth,
    {
        if depth == 0 {
            return Err(ClientError::ChainTooLong);
        }
        if dnskey.name.is_root() {
            let key = match read_bytes(&dnskey.rdata, 4, dnskey.rdata.len() - 4) {
                Ok(v) => v,
                Err(_) => Vec::new(),
            };
            if self.trust_anchor.contains(&key) {
                let mut proof: Vec<Record> = Vec::new();
                proof.push(dnskey.duplicate());
                return Ok(proof);
            }
        }
        let ghost anchor = self.trust_anchor@;
        let ds_response = self.inner_query(&dnskey.name, dnskey.dns_class, TYPE_DS, true)?;
        let ghost answers = ds_response.answers@;
        proof {
            let d = old(self).decoded@.len() as int;
            let q = old(self).requests@.len() as int;
            assert(self.decoded@.len() == d + 1);
            assert(self.decoded@[d] == ds_response);
            assert(self.requests@[q] == self.requests@.last());
            assert(query_request(self.requests@[q], old(self).next_id, dnskey.name@, dnskey.dns_class, TYPE_DS, true));
        }
        let ds_rrset = records_of_type(&ds_response.answers, TYPE_DS);
        let ds_rrsigs = records_of_type(&ds_response.answers, TYPE_RRSIG);
        match first_matching_ds(&ds_rrset, dnskey) {
            Some(j) => {
                proof {
                    assert(ds_record_matches(ds_rrset@[j as int], *dnskey));
                    assert(among(ds_rrset@[j as int], answers));
                    let k = choose|k: int| 0 <= k < answers.len() && same_record(ds_rrset@[j as int], #[trigger] answers[k]);
                    assert(ds_record_matches(answers[k], *dnskey));
                }
                let ghost mid = *self;
                let res = self.recursive_query_verify(
                    &dnskey.name,
                    &ds_rrset,
                    &ds_rrsigs,
                    TYPE_DNSKEY,
                    dnskey.dns_class,
                    depth - 1,
                );
                proof {
                    let q = old(self).requests@.len() as int;
                    let a = old(self).responses@.len() as int;
                    let d = old(self).decoded@.len() as int;
                    assert(self.requests@[q] == mid.requests@[q]);
                    assert(self.responses@[a] == mid.responses@[a]);
                    assert(self.decoded@[d] == mid.decoded@[d]);
                    assert(self.decoded@.len() > d);
                }
                let mut proof = match res {
                    Ok(p) => p,
                    Err(e) => return Err(e),
                };
                let ghost prev = proof@;
                proof.push(dnskey.duplicate());
                proof {
                    assert(forall|m: int| 0 <= m < prev.len() ==> proof@[m] == prev[m]);
                    lemma_proves_among(anchor, dnskey.name@, ds_rrset@, ds_rrsigs@, answers, prev);
                    assert(proof@.drop_last() =~= prev);
                    assert(ds_set_proved(anchor, dnskey.name@, answers, ds_rrset@, prev));
                    let d = old(self).decoded@.len() as int;
                    assert(self.decoded@[d].answers@ == answers);
                    let k = choose|k: int| 0 <= k < answers.len() && ds_record_matches(#[trigger] answers[k], *dnskey);
                    assert(ds_record_matches(self.decoded@[d].answers@[k], *dnskey));
                    assert(ds_set_proved(anchor, dnskey.name@, self.decoded@[d].answers@, ds_rrset@, proof@.drop_last()));
                    let a = old(self).responses@.len() as int;
                    assert(self.responses@[a] is Ok);
                    assert(self.decoded@.len() != old(self).decoded@.len());
                    assert(decoded_from(self.responses@[a]->Ok_0, self.decoded@[d]));
                    assert(spec_check_decoded(old(self).next_id, self.decoded@[d]) is Ok);
                    let q = old(self).requests@.len() as int;
                    assert(query_request(self.requests@[q], old(self).next_id, dnskey.name@, dnskey.dns_class, TYPE_DS, true));
                    let outcome: Result<Vec<Record>, ClientError> = Ok(proof);
                    let m1 = self.decoded@[old(self).decoded@.len() as int];
                    assert(m1.answers@ == answers);
                    assert(exists|k: int| 0 <= k < m1.answers@.len() && ds_record_matches(#[trigger] m1.answers@[k], *dnskey));
                    assert(ds_set_proved(anchor, dnskey.name@, m1.answers@, ds_rrset@, outcome->Ok_0@.drop_last()));
                    assert(ds_outcome(self.responses@[a], old(self).decoded@, self.decoded@, old(self).next_id, anchor, *dnskey, outcome));
                }
                Ok(proof)
            },
            None => {
                proof {
                    assert forall|k: int| 0 <= k < answers.len() implies !ds_record_matches(
                        #[trigger] answers[k],
                        *dnskey,
                    ) by {
                        if ds_record_matches(answers[k], *dnskey) {
                            assert(among(answers[k], ds_rrset@));
                            let j = choose|j: int| 0 <= j < ds_rrset@.len() && same_record(answers[k], #[trigger] ds_rrset@[j]);
                            assert(ds_record_matches(ds_rrset@[j], *dnskey));
                        }
                    }
                }
                Err(ClientError::NoDS)
            },
        }
    }
}

} // verus!
