//! A DNS client that checks answers against the DNSSEC chain of trust.
//!
//! The library holds the wire codec, the query engine with its response
//! checks, and the validator that walks DNSKEY, DS and RRSIG records up to a
//! root trust anchor. Sockets stay outside: a caller hands the client a
//! transport through the `ClientConnection` trait.
mod error;
mod name;
mod wire;
mod message;
mod rdata;
mod crypto;
mod dnssec;
mod client;
mod mdns;
mod resolver;

pub use error::{ClientError, ParseError};
pub use name::{Name, bytes_eq, copy_bytes, lower_ascii};
pub use wire::{Record, read_name, read_record};
pub use message::{
    Message, Query, decode_message, CLASS_IN, TYPE_A, TYPE_NS, TYPE_CNAME, TYPE_PTR, TYPE_AAAA,
    TYPE_OPT, TYPE_DS, TYPE_RRSIG, TYPE_DNSKEY, RCODE_NO_ERROR, RCODE_SERVFAIL, RCODE_NXDOMAIN,
    FLAG_RESPONSE, FLAG_RECURSION_DESIRED, FLAG_AUTHENTIC_DATA, FLAG_CHECKING_DISABLED,
    EDNS_DNSSEC_OK,
};
pub use rdata::{Dnskey, Ds, Sig};
pub use crypto::{DIGEST_SHA1, DIGEST_SHA256, DIGEST_SHA384, DIGEST_SHA512};
pub use dnssec::{
    ALG_RSASHA1, ALG_RSASHA1_NSEC3_SHA1, ALG_RSASHA256, ALG_RSASHA512, ALG_ECDSAP256SHA256,
    ALG_ECDSAP384SHA384, bytes_le, ds_digest, first_matching_ds, first_verifying_key,
    ds_matches, key_usable, rsa_digest, rsa_parts, sig_applies, signature_check, signed_data,
    sorted_rdatas,
};
pub use client::{
    Client, ClientConnection, RrsetProof, TrustAnchor, build_query, check_response,
    EDNS_PAYLOAD, MAX_CHAIN,
};
pub use mdns::{MdnsClientStream, MdnsQueryType, SocketAddr, MDNS_PORT, mdns_ipv4, mdns_ipv6};
pub use resolver::{
    LookupIpStrategy, NameServerConfig, ResolverConfig, ResolverFuture, ResolverOpts, addresses,
};
