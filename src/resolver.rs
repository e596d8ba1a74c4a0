use vstd::prelude::*;
use crate::error::ParseError;
use crate::name::{Name, name_text, text_bytes, text_error, labels_dotless};
use crate::message::{Query, CLASS_IN, TYPE_A, TYPE_AAAA};
use crate::wire::Record;
use crate::name::copy_bytes;
use crate::mdns::SocketAddr;

verus! {

/// One name server to ask.
#[derive(Debug, Clone)]
pub struct NameServerConfig {
    pub socket_addr: SocketAddr,
    pub tcp: bool,
}

/// The name servers a resolver asks.
#[derive(Debug, Clone)]
pub struct ResolverConfig {
    pub name_servers: Vec<NameServerConfig>,
}

/// Which address records a lookup asks for.
#[derive(Debug, Clone, Copy, PartialEq, Eq, Structural)]
pub enum LookupIpStrategy {
    Ipv4Only,
    Ipv6Only,
    Ipv4AndIpv6,
}

#[derive(Debug, Clone, Copy, PartialEq, Eq, Structural)]
pub struct ResolverOpts {
    pub ip_strategy: LookupIpStrategy,
}

/// The record types that a strategy asks for, in order.
pub open spec fn strategy_types(s: LookupIpStrategy) -> Seq<u16> {
    match s {
        LookupIpStrategy::Ipv4Only => seq![TYPE_A],
        LookupIpStrategy::Ipv6Only => seq![TYPE_AAAA],
        LookupIpStrategy::Ipv4AndIpv6 => seq![TYPE_A, TYPE_AAAA],
    }
}

/// An address record of the asked type: four octets for A, sixteen for AAAA.
pub open spec fn is_address_of(r: Record, query_type: u16) -> bool {
    &&& r.rr_type == query_type
    &&& (query_type == TYPE_A && r.rdata@.len() == 4 || query_type == TYPE_AAAA && r.rdata@.len()
        == 16)
}

/// The addresses that `answers` give for `query_type`, in answer order.
pub open spec fn spec_addresses(answers: Seq<Record>, query_type: u16) -> Seq<Seq<u8>>
    decreases answers.len(),
{
    if answers.len() == 0 {
        Seq::empty()
    } else if is_address_of(answers.last(), query_type) {
        spec_addresses(answers.drop_last(), query_type).push(answers.last().rdata@)
    } else {
        spec_addresses(answers.drop_last(), query_type)
    }
}

/// The address octets of the A or AAAA records of `answers` that answer
/// `query_type`.
pub fn addresses(answers: &Vec<Record>, query_type: u16) -> (r: Vec<Vec<u8>>)
    ensures
        r@.map_values(|a: Vec<u8>| a@) == spec_addresses(answers@, query_type),
{
    let mut out: Vec<Vec<u8>> = Vec::new();
    let mut i: usize = 0;
    while i < answers.len()
        invariant
            i <= answers.len(),
            out@.map_values(|a: Vec<u8>| a@) == spec_addresses(answers@.subrange(0, i as int), query_type),
        decreases answers.len() - i,
    {
        let r = &answers[i];
        let ghost prev = out@;
        assert(answers@.subrange(0, i + 1).drop_last() =~= answers@.subrange(0, i as int));
        if r.rr_type == query_type && (query_type == TYPE_A && r.rdata.len() == 4
            || query_type == TYPE_AAAA && r.rdata.len() == 16) {
            out.push(copy_bytes(&r.rdata));
            assert(out@.map_values(|a: Vec<u8>| a@) =~= prev.map_values(|a: Vec<u8>| a@).push(r.rdata@));
        }
        i += 1;
    }
    assert(answers@.subrange(0, i as int) =~= answers@);
    out
}

/// A resolver: its name servers and options. Connections to the servers
/// are kept by the caller.
#[derive(Debug, Clone)]
pub struct ResolverFuture {
    pub config: ResolverConfig,
    pub options: ResolverOpts,
}

impl ResolverFuture {
    pub fn new(config: ResolverConfig, options: ResolverOpts) -> (r: ResolverFuture)
        ensures
            r.config == config,
            r.options == options,
    {
        ResolverFuture { config, options }
    }

    /// The queries that look up the addresses of `host`, a fully qualified
    /// name in presentation form: one per record type that the strategy
    /// asks for, in class IN.
    pub fn lookup_ip(&self, host: &str) -> (r: Result<Vec<Query>, ParseError>)
        ensures
            r matches Ok(qs) ==> {
                &&& qs@.len() == strategy_types(self.options.ip_strategy).len()
                &&& forall|i: int|
                    0 <= i < qs@.len() ==> {
                        &&& (name_text(#[trigger] qs@[i].name@) == text_bytes(host@) || name_text(
                            qs@[i].name@,
                        ) == text_bytes(host@).push(46u8))
                        &&& qs@[i].name.wf()
                        &&& labels_dotless(qs@[i].name@)
                        &&& qs@[i].query_type == strategy_types(self.options.ip_strategy)[i]
                        &&& qs@[i].query_class == CLASS_IN
                    }
            },
            host@.len() == 0 ==> r is Err,
            r matches Err(e) ==> text_error(host@, e),
    {
        let name = Name::parse(host)?;
        let mut qs: Vec<Query> = Vec::new();
        match self.options.ip_strategy {
            LookupIpStrategy::Ipv4Only => {
                qs.push(Query { name, query_type: TYPE_A, query_class: CLASS_IN });
            },
            LookupIpStrategy::Ipv6Only => {
                qs.push(Query { name, query_type: TYPE_AAAA, query_class: CLASS_IN });
            },
            LookupIpStrategy::Ipv4AndIpv6 => {
                qs.push(Query { name: name.duplicate(), query_type: TYPE_A, query_class: CLASS_IN });
                qs.push(Query { name, query_type: TYPE_AAAA, query_class: CLASS_IN });
            },
        }
        Ok(qs)
    }
}

} // verus!
