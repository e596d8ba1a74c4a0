use vstd::prelude::*;

verus! {

/// The port of multicast DNS.
pub const MDNS_PORT: u16 = 5353;

/// An IP address, four octets for IPv4 or sixteen for IPv6, with a port.
#[derive(Debug, Clone, PartialEq, Eq)]
pub struct SocketAddr {
    pub ip: Vec<u8>,
    pub port: u16,
}

/// The well-known IPv4 group, 224.0.0.251, on the mDNS port.
pub open spec fn spec_mdns_ipv4() -> Seq<u8> {
    seq![224u8, 0u8, 0u8, 251u8]
}

/// The well-known IPv6 group, ff02::fb, on the mDNS port.
pub open spec fn spec_mdns_ipv6() -> Seq<u8> {
    seq![0xffu8, 2u8, 0u8, 0u8, 0u8, 0u8, 0u8, 0u8, 0u8, 0u8, 0u8, 0u8, 0u8, 0u8, 0u8, 0xfbu8]
}

pub fn mdns_ipv4() -> (r: SocketAddr)
    ensures
        r.ip@ == spec_mdns_ipv4(),
        r.port == MDNS_PORT,
{
    let ip: Vec<u8> = vec![224, 0, 0, 251];
    assert(ip@ =~= spec_mdns_ipv4());
    SocketAddr { ip, port: MDNS_PORT }
}

pub fn mdns_ipv6() -> (r: SocketAddr)
    ensures
        r.ip@ == spec_mdns_ipv6(),
        r.port == MDNS_PORT,
{
    let ip: Vec<u8> = vec![0xff, 2, 0, 0, 0, 0, 0, 0, 0, 0, 0, 0, 0, 0, 0, 0xfb];
    assert(ip@ =~= spec_mdns_ipv6());
    SocketAddr { ip, port: MDNS_PORT }
}

/// How a multicast socket takes part in mDNS.
#[derive(Debug, Clone, Copy, PartialEq, Eq, Structural)]
pub enum MdnsQueryType {
    /// Sends one-shot queries from an ephemeral port, without joining the group.
    OneShot,
    /// Sends one-shot queries and joins the group to hear the answers.
    OneShotJoin,
    /// Binds the mDNS port and joins the group.
    Continuous,
}

/// What a multicast DNS client stream is opened with: the group address, the
/// query mode, an optional packet TTL and the interface to join on. The
/// socket itself is opened by the caller.
#[derive(Debug, Clone)]
pub struct MdnsClientStream {
    pub mdns_addr: SocketAddr,
    pub mdns_query_type: MdnsQueryType,
    pub packet_ttl: Option<u32>,
    pub ipv4_if: Option<Vec<u8>>,
    pub ipv6_if: Option<u32>,
}

impl MdnsClientStream {
    /// A stream on the well-known IPv4 group.
    pub fn new_ipv4(mdns_query_type: MdnsQueryType, packet_ttl: Option<u32>, ipv4_if: Option<Vec<u8>>) -> (r: MdnsClientStream)
        ensures
            r.mdns_addr.ip@ == spec_mdns_ipv4(),
            r.mdns_addr.port == MDNS_PORT,
            r.mdns_query_type == mdns_query_type,
            r.packet_ttl == packet_ttl,
            r.ipv4_if == ipv4_if,
            r.ipv6_if is None,
    {
        Self::new(mdns_ipv4(), mdns_query_type, packet_ttl, ipv4_if, None)
    }

    /// A stream on the well-known IPv6 group.
    pub fn new_ipv6(mdns_query_type: MdnsQueryType, packet_ttl: Option<u32>, ipv6_if: Option<u32>) -> (r: MdnsClientStream)
        ensures
            r.mdns_addr.ip@ == spec_mdns_ipv6(),
            r.mdns_addr.port == MDNS_PORT,
            r.mdns_query_type == mdns_query_type,
            r.packet_ttl == packet_ttl,
            r.ipv4_if is None,
            r.ipv6_if == ipv6_if,
    {
        Self::new(mdns_ipv6(), mdns_query_type, packet_ttl, None, ipv6_if)
    }

    pub fn new(
        mdns_addr: SocketAddr,
        mdns_query_type: MdnsQueryType,
        packet_ttl: Option<u32>,
        ipv4_if: Option<Vec<u8>>,
        ipv6_if: Option<u32>,
    ) -> (r: MdnsClientStream)
        ensures
            r.mdns_addr == mdns_addr,
            r.mdns_query_type == mdns_query_type,
            r.packet_ttl == packet_ttl,
            r.ipv4_if == ipv4_if,
            r.ipv6_if == ipv6_if,
    {
        MdnsClientStream { mdns_addr, mdns_query_type, packet_ttl, ipv4_if, ipv6_if }
    }

    /// The frame that the stream yields for what the socket received: the
    /// payload, the source dropped, since mDNS answers come from any host on
    /// the link. No datagram means the socket closed and the stream ends.
    pub fn poll(received: Option<(Vec<u8>, SocketAddr)>) -> (r: Option<Vec<u8>>)
        ensures
            match received {
                Some((buffer, _)) => r == Some(buffer),
                None => r is None,
            },
    {
        match received {
            Some((buffer, _src_addr)) => Some(buffer),
            None => None,
        }
    }
}

} // verus!
