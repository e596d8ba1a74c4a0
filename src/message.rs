use vstd::prelude::*;
use crate::error::ParseError;
use crate::name::{Name, name_wire, labels_ok};
use crate::wire::{
    Record, same_record, records_wire, records_wf, u16_wire, push_u16, read_u16,
    read_name, read_records, emit_records, name_at, records_at, lemma_u16_wire_inj,
};

verus! {

pub const TYPE_A: u16 = 1;
pub const TYPE_NS: u16 = 2;
pub const TYPE_CNAME: u16 = 5;
pub const TYPE_PTR: u16 = 12;
pub const TYPE_AAAA: u16 = 28;
pub const TYPE_OPT: u16 = 41;
pub const TYPE_DS: u16 = 43;
pub const TYPE_RRSIG: u16 = 46;
pub const TYPE_DNSKEY: u16 = 48;

pub const CLASS_IN: u16 = 1;

pub const RCODE_NO_ERROR: u8 = 0;
pub const RCODE_SERVFAIL: u8 = 2;
pub const RCODE_NXDOMAIN: u8 = 3;

/// Header flag bits.
pub const FLAG_RESPONSE: u16 = 32768;
pub const FLAG_RECURSION_DESIRED: u16 = 256;
pub const FLAG_AUTHENTIC_DATA: u16 = 32;
pub const FLAG_CHECKING_DISABLED: u16 = 16;

/// The EDNS flag that asks for DNSSEC records.
pub const EDNS_DNSSEC_OK: u32 = 32768;

/// One entry of the question section.
#[derive(Debug, Clone)]
pub struct Query {
    pub name: Name,
    pub query_type: u16,
    pub query_class: u16,
}

pub open spec fn query_wire(q: Query) -> Seq<u8> {
    name_wire(q.name@) + u16_wire(q.query_type) + u16_wire(q.query_class)
}

pub open spec fn queries_wire(qs: Seq<Query>) -> Seq<u8>
    decreases qs.len(),
{
    if qs.len() == 0 {
        Seq::empty()
    } else {
        queries_wire(qs.drop_last()) + query_wire(qs.last())
    }
}

/// A DNS message. The header flags are kept as the 16-bit field of the wire
/// (query/response, opcode, AA, TC, RD, RA, Z, AD, CD and the response code);
/// an EDNS pseudo-record, if any, stands among the additional records.
#[derive(Debug, Clone)]
pub struct Message {
    pub id: u16,
    pub flags: u16,
    pub queries: Vec<Query>,
    pub answers: Vec<Record>,
    pub name_servers: Vec<Record>,
    pub additionals: Vec<Record>,
}

/// The whole message on the wire, without name compression.
pub open spec fn message_wire(m: Message) -> Seq<u8> {
    u16_wire(m.id) + u16_wire(m.flags) + u16_wire(m.queries.len() as u16) + u16_wire(
        m.answers.len() as u16,
    ) + u16_wire(m.name_servers.len() as u16) + u16_wire(m.additionals.len() as u16)
        + queries_wire(m.queries@) + records_wire(m.answers@) + records_wire(m.name_servers@)
        + records_wire(m.additionals@)
}

pub open spec fn spec_response_code(flags: u16) -> u8 {
    (flags % 16) as u8
}

impl Message {
    /// Every section fits its 16-bit count and every record its length field.
    pub open spec fn wf(&self) -> bool {
        &&& self.queries.len() <= 65535
        &&& self.answers.len() <= 65535
        &&& self.name_servers.len() <= 65535
        &&& self.additionals.len() <= 65535
        &&& records_wf(self.answers@)
        &&& records_wf(self.name_servers@)
        &&& records_wf(self.additionals@)
    }

    /// An empty query message with the given id.
    pub fn new(id: u16) -> (r: Message)
        ensures
            r.id == id,
            r.flags == 0,
            r.queries@.len() == 0,
            r.answers@.len() == 0,
            r.name_servers@.len() == 0,
            r.additionals@.len() == 0,
            r.wf(),
    {
        Message {
            id,
            flags: 0,
            queries: Vec::new(),
            answers: Vec::new(),
            name_servers: Vec::new(),
            additionals: Vec::new(),
        }
    }

    /// The four-bit response code of the header.
    pub fn response_code(&self) -> (r: u8)
        ensures
            r == spec_response_code(self.flags),
    {
        (self.flags % 16) as u8
    }

    /// Encodes the message without name compression.
    pub fn to_vec(&self) -> (r: Vec<u8>)
        requires
            self.wf(),
        ensures
            r@ == message_wire(*self),
    {
        let mut buf: Vec<u8> = Vec::new();
        push_u16(&mut buf, self.id);
        push_u16(&mut buf, self.flags);
        push_u16(&mut buf, self.queries.len() as u16);
        push_u16(&mut buf, self.answers.len() as u16);
        push_u16(&mut buf, self.name_servers.len() as u16);
        push_u16(&mut buf, self.additionals.len() as u16);
        let ghost header = buf@;
        let mut i: usize = 0;
        while i < self.queries.len()
            invariant
                i <= self.queries.len(),
                buf@ == header + queries_wire(self.queries@.subrange(0, i as int)),
            decreases self.queries.len() - i,
        {
            let q = &self.queries[i];
            q.name.emit(&mut buf);
            push_u16(&mut buf, q.query_type);
            push_u16(&mut buf, q.query_class);
            assert(self.queries@.subrange(0, i + 1).drop_last() =~= self.queries@.subrange(
                0,
                i as int,
            ));
            i += 1;
            assert(buf@ =~= header + queries_wire(self.queries@.subrange(0, i as int)));
        }
        assert(self.queries@.subrange(0, i as int) =~= self.queries@);
        emit_records(&mut buf, &self.answers);
        emit_records(&mut buf, &self.name_servers);
        emit_records(&mut buf, &self.additionals);
        assert(buf@ =~= message_wire(*self));
        buf
    }
}

/// A question whose name is well formed.
pub open spec fn query_ok(q: Query) -> bool {
    labels_ok(q.name@)
}

pub open spec fn queries_ok(qs: Seq<Query>) -> bool {
    forall|i: int| 0 <= i < qs.len() ==> #[trigger] query_ok(qs[i])
}

/// `buf` holds the plain wire form of the well-formed questions `qs` at `pos`.
pub open spec fn queries_at(buf: Seq<u8>, pos: int, qs: Seq<Query>) -> bool {
    &&& queries_ok(qs)
    &&& 0 <= pos
    &&& pos + queries_wire(qs).len() <= buf.len()
    &&& buf.subrange(pos, pos + queries_wire(qs).len()) == queries_wire(qs)
}

proof fn lemma_queries_prefix(qs: Seq<Query>, k: int)
    requires
        0 <= k <= qs.len(),
    ensures
        queries_wire(qs.subrange(0, k)).len() <= queries_wire(qs).len(),
        queries_wire(qs).subrange(0, queries_wire(qs.subrange(0, k)).len() as int) == queries_wire(
            qs.subrange(0, k),
        ),
    decreases qs.len() - k,
{
    if k == qs.len() {
        assert(qs.subrange(0, k) =~= qs);
        assert(queries_wire(qs).subrange(0, queries_wire(qs).len() as int) =~= queries_wire(qs));
    } else {
        lemma_queries_prefix(qs, k + 1);
        let a = queries_wire(qs.subrange(0, k));
        let b = queries_wire(qs.subrange(0, k + 1));
        assert(qs.subrange(0, k + 1).drop_last() =~= qs.subrange(0, k));
        assert(b == a + query_wire(qs[k]));
        assert(queries_wire(qs).subrange(0, a.len() as int) =~= b.subrange(0, a.len() as int));
        assert(b.subrange(0, a.len() as int) =~= a);
    }
}

/// Record for record the same owners, types, classes, TTLs and data.
pub open spec fn same_records(a: Seq<Record>, b: Seq<Record>) -> bool {
    &&& a.len() == b.len()
    &&& forall|k: int| 0 <= k < a.len() ==> same_record(#[trigger] a[k], b[k])
}

/// A message that the codec can carry: counts and lengths fit, and every
/// name is well formed.
pub open spec fn message_ok(m: Message) -> bool {
    &&& m.wf()
    &&& queries_ok(m.queries@)
}

/// `buf` is exactly the plain wire form of a message that the codec can carry.
pub open spec fn plain_message(buf: Seq<u8>, m: Message) -> bool {
    message_ok(m) && message_wire(m) == buf
}

/// The question at index `i` of `m` stands in `buf` at `cur`.
pub open spec fn query_slot(buf: Seq<u8>, m: Message, i: int, cur: int) -> bool {
    let q = m.queries@[i];
    &&& query_ok(q)
    &&& cur + query_wire(q).len() <= buf.len()
    &&& buf.subrange(cur, cur + query_wire(q).len()) == query_wire(q)
    &&& queries_wire(m.queries@.subrange(0, i + 1)).len() == cur - 12 + query_wire(q).len()
}

proof fn lemma_query_slot(buf: Seq<u8>, m: Message, i: int, cur: int)
    requires
        plain_message(buf, m),
        0 <= i < m.queries.len(),
        cur == 12 + queries_wire(m.queries@.subrange(0, i)).len(),
    ensures
        query_slot(buf, m, i, cur),
{
    let qs = m.queries@;
    let q = qs[i];
    assert(query_ok(q));
    lemma_queries_prefix(qs, i + 1);
    assert(qs.subrange(0, i + 1).drop_last() =~= qs.subrange(0, i));
    let a = queries_wire(qs.subrange(0, i));
    let b = queries_wire(qs.subrange(0, i + 1));
    let qw = query_wire(q);
    assert(b == a + qw);
    let whole = queries_wire(qs);
    let w = message_wire(m);
    assert(w.subrange(12, 12 + whole.len() as int) =~= whole);
    assert forall|j: int| 0 <= j < qw.len() implies buf.subrange(cur, cur + qw.len())[j] == qw[j] by {
        assert(w[12 + a.len() + j] == whole[a.len() + j]);
        assert(whole.subrange(0, b.len() as int)[a.len() + j] == b[a.len() + j]);
    }
    assert(buf.subrange(cur, cur + qw.len()) =~= qw);
}

/// The three record sections of `m` follow its questions in `buf`, which
/// ends with them.
pub open spec fn sections_at(buf: Seq<u8>, m: Message, cur: int) -> bool {
    let qw = queries_wire(m.queries@).len();
    let aw = records_wire(m.answers@).len();
    let nw = records_wire(m.name_servers@).len();
    let dw = records_wire(m.additionals@).len();
    &&& cur == 12 + qw
    &&& records_at(buf, cur, m.answers@)
    &&& records_at(buf, cur + aw, m.name_servers@)
    &&& records_at(buf, cur + aw + nw, m.additionals@)
    &&& buf.len() == cur + aw + nw + dw
}

proof fn lemma_sections(buf: Seq<u8>, m: Message)
    requires
        plain_message(buf, m),
    ensures
        sections_at(buf, m, 12 + queries_wire(m.queries@).len() as int),
{
    let w = message_wire(m);
    let qw = queries_wire(m.queries@).len() as int;
    let aw = records_wire(m.answers@);
    let nw = records_wire(m.name_servers@);
    let dw = records_wire(m.additionals@);
    let o: int = 12 + qw;
    let x: int = aw.len() as int;
    let y: int = nw.len() as int;
    let z: int = dw.len() as int;
    assert(w.subrange(o, o + x) =~= aw);
    assert(w.subrange(o + x, o + x + y) =~= nw);
    assert(w.subrange(o + x + y, o + x + y + z) =~= dw);
}

fn read_query(buf: &Vec<u8>, pos: usize) -> (r: Result<(Query, usize, bool), ParseError>)
    ensures
        match r {
            Ok((q, end, compressed)) => {
                &&& pos < end <= buf.len()
                &&& !compressed ==> query_wire(q) == buf@.subrange(pos as int, end as int)
            },
            Err(_) => true,
        },
        forall|q: Query|
            query_ok(q) && pos + query_wire(q).len() <= buf.len() && #[trigger] buf@.subrange(
                pos as int,
                pos + query_wire(q).len(),
            ) == query_wire(q) ==> (r matches Ok((_, end, c)) && !c && end == pos + query_wire(
                q,
            ).len()),
{
    proof {
        assert forall|q: Query|
            query_ok(q) && pos + query_wire(q).len() <= buf.len() && #[trigger] buf@.subrange(
                pos as int,
                pos + query_wire(q).len(),
            ) == query_wire(q) implies name_at(buf@, pos as int, q.name@) by {
            let w = query_wire(q);
            let nw = name_wire(q.name@);
            assert(w.subrange(0, nw.len() as int) =~= nw);
            assert(buf@.subrange(pos as int, pos + nw.len()) =~= w.subrange(0, nw.len() as int));
        }
    }
    let (name, p1, compressed) = read_name(buf, pos)?;
    let query_type = read_u16(buf, p1)?;
    let query_class = read_u16(buf, p1 + 2)?;
    let q = Query { name, query_type, query_class };
    assert(buf@.subrange(pos as int, p1 + 4) =~= buf@.subrange(pos as int, p1 as int)
        + buf@.subrange(p1 as int, p1 + 2) + buf@.subrange(p1 + 2, p1 + 4));
    Ok((q, p1 + 4, compressed))
}

/// Decodes a message. Returns it with a flag that is set where a compression
/// pointer was followed or octets remain after the message. Where the flag
/// is clear, encoding the result gives back the buffer octet for octet.
#[verifier::rlimit(80)]
pub fn decode_message(buf: &Vec<u8>) -> (r: Result<(Message, bool), ParseError>)
    ensures
        match r {
            Ok((m, compressed)) => {
                &&& m.wf()
                &&& u16_wire(m.id) == buf@.subrange(0, 2)
                &&& u16_wire(m.flags) == buf@.subrange(2, 4)
                &&& !compressed ==> message_wire(m) == buf@
            },
            Err(_) => true,
        },
        buf@.len() < 12 ==> r is Err,
        forall|m: Message| #[trigger] plain_message(buf@, m) ==> (r matches Ok((got, c)) && !c
            && same_records(got.answers@, m.answers@)),
{
    let id = read_u16(buf, 0)?;
    let flags = read_u16(buf, 2)?;
    let qd = read_u16(buf, 4)?;
    let an = read_u16(buf, 6)?;
    let ns = read_u16(buf, 8)?;
    let ar = read_u16(buf, 10)?;
    proof {
        assert forall|m: Message| #[trigger] plain_message(buf@, m) implies qd == m.queries.len()
            && an == m.answers.len() && ns == m.name_servers.len() && ar == m.additionals.len() by {
            let w = message_wire(m);
            assert(w.subrange(4, 6) =~= u16_wire(m.queries.len() as u16));
            assert(w.subrange(6, 8) =~= u16_wire(m.answers.len() as u16));
            assert(w.subrange(8, 10) =~= u16_wire(m.name_servers.len() as u16));
            assert(w.subrange(10, 12) =~= u16_wire(m.additionals.len() as u16));
            lemma_u16_wire_inj(qd, m.queries.len() as u16);
            lemma_u16_wire_inj(an, m.answers.len() as u16);
            lemma_u16_wire_inj(ns, m.name_servers.len() as u16);
            lemma_u16_wire_inj(ar, m.additionals.len() as u16);
        }
    }
    let mut queries: Vec<Query> = Vec::new();
    let mut cur: usize = 12;
    let mut compressed = false;
    let mut i: u16 = 0;
    assert(buf@.subrange(12, 12) =~= Seq::<u8>::empty());
    while i < qd
        invariant
            i <= qd,
            12 <= cur <= buf.len(),
            queries.len() == i,
            !compressed ==> queries_wire(queries@) == buf@.subrange(12, cur as int),
            forall|m: Message| #[trigger]
                plain_message(buf@, m) ==> qd == m.queries.len() && !compressed && cur == 12
                    + queries_wire(m.queries@.subrange(0, i as int)).len(),
        decreases qd - i,
    {
        proof {
            assert forall|m: Message| #[trigger] plain_message(buf@, m) implies query_slot(
                buf@,
                m,
                i as int,
                cur as int,
            ) by {
                lemma_query_slot(buf@, m, i as int, cur as int);
            }
        }
        let (q, next, c) = read_query(buf, cur)?;
        let ghost prev = queries@;
        queries.push(q);
        proof {
            assert(queries@.drop_last() =~= prev);
            if !compressed && !c {
                assert(buf@.subrange(12, next as int) =~= buf@.subrange(12, cur as int)
                    + buf@.subrange(cur as int, next as int));
            }
        }
        compressed = compressed || c;
        cur = next;
        i += 1;
    }
    proof {
        assert forall|m: Message| #[trigger] plain_message(buf@, m) implies sections_at(
            buf@,
            m,
            cur as int,
        ) by {
            assert(m.queries@.subrange(0, qd as int) =~= m.queries@);
            lemma_sections(buf@, m);
        }
    }
    let (answers, p2, c2) = read_records(buf, cur, an)?;
    let (name_servers, p3, c3) = read_records(buf, p2, ns)?;
    let (additionals, p4, c4) = read_records(buf, p3, ar)?;
    let m = Message { id, flags, queries, answers, name_servers, additionals };
    let any = compressed || c2 || c3 || c4 || p4 != buf.len();
    proof {
        if !any {
            let b = buf@;
            assert(b =~= b.subrange(0, 2) + b.subrange(2, 4) + b.subrange(4, 6) + b.subrange(6, 8)
                + b.subrange(8, 10) + b.subrange(10, 12) + b.subrange(12, cur as int)
                + b.subrange(cur as int, p2 as int) + b.subrange(p2 as int, p3 as int)
                + b.subrange(p3 as int, p4 as int));
            assert(message_wire(m) =~= b);
        }
    }
    Ok((m, any))
}

} // verus!
