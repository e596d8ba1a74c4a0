use vstd::prelude::*;
use crate::error::ParseError;
use crate::name::{Name, copy_bytes, name_wire, labels_wire, label_wire, labels_view, label_ok, labels_ok};

verus! {

/// A 16-bit field on the wire, most significant octet first.
pub open spec fn u16_wire(v: u16) -> Seq<u8> {
    seq![(v / 256) as u8, (v % 256) as u8]
}

/// A 32-bit field on the wire, most significant octet first.
pub open spec fn u32_wire(v: u32) -> Seq<u8> {
    u16_wire((v / 65536) as u16) + u16_wire((v % 65536) as u16)
}

pub fn push_u16(buf: &mut Vec<u8>, v: u16)
    ensures
        final(buf)@ == old(buf)@ + u16_wire(v),
{
    buf.push((v / 256) as u8);
    buf.push((v % 256) as u8);
    assert(buf@ =~= old(buf)@ + u16_wire(v));
}

pub fn push_u32(buf: &mut Vec<u8>, v: u32)
    ensures
        final(buf)@ == old(buf)@ + u32_wire(v),
{
    push_u16(buf, (v / 65536) as u16);
    push_u16(buf, (v % 65536) as u16);
    assert(buf@ =~= old(buf)@ + u32_wire(v));
}

/// Appends `src` to `buf`.
pub fn push_bytes(buf: &mut Vec<u8>, src: &Vec<u8>)
    ensures
        final(buf)@ == old(buf)@ + src@,
{
    let ghost start = buf@;
    let mut i: usize = 0;
    while i < src.len()
        invariant
            i <= src.len(),
            buf@ == start + src@.subrange(0, i as int),
        decreases src.len() - i,
    {
        buf.push(src[i]);
        i += 1;
        assert(buf@ =~= start + src@.subrange(0, i as int));
    }
    assert(src@.subrange(0, i as int) =~= src@);
}

pub fn read_u16(buf: &Vec<u8>, pos: usize) -> (r: Result<u16, ParseError>)
    ensures
        match r {
            Ok(v) => pos + 2 <= buf.len() && u16_wire(v) == buf@.subrange(pos as int, pos + 2),
            Err(e) => pos + 2 > buf.len() && e == ParseError::ShortBuffer,
        },
{
    if pos >= buf.len() || buf.len() - pos < 2 {
        return Err(ParseError::ShortBuffer);
    }
    let hi = buf[pos];
    let lo = buf[pos + 1];
    let v: u16 = (hi as u16) * 256 + lo as u16;
    assert(v / 256 == hi && v % 256 == lo);
    assert(u16_wire(v) =~= buf@.subrange(pos as int, pos + 2));
    Ok(v)
}

pub fn read_u32(buf: &Vec<u8>, pos: usize) -> (r: Result<u32, ParseError>)
    ensures
        match r {
            Ok(v) => pos + 4 <= buf.len() && u32_wire(v) == buf@.subrange(pos as int, pos + 4),
            Err(e) => pos + 4 > buf.len() && e == ParseError::ShortBuffer,
        },
{
    if pos >= buf.len() || buf.len() - pos < 4 {
        return Err(ParseError::ShortBuffer);
    }
    let hi = read_u16(buf, pos)?;
    let lo = read_u16(buf, pos + 2)?;
    let v: u32 = (hi as u32) * 65536 + lo as u32;
    assert(v / 65536 == hi && v % 65536 == lo);
    assert(u32_wire(v) =~= buf@.subrange(pos as int, pos + 4));
    Ok(v)
}

/// Copies `n` octets from `pos` on.
pub fn read_bytes(buf: &Vec<u8>, pos: usize, n: usize) -> (r: Result<Vec<u8>, ParseError>)
    ensures
        match r {
            Ok(v) => pos + n <= buf.len() && v@ == buf@.subrange(pos as int, pos + n),
            Err(e) => pos + n > buf.len() && e == ParseError::ShortBuffer,
        },
{
    if pos > buf.len() || buf.len() - pos < n {
        return Err(ParseError::ShortBuffer);
    }
    let mut out: Vec<u8> = Vec::new();
    let mut i: usize = 0;
    while i < n
        invariant
            i <= n,
            pos + n <= buf.len(),
            out@ == buf@.subrange(pos as int, pos + i),
        decreases n - i,
    {
        out.push(buf[pos + i]);
        i += 1;
        assert(out@ =~= buf@.subrange(pos as int, pos + i));
    }
    Ok(out)
}

/// `buf` holds the plain wire form of a well-formed name `ls` at `pos`.
pub open spec fn name_at(buf: Seq<u8>, pos: int, ls: Seq<Seq<u8>>) -> bool {
    &&& labels_ok(ls)
    &&& 0 <= pos
    &&& pos + name_wire(ls).len() <= buf.len()
    &&& buf.subrange(pos, pos + name_wire(ls).len()) == name_wire(ls)
}

proof fn lemma_labels_prefix(ls: Seq<Seq<u8>>, k: int)
    requires
        0 <= k <= ls.len(),
    ensures
        labels_wire(ls.subrange(0, k)).len() <= labels_wire(ls).len(),
        labels_wire(ls).subrange(0, labels_wire(ls.subrange(0, k)).len() as int) == labels_wire(
            ls.subrange(0, k),
        ),
    decreases ls.len() - k,
{
    if k == ls.len() {
        assert(ls.subrange(0, k) =~= ls);
        assert(labels_wire(ls).subrange(0, labels_wire(ls).len() as int) =~= labels_wire(ls));
    } else {
        lemma_labels_prefix(ls, k + 1);
        let a = labels_wire(ls.subrange(0, k));
        let b = labels_wire(ls.subrange(0, k + 1));
        assert(ls.subrange(0, k + 1).drop_last() =~= ls.subrange(0, k));
        assert(b == a + label_wire(ls[k]));
        assert(labels_wire(ls).subrange(0, a.len() as int) =~= b.subrange(0, a.len() as int));
        assert(b.subrange(0, a.len() as int) =~= a);
    }
}

/// What the octet at the cursor must be while a well-formed plain name `ls`
/// is read and its first `k` labels are behind.
pub open spec fn cursor_facts(buf: Seq<u8>, cur: int, ls: Seq<Seq<u8>>, k: int) -> bool {
    &&& cur < buf.len()
    &&& k < ls.len() ==> {
        &&& buf[cur] as int == ls[k].len()
        &&& 1 <= ls[k].len() <= 63
        &&& cur + 1 + ls[k].len() <= buf.len()
        &&& buf.subrange(cur + 1, cur + 1 + ls[k].len()) == ls[k]
        &&& labels_wire(ls.subrange(0, k + 1)).len() + 1 <= 255
        &&& labels_wire(ls.subrange(0, k + 1)).len() == labels_wire(ls.subrange(0, k)).len() + 1
            + ls[k].len()
    }
    &&& k == ls.len() ==> buf[cur] == 0
}

proof fn lemma_cursor(buf: Seq<u8>, pos: int, cur: int, ls: Seq<Seq<u8>>, k: int)
    requires
        name_at(buf, pos, ls),
        0 <= k <= ls.len(),
        pos <= cur,
        cur - pos == labels_wire(ls.subrange(0, k)).len(),
    ensures
        cursor_facts(buf, cur, ls, k),
{
    lemma_labels_prefix(ls, k);
    let w = name_wire(ls);
    let lw = labels_wire(ls);
    let a = labels_wire(ls.subrange(0, k)).len() as int;
    let seg = buf.subrange(pos, pos + w.len());
    assert(seg == w);
    assert(buf[cur] == seg[a]);
    if k < ls.len() {
        lemma_labels_prefix(ls, k + 1);
        assert(ls.subrange(0, k + 1).drop_last() =~= ls.subrange(0, k));
        let b = labels_wire(ls.subrange(0, k + 1));
        assert(b == labels_wire(ls.subrange(0, k)) + label_wire(ls[k]));
        assert(label_ok(ls[k]));
        assert(lw.subrange(0, b.len() as int) == b);
        assert(w[a] == lw[a]);
        assert(lw[a] == b[a]);
        assert forall|j: int| 0 <= j < ls[k].len() implies buf.subrange(cur + 1, cur + 1 + ls[k].len())[j]
            == ls[k][j] by {
            assert(buf[cur + 1 + j] == seg[a + 1 + j]);
            assert(w[a + 1 + j] == lw[a + 1 + j]);
            assert(lw[a + 1 + j] == b[a + 1 + j]);
        }
        assert(buf.subrange(cur + 1, cur + 1 + ls[k].len()) =~= ls[k]);
    } else {
        assert(ls.subrange(0, k) =~= ls);
    }
}

/// Reads a name at `pos`, following compression pointers. Each pointer must
/// point strictly before the run of labels it was reached from, so that no
/// pointer loop can be followed. Returns the name, the position after it in
/// `buf`, and whether a pointer was followed. Without a pointer the octets
/// read are exactly the name's wire form.
pub fn read_name(buf: &Vec<u8>, pos: usize) -> (r: Result<(Name, usize, bool), ParseError>)
    ensures
        match r {
            Ok((n, end, compressed)) => {
                &&& pos < end <= buf.len()
                &&& n.wf()
                &&& !compressed ==> name_wire(n@) == buf@.subrange(pos as int, end as int)
            },
            Err(_) => true,
        },
        forall|ls: Seq<Seq<u8>>| #[trigger]
            name_at(buf@, pos as int, ls) ==> (r matches Ok((n, end, compressed)) && !compressed
                && n@ == ls && end == pos + name_wire(ls).len()),
{
    if pos >= buf.len() {
        return Err(ParseError::ShortBuffer);
    }
    let mut labels: Vec<Vec<u8>> = Vec::new();
    assert(labels_view(labels@) =~= Seq::<Seq<u8>>::empty());
    assert(buf@.subrange(pos as int, pos as int) =~= Seq::<u8>::empty());
    let mut cur: usize = pos;
    let mut limit: usize = pos;
    let mut end: usize = 0;
    let mut jumped = false;
    let mut wire_len: usize = 1;
    loop
        invariant
            cur <= buf.len(),
            limit <= cur,
            wire_len == name_wire(labels_view(labels@)).len(),
            wire_len <= 255,
            forall|j: int| 0 <= j < labels@.len() ==> #[trigger] label_ok(labels_view(labels@)[j]),
            !jumped ==> limit == pos && cur <= buf.len() && buf@.subrange(pos as int, cur as int)
                == labels_wire(labels_view(labels@)),
            jumped ==> pos < end <= buf.len(),
            forall|ls: Seq<Seq<u8>>| #[trigger]
                name_at(buf@, pos as int, ls) ==> !jumped && labels@.len() <= ls.len()
                    && labels_view(labels@) == ls.subrange(0, labels@.len() as int),
        ensures
            pos < end <= buf.len(),
            !jumped ==> buf@.subrange(pos as int, end as int) == name_wire(labels_view(labels@)),
            forall|ls: Seq<Seq<u8>>| #[trigger]
                name_at(buf@, pos as int, ls) ==> !jumped && labels_view(labels@) == ls && end == pos
                    + name_wire(ls).len(),
        decreases limit, buf.len() - cur,
    {
        proof {
            assert forall|ls: Seq<Seq<u8>>| #[trigger] name_at(buf@, pos as int, ls) implies cursor_facts(
                buf@,
                cur as int,
                ls,
                labels@.len() as int,
            ) by {
                lemma_cursor(buf@, pos as int, cur as int, ls, labels@.len() as int);
            }
        }
        if cur >= buf.len() {
            return Err(ParseError::ShortBuffer);
        }
        let b = buf[cur];
        if b == 0 {
            if !jumped {
                end = cur + 1;
                assert(buf@.subrange(pos as int, end as int) =~= buf@.subrange(
                    pos as int,
                    cur as int,
                ).push(0u8));
            }
            proof {
                assert forall|ls: Seq<Seq<u8>>| #[trigger] name_at(buf@, pos as int, ls) implies !jumped
                    && labels_view(labels@) == ls && end == pos + name_wire(ls).len() by {
                    assert(labels@.len() == ls.len());
                    assert(ls.subrange(0, ls.len() as int) =~= ls);
                }
            }
            break;
        } else if b >= 192 {
            if cur + 1 >= buf.len() {
                return Err(ParseError::ShortBuffer);
            }
            let target: usize = ((b - 192) as usize) * 256 + buf[cur + 1] as usize;
            if target >= limit {
                return Err(ParseError::PointerLoop);
            }
            if !jumped {
                end = cur + 2;
                jumped = true;
            }
            limit = target;
            cur = target;
        } else if b > 63 {
            return Err(ParseError::InvalidLabel);
        } else {
            let n = b as usize;
            let label = read_bytes(buf, cur + 1, n)?;
            if wire_len + n + 1 > 255 {
                return Err(ParseError::NameTooLong);
            }
            let ghost old_labels = labels_view(labels@);
            labels.push(label);
            proof {
                let nl = labels_view(labels@);
                assert(nl.drop_last() =~= old_labels);
                assert forall|ls: Seq<Seq<u8>>| #[trigger] name_at(buf@, pos as int, ls) implies nl
                    == ls.subrange(0, nl.len() as int) by {
                    let k = old_labels.len() as int;
                    assert(ls.subrange(0, k + 1) =~= ls.subrange(0, k).push(ls[k]));
                    assert(nl =~= old_labels.push(label@));
                }
                assert(nl.last() == label@);
                assert(label_ok(nl.last()));
                assert forall|j: int| 0 <= j < nl.len() implies #[trigger] label_ok(nl[j]) by {
                    if j < nl.len() - 1 {
                        assert(nl[j] == old_labels[j]);
                    }
                }
                if !jumped {
                    assert(buf@.subrange(pos as int, (cur + 1 + n) as int) =~= buf@.subrange(
                        pos as int,
                        cur as int,
                    ) + label_wire(label@));
                }
            }
            cur = cur + 1 + n;
            wire_len = wire_len + n + 1;
        }
    }
    let name = Name::from_labels(labels);
    match name {
        Ok(name) => Ok((name, end, jumped)),
        Err(e) => Err(e),
    }
}

/// A resource record; its data is kept as the octets that the wire carries.
#[derive(Debug, Clone)]
pub struct Record {
    pub name: Name,
    pub rr_type: u16,
    pub dns_class: u16,
    pub ttl: u32,
    pub rdata: Vec<u8>,
}

/// Two records with the same owner, type, class, TTL and data.
pub open spec fn same_record(a: Record, b: Record) -> bool {
    &&& a.name@ == b.name@
    &&& a.rr_type == b.rr_type
    &&& a.dns_class == b.dns_class
    &&& a.ttl == b.ttl
    &&& a.rdata@ == b.rdata@
}

impl Record {
    pub open spec fn wf(&self) -> bool {
        self.name.wf() && self.rdata.len() <= 65535
    }

    /// A copy of this record.
    pub fn duplicate(&self) -> (r: Record)
        ensures
            same_record(r, *self),
    {
        Record {
            name: self.name.duplicate(),
            rr_type: self.rr_type,
            dns_class: self.dns_class,
            ttl: self.ttl,
            rdata: copy_bytes(&self.rdata),
        }
    }
}

pub open spec fn record_wire(r: Record) -> Seq<u8> {
    name_wire(r.name@) + u16_wire(r.rr_type) + u16_wire(r.dns_class) + u32_wire(r.ttl)
        + u16_wire(r.rdata.len() as u16) + r.rdata@
}

pub open spec fn records_wire(rs: Seq<Record>) -> Seq<u8>
    decreases rs.len(),
{
    if rs.len() == 0 {
        Seq::empty()
    } else {
        records_wire(rs.drop_last()) + record_wire(rs.last())
    }
}

pub open spec fn records_wf(rs: Seq<Record>) -> bool {
    forall|i: int| 0 <= i < rs.len() ==> #[trigger] rs[i].wf()
}

pub fn emit_record(buf: &mut Vec<u8>, r: &Record)
    requires
        r.rdata.len() <= 65535,
    ensures
        final(buf)@ == old(buf)@ + record_wire(*r),
{
    r.name.emit(buf);
    push_u16(buf, r.rr_type);
    push_u16(buf, r.dns_class);
    push_u32(buf, r.ttl);
    push_u16(buf, r.rdata.len() as u16);
    push_bytes(buf, &r.rdata);
    assert(buf@ =~= old(buf)@ + record_wire(*r));
}

pub fn emit_records(buf: &mut Vec<u8>, rs: &Vec<Record>)
    requires
        records_wf(rs@),
    ensures
        final(buf)@ == old(buf)@ + records_wire(rs@),
{
    let ghost start = buf@;
    let mut i: usize = 0;
    while i < rs.len()
        invariant
            i <= rs.len(),
            records_wf(rs@),
            buf@ == start + records_wire(rs@.subrange(0, i as int)),
        decreases rs.len() - i,
    {
        assert(rs@[i as int].wf());
        emit_record(buf, &rs[i]);
        assert(rs@.subrange(0, i + 1).drop_last() =~= rs@.subrange(0, i as int));
        i += 1;
        assert(buf@ =~= start + records_wire(rs@.subrange(0, i as int)));
    }
    assert(rs@.subrange(0, i as int) =~= rs@);
}

/// `buf` holds the plain wire form of the well-formed record `rec` at `pos`.
pub open spec fn record_at(buf: Seq<u8>, pos: int, rec: Record) -> bool {
    &&& rec.wf()
    &&& 0 <= pos
    &&& pos + record_wire(rec).len() <= buf.len()
    &&& buf.subrange(pos, pos + record_wire(rec).len()) == record_wire(rec)
}

pub proof fn lemma_u16_wire_inj(a: u16, b: u16)
    requires
        u16_wire(a) == u16_wire(b),
    ensures
        a == b,
{
    assert(u16_wire(a)[0] == u16_wire(b)[0] && u16_wire(a)[1] == u16_wire(b)[1]);
}

proof fn lemma_u32_wire_inj(a: u32, b: u32)
    requires
        u32_wire(a) == u32_wire(b),
    ensures
        a == b,
{
    assert(u32_wire(a).subrange(0, 2) =~= u16_wire((a / 65536) as u16));
    assert(u32_wire(b).subrange(0, 2) =~= u16_wire((b / 65536) as u16));
    assert(u32_wire(a).subrange(2, 4) =~= u16_wire((a % 65536) as u16));
    assert(u32_wire(b).subrange(2, 4) =~= u16_wire((b % 65536) as u16));
    lemma_u16_wire_inj((a / 65536) as u16, (b / 65536) as u16);
    lemma_u16_wire_inj((a % 65536) as u16, (b % 65536) as u16);
}

#[verifier::rlimit(100)]
pub fn read_record(buf: &Vec<u8>, pos: usize) -> (r: Result<(Record, usize, bool), ParseError>)
    ensures
        match r {
            Ok((rec, end, compressed)) => {
                &&& pos < end <= buf.len()
                &&& rec.wf()
                &&& !compressed ==> record_wire(rec) == buf@.subrange(pos as int, end as int)
            },
            Err(_) => true,
        },
        forall|rec: Record| #[trigger]
            record_at(buf@, pos as int, rec) ==> (r matches Ok((got, end, compressed)) && !compressed
                && end == pos + record_wire(rec).len() && same_record(got, rec)),
{
    proof {
        assert forall|rec: Record| #[trigger] record_at(buf@, pos as int, rec) implies name_at(
            buf@,
            pos as int,
            rec.name@,
        ) by {
            let w = record_wire(rec);
            let nw = name_wire(rec.name@);
            assert(w.subrange(0, nw.len() as int) =~= nw);
            assert(buf@.subrange(pos as int, pos + nw.len()) =~= w.subrange(0, nw.len() as int));
        }
    }
    let (name, p1, compressed) = read_name(buf, pos)?;
    let rr_type = read_u16(buf, p1)?;
    let dns_class = read_u16(buf, p1 + 2)?;
    let ttl = read_u32(buf, p1 + 4)?;
    let rdlen = read_u16(buf, p1 + 8)?;
    proof {
        assert forall|rec: Record| #[trigger] record_at(buf@, pos as int, rec) implies rdlen
            == rec.rdata.len() && p1 + 10 + rec.rdata.len() == pos + record_wire(rec).len() by {
            let w = record_wire(rec);
            let nw = name_wire(rec.name@).len() as int;
            assert(p1 == pos + nw);
            assert(w.subrange(nw + 8, nw + 10) =~= u16_wire(rec.rdata.len() as u16));
            assert(buf@.subrange(p1 + 8, p1 + 10) =~= w.subrange(nw + 8, nw + 10));
            lemma_u16_wire_inj(rdlen, rec.rdata.len() as u16);
        }
    }
    let rdata = match read_bytes(buf, p1 + 10, rdlen as usize) {
        Ok(v) => v,
        Err(_) => return Err(ParseError::TruncatedRdata),
    };
    let end = p1 + 10 + rdlen as usize;
    let rec = Record { name, rr_type, dns_class, ttl, rdata };
    proof {
        assert forall|t: Record| #[trigger] record_at(buf@, pos as int, t) implies same_record(rec, t) by {
            let w = record_wire(t);
            let nw = name_wire(t.name@).len() as int;
            assert(w.subrange(nw, nw + 2) =~= u16_wire(t.rr_type));
            assert(w.subrange(nw + 2, nw + 4) =~= u16_wire(t.dns_class));
            assert(w.subrange(nw + 4, nw + 8) =~= u32_wire(t.ttl));
            assert(buf@.subrange(p1 as int, p1 + 2) =~= w.subrange(nw, nw + 2));
            assert(buf@.subrange(p1 + 2, p1 + 4) =~= w.subrange(nw + 2, nw + 4));
            assert(buf@.subrange(p1 + 4, p1 + 8) =~= w.subrange(nw + 4, nw + 8));
            lemma_u16_wire_inj(rr_type, t.rr_type);
            lemma_u16_wire_inj(dns_class, t.dns_class);
            lemma_u32_wire_inj(ttl, t.ttl);
            assert(buf@.subrange(p1 + 10, end as int) =~= w.subrange(nw + 10, w.len() as int));
            assert(w.subrange(nw + 10, w.len() as int) =~= t.rdata@);
        }
    }
    proof {
        if !compressed {
            let b = buf@;
            assert(b.subrange(pos as int, end as int) =~= b.subrange(pos as int, p1 as int)
                + b.subrange(p1 as int, p1 + 2) + b.subrange(p1 + 2, p1 + 4) + b.subrange(
                p1 + 4,
                p1 + 8,
            ) + b.subrange(p1 + 8, p1 + 10) + b.subrange(p1 + 10, end as int));
        }
    }
    Ok((rec, end, compressed))
}

/// `buf` holds the plain wire form of the well-formed records `rs` at `pos`.
pub open spec fn records_at(buf: Seq<u8>, pos: int, rs: Seq<Record>) -> bool {
    &&& records_wf(rs)
    &&& 0 <= pos
    &&& pos + records_wire(rs).len() <= buf.len()
    &&& buf.subrange(pos, pos + records_wire(rs).len()) == records_wire(rs)
}

proof fn lemma_records_prefix(rs: Seq<Record>, k: int)
    requires
        0 <= k <= rs.len(),
    ensures
        records_wire(rs.subrange(0, k)).len() <= records_wire(rs).len(),
        records_wire(rs).subrange(0, records_wire(rs.subrange(0, k)).len() as int) == records_wire(
            rs.subrange(0, k),
        ),
    decreases rs.len() - k,
{
    if k == rs.len() {
        assert(rs.subrange(0, k) =~= rs);
        assert(records_wire(rs).subrange(0, records_wire(rs).len() as int) =~= records_wire(rs));
    } else {
        lemma_records_prefix(rs, k + 1);
        let a = records_wire(rs.subrange(0, k));
        let b = records_wire(rs.subrange(0, k + 1));
        assert(rs.subrange(0, k + 1).drop_last() =~= rs.subrange(0, k));
        assert(b == a + record_wire(rs[k]));
        assert(records_wire(rs).subrange(0, a.len() as int) =~= b.subrange(0, a.len() as int));
        assert(b.subrange(0, a.len() as int) =~= a);
    }
}

/// Reads `count` records from `pos` on.
pub fn read_records(buf: &Vec<u8>, pos: usize, count: u16) -> (r: Result<
    (Vec<Record>, usize, bool),
    ParseError,
>)
    ensures
        match r {
            Ok((rs, end, compressed)) => {
                &&& pos <= end <= buf.len()
                &&& rs.len() == count
                &&& records_wf(rs@)
                &&& !compressed ==> records_wire(rs@) == buf@.subrange(pos as int, end as int)
            },
            Err(_) => true,
        },
        forall|rs: Seq<Record>| #[trigger]
            records_at(buf@, pos as int, rs) && rs.len() == count ==> (r matches Ok((got, end, c))
                && !c && end == pos + records_wire(rs).len() && forall|k: int|
                0 <= k < rs.len() ==> same_record(#[trigger] got@[k], rs[k])),
{
    if pos > buf.len() {
        return Err(ParseError::ShortBuffer);
    }
    let mut rs: Vec<Record> = Vec::new();
    let mut cur = pos;
    let mut compressed = false;
    let mut i: u16 = 0;
    while i < count
        invariant
            i <= count,
            pos <= cur <= buf.len(),
            rs.len() == i,
            records_wf(rs@),
            !compressed ==> records_wire(rs@) == buf@.subrange(pos as int, cur as int),
            forall|t: Seq<Record>| #[trigger]
                records_at(buf@, pos as int, t) && t.len() == count ==> !compressed && cur == pos
                    + records_wire(t.subrange(0, i as int)).len() && forall|k: int|
                    0 <= k < i ==> same_record(#[trigger] rs@[k], t[k]),
        decreases count - i,
    {
        proof {
            assert forall|t: Seq<Record>| #[trigger]
                records_at(buf@, pos as int, t) && t.len() == count implies record_at(
                buf@,
                cur as int,
                t[i as int],
            ) && records_wire(t.subrange(0, i + 1)).len() == cur - pos + record_wire(t[i as int]).len() by {
                lemma_records_prefix(t, i + 1);
                assert(t.subrange(0, i + 1).drop_last() =~= t.subrange(0, i as int));
                let a = records_wire(t.subrange(0, i as int));
                let b = records_wire(t.subrange(0, i + 1));
                let rw = record_wire(t[i as int]);
                assert(b == a + rw);
                let whole = records_wire(t);
                assert(whole.subrange(0, b.len() as int) == b);
                assert(buf@.subrange(cur as int, cur + rw.len()) =~= rw) by {
                    assert forall|j: int| 0 <= j < rw.len() implies buf@[cur + j] == rw[j] by {
                        assert(buf@.subrange(pos as int, pos + whole.len())[a.len() + j] == whole[a.len() + j]);
                        assert(whole[a.len() + j] == b[a.len() + j]);
                    }
                }
            }
        }
        let (rec, next, c) = read_record(buf, cur)?;
        let ghost prev = rs@;
        rs.push(rec);
        proof {
            assert(rs@.drop_last() =~= prev);
            if !compressed && !c {
                assert(buf@.subrange(pos as int, next as int) =~= buf@.subrange(
                    pos as int,
                    cur as int,
                ) + buf@.subrange(cur as int, next as int));
            }
        }
        compressed = compressed || c;
        cur = next;
        i += 1;
    }
    proof {
        assert forall|t: Seq<Record>| #[trigger] records_at(buf@, pos as int, t) && t.len() == count implies
            cur == pos + records_wire(t).len() by {
            assert(t.subrange(0, count as int) =~= t);
        }
    }
    Ok((rs, cur, compressed))
}

} // verus!
