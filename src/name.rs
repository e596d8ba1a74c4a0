use vstd::prelude::*;
use vstd::string::*;
use crate::error::ParseError;

verus! {

/// ASCII lower case of one octet; other octets stay as they are.
pub open spec fn lower_byte(b: u8) -> u8 {
    if 65 <= b && b <= 90 {
        (b + 32) as u8
    } else {
        b
    }
}

pub open spec fn lower_label(l: Seq<u8>) -> Seq<u8> {
    l.map_values(|b: u8| lower_byte(b))
}

pub open spec fn lower_labels(ls: Seq<Seq<u8>>) -> Seq<Seq<u8>> {
    ls.map_values(|l: Seq<u8>| lower_label(l))
}

/// One label on the wire: its length, then its octets.
pub open spec fn label_wire(l: Seq<u8>) -> Seq<u8> {
    seq![l.len() as u8] + l
}

pub open spec fn labels_wire(ls: Seq<Seq<u8>>) -> Seq<u8>
    decreases ls.len(),
{
    if ls.len() == 0 {
        Seq::empty()
    } else {
        labels_wire(ls.drop_last()) + label_wire(ls.last())
    }
}

/// A name on the wire without compression: its labels, then the null label.
pub open spec fn name_wire(ls: Seq<Seq<u8>>) -> Seq<u8> {
    labels_wire(ls).push(0u8)
}

/// The canonical form: lower-case labels, no compression.
pub open spec fn canonical_name_wire(ls: Seq<Seq<u8>>) -> Seq<u8> {
    name_wire(lower_labels(ls))
}

pub open spec fn label_ok(l: Seq<u8>) -> bool {
    1 <= l.len() <= 63
}

pub open spec fn labels_ok(ls: Seq<Seq<u8>>) -> bool {
    &&& forall|i: int| 0 <= i < ls.len() ==> #[trigger] label_ok(ls[i])
    &&& name_wire(ls).len() <= 255
}

/// Equal but for the case of ASCII letters.
pub open spec fn same_name(a: Seq<Seq<u8>>, b: Seq<Seq<u8>>) -> bool {
    lower_labels(a) == lower_labels(b)
}

/// `zone` is `name` or one of its ancestors: its labels end `name`'s labels,
/// ASCII case ignored.
pub open spec fn in_zone(zone: Seq<Seq<u8>>, name: Seq<Seq<u8>>) -> bool {
    &&& zone.len() <= name.len()
    &&& lower_labels(name).subrange(name.len() - zone.len(), name.len() as int)
        == lower_labels(zone)
}

/// Each label followed by a dot.
pub open spec fn dotted(ls: Seq<Seq<u8>>) -> Seq<u8>
    decreases ls.len(),
{
    if ls.len() == 0 {
        Seq::empty()
    } else {
        dotted(ls.drop_last()) + ls.last().push(46u8)
    }
}

/// The presentation form: each label followed by a dot; the root is a lone dot.
pub open spec fn name_text(ls: Seq<Seq<u8>>) -> Seq<u8> {
    if ls.len() == 0 {
        seq![46u8]
    } else {
        dotted(ls)
    }
}

/// The octets of an ASCII text.
pub open spec fn text_bytes(s: Seq<char>) -> Seq<u8> {
    s.map_values(|c: char| (c as u32) as u8)
}

proof fn lemma_lower_byte_idem(b: u8)
    ensures
        lower_byte(lower_byte(b)) == lower_byte(b),
{
}

/// Lower-casing a name first does not change its canonical form.
pub proof fn lemma_canonical_ignores_case(ls: Seq<Seq<u8>>)
    ensures
        canonical_name_wire(lower_labels(ls)) == canonical_name_wire(ls),
{
    assert forall|i: int| 0 <= i < ls.len() implies lower_label(lower_label(ls[i]))
        == lower_label(ls[i]) by {
        let l = ls[i];
        assert forall|j: int| 0 <= j < l.len() implies lower_label(lower_label(l))[j]
            == lower_label(l)[j] by {
            lemma_lower_byte_idem(l[j]);
        }
        assert(lower_label(lower_label(l)) =~= lower_label(l));
    }
    assert(lower_labels(lower_labels(ls)) =~= lower_labels(ls));
}

/// The octets of each label.
pub open spec fn labels_view(ls: Seq<Vec<u8>>) -> Seq<Seq<u8>> {
    ls.map_values(|l: Vec<u8>| l@)
}

pub open spec fn has_non_ascii(s: Seq<char>) -> bool {
    exists|i: int| 0 <= i < s.len() && (#[trigger] s[i] as u32) >= 128
}

/// The text holds an empty label: it starts with a dot or has two dots in
/// a row, and is not the lone dot of the root.
pub open spec fn has_empty_label(s: Seq<char>) -> bool {
    &&& s != seq!['.']
    &&& exists|i: int| 0 <= i < s.len() && #[trigger] s[i] == '.' && (i == 0 || s[i - 1] == '.')
}

/// Why a text is not a name: it is empty, holds a character that is not
/// ASCII or an empty label, or it reads as non-empty dotless labels (the
/// only reading then) that break the length limits.
pub open spec fn text_error(s: Seq<char>, e: ParseError) -> bool {
    ||| e == ParseError::InvalidText && (s.len() == 0 || has_non_ascii(s) || has_empty_label(s))
    ||| (e == ParseError::InvalidLabel || e == ParseError::NameTooLong) && exists|ls: Seq<Seq<u8>>|
        !labels_ok(ls) && labels_dotless(ls) && labels_nonempty(ls) && (#[trigger] name_text(ls)
            == text_bytes(s) || name_text(ls) == text_bytes(s).push(46u8))
}

/// No label holds a dot.
pub open spec fn labels_dotless(ls: Seq<Seq<u8>>) -> bool {
    forall|i: int, j: int| 0 <= i < ls.len() && 0 <= j < ls[i].len() ==> #[trigger] ls[i][j] != 46u8
}

/// No label is empty.
pub open spec fn labels_nonempty(ls: Seq<Seq<u8>>) -> bool {
    forall|i: int| 0 <= i < ls.len() ==> (#[trigger] ls[i]).len() > 0
}

pub proof fn lemma_same_name_refl(ls: Seq<Seq<u8>>)
    ensures
        same_name(ls, ls),
{
}

/// A domain name: a sequence of labels, the root being the empty one.
#[derive(Debug, Clone)]
pub struct Name {
    labels: Vec<Vec<u8>>,
}

impl View for Name {
    type V = Seq<Seq<u8>>;

    closed spec fn view(&self) -> Seq<Seq<u8>> {
        labels_view(self.labels@)
    }
}

pub fn lower_ascii(b: u8) -> (r: u8)
    ensures
        r == lower_byte(b),
{
    if b >= 65 && b <= 90 {
        b + 32
    } else {
        b
    }
}

fn lower_vec(l: &Vec<u8>) -> (r: Vec<u8>)
    ensures
        r@ == lower_label(l@),
{
    let mut out: Vec<u8> = Vec::new();
    let mut i: usize = 0;
    while i < l.len()
        invariant
            i <= l.len(),
            out@ == lower_label(l@).subrange(0, i as int),
        decreases l.len() - i,
    {
        out.push(lower_ascii(l[i]));
        i += 1;
        assert(out@ =~= lower_label(l@).subrange(0, i as int));
    }
    assert(out@ =~= lower_label(l@));
    out
}

/// Appends one label to a buffer: its length, then its octets.
fn push_label(buf: &mut Vec<u8>, l: &Vec<u8>)
    ensures
        final(buf)@ == old(buf)@ + label_wire(l@),
{
    buf.push(l.len() as u8);
    let ghost mid = buf@;
    let mut i: usize = 0;
    while i < l.len()
        invariant
            i <= l.len(),
            buf@ == mid + l@.subrange(0, i as int),
        decreases l.len() - i,
    {
        buf.push(l[i]);
        i += 1;
        assert(buf@ =~= mid + l@.subrange(0, i as int));
    }
    assert(l@.subrange(0, l.len() as int) =~= l@);
    assert(buf@ =~= old(buf)@ + label_wire(l@));
}

impl Name {
    pub open spec fn wf(&self) -> bool {
        labels_ok(self@)
    }

    pub open spec fn spec_is_root(&self) -> bool {
        self@.len() == 0
    }

    /// The root name.
    pub fn root() -> (r: Name)
        ensures
            r@ == Seq::<Seq<u8>>::empty(),
            r.wf(),
    {
        let r = Name { labels: Vec::new() };
        assert(r@ =~= Seq::<Seq<u8>>::empty());
        r
    }

    pub fn is_root(&self) -> (r: bool)
        ensures
            r == self.spec_is_root(),
    {
        self.labels.len() == 0
    }

    pub fn num_labels(&self) -> (r: usize)
        ensures
            r == self@.len(),
    {
        self.labels.len()
    }

    /// A name from its labels, first the leftmost: each label holds 1 to 63
    /// octets and the whole name at most 255 on the wire.
    pub fn from_labels(labels: Vec<Vec<u8>>) -> (r: Result<Name, ParseError>)
        ensures
            match r {
                Ok(n) => n@ == labels_view(labels@) && n.wf(),
                Err(e) => !labels_ok(labels_view(labels@)) && (e == ParseError::InvalidLabel || e
                    == ParseError::NameTooLong),
            },
    {
        let ghost ls = labels_view(labels@);
        let mut len: usize = 1;
        let mut i: usize = 0;
        while i < labels.len()
            invariant
                ls == labels_view(labels@),
                i <= labels.len(),
                len == name_wire(ls.subrange(0, i as int)).len(),
                len <= 255,
                forall|j: int| 0 <= j < i ==> #[trigger] label_ok(ls[j]),
            decreases labels.len() - i,
        {
            let n = labels[i].len();
            assert(ls[i as int] == labels@[i as int]@);
            if n == 0 || n > 63 {
                assert(!label_ok(ls[i as int]));
                return Err(ParseError::InvalidLabel);
            }
            proof {
                let pre = ls.subrange(0, i as int + 1);
                assert(pre.drop_last() =~= ls.subrange(0, i as int));
            }
            if len + n + 1 > 255 {
                proof {
                    self::lemma_name_wire_prefix_len(ls, i as int + 1);
                }
                return Err(ParseError::NameTooLong);
            }
            len = len + n + 1;
            i += 1;
        }
        assert(ls.subrange(0, i as int) =~= ls);
        Ok(Name { labels })
    }

    /// Reads a name in presentation form: ASCII labels separated by dots,
    /// the final dot optional; a lone dot is the root.
    pub fn parse(s: &str) -> (r: Result<Name, ParseError>)
        ensures
            r matches Ok(n) ==> n.wf() && labels_dotless(n@) && (name_text(n@) == text_bytes(s@)
                || name_text(n@) == text_bytes(s@).push(46u8)),
            s@.len() == 0 ==> r is Err,
            r matches Err(e) ==> text_error(s@, e),
    {
        let len = s.unicode_len();
        if len == 0 {
            return Err(ParseError::InvalidText);
        }
        if len == 1 && s.get_char(0) == '.' {
            let r = Name::root();
            assert(s@ =~= seq!['.']);
            assert(text_bytes(s@) =~= seq![46u8]);
            return Ok(r);
        }
        let mut labels: Vec<Vec<u8>> = Vec::new();
        let mut cur: Vec<u8> = Vec::new();
        let mut i: usize = 0;
        assert(labels_view(labels@) =~= Seq::<Seq<u8>>::empty());
        assert(text_bytes(s@.subrange(0, 0)) =~= Seq::<u8>::empty());
        while i < len
            invariant
                len == s@.len(),
                i <= len,
                text_bytes(s@.subrange(0, i as int)) == dotted(labels_view(labels@)) + cur@,
                i > 0 && cur@.len() == 0 ==> labels@.len() > 0,
                i > 0 && cur@.len() == 0 ==> s@[i - 1] == '.',
                s@ != seq!['.'],
                labels_dotless(labels_view(labels@)),
                forall|j: int| 0 <= j < labels@.len() ==> (#[trigger] labels_view(labels@)[j]).len() > 0,
                forall|j: int| 0 <= j < cur@.len() ==> #[trigger] cur@[j] != 46u8,
            decreases len - i,
        {
            let c = s.get_char(i);
            let ghost prev_text = text_bytes(s@.subrange(0, i as int));
            assert(text_bytes(s@.subrange(0, i + 1)) =~= prev_text.push((c as u32) as u8));
            if c == '.' {
                if cur.len() == 0 {
                    assert(has_empty_label(s@));
                    return Err(ParseError::InvalidText);
                }
                let ghost old_labels = labels_view(labels@);
                let ghost pushed = cur@;
                labels.push(cur);
                assert(labels_view(labels@).drop_last() =~= old_labels);
                assert(labels_view(labels@) =~= old_labels.push(pushed));
                cur = Vec::new();
                assert(text_bytes(s@.subrange(0, i + 1)) =~= dotted(labels_view(labels@)) + cur@);
            } else {
                if (c as u32) >= 128 {
                    assert(has_non_ascii(s@));
                    return Err(ParseError::InvalidText);
                }
                assert(((c as u32) as u8) != 46u8);
                cur.push((c as u32) as u8);
                assert(text_bytes(s@.subrange(0, i + 1)) =~= dotted(labels_view(labels@)) + cur@);
            }
            i += 1;
        }
        assert(s@.subrange(0, len as int) =~= s@);
        if cur.len() > 0 {
            let ghost old_labels = labels_view(labels@);
            let ghost pushed = cur@;
            labels.push(cur);
            assert(labels_view(labels@).drop_last() =~= old_labels);
            assert(labels_view(labels@) =~= old_labels.push(pushed));
            assert(dotted(labels_view(labels@)) =~= text_bytes(s@).push(46u8));
        } else {
            assert(dotted(labels_view(labels@)) =~= text_bytes(s@));
        }
        let ghost ls = labels_view(labels@);
        let r = Name::from_labels(labels);
        assert(r is Err ==> !labels_ok(ls) && labels_dotless(ls) && labels_nonempty(ls) && (name_text(ls)
            == text_bytes(s@) || name_text(ls) == text_bytes(s@).push(46u8)));
        r
    }

    /// A copy of this name.
    pub fn duplicate(&self) -> (r: Name)
        ensures
            r@ == self@,
    {
        let mut out: Vec<Vec<u8>> = Vec::new();
        let mut i: usize = 0;
        while i < self.labels.len()
            invariant
                i <= self.labels.len(),
                labels_view(out@) == self@.subrange(0, i as int),
            decreases self.labels.len() - i,
        {
            let l = copy_bytes(&self.labels[i]);
            let ghost prev = out@;
            out.push(l);
            assert(labels_view(out@) =~= labels_view(prev).push(l@));
            i += 1;
            assert(labels_view(out@) =~= self@.subrange(0, i as int));
        }
        assert(labels_view(out@) =~= self@);
        Name { labels: out }
    }

    /// Each label, ASCII letters in lower case.
    pub fn to_lowercase(&self) -> (r: Name)
        ensures
            r@ == lower_labels(self@),
    {
        let mut out: Vec<Vec<u8>> = Vec::new();
        let mut i: usize = 0;
        while i < self.labels.len()
            invariant
                i <= self.labels.len(),
                labels_view(out@) == lower_labels(self@).subrange(0, i as int),
            decreases self.labels.len() - i,
        {
            let l = lower_vec(&self.labels[i]);
            assert(self@[i as int] == self.labels@[i as int]@);
            let ghost prev = out@;
            out.push(l);
            assert(labels_view(out@) =~= labels_view(prev).push(l@));
            i += 1;
            assert(labels_view(out@) =~= lower_labels(self@).subrange(0, i as int));
        }
        assert(labels_view(out@) =~= lower_labels(self@));
        Name { labels: out }
    }

    /// Equality that ignores the case of ASCII letters.
    pub fn eq_ignore_case(&self, other: &Name) -> (r: bool)
        ensures
            r == same_name(self@, other@),
    {
        let a = self.to_lowercase();
        let b = other.to_lowercase();
        if a.labels.len() != b.labels.len() {
            assert(a@.len() != b@.len());
            return false;
        }
        let mut i: usize = 0;
        while i < a.labels.len()
            invariant
                i <= a.labels.len(),
                a.labels.len() == b.labels.len(),
                a@ == lower_labels(self@),
                b@ == lower_labels(other@),
                forall|j: int| 0 <= j < i ==> a@[j] == b@[j],
            decreases a.labels.len() - i,
        {
            if !bytes_eq(&a.labels[i], &b.labels[i]) {
                assert(a@[i as int] != b@[i as int]);
                return false;
            }
            i += 1;
        }
        assert(a@ =~= b@);
        true
    }

    /// Whether this name is `name` or one of its ancestors, case ignored.
    pub fn zone_of(&self, name: &Name) -> (r: bool)
        ensures
            r == in_zone(self@, name@),
    {
        let a = self.to_lowercase();
        let b = name.to_lowercase();
        let n = a.labels.len();
        let m = b.labels.len();
        assert(a@.len() == n && b@.len() == m);
        assert(lower_labels(self@).len() == self@.len());
        assert(lower_labels(name@).len() == name@.len());
        if n > m {
            return false;
        }
        let ghost tail = b@.subrange(m - n, m as int);
        let mut i: usize = 0;
        while i < n
            invariant
                i <= n <= m,
                n == a@.len(),
                m == b@.len(),
                a@ == lower_labels(self@),
                b@ == lower_labels(name@),
                tail == b@.subrange(m - n, m as int),
                forall|j: int| 0 <= j < i ==> a@[j] == tail[j],
            decreases n - i,
        {
            if !bytes_eq(&a.labels[i], &b.labels[m - n + i]) {
                assert(a@[i as int] != tail[i as int]);
                return false;
            }
            i += 1;
        }
        assert(a@ =~= tail);
        true
    }

    /// Appends the name to `buf` without compression.
    pub fn emit(&self, buf: &mut Vec<u8>)
        ensures
            final(buf)@ == old(buf)@ + name_wire(self@),
    {
        let ghost start = buf@;
        let mut i: usize = 0;
        while i < self.labels.len()
            invariant
                i <= self.labels.len(),
                buf@ == start + labels_wire(self@.subrange(0, i as int)),
            decreases self.labels.len() - i,
        {
            push_label(buf, &self.labels[i]);
            proof {
                let pre = self@.subrange(0, i as int + 1);
                assert(pre.drop_last() =~= self@.subrange(0, i as int));
                assert(pre.last() == self.labels@[i as int]@);
            }
            i += 1;
            assert(buf@ =~= start + labels_wire(self@.subrange(0, i as int)));
        }
        buf.push(0u8);
        assert(self@.subrange(0, i as int) =~= self@);
        assert(buf@ =~= start + name_wire(self@));
    }

    /// Appends the canonical form: lower case, without compression.
    pub fn emit_canonical(&self, buf: &mut Vec<u8>)
        ensures
            final(buf)@ == old(buf)@ + canonical_name_wire(self@),
    {
        self.to_lowercase().emit(buf);
    }
}

proof fn lemma_name_wire_prefix_len(ls: Seq<Seq<u8>>, k: int)
    requires
        0 < k <= ls.len(),
    ensures
        name_wire(ls.subrange(0, k)).len() <= name_wire(ls).len(),
    decreases ls.len() - k,
{
    if k < ls.len() {
        lemma_name_wire_prefix_len(ls, k + 1);
        let pre = ls.subrange(0, k + 1);
        assert(pre.drop_last() =~= ls.subrange(0, k));
    } else {
        assert(ls.subrange(0, k) =~= ls);
    }
}

/// A copy of a buffer.
pub fn copy_bytes(v: &Vec<u8>) -> (r: Vec<u8>)
    ensures
        r@ == v@,
{
    let mut out: Vec<u8> = Vec::new();
    let mut i: usize = 0;
    while i < v.len()
        invariant
            i <= v.len(),
            out@ == v@.subrange(0, i as int),
        decreases v.len() - i,
    {
        out.push(v[i]);
        i += 1;
        assert(out@ =~= v@.subrange(0, i as int));
    }
    assert(out@ =~= v@);
    out
}

/// Octet-wise equality of two buffers.
pub fn bytes_eq(a: &Vec<u8>, b: &Vec<u8>) -> (r: bool)
    ensures
        r == (a@ == b@),
{
    if a.len() != b.len() {
        return false;
    }
    let mut i: usize = 0;
    while i < a.len()
        invariant
            i <= a.len(),
            a.len() == b.len(),
            forall|j: int| 0 <= j < i ==> a@[j] == b@[j],
        decreases a.len() - i,
    {
        if a[i] != b[i] {
            return false;
        }
        i += 1;
    }
    assert(a@ =~= b@);
    true
}

} // verus!
