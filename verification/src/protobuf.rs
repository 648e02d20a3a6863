//! The protocol-buffer wire format used by transport instructions and
//! terminal differences: base-128 varints, field keys, and length-delimited
//! payloads. Group wire types are not part of this protocol and are rejected.
use vstd::prelude::*;

verus! {

/// Wire type of a varint field.
pub const WIRE_VARINT: u64 = 0;
/// Wire type of a fixed 64-bit field.
pub const WIRE_FIXED64: u64 = 1;
/// Wire type of a length-delimited field.
pub const WIRE_LEN: u64 = 2;
/// Wire type of a fixed 32-bit field.
pub const WIRE_FIXED32: u64 = 5;

/// Largest value a varint that starts at nesting depth `d` can carry.
pub open spec fn varint_bound(d: nat) -> nat
    decreases 10 - d,
{
    if d >= 10 {
        0
    } else if d == 9 {
        2
    } else {
        128 * varint_bound(d + 1)
    }
}

/// The varint at the start of `s`, read as byte `depth` of a varint: its
/// value and the bytes it occupies. A varint has at most ten bytes and its
/// tenth byte is at most one.
pub open spec fn varint_at(s: Seq<u8>, depth: nat) -> Option<(nat, nat)>
    decreases 10 - depth,
{
    if depth >= 10 || s.len() == 0 {
        None
    } else if s[0] < 128 {
        if depth == 9 && s[0] >= 2 {
            None
        } else {
            Some((s[0] as nat, 1))
        }
    } else {
        match varint_at(s.drop_first(), depth + 1) {
            Some((v, n)) => Some(((s[0] - 128) as nat + 128 * v, n + 1)),
            None => None,
        }
    }
}

/// The varint at the start of `s`.
pub open spec fn varint(s: Seq<u8>) -> Option<(nat, nat)> {
    varint_at(s, 0)
}

/// The shortest varint encoding of `v`.
pub open spec fn varint_bytes(v: nat) -> Seq<u8>
    decreases v,
{
    if v < 128 {
        seq![v as u8]
    } else {
        seq![(v % 128 + 128) as u8] + varint_bytes(v / 128)
    }
}

/// A decoded field value; fixed-width values are only skipped.
pub ghost enum WireValue {
    Varint(u64),
    Fixed64,
    Bytes(Seq<u8>),
    Fixed32,
}

/// The key at the start of `s`: field number, wire type, bytes used.
pub open spec fn key_at(s: Seq<u8>) -> Option<(u64, u64, nat)> {
    match varint(s) {
        None => None,
        Some((k, n)) => if k > 0xffff_ffff || k / 8 == 0 || (k % 8 != WIRE_VARINT && k % 8
            != WIRE_FIXED64 && k % 8 != WIRE_LEN && k % 8 != WIRE_FIXED32) {
            None
        } else {
            Some(((k / 8) as u64, (k % 8) as u64, n))
        },
    }
}

/// The field at the start of `s`: number, value, and bytes used.
pub open spec fn field_at(s: Seq<u8>) -> Option<(u64, WireValue, nat)> {
    match key_at(s) {
        None => None,
        Some((tag, wire, n)) => {
            let rest = s.subrange(n as int, s.len() as int);
            if wire == WIRE_VARINT {
                match varint(rest) {
                    Some((v, m)) => Some((tag, WireValue::Varint(v as u64), n + m)),
                    None => None,
                }
            } else if wire == WIRE_FIXED64 {
                if rest.len() >= 8 {
                    Some((tag, WireValue::Fixed64, n + 8))
                } else {
                    None
                }
            } else if wire == WIRE_FIXED32 {
                if rest.len() >= 4 {
                    Some((tag, WireValue::Fixed32, n + 4))
                } else {
                    None
                }
            } else {
                match varint(rest) {
                    Some((len, m)) => if len <= rest.len() - m {
                        Some(
                            (
                                tag,
                                WireValue::Bytes(rest.subrange(m as int, (m + len) as int)),
                                n + m + len,
                            ),
                        )
                    } else {
                        None
                    },
                    None => None,
                }
            }
        },
    }
}

/// Every field of a message, in order, or `None` when it is malformed.
pub open spec fn fields_of(s: Seq<u8>) -> Option<Seq<(u64, WireValue)>>
    decreases s.len(),
{
    if s.len() == 0 {
        Some(Seq::empty())
    } else {
        match field_at(s) {
            None => None,
            Some((tag, value, n)) => if n == 0 || n > s.len() {
                None
            } else {
                match fields_of(s.subrange(n as int, s.len() as int)) {
                    Some(rest) => Some(seq![(tag, value)] + rest),
                    None => None,
                }
            },
        }
    }
}

/// The encoded key of field `tag` with wire type `wire`.
pub open spec fn key_bytes(tag: u64, wire: u64) -> Seq<u8> {
    varint_bytes(tag as nat * 8 + wire as nat)
}

/// A varint field.
pub open spec fn varint_field(tag: u64, v: u64) -> Seq<u8> {
    key_bytes(tag, WIRE_VARINT) + varint_bytes(v as nat)
}

/// A length-delimited field.
pub open spec fn len_field(tag: u64, payload: Seq<u8>) -> Seq<u8> {
    key_bytes(tag, WIRE_LEN) + varint_bytes(payload.len()) + payload
}

/// A varint field that is omitted when it holds the default zero.
pub open spec fn implicit_varint_field(tag: u64, v: u64) -> Seq<u8> {
    if v == 0 {
        Seq::empty()
    } else {
        varint_field(tag, v)
    }
}

/// A bytes field that is omitted when it is empty.
pub open spec fn implicit_bytes_field(tag: u64, payload: Seq<u8>) -> Seq<u8> {
    if payload.len() == 0 {
        Seq::empty()
    } else {
        len_field(tag, payload)
    }
}

/// The value that field number `tag` holds after reading `fs` in order: a
/// later varint field replaces an earlier one, and a field that never
/// occurs holds the default zero.
pub open spec fn last_varint(fs: Seq<(u64, WireValue)>, tag: u64) -> u64
    decreases fs.len(),
{
    if fs.len() == 0 {
        0
    } else if fs.last().0 == tag && fs.last().1 is Varint {
        fs.last().1->Varint_0
    } else {
        last_varint(fs.drop_last(), tag)
    }
}

/// The payload that bytes field number `tag` holds after reading `fs` in
/// order: a later field replaces an earlier one, and a field that never
/// occurs holds the default empty payload.
pub open spec fn last_bytes(fs: Seq<(u64, WireValue)>, tag: u64) -> Seq<u8>
    decreases fs.len(),
{
    if fs.len() == 0 {
        Seq::empty()
    } else if fs.last().0 == tag && fs.last().1 is Bytes {
        fs.last().1->Bytes_0
    } else {
        last_bytes(fs.drop_last(), tag)
    }
}

/// A varint read from its first byte stays below 2 to the 64th.
pub proof fn lemma_varint_bound_zero()
    ensures
        varint_bound(0) == 0x1_0000_0000_0000_0000,
{
    reveal_with_fuel(varint_bound, 11);
}

proof fn lemma_varint_bound_monotonic(d: nat)
    requires
        d < 9,
    ensures
        varint_bound(d) == 128 * varint_bound(d + 1),
        varint_bound(d + 1) >= 2,
    decreases 9 - d,
{
    if d + 1 < 9 {
        lemma_varint_bound_monotonic(d + 1);
    }
}

/// Every decoded varint is below the bound of its depth and uses at least one byte.
pub proof fn lemma_varint_at_bound(s: Seq<u8>, depth: nat)
    ensures
        varint_at(s, depth) matches Some((v, n)) ==> v < varint_bound(depth) && 1 <= n <= s.len(),
    decreases 10 - depth,
{
    if depth < 9 {
        lemma_varint_bound_monotonic(depth);
    }
    if depth < 10 && s.len() > 0 && s[0] >= 128 {
        lemma_varint_at_bound(s.drop_first(), depth + 1);
        if depth < 9 {
            match varint_at(s.drop_first(), depth + 1) {
                Some((v, n)) => {
                    let b = varint_bound(depth + 1);
                    let lo = (s[0] - 128) as nat;
                    assert(lo + 128 * v < 128 * b) by (nonlinear_arith)
                        requires
                            v < b,
                            lo < 128,
                    ;
                },
                None => {},
            }
        }
    }
}

/// A decoded varint fits in 64 bits and takes between one byte and the whole input.
pub proof fn lemma_varint_fits(s: Seq<u8>)
    ensures
        varint(s) matches Some((v, n)) ==> v <= u64::MAX && 1 <= n <= s.len(),
{
    lemma_varint_at_bound(s, 0);
    lemma_varint_bound_zero();
}

proof fn lemma_varint_bytes_len_at(v: nat, d: nat)
    requires
        v < varint_bound(d),
    ensures
        1 <= varint_bytes(v).len() <= 10 - d,
    decreases v,
{
    if d >= 10 {
        assert(varint_bound(d) == 0);
    } else if v >= 128 {
        if d == 9 {
            assert(varint_bound(9) == 2);
        } else {
            lemma_varint_bound_monotonic(d);
            assert(v / 128 < varint_bound(d + 1));
            lemma_varint_bytes_len_at(v / 128, d + 1);
        }
    }
}

/// A varint encoding takes one to ten bytes.
pub proof fn lemma_varint_bytes_len(v: nat)
    ensures
        1 <= varint_bytes(v).len(),
        v <= u64::MAX ==> varint_bytes(v).len() <= 10,
    decreases v,
{
    if v >= 128 {
        lemma_varint_bytes_len(v / 128);
    }
    if v <= u64::MAX {
        lemma_varint_bound_zero();
        lemma_varint_bytes_len_at(v, 0);
    }
}

/// Reading the encoding of `v` back, followed by anything, yields `v`.
pub proof fn lemma_varint_roundtrip_at(v: nat, depth: nat, rest: Seq<u8>)
    requires
        v < varint_bound(depth),
    ensures
        varint_at(varint_bytes(v) + rest, depth) == Some((v, varint_bytes(v).len())),
    decreases v,
{
    let s = varint_bytes(v) + rest;
    if depth >= 10 {
    } else if v < 128 {
        assert(s[0] == v as u8);
        if depth == 9 {
        }
    } else {
        if depth == 9 {
            assert(false);
        } else {
            lemma_varint_bound_monotonic(depth);
            assert(s.drop_first() =~= varint_bytes(v / 128) + rest);
            lemma_varint_roundtrip_at(v / 128, depth + 1, rest);
            assert(s[0] == (v % 128 + 128) as u8);
        }
    }
}

/// Reading a written varint gives the value back, and the rest of the input.
pub proof fn lemma_varint_roundtrip(v: nat, rest: Seq<u8>)
    requires
        v <= u64::MAX,
    ensures
        varint(varint_bytes(v) + rest) == Some((v, varint_bytes(v).len())),
{
    lemma_varint_bound_zero();
    lemma_varint_roundtrip_at(v, 0, rest);
}

/// The varint at `pos`, read as byte `depth` of a varint.
fn varint_from(buf: &[u8], pos: usize, depth: u64) -> (r: Option<(u64, usize)>)
    requires
        pos <= buf@.len(),
        depth <= 10,
    ensures
        match varint_at(buf@.subrange(pos as int, buf@.len() as int), depth as nat) {
            None => r is None,
            Some((v, n)) => r matches Some((rv, rn)) && rv == v && rn == n,
        },
    decreases 10 - depth,
{
    let ghost s = buf@.subrange(pos as int, buf@.len() as int);
    proof {
        lemma_varint_at_bound(s, depth as nat);
        if depth < 9 {
            lemma_varint_bound_monotonic(depth as nat);
        }
        lemma_varint_bound_zero();
    }
    if depth >= 10 || pos >= buf.len() {
        return None;
    }
    let byte = buf[pos];
    if byte < 128 {
        if depth == 9 && byte >= 2 {
            return None;
        }
        return Some((byte as u64, 1));
    }
    proof {
        assert(s.drop_first() =~= buf@.subrange(pos + 1, buf@.len() as int));
        lemma_varint_at_bound(s.drop_first(), (depth + 1) as nat);
        if depth < 9 {
            lemma_varint_bound_depth(depth as nat);
        }
    }
    match varint_from(buf, pos + 1, depth + 1) {
        None => None,
        Some((v, n)) => {
            proof {
                if depth == 9 {
                    assert(varint_bound(10) == 0);
                }
            }
            Some(((byte - 128) as u64 + 128 * v, n + 1))
        },
    }
}

proof fn lemma_varint_bound_depth(d: nat)
    requires
        d < 9,
    ensures
        128 * varint_bound(d + 1) <= 0x1_0000_0000_0000_0000,
    decreases d,
{
    lemma_varint_bound_monotonic(d);
    if d > 0 {
        lemma_varint_bound_depth((d - 1) as nat);
        lemma_varint_bound_monotonic((d - 1) as nat);
    } else {
        lemma_varint_bound_zero();
    }
}

/// Reads the varint at `pos`: its value and length.
pub fn read_varint(buf: &[u8], pos: usize) -> (r: Option<(u64, usize)>)
    requires
        pos <= buf@.len(),
    ensures
        match varint(buf@.subrange(pos as int, buf@.len() as int)) {
            None => r is None,
            Some((v, n)) => r matches Some((rv, rn)) && rv == v && rn == n,
        },
{
    varint_from(buf, pos, 0)
}

/// Appends the varint encoding of `v`.
pub fn push_varint(out: &mut Vec<u8>, v: u64)
    ensures
        final(out)@ == old(out)@ + varint_bytes(v as nat),
{
    let ghost start = out@;
    let ghost original = v;
    let mut rem = v;
    while rem >= 128
        invariant
            start + varint_bytes(original as nat) == out@ + varint_bytes(rem as nat),
        decreases rem,
    {
        let ghost before = out@;
        out.push((rem % 128 + 128) as u8);
        proof {
            assert(varint_bytes(rem as nat) == seq![(rem % 128 + 128) as u8] + varint_bytes(
                rem as nat / 128,
            ));
            assert(before + varint_bytes(rem as nat) =~= out@ + varint_bytes(rem as nat / 128));
        }
        rem = rem / 128;
    }
    out.push(rem as u8);
    assert(varint_bytes(rem as nat) == seq![rem as u8]);
}

/// A parsed field; bytes borrow the message buffer.
pub enum FieldValue<'a> {
    Varint(u64),
    Fixed64,
    Bytes(&'a [u8]),
    Fixed32,
}

/// One protocol-buffer field: its number and value.
pub struct Field<'a> {
    pub tag: u64,
    pub value: FieldValue<'a>,
}

impl<'a> Field<'a> {
    pub open spec fn view(&self) -> (u64, WireValue) {
        (
            self.tag,
            match self.value {
                FieldValue::Varint(v) => WireValue::Varint(v),
                FieldValue::Fixed64 => WireValue::Fixed64,
                FieldValue::Bytes(b) => WireValue::Bytes(b@),
                FieldValue::Fixed32 => WireValue::Fixed32,
            },
        )
    }
}

/// The views of parsed fields.
pub open spec fn field_views<'a>(fs: Seq<Field<'a>>) -> Seq<(u64, WireValue)> {
    fs.map_values(|f: Field<'a>| f.view())
}

/// Parses the field that starts at `pos`.
fn read_field<'a>(buf: &'a [u8], pos: usize) -> (r: Option<(Field<'a>, usize)>)
    requires
        pos <= buf@.len(),
    ensures
        match field_at(buf@.subrange(pos as int, buf@.len() as int)) {
            None => r is None,
            Some((tag, value, n)) => r matches Some((f, m)) && f.view() == (tag, value) && m == n
                && pos + n <= buf@.len(),
        },
{
    let ghost s = buf@.subrange(pos as int, buf@.len() as int);
    let total = buf.len();
    let (key, n) = match read_varint(buf, pos) {
        None => {
            return None;
        },
        Some(k) => k,
    };
    proof {
        lemma_varint_fits(s);
        assert(varint(s) matches Some((_, k)) && n as nat == k);
        assert(n <= s.len());
        assert(s.len() == total - pos);
    }
    if key > 0xffff_ffff || key / 8 == 0 {
        return None;
    }
    let wire = key % 8;
    if wire != WIRE_VARINT && wire != WIRE_FIXED64 && wire != WIRE_LEN && wire != WIRE_FIXED32 {
        return None;
    }
    let tag = key / 8;
    let start = pos + n;
    let ghost rest = s.subrange(n as int, s.len() as int);
    assert(rest =~= buf@.subrange(start as int, buf@.len() as int));
    if wire == WIRE_VARINT {
        match read_varint(buf, start) {
            None => None,
            Some((v, m)) => {
                proof {
                    lemma_varint_fits(rest);
                    assert(varint(rest) matches Some((_, k)) && m as nat == k);
                    assert(m <= rest.len());
                }
                Some((Field { tag, value: FieldValue::Varint(v) }, n + m))
            },
        }
    } else if wire == WIRE_FIXED64 {
        if buf.len() - start >= 8 {
            Some((Field { tag, value: FieldValue::Fixed64 }, n + 8))
        } else {
            None
        }
    } else if wire == WIRE_FIXED32 {
        if buf.len() - start >= 4 {
            Some((Field { tag, value: FieldValue::Fixed32 }, n + 4))
        } else {
            None
        }
    } else {
        match read_varint(buf, start) {
            None => None,
            Some((len, m)) => {
                proof {
                    lemma_varint_fits(rest);
                    assert(varint(rest) matches Some((_, k)) && m as nat == k);
                }
                let available = buf.len() - start - m;
                if len as u64 <= available as u64 {
                    let begin = start + m;
                    let end = begin + len as usize;
                    let payload = vstd::slice::slice_subrange(buf, begin, end);
                    proof {
                        assert(payload@ =~= rest.subrange(m as int, (m + len) as int));
                    }
                    Some((Field { tag, value: FieldValue::Bytes(payload) }, n + m + len as usize))
                } else {
                    None
                }
            },
        }
    }
}

/// Parses every field of a message.
pub fn read_fields<'a>(buf: &'a [u8]) -> (r: Option<Vec<Field<'a>>>)
    ensures
        match fields_of(buf@) {
            None => r is None,
            Some(fs) => r matches Some(v) && field_views(v@) == fs,
        },
{
    let mut fields: Vec<Field<'a>> = Vec::new();
    let mut pos: usize = 0;
    assert(buf@.subrange(0, buf@.len() as int) =~= buf@);
    while pos < buf.len()
        invariant
            pos <= buf@.len(),
            fields_of(buf@) == match fields_of(buf@.subrange(pos as int, buf@.len() as int)) {
                Some(rest) => Some(field_views(fields@) + rest),
                None => None::<Seq<(u64, WireValue)>>,
            },
        decreases buf@.len() - pos,
    {
        let ghost s = buf@.subrange(pos as int, buf@.len() as int);
        let (field, n) = match read_field(buf, pos) {
            None => {
                return None;
            },
            Some(found) => found,
        };
        if n == 0 {
            return None;
        }
        proof {
            assert(s.subrange(n as int, s.len() as int) =~= buf@.subrange(
                pos + n,
                buf@.len() as int,
            ));
            let ghost before = field_views(fields@);
            assert(field_views(fields@.push(field)) =~= before.push(field.view()));
            match fields_of(buf@.subrange(pos + n, buf@.len() as int)) {
                Some(rest) => {
                    assert(before + (seq![field.view()] + rest) =~= before.push(field.view())
                        + rest);
                },
                None => {},
            }
        }
        fields.push(field);
        pos = pos + n;
    }
    proof {
        assert(buf@.subrange(pos as int, buf@.len() as int) =~= Seq::<u8>::empty());
        assert(field_views(fields@) + Seq::<(u64, WireValue)>::empty() =~= field_views(fields@));
    }
    Some(fields)
}

/// Appends a varint field.
pub fn push_varint_field(out: &mut Vec<u8>, tag: u64, v: u64)
    requires
        1 <= tag < 0x2000_0000,
    ensures
        final(out)@ == old(out)@ + varint_field(tag, v),
{
    push_varint(out, tag * 8);
    push_varint(out, v);
    assert(old(out)@ + varint_bytes((tag * 8) as nat) + varint_bytes(v as nat) =~= old(out)@
        + varint_field(tag, v));
}

/// Appends a length-delimited field.
pub fn push_len_field(out: &mut Vec<u8>, tag: u64, payload: &[u8])
    requires
        1 <= tag < 0x2000_0000,
    ensures
        final(out)@ == old(out)@ + len_field(tag, payload@),
{
    push_varint(out, tag * 8 + 2);
    push_varint(out, payload.len() as u64);
    crate::bytes::append_bytes(out, payload);
    assert(old(out)@ + varint_bytes((tag * 8 + 2) as nat) + varint_bytes(payload@.len())
        + payload@ =~= old(out)@ + len_field(tag, payload@));
}

/// The field at the start of an encoded varint field is that field.
pub proof fn lemma_varint_field_at(tag: u64, v: u64, rest: Seq<u8>)
    requires
        1 <= tag < 0x2000_0000,
    ensures
        field_at(varint_field(tag, v) + rest) == Some(
            (tag, WireValue::Varint(v), varint_field(tag, v).len()),
        ),
{
    let key = tag as nat * 8;
    let s = varint_field(tag, v) + rest;
    lemma_varint_roundtrip(key, varint_bytes(v as nat) + rest);
    assert(s =~= varint_bytes(key) + (varint_bytes(v as nat) + rest));
    let n = varint_bytes(key).len();
    assert(s.subrange(n as int, s.len() as int) =~= varint_bytes(v as nat) + rest);
    lemma_varint_roundtrip(v as nat, rest);
    assert(key / 8 == tag as nat);
    assert(key % 8 == 0);
}

/// The field at the start of an encoded length-delimited field is that field.
pub proof fn lemma_len_field_at(tag: u64, payload: Seq<u8>, rest: Seq<u8>)
    requires
        1 <= tag < 0x2000_0000,
        payload.len() <= u64::MAX,
    ensures
        field_at(len_field(tag, payload) + rest) == Some(
            (tag, WireValue::Bytes(payload), len_field(tag, payload).len()),
        ),
{
    let key = tag as nat * 8 + 2;
    let s = len_field(tag, payload) + rest;
    let lb = varint_bytes(payload.len());
    lemma_varint_roundtrip(key, lb + payload + rest);
    assert(s =~= varint_bytes(key) + (lb + payload + rest));
    let n = varint_bytes(key).len();
    let after = s.subrange(n as int, s.len() as int);
    assert(after =~= lb + (payload + rest));
    lemma_varint_roundtrip(payload.len(), payload + rest);
    assert(key / 8 == tag as nat);
    assert(key % 8 == 2);
    assert(after.subrange(lb.len() as int, (lb.len() + payload.len()) as int) =~= payload);
}

/// The fields of `a + b` are the fields of `a` followed by those of `b`.
pub proof fn lemma_fields_of_append(a: Seq<u8>, b: Seq<u8>)
    requires
        fields_of(a) is Some,
        fields_of(b) is Some,
    ensures
        fields_of(a + b) == Some(fields_of(a)->0 + fields_of(b)->0),
    decreases a.len(),
{
    if a.len() == 0 {
        assert(a + b =~= b);
        assert(fields_of(a)->0 =~= Seq::<(u64, WireValue)>::empty());
        assert(Seq::<(u64, WireValue)>::empty() + fields_of(b)->0 =~= fields_of(b)->0);
    } else {
        let (tag, value, n) = field_at(a)->0;
        lemma_field_at_prefix(a, b);
        let a2 = a.subrange(n as int, a.len() as int);
        lemma_fields_of_append(a2, b);
        assert((a + b).subrange(n as int, (a + b).len() as int) =~= a2 + b);
        assert(seq![(tag, value)] + (fields_of(a2)->0 + fields_of(b)->0) =~= (seq![(tag, value)]
            + fields_of(a2)->0) + fields_of(b)->0);
    }
}

proof fn lemma_varint_at_prefix(a: Seq<u8>, b: Seq<u8>, depth: nat)
    requires
        varint_at(a, depth) is Some,
    ensures
        varint_at(a + b, depth) == varint_at(a, depth),
    decreases 10 - depth,
{
    assert((a + b)[0] == a[0]);
    if a[0] >= 128 {
        assert((a + b).drop_first() =~= a.drop_first() + b);
        lemma_varint_at_prefix(a.drop_first(), b, depth + 1);
    }
}

/// A field that parses within `a` parses identically within `a + b`.
proof fn lemma_field_at_prefix(a: Seq<u8>, b: Seq<u8>)
    requires
        field_at(a) matches Some((_, _, n)) && n <= a.len(),
    ensures
        field_at(a + b) == field_at(a),
{
    lemma_varint_at_prefix(a, b, 0);
    let (k, n) = varint(a)->0;
    lemma_varint_at_bound(a, 0);
    let rest_a = a.subrange(n as int, a.len() as int);
    let rest_ab = (a + b).subrange(n as int, (a + b).len() as int);
    assert(rest_ab =~= rest_a + b);
    let wire = k % 8;
    if wire == WIRE_VARINT || wire == WIRE_LEN {
        lemma_varint_at_prefix(rest_a, b, 0);
        if wire == WIRE_LEN {
            let (len, m) = varint(rest_a)->0;
            assert(rest_ab.subrange(m as int, (m + len) as int) =~= rest_a.subrange(m as int, (m + len) as int));
        }
    }
}


/// An encoded varint field decodes to exactly that field.
pub proof fn lemma_fields_of_varint_field(tag: u64, v: u64)
    requires
        1 <= tag < 0x2000_0000,
    ensures
        fields_of(varint_field(tag, v)) == Some(seq![(tag, WireValue::Varint(v))]),
{
    let s = varint_field(tag, v);
    lemma_varint_field_at(tag, v, Seq::empty());
    assert(s + Seq::<u8>::empty() =~= s);
    lemma_varint_bytes_len(tag as nat * 8);
    let rest = s.subrange(s.len() as int, s.len() as int);
    assert(rest =~= Seq::<u8>::empty());
    assert(fields_of(rest) == Some(Seq::<(u64, WireValue)>::empty()));
    assert(field_at(s) == Some((tag, WireValue::Varint(v), s.len())));
    assert(seq![(tag, WireValue::Varint(v))] + Seq::<(u64, WireValue)>::empty() =~= seq![
        (tag, WireValue::Varint(v)),
    ]);
}

/// An encoded length-delimited field decodes to exactly that field.
pub proof fn lemma_fields_of_len_field(tag: u64, payload: Seq<u8>)
    requires
        1 <= tag < 0x2000_0000,
        payload.len() <= u64::MAX,
    ensures
        fields_of(len_field(tag, payload)) == Some(seq![(tag, WireValue::Bytes(payload))]),
{
    let s = len_field(tag, payload);
    lemma_len_field_at(tag, payload, Seq::empty());
    assert(s + Seq::<u8>::empty() =~= s);
    lemma_varint_bytes_len(tag as nat * 8 + 2);
    let rest = s.subrange(s.len() as int, s.len() as int);
    assert(rest =~= Seq::<u8>::empty());
    assert(fields_of(rest) == Some(Seq::<(u64, WireValue)>::empty()));
    assert(field_at(s) == Some((tag, WireValue::Bytes(payload), s.len())));
    assert(seq![(tag, WireValue::Bytes(payload))] + Seq::<(u64, WireValue)>::empty() =~= seq![
        (tag, WireValue::Bytes(payload)),
    ]);
}

/// The decoded fields of an implicit varint field.
pub proof fn lemma_fields_of_implicit_varint(tag: u64, v: u64)
    requires
        1 <= tag < 0x2000_0000,
    ensures
        fields_of(implicit_varint_field(tag, v)) == Some(
            if v == 0 {
                Seq::<(u64, WireValue)>::empty()
            } else {
                seq![(tag, WireValue::Varint(v))]
            },
        ),
{
    if v != 0 {
        lemma_fields_of_varint_field(tag, v);
    }
}

/// The decoded fields of an implicit bytes field.
pub proof fn lemma_fields_of_implicit_bytes(tag: u64, payload: Seq<u8>)
    requires
        1 <= tag < 0x2000_0000,
        payload.len() <= u64::MAX,
    ensures
        fields_of(implicit_bytes_field(tag, payload)) == Some(
            if payload.len() == 0 {
                Seq::<(u64, WireValue)>::empty()
            } else {
                seq![(tag, WireValue::Bytes(payload))]
            },
        ),
{
    if payload.len() != 0 {
        lemma_fields_of_len_field(tag, payload);
    }
}

} // verus!
