use vstd::prelude::*;
use vstd::utf8::*;

verus! {

/// Tag byte of a `Put` record.
pub const SET_TAG: u8 = 1;

/// Tag byte of an `Rm` record.
pub const REMOVE_TAG: u8 = 2;

/// A mutation as it is recorded in the log, over mathematical strings.
pub enum LogOp {
    Put(Seq<char>, Seq<char>),
    Del(Seq<char>),
}

impl LogOp {
    pub open spec fn key(self) -> Seq<char> {
        match self {
            LogOp::Put(k, _) => k,
            LogOp::Del(k) => k,
        }
    }
}

/// A command, the only unit ever written to the log.
#[derive(Clone, Debug, PartialEq, Eq)]
pub enum Command {
    Put(String, String),
    Rm(String),
}

impl View for Command {
    type V = LogOp;

    open spec fn view(&self) -> LogOp {
        match self {
            Command::Put(k, v) => LogOp::Put(k@, v@),
            Command::Rm(k) => LogOp::Del(k@),
        }
    }
}

/// The eight little-endian bytes of `n`.
pub open spec fn le_bytes(n: u64) -> Seq<u8> {
    seq![
        (n & 0xff) as u8,
        ((n >> 8u64) & 0xff) as u8,
        ((n >> 16u64) & 0xff) as u8,
        ((n >> 24u64) & 0xff) as u8,
        ((n >> 32u64) & 0xff) as u8,
        ((n >> 40u64) & 0xff) as u8,
        ((n >> 48u64) & 0xff) as u8,
        ((n >> 56u64) & 0xff) as u8,
    ]
}

/// The number whose little-endian bytes are the first eight of `b`.
pub open spec fn le_value(b: Seq<u8>) -> u64
    recommends
        b.len() >= 8,
{
    (b[0] as u64) | ((b[1] as u64) << 8u64) | ((b[2] as u64) << 16u64) | ((b[3] as u64)
        << 24u64) | ((b[4] as u64) << 32u64) | ((b[5] as u64) << 40u64) | ((b[6] as u64)
        << 48u64) | ((b[7] as u64) << 56u64)
}

/// A length-prefixed byte field.
pub open spec fn field(b: Seq<u8>) -> Seq<u8> {
    le_bytes(b.len() as u64) + b
}

/// The bytes of a record: a tag, then the UTF-8 key, then for `Put` the UTF-8
/// value, each field prefixed by its length.
pub open spec fn encode_op(op: LogOp) -> Seq<u8> {
    match op {
        LogOp::Put(k, v) => seq![SET_TAG] + field(encode_utf8(k)) + field(encode_utf8(v)),
        LogOp::Del(k) => seq![REMOVE_TAG] + field(encode_utf8(k)),
    }
}

/// Every field of the record has a length that its prefix can hold.
pub open spec fn encodable(op: LogOp) -> bool {
    match op {
        LogOp::Put(k, v) => encode_utf8(k).len() <= u64::MAX && encode_utf8(v).len()
            <= u64::MAX,
        LogOp::Del(k) => encode_utf8(k).len() <= u64::MAX,
    }
}

/// The outcome of reading a length-prefixed field at some offset.
pub enum FieldScan {
    /// The field's bytes and the offset just past it.
    Got(Seq<u8>, int),
    /// The bytes end before the field does.
    Short,
}

pub open spec fn field_at(b: Seq<u8>, at: int) -> FieldScan {
    if b.len() < at + 8 {
        FieldScan::Short
    } else {
        let n = le_value(b.subrange(at, at + 8)) as int;
        if b.len() < at + 8 + n {
            FieldScan::Short
        } else {
            FieldScan::Got(b.subrange(at + 8, at + 8 + n), at + 8 + n)
        }
    }
}

/// The outcome of reading one record at some offset.
pub enum RecordScan {
    /// A whole record and the offset just past it.
    Record(LogOp, int),
    /// The bytes end inside a record that is well-formed so far.
    Short,
    /// The bytes there cannot be the start of any record.
    Bad,
}

/// Reads the record that starts at offset `at` of `b`.
pub open spec fn record_from(b: Seq<u8>, at: int) -> RecordScan {
    if at >= b.len() {
        RecordScan::Short
    } else if b[at] != SET_TAG && b[at] != REMOVE_TAG {
        RecordScan::Bad
    } else {
        match field_at(b, at + 1) {
            FieldScan::Short => RecordScan::Short,
            FieldScan::Got(kb, e1) => if !valid_utf8(kb) {
                RecordScan::Bad
            } else if b[at] == REMOVE_TAG {
                RecordScan::Record(LogOp::Del(decode_utf8(kb)), e1)
            } else {
                match field_at(b, e1) {
                    FieldScan::Short => RecordScan::Short,
                    FieldScan::Got(vb, e2) => if !valid_utf8(vb) {
                        RecordScan::Bad
                    } else {
                        RecordScan::Record(LogOp::Put(decode_utf8(kb), decode_utf8(vb)), e2)
                    },
                }
            },
        }
    }
}

pub proof fn lemma_le_round_trip(n: u64)
    ensures
        le_value(le_bytes(n)) == n,
{
    let b = le_bytes(n);
    assert((((n & 0xff) as u8) as u64) | (((((n >> 8u64) & 0xff) as u8) as u64) << 8u64) | (
    ((((n >> 16u64) & 0xff) as u8) as u64) << 16u64) | (((((n >> 24u64) & 0xff) as u8) as u64)
        << 24u64) | (((((n >> 32u64) & 0xff) as u8) as u64) << 32u64) | (((((n >> 40u64)
        & 0xff) as u8) as u64) << 40u64) | (((((n >> 48u64) & 0xff) as u8) as u64) << 48u64)
        | (((((n >> 56u64) & 0xff) as u8) as u64) << 56u64) == n) by (bit_vector);
}

pub proof fn lemma_le_bytes_of_value(b: Seq<u8>)
    requires
        b.len() == 8,
    ensures
        le_bytes(le_value(b)) == b,
{
    let (b0, b1, b2, b3, b4, b5, b6, b7) = (b[0], b[1], b[2], b[3], b[4], b[5], b[6], b[7]);
    let n = le_value(b);
    assert(n == (b0 as u64) | ((b1 as u64) << 8u64) | ((b2 as u64) << 16u64) | ((b3 as u64)
        << 24u64) | ((b4 as u64) << 32u64) | ((b5 as u64) << 40u64) | ((b6 as u64) << 48u64)
        | ((b7 as u64) << 56u64));
    assert((n & 0xff) as u8 == b0 && ((n >> 8u64) & 0xff) as u8 == b1 && ((n >> 16u64) & 0xff) as u8
        == b2 && ((n >> 24u64) & 0xff) as u8 == b3 && ((n >> 32u64) & 0xff) as u8 == b4 && ((n
        >> 40u64) & 0xff) as u8 == b5 && ((n >> 48u64) & 0xff) as u8 == b6 && ((n >> 56u64)
        & 0xff) as u8 == b7) by (bit_vector)
        requires
            n == (b0 as u64) | ((b1 as u64) << 8u64) | ((b2 as u64) << 16u64) | ((b3 as u64)
                << 24u64) | ((b4 as u64) << 32u64) | ((b5 as u64) << 40u64) | ((b6 as u64)
                << 48u64) | ((b7 as u64) << 56u64),
    ;
    assert(le_bytes(n) =~= b);
}

proof fn lemma_field_at(pre: Seq<u8>, x: Seq<u8>, rest: Seq<u8>)
    requires
        x.len() <= u64::MAX,
    ensures
        field_at(pre + field(x) + rest, pre.len() as int) == FieldScan::Got(
            x,
            (pre.len() + 8 + x.len()) as int,
        ),
{
    let b = pre + field(x) + rest;
    let at = pre.len() as int;
    assert(b.subrange(at, at + 8) =~= le_bytes(x.len() as u64));
    lemma_le_round_trip(x.len() as u64);
    assert(b.subrange(at + 8, at + 8 + x.len()) =~= x);
}

proof fn lemma_decode_encode_put(pre: Seq<u8>, k: Seq<char>, v: Seq<char>, rest: Seq<u8>)
    requires
        encodable(LogOp::Put(k, v)),
    ensures
        record_from(pre + encode_op(LogOp::Put(k, v)) + rest, pre.len() as int)
            == RecordScan::Record(
            LogOp::Put(k, v),
            (pre.len() + encode_op(LogOp::Put(k, v)).len()) as int,
        ),
{
    let b = pre + encode_op(LogOp::Put(k, v)) + rest;
    let at = pre.len() as int;
    let kb = encode_utf8(k);
    let vb = encode_utf8(v);
    let p1 = pre + seq![SET_TAG];
    let p2 = p1 + field(kb);
    encode_utf8_valid_utf8(k);
    encode_utf8_decode_utf8(k);
    encode_utf8_valid_utf8(v);
    encode_utf8_decode_utf8(v);
    assert(b =~= p1 + field(kb) + (field(vb) + rest));
    lemma_field_at(p1, kb, field(vb) + rest);
    assert(b =~= p2 + field(vb) + rest);
    lemma_field_at(p2, vb, rest);
    assert(b[at] == SET_TAG);
    let e1 = p2.len() as int;
    assert(field_at(b, at + 1) == FieldScan::Got(kb, e1));
    assert(field_at(b, e1) == FieldScan::Got(vb, e1 + 8 + vb.len()));
}

proof fn lemma_decode_encode_del(pre: Seq<u8>, k: Seq<char>, rest: Seq<u8>)
    requires
        encodable(LogOp::Del(k)),
    ensures
        record_from(pre + encode_op(LogOp::Del(k)) + rest, pre.len() as int)
            == RecordScan::Record(
            LogOp::Del(k),
            (pre.len() + encode_op(LogOp::Del(k)).len()) as int,
        ),
{
    let b = pre + encode_op(LogOp::Del(k)) + rest;
    let at = pre.len() as int;
    let kb = encode_utf8(k);
    let p1 = pre + seq![REMOVE_TAG];
    encode_utf8_valid_utf8(k);
    encode_utf8_decode_utf8(k);
    assert(b =~= p1 + field(kb) + rest);
    lemma_field_at(p1, kb, rest);
    assert(b[at] == REMOVE_TAG);
    let e1 = (p1.len() + 8 + kb.len()) as int;
    assert(field_at(b, at + 1) == FieldScan::Got(kb, e1));
    assert(decode_utf8(kb) == k);
    assert(e1 == pre.len() + encode_op(LogOp::Del(k)).len());
}

/// Reading the encoding of a record gives the record back, whatever precedes
/// or follows it.
pub proof fn lemma_decode_encode(pre: Seq<u8>, op: LogOp, rest: Seq<u8>)
    requires
        encodable(op),
    ensures
        record_from(pre + encode_op(op) + rest, pre.len() as int) == RecordScan::Record(
            op,
            (pre.len() + encode_op(op).len()) as int,
        ),
{
    match op {
        LogOp::Put(k, v) => lemma_decode_encode_put(pre, k, v, rest),
        LogOp::Del(k) => lemma_decode_encode_del(pre, k, rest),
    }
}

/// A record cut short anywhere after its first byte reads as short, never as
/// bad.
pub proof fn lemma_cut_record_is_short(pre: Seq<u8>, op: LogOp, cut: int)
    requires
        encodable(op),
        0 < cut < encode_op(op).len(),
    ensures
        record_from(pre + encode_op(op).take(cut), pre.len() as int) == RecordScan::Short,
{
    let full = pre + encode_op(op);
    let b = pre + encode_op(op).take(cut);
    let at = pre.len() as int;
    lemma_decode_encode(pre, op, Seq::empty());
    assert(full + Seq::<u8>::empty() =~= full);
    assert(b =~= full.take(at + cut));
    assert forall|i: int, j: int| 0 <= i <= j <= at + cut implies b.subrange(i, j)
        == full.subrange(i, j) by {
        assert(b.subrange(i, j) =~= full.subrange(i, j));
    }
    assert(b[at] == full[at]);
}

/// What reads as a record is exactly the encoding of that record.
pub proof fn lemma_record_sound(b: Seq<u8>, at: int)
    requires
        0 <= at,
        record_from(b, at) is Record,
    ensures
        ({
            let (op, e) = (record_from(b, at)->Record_0, record_from(b, at)->Record_1);
            at < e <= b.len() && encodable(op) && b.subrange(at, e) == encode_op(op)
        }),
{
    let kn = le_value(b.subrange(at + 1, at + 9));
    let kb = b.subrange(at + 9, at + 9 + kn);
    lemma_le_bytes_of_value(b.subrange(at + 1, at + 9));
    decode_utf8_encode_utf8(kb);
    let e1 = at + 9 + kn;
    assert(kb.len() as u64 == kn);
    if b[at] == REMOVE_TAG {
        assert(b.subrange(at, e1) =~= seq![REMOVE_TAG] + field(kb));
    } else {
        let vn = le_value(b.subrange(e1, e1 + 8));
        let vb = b.subrange(e1 + 8, e1 + 8 + vn);
        lemma_le_bytes_of_value(b.subrange(e1, e1 + 8));
        decode_utf8_encode_utf8(vb);
        assert(vb.len() as u64 == vn);
        assert(b.subrange(at, e1 + 8 + vn) =~= seq![SET_TAG] + field(kb) + field(vb));
    }
}

fn push_le(out: &mut Vec<u8>, n: u64)
    ensures
        final(out)@ == old(out)@ + le_bytes(n),
{
    let ghost start = out@;
    out.push((n & 0xff) as u8);
    out.push(((n >> 8u64) & 0xff) as u8);
    out.push(((n >> 16u64) & 0xff) as u8);
    out.push(((n >> 24u64) & 0xff) as u8);
    out.push(((n >> 32u64) & 0xff) as u8);
    out.push(((n >> 40u64) & 0xff) as u8);
    out.push(((n >> 48u64) & 0xff) as u8);
    out.push(((n >> 56u64) & 0xff) as u8);
    assert(out@ =~= start + le_bytes(n));
}

fn push_field(out: &mut Vec<u8>, text: &String)
    ensures
        final(out)@ == old(out)@ + field(encode_utf8(text@)),
        encode_utf8(text@).len() <= u64::MAX,
{
    let bytes = text.as_str().as_bytes();
    let n: usize = bytes.len();
    let ghost start = out@;
    push_le(out, bytes.len() as u64);
    let ghost mid = out@;
    let mut i: usize = 0;
    while i < bytes.len()
        invariant
            0 <= i <= bytes@.len(),
            bytes@ == encode_utf8(text@),
            mid == start + le_bytes(bytes@.len() as u64),
            out@ == mid + bytes@.take(i as int),
        decreases bytes@.len() - i,
    {
        out.push(bytes[i]);
        i = i + 1;
        assert(out@ =~= mid + bytes@.take(i as int));
    }
    assert(bytes@.take(i as int) =~= bytes@);
    assert(out@ =~= start + field(encode_utf8(text@)));
}

/// The bytes of the record of `cmd`.
pub fn encode_command(cmd: &Command) -> (r: Vec<u8>)
    ensures
        r@ == encode_op(cmd@),
        encodable(cmd@),
{
    let mut out: Vec<u8> = Vec::new();
    match cmd {
        Command::Put(k, v) => {
            out.push(SET_TAG);
            push_field(&mut out, k);
            push_field(&mut out, v);
            proof {
                assert(out@ =~= encode_op(cmd@));
            }
        },
        Command::Rm(k) => {
            out.push(REMOVE_TAG);
            push_field(&mut out, k);
            proof {
                assert(out@ =~= encode_op(cmd@));
            }
        },
    }
    out
}

fn read_le(b: &[u8], at: usize) -> (r: u64)
    requires
        at + 8 <= b@.len(),
    ensures
        r == le_value(b@.subrange(at as int, at + 8)),
{
    let ghost w = b@.subrange(at as int, at + 8);
    assert(w[0] == b@[at as int] && w[7] == b@[at + 7]);
    (b[at] as u64) | ((b[at + 1] as u64) << 8u64) | ((b[at + 2] as u64) << 16u64) | ((b[at
        + 3] as u64) << 24u64) | ((b[at + 4] as u64) << 32u64) | ((b[at + 5] as u64) << 40u64)
        | ((b[at + 6] as u64) << 48u64) | ((b[at + 7] as u64) << 56u64)
}

/// Reads the length-prefixed field at `at`: the offsets where its bytes start
/// and end, or `None` where the bytes end first.
fn read_field(b: &[u8], at: usize) -> (r: Option<(usize, usize)>)
    ensures
        match (field_at(b@, at as int), r) {
            (FieldScan::Short, None) => true,
            (FieldScan::Got(x, e), Some((s0, e0))) => e0 == e && s0 == e - x.len() && x
                == b@.subrange(s0 as int, e),
            _ => false,
        },
{
    if b.len() < 8 || at > b.len() - 8 {
        return None;
    }
    let n = read_le(b, at);
    let room = b.len() - (at + 8);
    if n > room as u64 {
        return None;
    }
    let start = at + 8;
    let end = start + n as usize;
    Some((start, end))
}

/// Relies on `std::str::from_utf8`: it accepts exactly the valid UTF-8 byte
/// sequences and returns the text they encode.
#[verifier::external_body]
fn text_of(b: &[u8]) -> (r: Option<String>)
    ensures
        r is Some <==> valid_utf8(b@),
        r is Some ==> r->0@ == decode_utf8(b@),
{
    match std::str::from_utf8(b) {
        Ok(s) => Some(s.to_owned()),
        Err(_) => None,
    }
}

/// The outcome of reading one record, as `record_from` states it.
#[derive(Debug, PartialEq, Eq)]
pub enum Decoded {
    Record(Command, usize),
    Short,
    Bad,
}

pub open spec fn decoded_as(r: Decoded, s: RecordScan) -> bool {
    match s {
        RecordScan::Record(op, e) => r is Record && r->Record_0@ == op && r->Record_1 == e,
        RecordScan::Short => r is Short,
        RecordScan::Bad => r is Bad,
    }
}

/// Reads the record that starts at offset `at` of `b`.
pub fn read_record(b: &[u8], at: usize) -> (r: Decoded)
    ensures
        decoded_as(r, record_from(b@, at as int)),
{
    if at >= b.len() {
        return Decoded::Short;
    }
    let tag = b[at];
    if tag != SET_TAG && tag != REMOVE_TAG {
        return Decoded::Bad;
    }
    let (ks, ke) = match read_field(b, at + 1) {
        None => return Decoded::Short,
        Some(p) => p,
    };
    let key = match text_of(vstd::slice::slice_subrange(b, ks, ke)) {
        None => return Decoded::Bad,
        Some(t) => t,
    };
    if tag == REMOVE_TAG {
        return Decoded::Record(Command::Rm(key), ke);
    }
    let (vs, ve) = match read_field(b, ke) {
        None => return Decoded::Short,
        Some(p) => p,
    };
    let value = match text_of(vstd::slice::slice_subrange(b, vs, ve)) {
        None => return Decoded::Bad,
        Some(t) => t,
    };
    Decoded::Record(Command::Put(key, value), ve)
}

} // verus!
