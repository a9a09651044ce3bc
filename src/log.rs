use vstd::prelude::*;
use crate::codec::{encodable, encode_op, lemma_cut_record_is_short, lemma_decode_encode, record_from, LogOp, RecordScan};

verus! {

/// How the scan of a segment ended.
pub enum Tail {
    /// Every byte belongs to a whole record.
    Clean,
    /// A record that is cut short starts at this offset and runs to the end.
    Torn(int),
    /// Some bytes are not a record.
    Corrupt,
}

/// The records of `b` from offset `at` on, and how the scan ended.
pub open spec fn scan_at(b: Seq<u8>, at: int) -> (Seq<LogOp>, Tail)
    decreases b.len() - at,
{
    if at < 0 || at >= b.len() {
        (Seq::empty(), Tail::Clean)
    } else {
        match record_from(b, at) {
            RecordScan::Record(op, e) => if at < e <= b.len() {
                let rest = scan_at(b, e);
                (seq![op] + rest.0, rest.1)
            } else {
                (Seq::empty(), Tail::Corrupt)
            },
            RecordScan::Short => (Seq::empty(), Tail::Torn(at)),
            RecordScan::Bad => (Seq::empty(), Tail::Corrupt),
        }
    }
}

/// The bytes of a run of records, one after another.
pub open spec fn encode_all(ops: Seq<LogOp>) -> Seq<u8>
    decreases ops.len(),
{
    if ops.len() == 0 {
        Seq::empty()
    } else {
        encode_op(ops[0]) + encode_all(ops.drop_first())
    }
}

pub open spec fn all_encodable(ops: Seq<LogOp>) -> bool {
    forall|i: int| 0 <= i < ops.len() ==> encodable(#[trigger] ops[i])
}

/// A mapping after one more command.
pub open spec fn apply_op(m: Map<Seq<char>, Seq<char>>, op: LogOp) -> Map<Seq<char>, Seq<char>> {
    match op {
        LogOp::Put(k, v) => m.insert(k, v),
        LogOp::Del(k) => m.remove(k),
    }
}

/// The mapping that replaying `ops` in order leaves.
pub open spec fn replay(ops: Seq<LogOp>) -> Map<Seq<char>, Seq<char>>
    decreases ops.len(),
{
    if ops.len() == 0 {
        Map::empty()
    } else {
        apply_op(replay(ops.drop_last()), ops.last())
    }
}

/// The commands of all segments, oldest segment first.
pub open spec fn all_ops(segs: Seq<Seq<LogOp>>) -> Seq<LogOp>
    decreases segs.len(),
{
    if segs.len() == 0 {
        Seq::empty()
    } else {
        all_ops(segs.drop_last()) + segs.last()
    }
}

/// Whether a log can be opened: every segment scans cleanly, except that the
/// newest may end in a record cut short.
pub open spec fn recoverable(segs: Seq<Seq<u8>>) -> bool {
    forall|i: int|
        0 <= i < segs.len() ==> (#[trigger] scan_at(segs[i], 0)).1 is Clean || (i == segs.len()
            - 1 && scan_at(segs[i], 0).1 is Torn)
}

/// The whole records of each segment.
pub open spec fn recovered(segs: Seq<Seq<u8>>) -> Seq<Seq<LogOp>> {
    Seq::new(segs.len(), |i: int| scan_at(segs[i], 0).0)
}

/// The bytes of each segment of a log whose segments hold `ops`.
pub open spec fn encode_segments(ops: Seq<Seq<LogOp>>) -> Seq<Seq<u8>> {
    Seq::new(ops.len(), |i: int| encode_all(ops[i]))
}

pub proof fn lemma_encode_all_push(ops: Seq<LogOp>, op: LogOp)
    ensures
        encode_all(ops.push(op)) == encode_all(ops) + encode_op(op),
    decreases ops.len(),
{
    if ops.len() == 0 {
        assert(ops.push(op).drop_first() =~= Seq::<LogOp>::empty());
        assert(ops.push(op)[0] == op);
        assert(encode_all(ops.push(op).drop_first()) == Seq::<u8>::empty());
        assert(encode_all(ops.push(op)) =~= encode_op(op));
    } else {
        lemma_encode_all_push(ops.drop_first(), op);
        assert(ops.push(op).drop_first() =~= ops.drop_first().push(op));
        assert(ops.push(op)[0] == ops[0]);
        assert(encode_all(ops.push(op)) =~= encode_all(ops) + encode_op(op));
    }
}

/// Scanning encoded records gives the records back, then goes on after them.
pub proof fn lemma_scan_encoded(pre: Seq<u8>, ops: Seq<LogOp>, t: Seq<u8>)
    requires
        all_encodable(ops),
    ensures
        ({
            let b = pre + encode_all(ops) + t;
            let after = scan_at(b, (pre.len() + encode_all(ops).len()) as int);
            scan_at(b, pre.len() as int) == (ops + after.0, after.1)
        }),
    decreases ops.len(),
{
    let b = pre + encode_all(ops) + t;
    if ops.len() == 0 {
        assert(ops + scan_at(b, pre.len() as int).0 =~= scan_at(b, pre.len() as int).0);
    } else {
        let op = ops[0];
        let rest = ops.drop_first();
        let pre2 = pre + encode_op(op);
        assert(b =~= pre + encode_op(op) + (encode_all(rest) + t));
        lemma_decode_encode(pre, op, encode_all(rest) + t);
        assert(b =~= pre2 + encode_all(rest) + t);
        assert(all_encodable(rest)) by {
            assert forall|i: int| 0 <= i < rest.len() implies encodable(#[trigger] rest[i]) by {
                assert(rest[i] == ops[i + 1]);
            }
        }
        lemma_scan_encoded(pre2, rest, t);
        let after = scan_at(b, (pre.len() + encode_all(ops).len()) as int);
        assert(pre2.len() + encode_all(rest).len() == pre.len() + encode_all(ops).len());
        assert(encode_op(op).len() > 0);
        assert(seq![op] + (rest + after.0) =~= ops + after.0);
    }
}

/// A segment that holds whole records scans cleanly to those records.
pub proof fn lemma_scan_whole(ops: Seq<LogOp>)
    requires
        all_encodable(ops),
    ensures
        scan_at(encode_all(ops), 0) == (ops, Tail::Clean),
{
    let b = encode_all(ops);
    lemma_scan_encoded(Seq::empty(), ops, Seq::empty());
    assert(Seq::<u8>::empty() + encode_all(ops) + Seq::<u8>::empty() =~= b);
    assert(ops + Seq::<LogOp>::empty() =~= ops);
}

/// A segment whose last record was cut short scans to the whole records before
/// it, and marks where the torn one starts.
pub proof fn lemma_scan_torn(ops: Seq<LogOp>, op: LogOp, cut: int)
    requires
        all_encodable(ops),
        encodable(op),
        0 < cut < encode_op(op).len(),
    ensures
        scan_at(encode_all(ops) + encode_op(op).take(cut), 0) == (
            ops,
            Tail::Torn(encode_all(ops).len() as int),
        ),
{
    let t = encode_op(op).take(cut);
    let b = encode_all(ops) + t;
    lemma_scan_encoded(Seq::empty(), ops, t);
    assert(Seq::<u8>::empty() + encode_all(ops) + t =~= b);
    lemma_cut_record_is_short(encode_all(ops), op, cut);
    assert(ops + Seq::<LogOp>::empty() =~= ops);
}

} // verus!
