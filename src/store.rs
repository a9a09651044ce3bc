use vstd::prelude::*;
use crate::codec::{
    decoded_as, encodable, encode_command, encode_op, lemma_decode_encode, read_record, Command,
    Decoded, LogOp,
};
use crate::keyed::{find_key, lemma_key_count, Entry};
use crate::codec::{lemma_record_sound, record_from, RecordScan};
use crate::log::{
    all_encodable, all_ops, apply_op, encode_all, lemma_encode_all_push, recoverable, recovered,
    replay, scan_at, Tail,
};

verus! {

/// Size in bytes from which the active segment is sealed and a new one begun.
pub const DEFAULT_SEGMENT_LIMIT: usize = 1048576;

/// Where one record lies: the segment's place in the log (oldest first), the
/// record's offset in it and its length in bytes.
#[derive(Clone, Copy, Debug)]
pub struct LogPosition {
    pub segment: usize,
    pub offset: usize,
    pub len: usize,
}

/// An entry of the index: a live key and the position of its latest `Put`.
pub type IndexEntry = Entry<LogPosition>;

/// Why an operation of the store failed.
#[derive(Clone, Copy, Debug, PartialEq, Eq)]
pub enum KvsError {
    /// `remove` of a key that is not in the store.
    KeyNotFound,
    /// A log record cannot be decoded, or is not what the index expects.
    CorruptRecord,
}

/// A log-structured key/value store: an append-only log of commands in
/// segments, the newest of them active, and an index from each live key to
/// its latest record.
///
/// The index is a list searched in order: vstd specifies hashed and ordered
/// maps only for keys of integer type, so a map keyed by text would leave
/// every lookup unproved.
pub struct KvStore {
    segments: Vec<Vec<u8>>,
    index: Vec<IndexEntry>,
    limit: usize,
    ops: Ghost<Seq<Seq<LogOp>>>,
    map: Ghost<Map<Seq<char>, Seq<char>>>,
}

/// The record at `pos` of the segments is the encoding of `op`.
pub open spec fn points_to(segs: Seq<Seq<u8>>, pos: LogPosition, op: LogOp) -> bool {
    encodable(op) && pos.segment < segs.len() && pos.offset + pos.len <= segs[pos.segment as int].len()
        && segs[pos.segment as int].subrange(pos.offset as int, pos.offset + pos.len)
        == encode_op(op)
}

/// The index holds each live key once, at its latest `Put`.
pub open spec fn index_ok(
    index: Seq<IndexEntry>,
    segs: Seq<Seq<u8>>,
    m: Map<Seq<char>, Seq<char>>,
) -> bool {
    &&& forall|i: int, j: int|
        0 <= i < j < index.len() ==> (#[trigger] index[i]).key@ != (#[trigger] index[j]).key@
    &&& forall|i: int|
        0 <= i < index.len() ==> m.contains_key((#[trigger] index[i]).key@) && points_to(
            segs,
            index[i].value,
            LogOp::Put(index[i].key@, m[index[i].key@]),
        )
    &&& forall|k: Seq<char>|
        #[trigger] m.contains_key(k) ==> exists|i: int|
            0 <= i < index.len() && (#[trigger] index[i]).key@ == k
}

/// `new` keeps every byte of `old` where it was.
pub open spec fn extends(old: Seq<Seq<u8>>, new: Seq<Seq<u8>>) -> bool {
    old.len() <= new.len() && forall|i: int|
        0 <= i < old.len() ==> (#[trigger] old[i]).len() <= new[i].len() && new[i].subrange(
            0,
            old[i].len() as int,
        ) == old[i]
}

proof fn lemma_extends_refl(a: Seq<Seq<u8>>)
    ensures
        extends(a, a),
{
    assert forall|i: int| 0 <= i < a.len() implies (#[trigger] a[i]).len() <= a[i].len()
        && a[i].subrange(0, a[i].len() as int) == a[i] by {
        assert(a[i].subrange(0, a[i].len() as int) =~= a[i]);
    }
}

pub proof fn lemma_points_to_extends(
    old: Seq<Seq<u8>>,
    new: Seq<Seq<u8>>,
    pos: LogPosition,
    op: LogOp,
)
    requires
        points_to(old, pos, op),
        extends(old, new),
    ensures
        points_to(new, pos, op),
{
    let s = pos.segment as int;
    assert(old[s].len() <= new[s].len());
    assert(new[s].subrange(pos.offset as int, pos.offset + pos.len) =~= new[s].subrange(
        0,
        old[s].len() as int,
    ).subrange(pos.offset as int, pos.offset + pos.len));
}

proof fn lemma_index_ok_extends(
    index: Seq<IndexEntry>,
    old: Seq<Seq<u8>>,
    new: Seq<Seq<u8>>,
    m: Map<Seq<char>, Seq<char>>,
)
    requires
        index_ok(index, old, m),
        extends(old, new),
    ensures
        index_ok(index, new, m),
{
    assert forall|i: int| 0 <= i < index.len() implies m.contains_key(
        (#[trigger] index[i]).key@,
    ) && points_to(new, index[i].value, LogOp::Put(index[i].key@, m[index[i].key@])) by {
        lemma_points_to_extends(old, new, index[i].value, LogOp::Put(index[i].key@, m[index[i].key@]));
    }
}

proof fn lemma_all_ops_push(segs: Seq<Seq<LogOp>>, s: Seq<LogOp>)
    ensures
        all_ops(segs.push(s)) == all_ops(segs) + s,
{
    assert(segs.push(s).drop_last() =~= segs);
}

proof fn lemma_all_ops_grow_last(segs: Seq<Seq<LogOp>>, op: LogOp)
    requires
        segs.len() > 0,
    ensures
        all_ops(segs.update(segs.len() - 1, segs.last().push(op))) == all_ops(segs).push(op),
{
    let n = segs.update(segs.len() - 1, segs.last().push(op));
    assert(n.drop_last() =~= segs.drop_last());
    assert(all_ops(segs.drop_last()) + segs.last().push(op) =~= (all_ops(segs.drop_last())
        + segs.last()).push(op));
}

proof fn lemma_replay_push(ops: Seq<LogOp>, op: LogOp)
    ensures
        replay(ops.push(op)) == apply_op(replay(ops), op),
{
    assert(ops.push(op).drop_last() =~= ops);
}

/// The index without the entry of `k` (found at `found`, if anywhere) is the
/// index of the mapping without `k`.
proof fn lemma_index_without(
    index: Seq<IndexEntry>,
    segs: Seq<Seq<u8>>,
    m: Map<Seq<char>, Seq<char>>,
    k: Seq<char>,
    found: Option<int>,
)
    requires
        index_ok(index, segs, m),
        match found {
            Some(i) => 0 <= i < index.len() && index[i].key@ == k,
            None => forall|j: int| 0 <= j < index.len() ==> (#[trigger] index[j]).key@ != k,
        },
    ensures
        index_ok(without(index, found), segs, m.remove(k)),
        forall|j: int|
            0 <= j < without(index, found).len() ==> (#[trigger] without(index, found)[j]).key@
                != k,
{
    let r = without(index, found);
    let m2 = m.remove(k);
    match found {
        Some(i) => {
            assert forall|a: int| 0 <= a < r.len() implies #[trigger] r[a] == index[if a < i {
                a
            } else {
                a + 1
            }] by {}
            assert forall|a: int| 0 <= a < r.len() implies (#[trigger] r[a]).key@ != k by {
                let a2 = if a < i {
                    a
                } else {
                    a + 1
                };
                assert(r[a] == index[a2]);
                if a2 < i {
                    assert(index[a2].key@ != index[i].key@);
                } else {
                    assert(index[i].key@ != index[a2].key@);
                }
            }
            assert forall|a: int, b: int| 0 <= a < b < r.len() implies (#[trigger] r[a]).key@
                != (#[trigger] r[b]).key@ by {
                let a2 = if a < i {
                    a
                } else {
                    a + 1
                };
                let b2 = if b < i {
                    b
                } else {
                    b + 1
                };
                assert(r[a] == index[a2] && r[b] == index[b2] && a2 < b2);
            }
            assert forall|k2: Seq<char>| #[trigger] m2.contains_key(k2) implies exists|a: int|
                0 <= a < r.len() && (#[trigger] r[a]).key@ == k2 by {
                assert(m.contains_key(k2));
                let j = choose|j: int| 0 <= j < index.len() && (#[trigger] index[j]).key@ == k2;
                assert(j != i);
                let a = if j < i {
                    j
                } else {
                    j - 1
                };
                assert(r[a] == index[j]);
            }
        },
        None => {
            assert forall|k2: Seq<char>| #[trigger] m2.contains_key(k2) implies exists|a: int|
                0 <= a < r.len() && (#[trigger] r[a]).key@ == k2 by {
                assert(m.contains_key(k2));
            }
        },
    }
}

/// The index with one more entry, for a key it lacked.
proof fn lemma_index_with(
    index: Seq<IndexEntry>,
    segs: Seq<Seq<u8>>,
    m: Map<Seq<char>, Seq<char>>,
    e: IndexEntry,
    v: Seq<char>,
)
    requires
        index_ok(index, segs, m),
        forall|j: int| 0 <= j < index.len() ==> (#[trigger] index[j]).key@ != e.key@,
        points_to(segs, e.value, LogOp::Put(e.key@, v)),
    ensures
        index_ok(index.push(e), segs, m.insert(e.key@, v)),
{
    let r = index.push(e);
    let m2 = m.insert(e.key@, v);
    assert(r[index.len() as int] == e);
    assert forall|a: int| 0 <= a < index.len() implies #[trigger] r[a] == index[a] by {}
    assert forall|k2: Seq<char>| #[trigger] m2.contains_key(k2) implies exists|a: int|
        0 <= a < r.len() && (#[trigger] r[a]).key@ == k2 by {
        if k2 != e.key@ {
            assert(m.contains_key(k2));
            let j = choose|j: int| 0 <= j < index.len() && (#[trigger] index[j]).key@ == k2;
            assert(r[j] == index[j]);
        } else {
            assert(r[index.len() as int].key@ == k2);
        }
    }
    assert forall|a: int| 0 <= a < r.len() implies m2.contains_key((#[trigger] r[a]).key@)
        && points_to(segs, r[a].value, LogOp::Put(r[a].key@, m2[r[a].key@])) by {
        if a < index.len() {
            assert(r[a] == index[a]);
        }
    }
}

/// The index with the entry at `found` taken out, if any.
pub open spec fn without(index: Seq<IndexEntry>, found: Option<int>) -> Seq<IndexEntry> {
    match found {
        Some(i) => index.remove(i),
        None => index,
    }
}

fn copy_range(dst: &mut Vec<u8>, src: &Vec<u8>, off: usize, len: usize)
    requires
        off + len <= src@.len(),
    ensures
        final(dst)@ == old(dst)@ + src@.subrange(off as int, off + len),
{
    let ghost start = dst@;
    let n: usize = src.len();
    let mut j: usize = 0;
    while j < len
        invariant
            n == src@.len(),
            off + len <= src@.len(),
            0 <= j <= len,
            dst@ == start + src@.subrange(off as int, off + j),
        decreases len - j,
    {
        dst.push(src[off + j]);
        j = j + 1;
        assert(dst@ =~= start + src@.subrange(off as int, off + j));
    }
}

impl Default for KvStore {
    fn default() -> (r: KvStore)
        ensures
            r.wf(),
            r@ == Map::<Seq<char>, Seq<char>>::empty(),
    {
        KvStore::new()
    }
}

/// `after` is `before` with the record of `op` appended to its log: to the
/// active segment, or to a new one where the active segment had reached the
/// size limit. No other byte of the log changes.
pub open spec fn appended(before: KvStore, after: KvStore, op: LogOp) -> bool {
    let h = before.history();
    let b = before.log_view();
    &&& after.segment_limit() == before.segment_limit()
    &&& all_ops(after.history()) == all_ops(h).push(op)
    &&& if b.last().len() >= before.segment_limit() {
        &&& after.history() == h.push(seq![op])
        &&& after.log_view() == b.push(encode_op(op))
    } else {
        &&& after.history() == h.update(h.len() - 1, h.last().push(op))
        &&& after.log_view() == b.update(b.len() - 1, b.last() + encode_op(op))
    }
}

/// `after` is what compacting `before` leaves: a sound store with the same
/// mapping.
pub open spec fn compaction_of(before: KvStore, after: KvStore) -> bool {
    after.wf() && after@ == before@
}

/// The bytes of each of `v`.
pub open spec fn bytes_of(v: Seq<Vec<u8>>) -> Seq<Seq<u8>> {
    Seq::new(v.len(), |i: int| v[i]@)
}

/// The bytes that all segments hold together.
pub open spec fn total_size(segs: Seq<Seq<u8>>) -> nat
    decreases segs.len(),
{
    if segs.len() == 0 {
        0
    } else {
        total_size(segs.drop_last()) + segs.last().len()
    }
}

/// The bytes of the records that the index points at.
pub open spec fn live_size(index: Seq<IndexEntry>) -> nat
    decreases index.len(),
{
    if index.len() == 0 {
        0
    } else {
        live_size(index.drop_last()) + index.last().value.len as nat
    }
}

proof fn lemma_live_push(s: Seq<IndexEntry>, e: IndexEntry)
    ensures
        live_size(s.push(e)) == live_size(s) + e.value.len,
{
    assert(s.push(e).drop_last() =~= s);
}

proof fn lemma_live_remove(s: Seq<IndexEntry>, i: int)
    requires
        0 <= i < s.len(),
    ensures
        live_size(s.remove(i)) + s[i].value.len == live_size(s),
    decreases s.len(),
{
    if i == s.len() - 1 {
        assert(s.remove(i) =~= s.drop_last());
    } else {
        let d = s.drop_last();
        lemma_live_remove(d, i);
        assert(s.remove(i).drop_last() =~= d.remove(i));
        assert(s.remove(i).last() == s.last());
    }
}

proof fn lemma_live_without(s: Seq<IndexEntry>, found: Option<int>)
    requires
        match found {
            Some(i) => 0 <= i < s.len(),
            None => true,
        },
    ensures
        live_size(without(s, found)) <= live_size(s),
{
    if let Some(i) = found {
        lemma_live_remove(s, i);
    }
}

proof fn lemma_total_push(segs: Seq<Seq<u8>>, x: Seq<u8>)
    ensures
        total_size(segs.push(x)) == total_size(segs) + x.len(),
{
    assert(segs.push(x).drop_last() =~= segs);
}

proof fn lemma_total_grow_last(segs: Seq<Seq<u8>>, x: Seq<u8>)
    requires
        segs.len() > 0,
    ensures
        total_size(segs.update(segs.len() - 1, segs.last() + x)) == total_size(segs) + x.len(),
{
    let n = segs.update(segs.len() - 1, segs.last() + x);
    assert(n.drop_last() =~= segs.drop_last());
}

/// A roll of the active segment where it was full, then one record logged,
/// is one append.
proof fn lemma_roll_then_log(before: KvStore, mid: KvStore, after: KvStore, op: LogOp)
    requires
        before.wf(),
        mid.segment_limit() == before.segment_limit(),
        after.segment_limit() == mid.segment_limit(),
        mid.history().len() >= 1,
        if before.log_view().last().len() >= before.segment_limit() {
            mid.history() == before.history().push(Seq::empty()) && mid.log_view()
                == before.log_view().push(Seq::empty())
        } else {
            mid.history() == before.history() && mid.log_view() == before.log_view()
        },
        after.history() == mid.history().update(
            mid.history().len() - 1,
            mid.history().last().push(op),
        ),
        after.log_view() == mid.log_view().update(
            mid.log_view().len() - 1,
            mid.log_view().last() + encode_op(op),
        ),
    ensures
        appended(before, after, op),
{
    let h = before.history();
    let b = before.log_view();
    before.lemma_wf_log();
    lemma_all_ops_grow_last(mid.history(), op);
    if b.last().len() >= before.segment_limit() {
        lemma_all_ops_push(h, Seq::empty());
        assert(all_ops(h) + Seq::<LogOp>::empty() =~= all_ops(h));
        assert(after.history() =~= h.push(seq![op]));
        assert(Seq::<u8>::empty() + encode_op(op) =~= encode_op(op));
        assert(after.log_view() =~= b.push(encode_op(op)));
    }
}

/// The value a mapping gives a key, if any.
pub open spec fn lookup(m: Map<Seq<char>, Seq<char>>, k: Seq<char>) -> Option<Seq<char>> {
    if m.contains_key(k) {
        Some(m[k])
    } else {
        None
    }
}

pub open spec fn text_view(o: Option<String>) -> Option<Seq<char>> {
    match o {
        Some(s) => Some(s@),
        None => None,
    }
}

impl View for KvStore {
    type V = Map<Seq<char>, Seq<char>>;

    closed spec fn view(&self) -> Map<Seq<char>, Seq<char>> {
        self.map@
    }
}

impl KvStore {
    /// The bytes of each segment, oldest first; the last is the active one.
    pub closed spec fn log_view(&self) -> Seq<Seq<u8>> {
        Seq::new(self.segments@.len(), |i: int| self.segments@[i]@)
    }

    /// The commands that each segment holds, oldest first.
    pub closed spec fn history(&self) -> Seq<Seq<LogOp>> {
        self.ops@
    }

    /// The size from which the active segment is sealed.
    pub closed spec fn segment_limit(&self) -> nat {
        self.limit as nat
    }

    /// The store is sound: each segment holds the encoding of its commands,
    /// the mapping is their replay, the index points at the latest record of
    /// each live key, and those records take no more room than the log.
    pub closed spec fn wf(&self) -> bool {
        &&& self.segments@.len() >= 1
        &&& self.ops@.len() == self.segments@.len()
        &&& self.limit > 0
        &&& forall|i: int|
            0 <= i < self.ops@.len() ==> self.segments@[i]@ == encode_all(
                #[trigger] self.ops@[i],
            ) && all_encodable(self.ops@[i])
        &&& self.map@ == replay(all_ops(self.ops@))
        &&& index_ok(self.index@, self.log_view(), self.map@)
        &&& live_size(self.index@) <= total_size(self.log_view())
    }

    /// The log and index of a store are what they must be: each segment holds
    /// the encoding of its commands, the mapping is their replay, and the
    /// index points at the latest record of each live key.
    pub proof fn lemma_wf_log(&self)
        requires
            self.wf(),
        ensures
            self.log_view().len() == self.history().len(),
            self.history().len() >= 1,
            forall|i: int|
                0 <= i < self.history().len() ==> (#[trigger] self.log_view()[i]) == encode_all(
                    self.history()[i],
                ) && all_encodable(self.history()[i]),
            self@ == replay(all_ops(self.history())),
    {
        assert forall|i: int| 0 <= i < self.history().len() implies (#[trigger] self.log_view()[i])
            == encode_all(self.history()[i]) && all_encodable(self.history()[i]) by {
            assert(self.ops@[i] == self.history()[i]);
        }
    }

    /// An empty store with the default segment limit.
    pub fn new() -> (r: KvStore)
        ensures
            r.wf(),
            r@ == Map::<Seq<char>, Seq<char>>::empty(),
            r.history() == seq![Seq::<LogOp>::empty()],
            r.segment_limit() == DEFAULT_SEGMENT_LIMIT,
    {
        KvStore::with_segment_limit(DEFAULT_SEGMENT_LIMIT)
    }

    /// An empty store whose active segment is sealed once it holds `limit`
    /// bytes or more (a `limit` of 0 counts as 1).
    pub fn with_segment_limit(limit: usize) -> (r: KvStore)
        ensures
            r.wf(),
            r@ == Map::<Seq<char>, Seq<char>>::empty(),
            r.history() == seq![Seq::<LogOp>::empty()],
            r.segment_limit() == if limit == 0 {
                1
            } else {
                limit as nat
            },
    {
        let mut segments: Vec<Vec<u8>> = Vec::new();
        segments.push(Vec::new());
        let ghost first: Seq<Seq<LogOp>> = seq![Seq::empty()];
        let r = KvStore {
            segments,
            index: Vec::new(),
            limit: if limit == 0 {
                1
            } else {
                limit
            },
            ops: Ghost(first),
            map: Ghost(Map::empty()),
        };
        proof {
            let e = Seq::<Seq<LogOp>>::empty();
            assert(r.ops@ =~= e.push(Seq::empty()));
            lemma_all_ops_push(e, Seq::empty());
            assert(all_ops(e) == Seq::<LogOp>::empty());
            assert(all_ops(r.ops@) =~= Seq::<LogOp>::empty());
            assert(replay(Seq::<LogOp>::empty()) == Map::<Seq<char>, Seq<char>>::empty());
            assert(r.map@ =~= replay(all_ops(r.ops@)));
            assert(r.segments@[0]@ =~= encode_all(r.ops@[0]));
            assert(live_size(r.index@) == 0);
        }
        r
    }

    fn find(&self, key: &String) -> (r: Option<usize>)
        ensures
            match r {
                Some(i) => i < self.index@.len() && self.index@[i as int].key@ == key@,
                None => forall|i: int|
                    0 <= i < self.index@.len() ==> (#[trigger] self.index@[i]).key@ != key@,
            },
    {
        find_key(&self.index, key)
    }

    /// Whether the store holds `key`.
    pub fn contains_key(&self, key: &String) -> (r: bool)
        requires
            self.wf(),
        ensures
            r == self@.contains_key(key@),
    {
        match self.find(key) {
            Some(_) => true,
            None => false,
        }
    }

    /// Appends the record of `cmd` to the active segment and brings the index
    /// up to date with it.
    fn log_and_index(&mut self, cmd: Command)
        requires
            old(self).wf(),
        ensures
            final(self).wf(),
            final(self)@ == apply_op(old(self)@, cmd@),
            final(self).limit == old(self).limit,
            final(self).history() == old(self).history().update(
                old(self).history().len() - 1,
                old(self).history().last().push(cmd@),
            ),
            extends(old(self).log_view(), final(self).log_view()),
            final(self).log_view() == old(self).log_view().update(
                old(self).log_view().len() - 1,
                old(self).log_view().last() + encode_op(cmd@),
            ),
    {
        let ghost op = cmd@;
        let ghost old_segs = self.log_view();
        let ghost old_ops = self.ops@;
        let ghost old_map = self.map@;
        let ghost last = old_segs.len() - 1;
        let mut bytes = encode_command(&cmd);
        let len = bytes.len();
        let mut seg = self.segments.pop().unwrap();
        let offset = seg.len();
        seg.append(&mut bytes);
        self.segments.push(seg);
        let pos = LogPosition { segment: self.segments.len() - 1, offset, len };
        let ghost new_ops = old_ops.update(last, old_ops[last].push(op));
        self.ops = Ghost(new_ops);
        let ghost segs = self.log_view();
        proof {
            assert(segs.len() == old_segs.len());
            assert forall|i: int| 0 <= i < old_segs.len() implies (#[trigger] old_segs[i]).len()
                <= segs[i].len() && segs[i].subrange(0, old_segs[i].len() as int)
                == old_segs[i] by {
                assert(segs[i].subrange(0, old_segs[i].len() as int) =~= old_segs[i]);
            }
            assert(segs[last] == old_segs[last] + encode_op(op));
            assert(segs[last].subrange(offset as int, offset + len) =~= encode_op(op));
            assert(segs =~= old_segs.update(last, old_segs.last() + encode_op(op)));
            lemma_total_grow_last(old_segs, encode_op(op));
            lemma_index_ok_extends(self.index@, old_segs, segs, old_map);
            lemma_all_ops_grow_last(old_ops, op);
            lemma_replay_push(all_ops(old_ops), op);
            lemma_encode_all_push(old_ops[last], op);
            assert forall|i: int| 0 <= i < new_ops.len() implies self.segments@[i]@ == encode_all(
                #[trigger] new_ops[i],
            ) && all_encodable(new_ops[i]) by {
                if i == last {
                    assert(self.segments@[i]@ == segs[i]);
                    assert(old_segs[i] == encode_all(old_ops[i]));
                    assert forall|j: int| 0 <= j < new_ops[i].len() implies encodable(
                        #[trigger] new_ops[i][j],
                    ) by {
                        if j < old_ops[i].len() {
                            assert(new_ops[i][j] == old_ops[i][j]);
                        }
                    }
                } else {
                    assert(self.segments@[i]@ == segs[i]);
                    assert(segs[i].subrange(0, old_segs[i].len() as int) == old_segs[i]);
                    assert(segs[i] =~= old_segs[i]);
                }
            }
        }
        match cmd {
            Command::Put(k, v) => {
                let found = self.find(&k);
                let ghost g = match found {
                    Some(i) => Some(i as int),
                    None => None,
                };
                proof {
                    lemma_index_without(self.index@, segs, old_map, k@, g);
                    lemma_live_without(self.index@, g);
                }
                match found {
                    Some(i) => {
                        self.index.remove(i);
                    },
                    None => {},
                }
                let ghost kv = k@;
                let ghost vv = v@;
                let e = IndexEntry { key: k, value: pos };
                proof {
                    lemma_live_push(self.index@, e);
                    lemma_index_with(self.index@, segs, old_map.remove(kv), e, vv);
                    assert(old_map.remove(kv).insert(kv, vv) =~= old_map.insert(kv, vv));
                }
                self.index.push(e);
            },
            Command::Rm(k) => {
                let found = self.find(&k);
                let ghost g = match found {
                    Some(i) => Some(i as int),
                    None => None,
                };
                proof {
                    lemma_index_without(self.index@, segs, old_map, k@, g);
                    lemma_live_without(self.index@, g);
                }
                match found {
                    Some(i) => {
                        self.index.remove(i);
                    },
                    None => {},
                }
            },
        }
        self.map = Ghost(apply_op(old_map, op));
    }

    /// Seals the active segment and begins a new, empty one.
    fn begin_segment(&mut self)
        requires
            old(self).wf(),
        ensures
            final(self).wf(),
            final(self)@ == old(self)@,
            final(self).limit == old(self).limit,
            final(self).history() == old(self).history().push(Seq::empty()),
            all_ops(final(self).history()) == all_ops(old(self).history()),
            extends(old(self).log_view(), final(self).log_view()),
            final(self).log_view() == old(self).log_view().push(Seq::empty()),
    {
        let ghost old_segs = self.log_view();
        let ghost old_ops = self.ops@;
        self.segments.push(Vec::new());
        self.ops = Ghost(old_ops.push(Seq::empty()));
        proof {
            let segs = self.log_view();
            assert forall|i: int| 0 <= i < old_segs.len() implies (#[trigger] old_segs[i]).len()
                <= segs[i].len() && segs[i].subrange(0, old_segs[i].len() as int)
                == old_segs[i] by {
                assert(segs[i] == old_segs[i]);
                assert(segs[i].subrange(0, old_segs[i].len() as int) =~= old_segs[i]);
            }
            lemma_index_ok_extends(self.index@, old_segs, segs, self.map@);
            assert(segs =~= old_segs.push(Seq::empty()));
            assert(self.log_view() =~= old_segs.push(Seq::empty()));
            lemma_total_push(old_segs, Seq::empty());
            lemma_all_ops_push(old_ops, Seq::empty());
            assert(all_ops(old_ops) + Seq::<LogOp>::empty() =~= all_ops(old_ops));
            assert(self.segments@[old_segs.len() as int]@ =~= encode_all(Seq::empty()));
            assert forall|i: int| 0 <= i < self.ops@.len() implies self.segments@[i]@
                == encode_all(#[trigger] self.ops@[i]) && all_encodable(self.ops@[i]) by {
                if i < old_ops.len() {
                    assert(self.ops@[i] == old_ops[i]);
                }
            }
        }
    }

    /// Seals the active segment and begins a new one once it has reached the
    /// size limit.
    fn roll_if_full(&mut self)
        requires
            old(self).wf(),
        ensures
            final(self).wf(),
            final(self)@ == old(self)@,
            final(self).limit == old(self).limit,
            extends(old(self).log_view(), final(self).log_view()),
            if old(self).log_view().last().len() >= old(self).segment_limit() {
                final(self).history() == old(self).history().push(Seq::empty())
                    && final(self).log_view() == old(self).log_view().push(Seq::empty())
            } else {
                final(self).history() == old(self).history() && final(self).log_view() == old(
                    self,
                ).log_view()
            },
    {
        let last = self.segments.len() - 1;
        proof {
            lemma_extends_refl(self.log_view());
            assert(self.log_view().last() == self.segments@[last as int]@);
        }
        if self.segments[last].len() >= self.limit {
            self.begin_segment();
        }
    }

    /// Sets `key` to `value`: appends a `Put` record, then points the index at
    /// it.
    pub fn set(&mut self, key: String, value: String) -> (r: Result<(), KvsError>)
        requires
            old(self).wf(),
        ensures
            r is Ok,
            final(self).wf(),
            final(self)@ == apply_op(old(self)@, LogOp::Put(key@, value@)),
            appended(*old(self), *final(self), LogOp::Put(key@, value@)),
    {
        let ghost before = *self;
        let ghost op = LogOp::Put(key@, value@);
        self.roll_if_full();
        let ghost mid = *self;
        self.log_and_index(Command::Put(key, value));
        proof {
            lemma_roll_then_log(before, mid, *self, op);
        }
        Ok(())
    }

    /// Removes `key`: fails with `KeyNotFound` where the store lacks it, and
    /// otherwise appends an `Rm` record and drops the key from the index.
    pub fn remove(&mut self, key: String) -> (r: Result<(), KvsError>)
        requires
            old(self).wf(),
        ensures
            final(self).wf(),
            r is Err <==> !old(self)@.contains_key(key@),
            r is Err ==> r == Err::<(), KvsError>(KvsError::KeyNotFound) && final(self)@ == old(
                self,
            )@ && final(self).history() == old(self).history() && final(self).log_view() == old(
                self,
            ).log_view(),
            r is Ok ==> appended(*old(self), *final(self), LogOp::Del(key@)),
            final(self)@ == apply_op(old(self)@, LogOp::Del(key@)),
    {
        if self.find(&key).is_none() {
            proof {
                assert(!self@.contains_key(key@));
                assert(self@.remove(key@) =~= self@);
            }
            return Err(KvsError::KeyNotFound);
        }
        let ghost before = *self;
        let ghost op = LogOp::Del(key@);
        self.roll_if_full();
        let ghost mid = *self;
        self.log_and_index(Command::Rm(key));
        proof {
            lemma_roll_then_log(before, mid, *self, op);
        }
        Ok(())
    }

    /// Rewrites the log as one sealed segment that holds a `Put` of each live
    /// key, followed by an empty active segment; the mapping stays as it was.
    pub fn compact(&mut self) -> (r: Result<(), KvsError>)
        requires
            old(self).wf(),
        ensures
            r is Ok,
            compaction_of(*old(self), *final(self)),
            final(self).segment_limit() == old(self).segment_limit(),
            final(self).history().len() == 2,
            final(self).history()[1].len() == 0,
            final(self).history()[0].len() == old(self)@.dom().len(),
            total_size(final(self).log_view()) <= total_size(old(self).log_view()),
    {
        let mut seg: Vec<u8> = Vec::new();
        let mut entries: Vec<IndexEntry> = Vec::new();
        let ghost mut new_ops: Seq<LogOp> = Seq::empty();
        let ghost mut built: Map<Seq<char>, Seq<char>> = Map::empty();
        let ghost m = self.map@;
        let ghost index = self.index@;
        let ghost segs = self.log_view();
        let mut i: usize = 0;
        proof {
            assert(replay(new_ops) == built);
            assert(seg@ =~= encode_all(new_ops));
        }
        while i < self.index.len()
            invariant
                self.wf(),
                self.map@ == m,
                self.index@ == index,
                self.log_view() == segs,
                0 <= i <= index.len(),
                seg@ == encode_all(new_ops),
                all_encodable(new_ops),
                new_ops.len() == i,
                entries@.len() == i,
                seg@.len() == live_size(entries@),
                live_size(entries@) == live_size(index.take(i as int)),
                replay(new_ops) == built,
                forall|k: Seq<char>|
                    #[trigger] built.contains_key(k) ==> m.contains_key(k) && built[k] == m[k],
                forall|j: int| 0 <= j < i ==> built.contains_key((#[trigger] index[j]).key@),
                forall|k: Seq<char>|
                    #[trigger] built.contains_key(k) ==> exists|j: int|
                        0 <= j < i && (#[trigger] index[j]).key@ == k,
                forall|j: int|
                    0 <= j < i ==> (#[trigger] entries@[j]).key@ == index[j].key@
                        && entries@[j].value.segment == 0 && points_to(
                        seq![seg@],
                        entries@[j].value,
                        LogOp::Put(index[j].key@, m[index[j].key@]),
                    ),
            decreases index.len() - i,
        {
            let pos = self.index[i].value;
            let key = self.index[i].key.clone();
            let offset = seg.len();
            let ghost before = seg@;
            let ghost op = LogOp::Put(index[i as int].key@, m[index[i as int].key@]);
            proof {
                assert(points_to(segs, pos, op));
                assert(segs[pos.segment as int] == self.segments@[pos.segment as int]@);
            }
            copy_range(&mut seg, &self.segments[pos.segment], pos.offset, pos.len);
            let ghost prev_entries = entries@;
            entries.push(IndexEntry { key, value: LogPosition { segment: 0, offset, len: pos.len } });
            proof {
                assert(seg@ == before + encode_op(op));
                lemma_live_push(prev_entries, entries@.last());
                assert(entries@ =~= prev_entries.push(entries@.last()));
                assert(index.take(i + 1).drop_last() =~= index.take(i as int));
                lemma_encode_all_push(new_ops, op);
                lemma_replay_push(new_ops, op);
                let old_ops = new_ops;
                new_ops = new_ops.push(op);
                built = built.insert(index[i as int].key@, m[index[i as int].key@]);
                assert forall|j: int| 0 <= j < new_ops.len() implies encodable(
                    #[trigger] new_ops[j],
                ) by {
                    if j < old_ops.len() {
                        assert(new_ops[j] == old_ops[j]);
                    }
                }
                assert forall|j: int| 0 <= j <= i implies (#[trigger] entries@[j]).key@
                    == index[j].key@ && entries@[j].value.segment == 0 && points_to(
                    seq![seg@],
                    entries@[j].value,
                    LogOp::Put(index[j].key@, m[index[j].key@]),
                ) by {
                    let e = entries@[j];
                    assert(seq![seg@][0] == seg@);
                    if j < i {
                        assert(seq![before][0] == before);
                        assert(seg@.subrange(e.value.offset as int, e.value.offset + e.value.len)
                            =~= before.subrange(e.value.offset as int, e.value.offset + e.value.len));
                    } else {
                        assert(seg@.subrange(offset as int, offset + pos.len) =~= encode_op(op));
                    }
                }
                assert forall|k: Seq<char>| #[trigger] built.contains_key(k) implies exists|j: int|
                    0 <= j < i + 1 && (#[trigger] index[j]).key@ == k by {
                    if k == index[i as int].key@ {
                        assert(index[i as int].key@ == k);
                    } else {
                        let j = choose|j: int| 0 <= j < i && (#[trigger] index[j]).key@ == k;
                        assert(index[j].key@ == k);
                    }
                }
            }
            i = i + 1;
        }
        proof {
            assert(built =~= m) by {
                assert forall|k: Seq<char>| m.contains_key(k) implies built.contains_key(k) by {
                    let j = choose|j: int| 0 <= j < index.len() && (#[trigger] index[j]).key@ == k;
                }
            }
        }
        proof {
            assert(index.take(index.len() as int) =~= index);
        }
        let mut segments: Vec<Vec<u8>> = Vec::new();
        segments.push(seg);
        segments.push(Vec::new());
        self.segments = segments;
        self.index = entries;
        let ghost two: Seq<Seq<LogOp>> = seq![new_ops, Seq::empty()];
        self.ops = Ghost(two);
        proof {
            let ops = self.ops@;
            assert(ops.drop_last() =~= seq![new_ops]);
            assert(seq![new_ops].drop_last() =~= Seq::<Seq<LogOp>>::empty());
            assert(all_ops(Seq::<Seq<LogOp>>::empty()) == Seq::<LogOp>::empty());
            assert(seq![new_ops].last() == new_ops);
            assert(all_ops(seq![new_ops]) =~= new_ops);
            assert(all_ops(ops) =~= new_ops);
            assert(self.segments@[1]@ =~= encode_all(Seq::empty()));
            assert forall|j: int| 0 <= j < ops.len() implies self.segments@[j]@ == encode_all(
                #[trigger] ops[j],
            ) && all_encodable(ops[j]) by {}
            let lv = self.log_view();
            assert forall|j: int| 0 <= j < self.index@.len() implies m.contains_key(
                (#[trigger] self.index@[j]).key@,
            ) && points_to(lv, self.index@[j].value, LogOp::Put(self.index@[j].key@, m[self.index@[j].key@])) by {
                assert(lv[0] == seq![self.segments@[0]@][0]);
                assert(index[j].key@ == self.index@[j].key@);
            }
            assert forall|a: int, b: int| 0 <= a < b < self.index@.len() implies (
            #[trigger] self.index@[a]).key@ != (#[trigger] self.index@[b]).key@ by {
                assert(index[a].key@ != index[b].key@);
            }
            assert forall|k: Seq<char>| #[trigger] m.contains_key(k) implies exists|a: int|
                0 <= a < self.index@.len() && (#[trigger] self.index@[a]).key@ == k by {
                let j = choose|j: int| 0 <= j < index.len() && (#[trigger] index[j]).key@ == k;
                assert(self.index@[j].key@ == k);
            }
            lemma_key_count(index, m);
            let two_segs = self.log_view();
            let one = two_segs.drop_last();
            assert(one.drop_last() =~= Seq::<Seq<u8>>::empty());
            assert(total_size(Seq::<Seq<u8>>::empty()) == 0);
            assert(total_size(one) == one.last().len());
            assert(two_segs.last().len() == 0);
            assert(total_size(two_segs) == two_segs[0].len());
        }
        Ok(())
    }

    /// Opens a store over the bytes of its segments, oldest first, replaying
    /// every record to rebuild the index. A record cut short at the end of the
    /// newest segment is left out, as the trace of an append that never
    /// finished; any other record that cannot be read makes the log corrupt.
    #[verifier::rlimit(60)]
    pub fn open(segments: Vec<Vec<u8>>) -> (r: Result<KvStore, KvsError>)
        ensures
            r is Ok <==> recoverable(bytes_of(segments@)),
            r is Err ==> r == Err::<KvStore, KvsError>(KvsError::CorruptRecord),
            r is Ok ==> r->Ok_0.wf() && r->Ok_0@ == replay(all_ops(recovered(bytes_of(segments@))))
                && r->Ok_0.segment_limit() == DEFAULT_SEGMENT_LIMIT,
            r is Ok && segments@.len() > 0 ==> r->Ok_0.history() == recovered(bytes_of(segments@)),
    {
        let ghost views = bytes_of(segments@);
        let mut store = KvStore::new();
        let n = segments.len();
        let mut i: usize = 0;
        proof {
            lemma_all_ops_push(Seq::empty(), Seq::empty());
            assert(Seq::<Seq<LogOp>>::empty().push(Seq::empty()) =~= seq![Seq::<LogOp>::empty()]);
            assert(all_ops(Seq::<Seq<LogOp>>::empty()) == Seq::<LogOp>::empty());
        }
        while i < n
            invariant
                n == segments@.len(),
                views == bytes_of(segments@),
                0 <= i <= n,
                store.wf(),
                store.segment_limit() == DEFAULT_SEGMENT_LIMIT,
                store.history().len() == if i == 0 {
                    1
                } else {
                    i as int
                },
                i == 0 ==> store.history() == seq![Seq::<LogOp>::empty()],
                i > 0 ==> store.history() == recovered(views).take(i as int),
                store@ == replay(all_ops(recovered(views).take(i as int))),
                forall|j: int| 0 <= j < i ==> (#[trigger] scan_at(views[j], 0)).1 is Clean || (j
                    == n - 1 && scan_at(views[j], 0).1 is Torn),
            decreases n - i,
        {
            if i > 0 {
                store.begin_segment();
            }
            proof {
                store.lemma_wf_log();
            }
            let seg = &segments[i];
            let ghost b = seg@;
            let ghost full = scan_at(b, 0);
            let ghost base = store.history();
            let ghost last = base.len() - 1;
            let mut at: usize = 0;
            proof {
                assert(views[i as int] == b);
                assert(base[last] =~= Seq::<LogOp>::empty());
                assert(full.0 =~= base[last] + scan_at(b, 0).0);
            }
            while at < seg.len()
                invariant
                    b == seg@,
                    i < n,
                    n == segments@.len(),
                    views == bytes_of(segments@),
                    views[i as int] == b,
                    base.len() >= 1,
                    last == base.len() - 1,
                    full == scan_at(b, 0),
                    store.wf(),
                    store.segment_limit() == DEFAULT_SEGMENT_LIMIT,
                    0 <= at <= b.len(),
                    store.history().len() == base.len(),
                    store.history().take(last) == base.take(last),
                    full.0 == store.history()[last] + scan_at(b, at as int).0,
                    full.1 == scan_at(b, at as int).1,
                ensures
                    scan_at(b, at as int).0 == Seq::<LogOp>::empty(),
                    scan_at(b, at as int).1 is Clean || (i == n - 1 && scan_at(
                        b,
                        at as int,
                    ).1 is Torn),
                decreases b.len() - at,
            {
                let d = read_record(seg.as_slice(), at);
                match d {
                    Decoded::Record(cmd, e) => {
                        proof {
                            lemma_record_sound(b, at as int);
                            let rest = scan_at(b, e as int);
                            assert(scan_at(b, at as int) == (seq![cmd@] + rest.0, rest.1));
                            assert(full.0 =~= store.history()[last].push(cmd@) + rest.0);
                        }
                        let ghost h = store.history();
                        store.log_and_index(cmd);
                        proof {
                            assert(store.history().take(last) =~= h.take(last));
                        }
                        at = e;
                    },
                    Decoded::Short => {
                        if i + 1 < n {
                            proof {
                                assert(scan_at(views[i as int], 0).1 is Torn);
                                assert(!recoverable(views));
                            }
                            return Err(KvsError::CorruptRecord);
                        }
                        break;
                    },
                    Decoded::Bad => {
                        proof {
                            assert(scan_at(views[i as int], 0).1 is Corrupt);
                            assert(!recoverable(views));
                        }
                        return Err(KvsError::CorruptRecord);
                    },
                }
            }
            proof {
                let h = store.history();
                assert(full.0 =~= h[last]);
                assert(recovered(views)[i as int] == full.0);
                assert(last == i || (i == 0 && last == 0));
                assert(h =~= recovered(views).take(i + 1)) by {
                    assert forall|j: int| 0 <= j < i + 1 implies h[j] == recovered(views).take(
                        i + 1,
                    )[j] by {
                        if j < last {
                            assert(h.take(last)[j] == base.take(last)[j]);
                        }
                    }
                }
                assert(scan_at(views[i as int], 0) == full);
                store.lemma_wf_log();
            }
            i = i + 1;
        }
        proof {
            if n > 0 {
                assert(recovered(views).take(n as int) =~= recovered(views));
            } else {
                assert(recovered(views).take(0) =~= recovered(views));
            }
        }
        Ok(store)
    }

    /// A copy of the bytes of each segment, oldest first.
    pub fn segment_bytes(&self) -> (r: Vec<Vec<u8>>)
        ensures
            bytes_of(r@) == self.log_view(),
    {
        let mut out: Vec<Vec<u8>> = Vec::new();
        let mut i: usize = 0;
        while i < self.segments.len()
            invariant
                0 <= i <= self.segments@.len(),
                out@.len() == i,
                forall|j: int| 0 <= j < i ==> (#[trigger] out@[j])@ == self.segments@[j]@,
            decreases self.segments@.len() - i,
        {
            let mut copy: Vec<u8> = Vec::new();
            let seg = &self.segments[i];
            copy_range(&mut copy, seg, 0, seg.len());
            assert(copy@ =~= seg@);
            out.push(copy);
            i = i + 1;
        }
        assert(bytes_of(out@) =~= self.log_view());
        out
    }

    /// The number of segments, the active one included.
    pub fn segment_count(&self) -> (r: usize)
        ensures
            r == self.log_view().len(),
    {
        self.segments.len()
    }

    /// The size from which the active segment is sealed.
    pub fn limit(&self) -> (r: usize)
        ensures
            r == self.segment_limit(),
    {
        self.limit
    }

    /// Looks `key` up in the index and reads its value from the log.
    pub fn get(&self, key: String) -> (r: Result<Option<String>, KvsError>)
        requires
            self.wf(),
        ensures
            r is Ok,
            text_view(r->Ok_0) == lookup(self@, key@),
    {
        match self.find(&key) {
            None => Ok(None),
            Some(i) => {
                let pos = self.index[i].value;
                let seg = &self.segments[pos.segment];
                proof {
                    let x = seg@;
                    let (o, l) = (pos.offset as int, pos.len as int);
                    let op = LogOp::Put(key@, self.map@[key@]);
                    assert(self.log_view()[pos.segment as int] == x);
                    assert(x =~= x.subrange(0, o) + x.subrange(o, o + l) + x.subrange(
                        o + l,
                        x.len() as int,
                    ));
                    lemma_decode_encode(x.subrange(0, o), op, x.subrange(o + l, x.len() as int));
                }
                match read_record(seg.as_slice(), pos.offset) {
                    Decoded::Record(Command::Put(k, v), _) => {
                        if k == key {
                            Ok(Some(v))
                        } else {
                            Err(KvsError::CorruptRecord)
                        }
                    },
                    _ => Err(KvsError::CorruptRecord),
                }
            },
        }
    }
}

} // verus!
