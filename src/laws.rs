use vstd::prelude::*;
use crate::codec::{encodable, encode_op, LogOp};
use crate::log::{
    all_encodable, all_ops, apply_op, encode_all, encode_segments, lemma_scan_torn,
    lemma_scan_whole, recoverable, recovered, replay, scan_at, Tail,
};
use crate::store::{appended, compaction_of, lookup, KvStore};

verus! {

/// After any run of commands, a key maps to the value of its latest `Put`,
/// and to nothing where its latest command is a `Del` or where no command
/// names it.
pub proof fn lemma_last_write_wins(ops: Seq<LogOp>, k: Seq<char>)
    ensures
        (forall|i: int| 0 <= i < ops.len() ==> (#[trigger] ops[i]).key() != k) ==> lookup(
            replay(ops),
            k,
        ) == None::<Seq<char>>,
        forall|i: int|
            0 <= i < ops.len() && (#[trigger] ops[i]).key() == k && (forall|j: int|
                i < j < ops.len() ==> (#[trigger] ops[j]).key() != k) ==> lookup(replay(ops), k)
                == match ops[i] {
                LogOp::Put(_, v) => Some(v),
                LogOp::Del(_) => None,
            },
    decreases ops.len(),
{
    if ops.len() > 0 {
        let init = ops.drop_last();
        let op = ops.last();
        lemma_last_write_wins(init, k);
        assert forall|i: int|
            0 <= i < ops.len() && (#[trigger] ops[i]).key() == k && (forall|j: int|
                i < j < ops.len() ==> (#[trigger] ops[j]).key() != k) implies lookup(
            replay(ops),
            k,
        ) == match ops[i] {
            LogOp::Put(_, v) => Some(v),
            LogOp::Del(_) => None,
        } by {
            if i < ops.len() - 1 {
                assert(ops[ops.len() - 1].key() != k);
                assert(init[i] == ops[i]);
                assert forall|j: int| i < j < init.len() implies (#[trigger] init[j]).key() != k by {
                    assert(init[j] == ops[j]);
                }
            }
        }
        if forall|i: int| 0 <= i < ops.len() ==> (#[trigger] ops[i]).key() != k {
            assert forall|i: int| 0 <= i < init.len() implies (#[trigger] init[i]).key() != k by {
                assert(init[i] == ops[i]);
            }
            assert(ops[ops.len() - 1].key() != k);
        }
    }
}

/// `set(k, v)` followed by `get(k)` gives `v`, whatever the mapping was.
pub proof fn lemma_set_then_get(m: Map<Seq<char>, Seq<char>>, k: Seq<char>, v: Seq<char>)
    ensures
        lookup(apply_op(m, LogOp::Put(k, v)), k) == Some(v),
{
}

/// Compacting any number of times in a row leaves the mapping as it was.
pub proof fn lemma_compaction_idempotent(runs: Seq<KvStore>)
    requires
        runs.len() >= 1,
        forall|i: int| 0 <= i < runs.len() - 1 ==> compaction_of(#[trigger] runs[i], runs[i + 1]),
    ensures
        runs.last()@ == runs[0]@,
    decreases runs.len(),
{
    if runs.len() > 1 {
        let init = runs.drop_last();
        assert forall|i: int| 0 <= i < init.len() - 1 implies compaction_of(
            #[trigger] init[i],
            init[i + 1],
        ) by {
            assert(init[i] == runs[i] && init[i + 1] == runs[i + 1]);
        }
        lemma_compaction_idempotent(init);
        assert(compaction_of(runs[runs.len() - 2], runs[runs.len() - 1]));
    }
}

/// A log written whole opens to the commands it was written with.
pub proof fn lemma_reopen(ops: Seq<Seq<LogOp>>)
    requires
        forall|i: int| 0 <= i < ops.len() ==> all_encodable(#[trigger] ops[i]),
    ensures
        recoverable(encode_segments(ops)),
        recovered(encode_segments(ops)) == ops,
{
    let segs = encode_segments(ops);
    assert forall|i: int| 0 <= i < segs.len() implies (#[trigger] scan_at(segs[i], 0)) == (
        ops[i],
        Tail::Clean,
    ) by {
        lemma_scan_whole(ops[i]);
    }
    assert(recovered(segs) =~= ops);
}

/// Cutting the newest segment anywhere inside a record that was being
/// appended loses that record only: the log still opens, to every command
/// written whole before it. The records are those whose fields fit their
/// eight-byte length prefixes, as every record that `encode_command` writes
/// does.
pub proof fn lemma_torn_tail_recovery(ops: Seq<Seq<LogOp>>, op: LogOp, cut: int)
    requires
        ops.len() >= 1,
        forall|i: int| 0 <= i < ops.len() ==> all_encodable(#[trigger] ops[i]),
        encodable(op),
        0 < cut < encode_op(op).len(),
    ensures
        ({
            let whole = encode_segments(ops);
            let segs = whole.update(
                ops.len() - 1,
                whole[ops.len() - 1] + encode_op(op).take(cut),
            );
            recoverable(segs) && recovered(segs) == ops
        }),
{
    let whole = encode_segments(ops);
    let last = ops.len() - 1;
    let segs = whole.update(last, whole[last] + encode_op(op).take(cut));
    assert forall|i: int| 0 <= i < segs.len() implies (#[trigger] scan_at(segs[i], 0)).0 == ops[i]
        && (scan_at(segs[i], 0).1 is Clean || (i == segs.len() - 1 && scan_at(segs[i], 0).1 is Torn)) by {
        if i == last {
            lemma_scan_torn(ops[i], op, cut);
        } else {
            lemma_scan_whole(ops[i]);
        }
    }
    assert(recovered(segs) =~= ops);
}

/// Reopening a store from the bytes of its log gives back its mapping.
pub proof fn lemma_restart_keeps_mapping(s: KvStore)
    requires
        s.wf(),
    ensures
        recoverable(s.log_view()),
        recovered(s.log_view()) == s.history(),
        replay(all_ops(recovered(s.log_view()))) == s@,
{
    s.lemma_wf_log();
    assert(s.log_view() =~= encode_segments(s.history()));
    assert forall|i: int| 0 <= i < s.history().len() implies all_encodable(
        #[trigger] s.history()[i],
    ) by {
        assert(s.log_view()[i] == encode_all(s.history()[i]));
    }
    lemma_reopen(s.history());
}

/// After one more command is appended to a sound store, reopening its log
/// gives the replay of the store's earlier commands followed by that command.
pub proof fn lemma_reopen_after_append(before: KvStore, after: KvStore, op: LogOp)
    requires
        after.wf(),
        appended(before, after, op),
    ensures
        recoverable(after.log_view()),
        recovered(after.log_view()) == after.history(),
        replay(all_ops(recovered(after.log_view()))) == replay(all_ops(before.history()).push(op)),
{
    lemma_restart_keeps_mapping(after);
}

} // verus!
