//! Journaled batches: a batch too large for one backend transaction is first
//! recorded under a reserved key, then applied in chunks, then the record is
//! removed; a record left behind by a crash is replayed before further access.
//!
//! Under a root key, the key `k` of a caller is stored as `[0] ++ k` and the
//! journal record as `[1]`, so the two never meet. A record is the concatenation
//! of its operations: a deletion is `0`, then the key; an insertion is `1`, then
//! the key, then the value; each key and value is preceded by its length as eight
//! little-endian bytes.

use vstd::bytes::{
    lemma_auto_spec_u64_to_from_le_bytes, spec_u64_from_le_bytes, spec_u64_to_le_bytes,
    u64_from_le_bytes, u64_to_le_bytes,
};
use vstd::prelude::*;

use crate::batch::SimpleUnorderedBatch;
use crate::bytes::{append_bytes, copy_range};
use crate::dynamo_db::{
    batch_valid, deletion_items, flat, insertion_items, items_view, key_size_error, put_error,
    registration_item, transaction_fits, DynamoDbStoreInternal, DynamoDbStoreInternalError,
    TransactItem,
};
use crate::errors::ErrorKind;
use crate::limits::{
    MAX_TRANSACT_WRITE_ITEM_SIZE, MAX_TRANSACT_WRITE_ITEM_TOTAL_SIZE, VISIBLE_MAX_VALUE_SIZE,
};
use crate::value_splitting::{
    is_split_of, lemma_split_keys, part_key, part_key_of, record_index, records_view,
    split_value, MAX_SPLIT_KEY_SIZE,
};

verus! {

/// Why a journal could not be used.
#[derive(Debug, Clone, Copy, PartialEq, Eq, Structural)]
pub enum JournalConsistencyError {
    /// The stored journal record does not parse as a batch.
    UnparseableRecord,
    /// Recovery of a pending journal record did not reach the backend; retrying may
    /// complete it.
    RecoveryIncomplete,
}

impl JournalConsistencyError {
    /// An unparseable record is corruption; an incomplete recovery may be retried.
    pub fn kind(&self) -> (r: ErrorKind)
        ensures
            *self == JournalConsistencyError::UnparseableRecord ==> r == ErrorKind::DataIntegrity,
            *self == JournalConsistencyError::RecoveryIncomplete ==> r
                == ErrorKind::JournalConsistency,
    {
        match self {
            JournalConsistencyError::UnparseableRecord => ErrorKind::DataIntegrity,
            JournalConsistencyError::RecoveryIncomplete => ErrorKind::JournalConsistency,
        }
    }
}

/// The first byte of every key of a caller.
pub const DATA_TAG: u8 = 0;

/// The key of the journal record.
pub const JOURNAL_TAG: u8 = 1;

/// The tag of a deletion in a record.
pub const DELETE_TAG: u8 = 0;

/// The tag of an insertion in a record.
pub const PUT_TAG: u8 = 1;

/// One write: the key and the new value, or `None` for a deletion.
pub type Op = (Seq<u8>, Option<Seq<u8>>);

/// The key of the journal record.
pub open spec fn journal_key() -> Seq<u8> {
    seq![JOURNAL_TAG]
}

/// The stored key of the key `k` of a caller.
pub open spec fn data_key(k: Seq<u8>) -> Seq<u8> {
    seq![DATA_TAG] + k
}

/// A length-prefixed byte string.
pub open spec fn encode_bytes(b: Seq<u8>) -> Seq<u8> {
    spec_u64_to_le_bytes(b.len() as u64) + b
}

/// The bytes of one operation in a record.
pub open spec fn encode_op(op: Op) -> Seq<u8> {
    match op.1 {
        None => seq![DELETE_TAG] + encode_bytes(op.0),
        Some(v) => seq![PUT_TAG] + encode_bytes(op.0) + encode_bytes(v),
    }
}

/// The bytes of a record of operations.
pub open spec fn encode_ops(ops: Seq<Op>) -> Seq<u8> {
    ops.map_values(|op: Op| encode_op(op)).flatten()
}

/// The length-prefixed byte string at the start of `s`, and what follows it.
pub open spec fn decode_bytes(s: Seq<u8>) -> Option<(Seq<u8>, Seq<u8>)> {
    if s.len() < 8 {
        None
    } else {
        let n = spec_u64_from_le_bytes(s.subrange(0, 8));
        if s.len() - 8 < n {
            None
        } else {
            Some((s.subrange(8, 8 + n), s.subrange(8 + n, s.len() as int)))
        }
    }
}

/// The operation at the start of `s`, and what follows it.
pub open spec fn decode_op(s: Seq<u8>) -> Option<(Op, Seq<u8>)> {
    if s.len() == 0 {
        None
    } else if s[0] == DELETE_TAG {
        match decode_bytes(s.drop_first()) {
            Some((k, rest)) => Some(((k, None), rest)),
            None => None,
        }
    } else if s[0] == PUT_TAG {
        match decode_bytes(s.drop_first()) {
            Some((k, rest)) => match decode_bytes(rest) {
                Some((v, rest2)) => Some(((k, Some(v)), rest2)),
                None => None,
            },
            None => None,
        }
    } else {
        None
    }
}

/// The operations of a record, if it parses.
pub open spec fn decode_ops(s: Seq<u8>) -> Option<Seq<Op>>
    decreases s.len(),
{
    if s.len() == 0 {
        Some(Seq::empty())
    } else {
        match decode_op(s) {
            Some((op, rest)) => if rest.len() < s.len() {
                match decode_ops(rest) {
                    Some(ops) => Some(seq![op] + ops),
                    None => None,
                }
            } else {
                None
            },
            None => None,
        }
    }
}

/// Every key and value can be length-prefixed.
pub open spec fn encodable(ops: Seq<Op>) -> bool {
    forall|i: int|
        0 <= i < ops.len() ==> (#[trigger] ops[i]).0.len() <= u64::MAX && match ops[i].1 {
            Some(v) => v.len() <= u64::MAX,
            None => true,
        }
}

/// Applies one operation to a store.
pub open spec fn apply_op(m: Map<Seq<u8>, Seq<u8>>, op: Op) -> Map<Seq<u8>, Seq<u8>> {
    match op.1 {
        Some(v) => m.insert(op.0, v),
        None => m.remove(op.0),
    }
}

/// Applies operations to a store, in order.
pub open spec fn apply_ops(m: Map<Seq<u8>, Seq<u8>>, ops: Seq<Op>) -> Map<Seq<u8>, Seq<u8>>
    decreases ops.len(),
{
    if ops.len() == 0 {
        m
    } else {
        apply_op(apply_ops(m, ops.drop_last()), ops.last())
    }
}

/// The store after recovery: a pending record is replayed whole and removed.
pub open spec fn recover(m: Map<Seq<u8>, Seq<u8>>) -> Map<Seq<u8>, Seq<u8>> {
    if m.contains_key(journal_key()) {
        match decode_ops(m[journal_key()]) {
            Some(ops) => apply_ops(m, ops).remove(journal_key()),
            None => m,
        }
    } else {
        m
    }
}

/// The operations of a batch on the stored keys: its deletions, then its
/// insertions.
pub open spec fn batch_ops(batch: SimpleUnorderedBatch) -> Seq<Op> {
    Seq::new(batch.deletions@.len(), |i: int| (data_key(batch.deletions@[i]@), None::<Seq<u8>>))
        + Seq::new(
        batch.insertions@.len(),
        |i: int| (data_key(batch.insertions@[i].0@), Some(batch.insertions@[i].1@)),
    )
}

/// The operations of owned writes.
pub open spec fn ops_view(ops: Seq<(Vec<u8>, Option<Vec<u8>>)>) -> Seq<Op> {
    ops.map_values(
        |op: (Vec<u8>, Option<Vec<u8>>)|
            (
                op.0@,
                match op.1 {
                    Some(v) => Some(v@),
                    None => None,
                },
            ),
    )
}

fn append_length_prefixed(a: &mut Vec<u8>, b: &[u8])
    ensures
        final(a)@ == old(a)@ + encode_bytes(b@),
{
    let len = u64_to_le_bytes(b.len() as u64);
    let ghost start = a@;
    append_bytes(a, len.as_slice());
    append_bytes(a, b);
    assert(start + len@ + b@ =~= start + encode_bytes(b@));
}

/// Returns the stored key of the key `key` of a caller.
pub fn data_key_of(key: &[u8]) -> (r: Vec<u8>)
    ensures
        r@ == data_key(key@),
{
    let mut out: Vec<u8> = Vec::new();
    out.push(DATA_TAG);
    append_bytes(&mut out, key);
    assert(seq![DATA_TAG] + key@ =~= data_key(key@));
    out
}

proof fn lemma_encode_ops_push(ops: Seq<Op>, op: Op)
    ensures
        encode_ops(ops.push(op)) == encode_ops(ops) + encode_op(op),
{
    let f = |op: Op| encode_op(op);
    assert(ops.push(op).map_values(f) =~= ops.map_values(f).push(encode_op(op)));
    ops.map_values(f).lemma_flatten_push(encode_op(op));
}

/// The writes of a batch on the stored keys, deletions first, and the record
/// that journals them.
pub fn journal_entries(batch: SimpleUnorderedBatch) -> (r: (Vec<(Vec<u8>, Option<Vec<u8>>)>, Vec<u8>))
    ensures
        ops_view(r.0@) == batch_ops(batch),
        r.1@ == encode_ops(batch_ops(batch)),
{
    let ghost all = batch_ops(batch);
    let ghost dels = batch.deletions@;
    let ghost ins = batch.insertions@;
    let mut ops: Vec<(Vec<u8>, Option<Vec<u8>>)> = Vec::new();
    let mut record: Vec<u8> = Vec::new();
    proof {
        assert(all.take(0) =~= Seq::<Op>::empty());
        assert(Seq::<Op>::empty().map_values(|op: Op| encode_op(op)) =~= Seq::<Seq<u8>>::empty());
    }
    for key in it: batch.deletions.into_iter()
        invariant
            it.seq() == dels,
            all == batch_ops(batch),
            dels == batch.deletions@,
            ins == batch.insertions@,
            ops_view(ops@) == all.take(it.index() as int),
            record@ == encode_ops(all.take(it.index() as int)),
    {
        let ghost i = it.index() as int;
        assert(key == dels[i]);
        let stored = data_key_of(key.as_slice());
        let ghost op: Op = (stored@, None);
        proof {
            assert(all[i] == op);
            assert(all.take(i + 1) =~= all.take(i).push(op));
            lemma_encode_ops_push(all.take(i), op);
        }
        append_bytes(&mut record, &[DELETE_TAG]);
        append_length_prefixed(&mut record, stored.as_slice());
        proof {
            assert(seq![DELETE_TAG] + encode_bytes(stored@) == encode_op(op));
        }
        assert(record@ =~= encode_ops(all.take(i)) + encode_op(op));
        ops.push((stored, None));
        proof {
            assert(ops_view(ops@) =~= all.take(i + 1));
        }
    }
    let ghost n = dels.len() as int;
    for entry in it: batch.insertions.into_iter()
        invariant
            it.seq() == ins,
            all == batch_ops(batch),
            n == dels.len(),
            dels == batch.deletions@,
            ins == batch.insertions@,
            ops_view(ops@) == all.take(n + it.index()),
            record@ == encode_ops(all.take(n + it.index())),
    {
        let ghost i = it.index() as int;
        assert(entry == ins[i]);
        let (key, value) = entry;
        let stored = data_key_of(key.as_slice());
        let ghost op: Op = (stored@, Some(value@));
        proof {
            assert(all[n + i] == op);
            assert(all.take(n + i + 1) =~= all.take(n + i).push(op));
            lemma_encode_ops_push(all.take(n + i), op);
        }
        append_bytes(&mut record, &[PUT_TAG]);
        append_length_prefixed(&mut record, stored.as_slice());
        append_length_prefixed(&mut record, value.as_slice());
        assert(record@ =~= encode_ops(all.take(n + i)) + encode_op(op));
        ops.push((stored, Some(value)));
        proof {
            assert(ops_view(ops@) =~= all.take(n + i + 1));
        }
    }
    assert(all.take(all.len() as int) =~= all);
    (ops, record)
}

fn read_u64_at(s: &[u8], at: usize) -> (r: u64)
    requires
        at + 8 <= s@.len(),
    ensures
        r == spec_u64_from_le_bytes(s@.subrange(at as int, at + 8)),
{
    let mut b: Vec<u8> = Vec::new();
    let mut i: usize = at;
    let len = s.len();
    assert(at + 8 <= len);
    let end: usize = at + 8;
    while i < end
        invariant
            end == at + 8,
            at <= i <= end <= s@.len(),
            b@ == s@.subrange(at as int, i as int),
        decreases end - i,
    {
        b.push(s[i]);
        i = i + 1;
        assert(s@.subrange(at as int, i as int) == s@.subrange(at as int, i - 1).push(s@[i - 1]));
    }
    u64_from_le_bytes(b.as_slice())
}

/// Reads the length-prefixed byte string at `at`: returns it and the position
/// after it.
fn read_bytes_at(s: &[u8], at: usize) -> (r: Option<(Vec<u8>, usize)>)
    requires
        at <= s@.len(),
    ensures
        match decode_bytes(s@.subrange(at as int, s@.len() as int)) {
            None => r is None,
            Some((b, rest)) => r matches Some((v, next)) && v@ == b && at < next <= s@.len()
                && rest == s@.subrange(next as int, s@.len() as int),
        },
{
    let t = Ghost(s@.subrange(at as int, s@.len() as int));
    if s.len() - at < 8 {
        return None;
    }
    let n = read_u64_at(s, at);
    assert(t@.subrange(0, 8) =~= s@.subrange(at as int, at + 8));
    if ((s.len() - at - 8) as u64) < n {
        return None;
    }
    let start = at + 8;
    let end = start + n as usize;
    let v = copy_range(s, start, end);
    assert(v@ =~= t@.subrange(8, 8 + n));
    assert(t@.subrange(8 + n, t@.len() as int) =~= s@.subrange(end as int, s@.len() as int));
    Some((v, end))
}

/// Parses a journal record back into its writes.
pub fn decode_record(record: &[u8]) -> (r: Result<
    Vec<(Vec<u8>, Option<Vec<u8>>)>,
    JournalConsistencyError,
>)
    ensures
        match decode_ops(record@) {
            Some(ops) => r matches Ok(v) && ops_view(v@) == ops,
            None => r == Err::<Vec<(Vec<u8>, Option<Vec<u8>>)>, _>(
                JournalConsistencyError::UnparseableRecord,
            ),
        },
{
    let mut out: Vec<(Vec<u8>, Option<Vec<u8>>)> = Vec::new();
    let mut at: usize = 0;
    assert(record@.subrange(0, record@.len() as int) =~= record@);
    proof {
        match decode_ops(record@) {
            Some(rest) => {
                assert(ops_view(out@) + rest =~= rest);
            },
            None => {},
        }
    }
    while at < record.len()
        invariant
            at <= record@.len(),
            decode_ops(record@) == match decode_ops(record@.subrange(at as int, record@.len() as int)) {
                Some(rest) => Some(ops_view(out@) + rest),
                None => None::<Seq<Op>>,
            },
        decreases record@.len() - at,
    {
        let ghost t = record@.subrange(at as int, record@.len() as int);
        assert(t.drop_first() =~= record@.subrange(at + 1, record@.len() as int));
        let tag = record[at];
        if tag != DELETE_TAG && tag != PUT_TAG {
            return Err(JournalConsistencyError::UnparseableRecord);
        }
        let key_read = read_bytes_at(record, at + 1);
        let (key, after_key) = match key_read {
            None => {
                return Err(JournalConsistencyError::UnparseableRecord);
            },
            Some(kr) => kr,
        };
        let op: (Vec<u8>, Option<Vec<u8>>);
        let next: usize;
        if tag == DELETE_TAG {
            op = (key, None);
            next = after_key;
        } else {
            let value_read = read_bytes_at(record, after_key);
            match value_read {
                None => {
                    return Err(JournalConsistencyError::UnparseableRecord);
                },
                Some((value, after_value)) => {
                    op = (key, Some(value));
                    next = after_value;
                },
            }
        }
        proof {
            let v = ops_view(out@.push(op));
            assert(v =~= ops_view(out@).push(ops_view(seq![op])[0]));
            match decode_ops(record@.subrange(next as int, record@.len() as int)) {
                Some(rest) => {
                    assert(ops_view(out@).push(ops_view(seq![op])[0]) + rest =~= ops_view(out@) + (
                    seq![ops_view(seq![op])[0]] + rest));
                },
                None => {},
            }
        }
        out.push(op);
        at = next;
    }
    assert(record@.subrange(at as int, record@.len() as int) =~= Seq::<u8>::empty());
    assert(ops_view(out@) + Seq::<Op>::empty() =~= ops_view(out@));
    Ok(out)
}

proof fn lemma_decode_bytes(b: Seq<u8>, rest: Seq<u8>)
    requires
        b.len() <= u64::MAX,
    ensures
        decode_bytes(encode_bytes(b) + rest) == Some((b, rest)),
{
    lemma_auto_spec_u64_to_from_le_bytes();
    let s = encode_bytes(b) + rest;
    assert(s.subrange(0, 8) =~= spec_u64_to_le_bytes(b.len() as u64));
    assert(s.subrange(8, 8 + b.len() as int) =~= b);
    assert(s.subrange(8 + b.len() as int, s.len() as int) =~= rest);
}

proof fn lemma_decode_op(op: Op, rest: Seq<u8>)
    requires
        op.0.len() <= u64::MAX,
        op.1 matches Some(v) ==> v.len() <= u64::MAX,
    ensures
        decode_op(encode_op(op) + rest) == Some((op, rest)),
        encode_op(op).len() > 0,
{
    let s = encode_op(op) + rest;
    match op.1 {
        None => {
            assert(s.drop_first() =~= encode_bytes(op.0) + rest);
            lemma_decode_bytes(op.0, rest);
        },
        Some(v) => {
            assert(s.drop_first() =~= encode_bytes(op.0) + (encode_bytes(v) + rest));
            lemma_decode_bytes(op.0, encode_bytes(v) + rest);
            lemma_decode_bytes(v, rest);
        },
    }
}

/// A record decodes to the operations it was made from.
pub proof fn lemma_decode_encode(ops: Seq<Op>)
    requires
        encodable(ops),
    ensures
        decode_ops(encode_ops(ops)) == Some(ops),
    decreases ops.len(),
{
    if ops.len() > 0 {
        let f = |op: Op| encode_op(op);
        let tail = ops.drop_first();
        assert(ops.map_values(f).drop_first() =~= tail.map_values(f));
        assert(encode_ops(ops) == encode_op(ops[0]) + encode_ops(tail));
        assert(encodable(tail)) by {
            assert forall|i: int| 0 <= i < tail.len() implies (#[trigger] tail[i]).0.len()
                <= u64::MAX && match tail[i].1 {
                Some(v) => v.len() <= u64::MAX,
                None => true,
            } by {
                assert(tail[i] == ops[i + 1]);
            }
        }
        assert(ops[0].0.len() <= u64::MAX);
        lemma_decode_op(ops[0], encode_ops(tail));
        lemma_decode_encode(tail);
        assert(seq![ops[0]] + tail =~= ops);
    } else {
        assert(ops.map_values(|op: Op| encode_op(op)) =~= Seq::<Seq<u8>>::empty());
    }
}

/// Whether some operation writes `k`.
pub open spec fn touches(ops: Seq<Op>, k: Seq<u8>) -> bool {
    exists|i: int| 0 <= i < ops.len() && (#[trigger] ops[i]).0 == k
}

/// Two stores agree on `k`.
pub open spec fn same_at(a: Map<Seq<u8>, Seq<u8>>, b: Map<Seq<u8>, Seq<u8>>, k: Seq<u8>) -> bool {
    &&& a.contains_key(k) == b.contains_key(k)
    &&& a.contains_key(k) ==> a[k] == b[k]
}

proof fn lemma_apply_same_at(
    x: Map<Seq<u8>, Seq<u8>>,
    y: Map<Seq<u8>, Seq<u8>>,
    ops: Seq<Op>,
    k: Seq<u8>,
)
    requires
        same_at(x, y, k) || touches(ops, k),
    ensures
        same_at(apply_ops(x, ops), apply_ops(y, ops), k),
    decreases ops.len(),
{
    if ops.len() > 0 {
        let init = ops.drop_last();
        if ops.last().0 != k {
            if touches(ops, k) && !same_at(x, y, k) {
                let i = choose|i: int| 0 <= i < ops.len() && (#[trigger] ops[i]).0 == k;
                assert(init[i] == ops[i]);
            }
            lemma_apply_same_at(x, y, init, k);
        }
    }
}

proof fn lemma_apply_untouched(x: Map<Seq<u8>, Seq<u8>>, ops: Seq<Op>, k: Seq<u8>)
    requires
        !touches(ops, k),
    ensures
        same_at(apply_ops(x, ops), x, k),
    decreases ops.len(),
{
    if ops.len() > 0 {
        let init = ops.drop_last();
        assert(ops[ops.len() - 1].0 != k);
        assert(!touches(init, k)) by {
            if touches(init, k) {
                let i = choose|i: int| 0 <= i < init.len() && (#[trigger] init[i]).0 == k;
                assert(ops[i] == init[i]);
            }
        }
        lemma_apply_untouched(x, init, k);
    }
}

proof fn lemma_apply_concat(x: Map<Seq<u8>, Seq<u8>>, a: Seq<Op>, b: Seq<Op>)
    ensures
        apply_ops(x, a + b) == apply_ops(apply_ops(x, a), b),
    decreases b.len(),
{
    if b.len() == 0 {
        assert(a + b =~= a);
    } else {
        assert((a + b).drop_last() =~= a + b.drop_last());
        lemma_apply_concat(x, a, b.drop_last());
    }
}

proof fn lemma_same_everywhere(a: Map<Seq<u8>, Seq<u8>>, b: Map<Seq<u8>, Seq<u8>>)
    requires
        forall|k: Seq<u8>| #[trigger] same_at(a, b, k),
    ensures
        a == b,
{
    assert forall|k: Seq<u8>| a.contains_key(k) <==> b.contains_key(k) by {
        assert(same_at(a, b, k));
    }
    assert forall|k: Seq<u8>| a.contains_key(k) implies a[k] == b[k] by {
        assert(same_at(a, b, k));
    }
    assert(a =~= b);
}

/// Replaying operations is idempotent: applying them again after they were
/// applied changes nothing.
pub proof fn lemma_replay_idempotent(x: Map<Seq<u8>, Seq<u8>>, ops: Seq<Op>)
    ensures
        apply_ops(apply_ops(x, ops), ops) == apply_ops(x, ops),
{
    let once = apply_ops(x, ops);
    assert forall|k: Seq<u8>| #[trigger] same_at(apply_ops(once, ops), once, k) by {
        if touches(ops, k) {
            lemma_apply_same_at(once, x, ops, k);
        } else {
            lemma_apply_untouched(once, ops, k);
        }
    }
    lemma_same_everywhere(apply_ops(once, ops), once);
}

/// Crash recovery: the record of a batch is written, then any prefix of its
/// operations reaches the store (the sub-transactions committed before a
/// failure); recovery then yields the same store as the whole batch applied at
/// once, with no record left.
pub proof fn lemma_recovery_completes_batch(m: Map<Seq<u8>, Seq<u8>>, ops: Seq<Op>, k: int)
    requires
        !m.contains_key(journal_key()),
        encodable(ops),
        !touches(ops, journal_key()),
        0 <= k <= ops.len(),
    ensures
        recover(apply_ops(m.insert(journal_key(), encode_ops(ops)), ops.take(k))) == apply_ops(
            m,
            ops,
        ),
{
    let jk = journal_key();
    let m1 = m.insert(jk, encode_ops(ops));
    let p = ops.take(k);
    let q = ops.skip(k);
    let mk = apply_ops(m1, p);
    assert(!touches(p, jk)) by {
        if touches(p, jk) {
            let i = choose|i: int| 0 <= i < p.len() && (#[trigger] p[i]).0 == jk;
            assert(ops[i] == p[i]);
        }
    }
    lemma_apply_untouched(m1, p, jk);
    lemma_decode_encode(ops);
    assert(p + q =~= ops);
    lemma_apply_concat(mk, p, q);
    lemma_replay_idempotent(m1, p);
    lemma_apply_concat(m1, p, q);
    assert(apply_ops(mk, ops) == apply_ops(m1, ops));
    let full = apply_ops(m1, ops);
    assert forall|key: Seq<u8>| #[trigger] same_at(full.remove(jk), apply_ops(m, ops), key) by {
        if key == jk {
            lemma_apply_untouched(m, ops, jk);
        } else {
            assert(same_at(m1, m, key));
            lemma_apply_same_at(m1, m, ops, key);
        }
    }
    lemma_same_everywhere(full.remove(jk), apply_ops(m, ops));
}

/// The longest key of a caller above the journal: the journal adds a one-byte
/// tag to each key, and value splitting an eight-byte part index.
pub const MAX_JOURNALED_KEY_SIZE: usize = MAX_SPLIT_KEY_SIZE - 1;

/// The error that the key `k` of a caller gives, if any.
pub open spec fn journaled_key_error(k: Seq<u8>) -> Option<DynamoDbStoreInternalError> {
    if k.len() == 0 {
        Some(DynamoDbStoreInternalError::ZeroLengthKey)
    } else if k.len() > MAX_JOURNALED_KEY_SIZE {
        Some(DynamoDbStoreInternalError::KeyTooLong)
    } else {
        None
    }
}

/// The keys of a sequence of owned keys.
pub open spec fn keys_view(keys: Seq<Vec<u8>>) -> Seq<Seq<u8>> {
    keys.map_values(|k: Vec<u8>| k@)
}

/// Every key of the batch is valid above the journal.
pub open spec fn batch_keys_valid(batch: SimpleUnorderedBatch) -> bool {
    &&& forall|i: int|
        0 <= i < batch.deletions@.len() ==> journaled_key_error(#[trigger] batch.deletions@[i]@)
            is None
    &&& forall|i: int|
        0 <= i < batch.insertions@.len() ==> journaled_key_error((#[trigger] batch.insertions@[i]).0@)
            is None
}

/// The error is the one of the first invalid key of the batch, deletions first.
pub open spec fn batch_keys_error(batch: SimpleUnorderedBatch, e: DynamoDbStoreInternalError) -> bool {
    ||| exists|i: int|
        0 <= i < batch.deletions@.len() && (forall|j: int|
            0 <= j < i ==> journaled_key_error(#[trigger] batch.deletions@[j]@) is None)
            && journaled_key_error(#[trigger] batch.deletions@[i]@) == Some(e)
    ||| (forall|j: int|
        0 <= j < batch.deletions@.len() ==> journaled_key_error(#[trigger] batch.deletions@[j]@)
            is None) && exists|i: int|
        0 <= i < batch.insertions@.len() && (forall|j: int|
            0 <= j < i ==> journaled_key_error((#[trigger] batch.insertions@[j]).0@) is None)
            && journaled_key_error((#[trigger] batch.insertions@[i]).0@) == Some(e)
}

fn check_key(key: &Vec<u8>) -> (r: Result<(), DynamoDbStoreInternalError>)
    ensures
        r is Ok <==> journaled_key_error(key@) is None,
        r matches Err(e) ==> journaled_key_error(key@) == Some(e),
{
    if key.len() == 0 {
        return Err(DynamoDbStoreInternalError::ZeroLengthKey);
    }
    if key.len() > MAX_JOURNALED_KEY_SIZE {
        return Err(DynamoDbStoreInternalError::KeyTooLong);
    }
    Ok(())
}

/// Checks that every key of the batch is valid above the journal.
pub fn check_batch_keys(batch: &SimpleUnorderedBatch) -> (r: Result<(), DynamoDbStoreInternalError>)
    ensures
        r is Ok <==> batch_keys_valid(*batch),
        r matches Err(e) ==> batch_keys_error(*batch, e),
{
    let mut i: usize = 0;
    while i < batch.deletions.len()
        invariant
            i <= batch.deletions@.len(),
            forall|j: int| 0 <= j < i ==> journaled_key_error(#[trigger] batch.deletions@[j]@) is None,
        decreases batch.deletions@.len() - i,
    {
        if let Err(e) = check_key(&batch.deletions[i]) {
            assert(journaled_key_error(batch.deletions@[i as int]@) == Some(e));
            return Err(e);
        }
        i = i + 1;
    }
    let mut i: usize = 0;
    while i < batch.insertions.len()
        invariant
            i <= batch.insertions@.len(),
            forall|j: int|
                0 <= j < batch.deletions@.len() ==> journaled_key_error(#[trigger] batch.deletions@[j]@)
                    is None,
            forall|j: int|
                0 <= j < i ==> journaled_key_error((#[trigger] batch.insertions@[j]).0@) is None,
        decreases batch.insertions@.len() - i,
    {
        if let Err(e) = check_key(&batch.insertions[i].0) {
            assert(journaled_key_error(batch.insertions@[i as int].0@) == Some(e));
            return Err(e);
        }
        i = i + 1;
    }
    Ok(())
}

/// `deletions` and `insertions` are the physical writes of `ops` on the layer
/// below value splitting, in order: a deletion removes the first record of its
/// value, which then reads as absent; an insertion writes the records of a split
/// of its value.
pub open spec fn writes_for(
    ops: Seq<Op>,
    deletions: Seq<Seq<u8>>,
    insertions: Seq<(Seq<u8>, Seq<u8>)>,
) -> bool
    decreases ops.len(),
{
    if ops.len() == 0 {
        deletions.len() == 0 && insertions.len() == 0
    } else {
        match ops.last().1 {
            None => deletions.len() > 0 && deletions.last() == part_key(ops.last().0, 0) && writes_for(
                ops.drop_last(),
                deletions.drop_last(),
                insertions,
            ),
            Some(v) => exists|n: int|
                #![trigger insertions.subrange(insertions.len() - n, insertions.len() as int)]
                1 <= n <= insertions.len() && is_split_of(
                    insertions.subrange(insertions.len() - n, insertions.len() as int),
                    ops.last().0,
                    v,
                    VISIBLE_MAX_VALUE_SIZE as nat,
                ) && writes_for(
                    ops.drop_last(),
                    deletions,
                    insertions.subrange(0, insertions.len() - n),
                ),
        }
    }
}

/// Returns the physical writes of `ops` on the layer below value splitting.
pub fn split_writes(ops: &Vec<(Vec<u8>, Option<Vec<u8>>)>) -> (r: SimpleUnorderedBatch)
    requires
        forall|i: int| 0 <= i < ops@.len() ==> 1 <= (#[trigger] ops@[i]).0@.len() <= MAX_SPLIT_KEY_SIZE,
    ensures
        writes_for(ops_view(ops@), keys_view(r.deletions@), records_view(r.insertions@)),
        batch_valid(r),
{
    proof {
        lemma_auto_spec_u64_to_from_le_bytes();
    }
    let ghost ov = ops_view(ops@);
    let mut deletions: Vec<Vec<u8>> = Vec::new();
    let mut insertions: Vec<(Vec<u8>, Vec<u8>)> = Vec::new();
    let mut i: usize = 0;
    assert(ov.take(0) =~= Seq::<Op>::empty());
    while i < ops.len()
        invariant
            i <= ops@.len(),
            ov == ops_view(ops@),
            forall|j: int| 0 <= j < ops@.len() ==> 1 <= (#[trigger] ops@[j]).0@.len() <= MAX_SPLIT_KEY_SIZE,
            writes_for(ov.take(i as int), keys_view(deletions@), records_view(insertions@)),
            forall|j: int|
                0 <= j < deletions@.len() ==> key_size_error(#[trigger] deletions@[j]@) is None,
            forall|j: int|
                0 <= j < insertions@.len() ==> put_error(
                    (#[trigger] insertions@[j]).0@,
                    insertions@[j].1@,
                ) is None,
        decreases ops@.len() - i,
    {
        let ghost done = ov.take(i as int);
        let ghost next = ov.take(i + 1);
        proof {
            lemma_auto_spec_u64_to_from_le_bytes();
            assert(next.drop_last() =~= done);
            assert(next.last() == ov[i as int]);
        }
        let key = &ops[i].0;
        match &ops[i].1 {
            None => {
                let first = part_key_of(key.as_slice(), 0);
                proof {
                    assert(key@ == ops@[i as int].0@);
                    assert(spec_u64_to_le_bytes(0).len() == 8);
                    assert(first@.len() == key@.len() + 8);
                    assert(keys_view(deletions@.push(first)).drop_last() =~= keys_view(deletions@));
                    assert(keys_view(deletions@.push(first)).last() == first@);
                }
                deletions.push(first);
            },
            Some(value) => {
                let mut records = split_value(key.as_slice(), value.as_slice(), VISIBLE_MAX_VALUE_SIZE);
                let ghost before = insertions@;
                let ghost added = records@;
                proof {
                    lemma_split_keys(records_view(added), key@, value@, VISIBLE_MAX_VALUE_SIZE as nat);
                    let all = records_view(before + added);
                    let n = added.len() as int;
                    assert(n >= 1);
                    assert(all.subrange(all.len() - n, all.len() as int) =~= records_view(added));
                    assert(all.subrange(0, all.len() - n) =~= records_view(before));
                    assert forall|j: int| 0 <= j < added.len() implies put_error(
                        (#[trigger] added[j]).0@,
                        added[j].1@,
                    ) is None by {
                        assert(records_view(added)[j].0 == added[j].0@);
                        assert(records_view(added)[j].1 == added[j].1@);
                        assert(records_view(added)[j].0 == part_key(
                            key@,
                            record_index(n, j),
                        ));
                        assert(spec_u64_to_le_bytes(record_index(n, j)).len() == 8);
                        assert(key@ == ops@[i as int].0@);
                        assert(added[j].0@.len() == key@.len() + 8);
                    }
                }
                insertions.append(&mut records);
                assert(insertions@ == before + added);
            },
        }
        i = i + 1;
    }
    assert(ov.take(ops@.len() as int) =~= ov);
    SimpleUnorderedBatch { deletions, insertions }
}

/// The registration that precedes the writes of a store until it is committed.
pub open spec fn registration_prefix(store: DynamoDbStoreInternal) -> Seq<
    ((Seq<u8>, Seq<u8>), Option<Seq<u8>>),
> {
    if store.root_key_written {
        Seq::empty()
    } else {
        seq![registration_item(store.start_key@)]
    }
}

/// The number of transactions of `transactions` that hold the batch itself.
pub open spec fn data_transaction_count(
    store: DynamoDbStoreInternal,
    transactions: Seq<Vec<TransactItem>>,
) -> int {
    if store.root_key_written {
        transactions.len() as int
    } else {
        transactions.len() - 1
    }
}

/// Every transaction fits the backend's limits.
pub open spec fn all_fit(transactions: Seq<Vec<TransactItem>>) -> bool {
    forall|i: int|
        0 <= i < transactions.len() ==> transaction_fits(
            #[trigger] transactions[i]@,
            MAX_TRANSACT_WRITE_ITEM_SIZE as nat,
            MAX_TRANSACT_WRITE_ITEM_TOTAL_SIZE as nat,
        )
}

/// The transactions that commit a batch, to be sent in this order: those that
/// store its journal record, those of the batch, and those that delete the
/// record. The journal is kept exactly when the batch needs more than one
/// transaction.
pub struct CommitPlan {
    /// The writes of the batch on the stored keys, which its record holds.
    pub ops: Vec<(Vec<u8>, Option<Vec<u8>>)>,
    /// The transactions that store the journal record, the envelope last.
    pub journal: Vec<Vec<TransactItem>>,
    /// The transactions of the batch.
    pub data: Vec<Vec<TransactItem>>,
    /// The transactions that delete the journal record.
    pub cleanup: Vec<Vec<TransactItem>>,
}

/// Plans the commit of `batch` on `store`, through the journal and value
/// splitting.
pub fn plan_commit(store: &DynamoDbStoreInternal, batch: SimpleUnorderedBatch) -> (r: Result<
    CommitPlan,
    DynamoDbStoreInternalError,
>)
    ensures
        r is Ok <==> batch_keys_valid(batch) && key_size_error(store.start_key@) is None,
        r matches Err(e) ==> batch_keys_error(batch, e) || (batch_keys_valid(batch)
            && key_size_error(store.start_key@) == Some(e)),
        r matches Ok(p) ==> {
            &&& ops_view(p.ops@) == batch_ops(batch)
            &&& exists|w: SimpleUnorderedBatch|
                writes_for(batch_ops(batch), keys_view(w.deletions@), records_view(w.insertions@))
                    && items_view(flat(p.data@)) == registration_prefix(*store) + deletion_items(
                    store.start_key@,
                    w.deletions@,
                ) + insertion_items(store.start_key@, w.insertions@)
            &&& all_fit(p.data@) && all_fit(p.journal@) && all_fit(p.cleanup@)
            &&& (p.journal@.len() == 0 <==> data_transaction_count(*store, p.data@) <= 1)
            &&& (p.journal@.len() == 0 <==> p.cleanup@.len() == 0)
            &&& p.journal@.len() > 0 ==> exists|j: Seq<(Vec<u8>, Vec<u8>)>|
                is_split_of(
                    records_view(j),
                    journal_key(),
                    encode_ops(batch_ops(batch)),
                    VISIBLE_MAX_VALUE_SIZE as nat,
                ) && items_view(flat(p.journal@)) == registration_prefix(*store) + insertion_items(
                    store.start_key@,
                    j,
                )
            &&& p.cleanup@.len() > 0 ==> items_view(flat(p.cleanup@)) == registration_prefix(*store)
                + seq![((store.start_key@, part_key(journal_key(), 0)), None::<Seq<u8>>)]
        },
{
    proof {
        lemma_auto_spec_u64_to_from_le_bytes();
    }
    check_batch_keys(&batch)?;
    let ghost all = batch_ops(batch);
    let (ops, record) = journal_entries(batch);
    assert forall|i: int| 0 <= i < ops@.len() implies 1 <= (#[trigger] ops@[i]).0@.len()
        <= MAX_SPLIT_KEY_SIZE by {
        assert(ops_view(ops@)[i] == all[i]);
    }
    let writes = split_writes(&ops);
    let ghost w = writes;
    let data = store.write_batch(writes)?;
    assert(writes_for(all, keys_view(w.deletions@), records_view(w.insertions@)));
    let mut journal_key_bytes: Vec<u8> = Vec::new();
    journal_key_bytes.push(JOURNAL_TAG);
    let mut journal: Vec<Vec<TransactItem>> = Vec::new();
    let mut cleanup: Vec<Vec<TransactItem>> = Vec::new();
    let needed: usize = if store.root_key_written { 1 } else { 2 };
    if data.len() > needed {
        let records = split_value(journal_key_bytes.as_slice(), record.as_slice(), VISIBLE_MAX_VALUE_SIZE);
        let ghost j = records@;
        assert(is_split_of(records_view(j), journal_key(), record@, VISIBLE_MAX_VALUE_SIZE as nat));
        proof {
            lemma_split_keys(records_view(j), journal_key(), record@, VISIBLE_MAX_VALUE_SIZE as nat);
            assert forall|i: int| 0 <= i < j.len() implies put_error(
                (#[trigger] j[i]).0@,
                j[i].1@,
            ) is None by {
                assert(records_view(j)[i].0 == j[i].0@);
                assert(records_view(j)[i].0 == part_key(
                    journal_key(),
                    record_index(j.len() as int, i),
                ));
                assert(spec_u64_to_le_bytes(record_index(j.len() as int, i)).len() == 8);
                assert(j[i].0@.len() == 9);
            }
        }
        let record_batch = SimpleUnorderedBatch { deletions: Vec::new(), insertions: records };
        assert(deletion_items(store.start_key@, record_batch.deletions@) =~= Seq::empty());
        journal = match store.write_batch(record_batch) {
            Ok(ts) => ts,
            Err(e) => {
                return Err(e);
            },
        };
        let mut deletions: Vec<Vec<u8>> = Vec::new();
        deletions.push(part_key_of(journal_key_bytes.as_slice(), 0));
        let removal = SimpleUnorderedBatch { deletions, insertions: Vec::new() };
        assert(spec_u64_to_le_bytes(0).len() == 8);
        assert(removal.deletions@[0]@.len() == 9);
        assert(batch_valid(removal));
        assert(insertion_items(store.start_key@, removal.insertions@) =~= Seq::empty());
        assert(deletion_items(store.start_key@, removal.deletions@) =~= seq![
            ((store.start_key@, part_key(journal_key(), 0)), None::<Seq<u8>>),
        ]);
        cleanup = match store.write_batch(removal) {
            Ok(ts) => ts,
            Err(e) => {
                return Err(e);
            },
        };
    }
    proof {
        assert(flat(Seq::<Vec<TransactItem>>::empty()) =~= Seq::<TransactItem>::empty());
        if journal@.len() == 0 && data.len() > needed {
            assert(journal@ =~= Seq::<Vec<TransactItem>>::empty());
            assert(items_view(flat(journal@)).len() == 0);
        }
        if cleanup@.len() == 0 && data.len() > needed {
            assert(cleanup@ =~= Seq::<Vec<TransactItem>>::empty());
            assert(items_view(flat(cleanup@)).len() == 0);
        }
    }
    Ok(CommitPlan { ops, journal, data, cleanup })
}

/// Crash recovery on the physical writes. The transactions of a batch are
/// consecutive runs of its physical writes in one partition (`flat` of the
/// transactions is the sequence of writes), so the writes that reached the store
/// before a failure after the `k`-th transaction are a prefix of them. Replaying
/// all of them then yields the store that an uninterrupted commit yields.
pub proof fn lemma_replay_after_partial_commit(m: Map<Seq<u8>, Seq<u8>>, writes: Seq<Op>, k: int)
    requires
        0 <= k <= writes.len(),
    ensures
        apply_ops(apply_ops(m, writes.take(k)), writes) == apply_ops(m, writes),
{
    let p = writes.take(k);
    let q = writes.skip(k);
    assert(p + q =~= writes);
    lemma_apply_concat(apply_ops(m, p), p, q);
    lemma_replay_idempotent(m, p);
    lemma_apply_concat(m, p, q);
}

/// The writes of a record can be split: every key fits below value splitting.
pub open spec fn replayable(ops: Seq<Op>) -> bool {
    forall|i: int| 0 <= i < ops.len() ==> 1 <= (#[trigger] ops[i]).0.len() <= MAX_SPLIT_KEY_SIZE
}

/// The transactions that finish a journaled batch after a crash: its writes,
/// replayed whole, then the deletion of its record.
pub struct RecoveryPlan {
    /// The transactions of the recorded writes.
    pub data: Vec<Vec<TransactItem>>,
    /// The transactions that delete the journal record.
    pub cleanup: Vec<Vec<TransactItem>>,
}

/// Plans the recovery of `store` from the journal record `record` that was
/// found under the journal key.
pub fn plan_recovery(store: &DynamoDbStoreInternal, record: &[u8]) -> (r: Result<
    RecoveryPlan,
    DynamoDbStoreInternalError,
>)
    ensures
        r is Ok <==> (decode_ops(record@) matches Some(ops) && replayable(ops)) && key_size_error(
            store.start_key@,
        ) is None,
        r matches Err(e) ==> if decode_ops(record@) matches Some(ops) && replayable(ops) {
            key_size_error(store.start_key@) == Some(e)
        } else {
            e == DynamoDbStoreInternalError::JournalConsistencyError(
                JournalConsistencyError::UnparseableRecord,
            )
        },
        r matches Ok(p) ==> {
            &&& exists|w: SimpleUnorderedBatch|
                writes_for(decode_ops(record@).unwrap(), keys_view(w.deletions@), records_view(w.insertions@))
                    && items_view(flat(p.data@)) == registration_prefix(*store) + deletion_items(
                    store.start_key@,
                    w.deletions@,
                ) + insertion_items(store.start_key@, w.insertions@)
            &&& items_view(flat(p.cleanup@)) == registration_prefix(*store) + seq![
                ((store.start_key@, part_key(journal_key(), 0)), None::<Seq<u8>>),
            ]
            &&& all_fit(p.data@) && all_fit(p.cleanup@)
        },
{
    proof {
        lemma_auto_spec_u64_to_from_le_bytes();
    }
    let unparseable = DynamoDbStoreInternalError::JournalConsistencyError(
        JournalConsistencyError::UnparseableRecord,
    );
    let ops = match decode_record(record) {
        Ok(ops) => ops,
        Err(_) => {
            return Err(unparseable);
        },
    };
    let ghost decoded = decode_ops(record@).unwrap();
    let mut i: usize = 0;
    while i < ops.len()
        invariant
            i <= ops@.len(),
            ops_view(ops@) == decoded,
            decode_ops(record@) == Some(decoded),
            unparseable == DynamoDbStoreInternalError::JournalConsistencyError(
                JournalConsistencyError::UnparseableRecord,
            ),
            forall|j: int| 0 <= j < i ==> 1 <= (#[trigger] ops@[j]).0@.len() <= MAX_SPLIT_KEY_SIZE,
        decreases ops@.len() - i,
    {
        if ops[i].0.len() == 0 || ops[i].0.len() > MAX_SPLIT_KEY_SIZE {
            assert(decoded[i as int].0 == ops@[i as int].0@);
            assert(!replayable(decoded));
            return Err(unparseable);
        }
        i = i + 1;
    }
    assert(replayable(decoded)) by {
        assert forall|j: int| 0 <= j < decoded.len() implies 1 <= (#[trigger] decoded[j]).0.len()
            <= MAX_SPLIT_KEY_SIZE by {
            assert(decoded[j].0 == ops@[j].0@);
        }
    }
    let writes = split_writes(&ops);
    let ghost w = writes;
    let data = store.write_batch(writes)?;
    assert(writes_for(decoded, keys_view(w.deletions@), records_view(w.insertions@)));
    let mut journal_key_bytes: Vec<u8> = Vec::new();
    journal_key_bytes.push(JOURNAL_TAG);
    let mut deletions: Vec<Vec<u8>> = Vec::new();
    deletions.push(part_key_of(journal_key_bytes.as_slice(), 0));
    let removal = SimpleUnorderedBatch { deletions, insertions: Vec::new() };
    assert(spec_u64_to_le_bytes(0).len() == 8);
    assert(removal.deletions@[0]@.len() == 9);
    assert(batch_valid(removal));
    assert(insertion_items(store.start_key@, removal.insertions@) =~= Seq::empty());
    assert(deletion_items(store.start_key@, removal.deletions@) =~= seq![
        ((store.start_key@, part_key(journal_key(), 0)), None::<Seq<u8>>),
    ]);
    let cleanup = match store.write_batch(removal) {
        Ok(ts) => ts,
        Err(e) => {
            return Err(e);
        },
    };
    Ok(RecoveryPlan { data, cleanup })
}

/// A key found by a scan below value splitting names a value when it is the key
/// of its first record: it ends with part index 0.
pub open spec fn is_first_part(k: Seq<u8>) -> bool {
    k.len() >= 8 && k.subrange(k.len() - 8, k.len() as int) == spec_u64_to_le_bytes(0)
}

/// The key of the value whose first record is stored under `k`.
pub open spec fn value_key(k: Seq<u8>) -> Seq<u8> {
    k.subrange(0, k.len() - 8)
}

/// The keys of the values among the keys that a scan found, in order: the
/// records of later parts are left out.
pub fn visible_keys(keys: Vec<Vec<u8>>) -> (r: Vec<Vec<u8>>)
    ensures
        keys_view(r@) == keys_view(keys@).filter(|k: Seq<u8>| is_first_part(k)).map_values(
            |k: Seq<u8>| value_key(k),
        ),
{
    let ghost all = keys_view(keys@);
    let ghost keep = |k: Seq<u8>| is_first_part(k);
    let ghost strip = |k: Seq<u8>| value_key(k);
    let mut out: Vec<Vec<u8>> = Vec::new();
    let mut i: usize = 0;
    assert(all.take(0) =~= Seq::<Seq<u8>>::empty());
    assert(keys_view(out@) =~= Seq::<Seq<u8>>::empty().filter(keep).map_values(strip));
    while i < keys.len()
        invariant
            i <= keys@.len(),
            all == keys_view(keys@),
            keep == (|k: Seq<u8>| is_first_part(k)),
            strip == (|k: Seq<u8>| value_key(k)),
            keys_view(out@) == all.take(i as int).filter(keep).map_values(strip),
        decreases keys@.len() - i,
    {
        proof {
            lemma_auto_spec_u64_to_from_le_bytes();
        }
        let key = &keys[i];
        let ghost done = all.take(i as int);
        proof {
            assert(all.take(i + 1) =~= done.push(key@));
            done.lemma_filter_push(key@, keep);
        }
        if key.len() >= 8 {
            let tail = copy_range(key.as_slice(), key.len() - 8, key.len());
            let index = u64_from_le_bytes(tail.as_slice());
            if index == 0 {
                assert(keep(key@));
                let head = copy_range(key.as_slice(), 0, key.len() - 8);
                proof {
                    assert(keys_view(out@.push(head)) =~= keys_view(out@).push(head@));
                    assert(done.filter(keep).push(key@).map_values(strip) =~= done.filter(
                        keep,
                    ).map_values(strip).push(value_key(key@)));
                }
                out.push(head);
            } else {
                assert(tail@ == spec_u64_to_le_bytes(index));
                assert(!keep(key@));
            }
        } else {
            assert(!keep(key@));
        }
        i = i + 1;
    }
    assert(all.take(keys@.len() as int) =~= all);
    out
}

} // verus!
