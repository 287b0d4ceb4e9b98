//! The append-only log: the record format written before each store
//! mutation, its parsing on recovery, and the replay of parsed records into
//! a store.
//!
//! A record is an eight-byte big-endian size s, then s bytes of body: op 0
//! (set) followed by a key's encoding and an object's encoding, or op 1
//! (delete) followed by a key's encoding.

use vstd::prelude::*;
use vstd::slice::slice_subrange;
use crate::bytes::{be64, be64_bytes, lemma_be64_round_trip, push_all, push_u64_be, read_u64_be};
use crate::concurrent_map::{fingerprint, shard_of};
use crate::object::{key_encoding, key_len, object_len, valid_object, Key, Object, ObjectError, MAX_LEN};
use crate::storage::{apply_op, apply_ops, InMemoryStore, StoreError, StoreOp};

verus! {

/// Errors of the log.
#[derive(Debug, Clone, Copy, PartialEq, Eq, Structural)]
pub enum AolError {
    /// Reading or writing a log file failed.
    Io,
    /// A record's key or object does not decode.
    ObjectParse(ObjectError),
    /// A record is empty or has an unknown op.
    CorruptedEntry,
    /// The log directory could not be created.
    DirectoryCreation,
    /// The store behind the log failed.
    BackingStore(StoreError),
}

/// The body of the record of `op`.
pub open spec fn record_body(op: StoreOp) -> Seq<u8> {
    match op.1 {
        Some(v) => seq![0u8] + key_encoding(op.0) + v,
        None => seq![1u8] + key_encoding(op.0),
    }
}

/// The record of `op`: its body's size, then its body.
pub open spec fn frame(op: StoreOp) -> Seq<u8> {
    be64_bytes(record_body(op).len() as u64) + record_body(op)
}

/// The records of `ops`, one after another.
pub open spec fn frames(ops: Seq<StoreOp>) -> Seq<u8>
    decreases ops.len(),
{
    if ops.len() == 0 {
        seq![]
    } else {
        frame(ops[0]) + frames(ops.subrange(1, ops.len() as int))
    }
}

/// `op` can be written as a record: a key of 1 to 65535 bytes, a valid object
/// for a set, and a body whose size fits the size field.
pub open spec fn valid_op(op: StoreOp) -> bool {
    &&& 1 <= op.0.len() <= MAX_LEN
    &&& op.1 matches Some(v) ==> valid_object(v)
    &&& record_body(op).len() <= u64::MAX
}

/// The operation a record body holds, or why it holds none.
pub open spec fn parse_record(body: Seq<u8>) -> Result<StoreOp, AolError> {
    if body.len() == 0 {
        Err(AolError::CorruptedEntry)
    } else if body[0] != 0 && body[0] != 1 {
        Err(AolError::CorruptedEntry)
    } else {
        let rest = body.subrange(1, body.len() as int);
        match key_len(rest) {
            Err(e) => Err(AolError::ObjectParse(e)),
            Ok(n) => {
                let k = rest.subrange(2, n as int);
                if body[0] == 1 {
                    Ok((k, None))
                } else {
                    let after = rest.subrange(n as int, rest.len() as int);
                    match object_len(after) {
                        Err(e) => Err(AolError::ObjectParse(e)),
                        Ok(m) => Ok((k, Some(after.subrange(0, m as int)))),
                    }
                }
            },
        }
    }
}

/// `ops` in front of the operations of `r`, errors unchanged.
pub open spec fn prepend(ops: Seq<StoreOp>, r: Result<Seq<StoreOp>, AolError>) -> Result<
    Seq<StoreOp>,
    AolError,
> {
    match r {
        Ok(rest) => Ok(ops + rest),
        Err(e) => Err(e),
    }
}

/// The operations of the complete records at the start of a log file's
/// bytes. Parsing stops, without error, at a record whose size or body is
/// cut short by the end of the bytes; a complete record that does not parse
/// is an error.
pub open spec fn parse_log(b: Seq<u8>) -> Result<Seq<StoreOp>, AolError>
    decreases b.len(),
{
    if b.len() < 8 {
        Ok(seq![])
    } else if b.len() - 8 < be64(b) {
        Ok(seq![])
    } else {
        let end = 8 + be64(b);
        match parse_record(b.subrange(8, end)) {
            Err(e) => Err(e),
            Ok(op) => if end > 8 {
                prepend(seq![op], parse_log(b.subrange(end, b.len() as int)))
            } else {
                Err(AolError::CorruptedEntry)
            },
        }
    }
}

/// The operations of log files replayed in ascending index order.
pub open spec fn parse_logs(files: Seq<Seq<u8>>) -> Result<Seq<StoreOp>, AolError>
    decreases files.len(),
{
    if files.len() == 0 {
        Ok(seq![])
    } else {
        match parse_logs(files.drop_last()) {
            Err(e) => Err(e),
            Ok(ops) => match parse_log(files.last()) {
                Err(e) => Err(e),
                Ok(more) => Ok(ops + more),
            },
        }
    }
}

proof fn lemma_parse_frame(op: StoreOp, tail: Seq<u8>)
    requires
        valid_op(op),
    ensures
        parse_log(frame(op) + tail) == prepend(seq![op], parse_log(tail)),
{
    let body = record_body(op);
    let b = frame(op) + tail;
    lemma_be64_round_trip(body.len() as u64);
    assert(b.subrange(0, 8) =~= be64_bytes(body.len() as u64));
    assert(be64(b) == be64(b.subrange(0, 8)));
    let end = 8 + body.len();
    assert(b.subrange(8, end as int) =~= body);
    assert(b.subrange(end as int, b.len() as int) =~= tail);
    let rest = body.subrange(1, body.len() as int);
    let k = op.0;
    crate::bytes::lemma_be16_round_trip(k.len());
    assert(crate::bytes::be16(rest) == k.len()) by {
        assert(rest[0] == key_encoding(k)[0] && rest[1] == key_encoding(k)[1]);
    }
    assert(rest.subrange(2, 2 + k.len() as int) =~= k);
    match op.1 {
        Some(v) => {
            let after = rest.subrange(2 + k.len() as int, rest.len() as int);
            assert(after =~= v);
            assert(v.subrange(0, v.len() as int) =~= v);
        },
        None => {},
    }
}

proof fn lemma_frames_unfold(ops: Seq<StoreOp>, tail: Seq<u8>)
    requires
        ops.len() > 0,
    ensures
        frames(ops) + tail == frame(ops[0]) + (frames(ops.subrange(1, ops.len() as int)) + tail),
        seq![ops[0]] + ops.subrange(1, ops.len() as int) == ops,
{
    assert(frames(ops) + tail =~= frame(ops[0]) + (frames(ops.subrange(1, ops.len() as int))
        + tail));
    assert(seq![ops[0]] + ops.subrange(1, ops.len() as int) =~= ops);
}

proof fn lemma_frames_then(ops: Seq<StoreOp>, tail: Seq<u8>)
    requires
        forall|i: int| 0 <= i < ops.len() ==> valid_op(#[trigger] ops[i]),
    ensures
        parse_log(frames(ops) + tail) == prepend(ops, parse_log(tail)),
    decreases ops.len(),
{
    if ops.len() == 0 {
        assert(frames(ops) + tail =~= tail);
        lemma_prepend_empty(parse_log(tail));
    } else {
        let rest = ops.subrange(1, ops.len() as int);
        assert forall|i: int| 0 <= i < rest.len() implies valid_op(#[trigger] rest[i]) by {
            assert(rest[i] == ops[i + 1]);
        }
        lemma_frames_then(rest, tail);
        lemma_frames_unfold(ops, tail);
        assert(valid_op(ops[0]));
        lemma_parse_frame(ops[0], frames(rest) + tail);
        lemma_prepend_assoc(seq![ops[0]], rest, parse_log(tail));
    }
}

proof fn lemma_prepend_assoc(a: Seq<StoreOp>, b: Seq<StoreOp>, r: Result<Seq<StoreOp>, AolError>)
    ensures
        prepend(a, prepend(b, r)) == prepend(a + b, r),
{
    match r {
        Ok(t) => {
            assert(a + (b + t) =~= (a + b) + t);
        },
        Err(_) => {},
    }
}

proof fn lemma_prepend_empty(r: Result<Seq<StoreOp>, AolError>)
    ensures
        prepend(seq![], r) == r,
{
    match r {
        Ok(t) => {
            assert(Seq::<StoreOp>::empty() + t =~= t);
        },
        Err(_) => {},
    }
}

/// Recovery reads back what was logged: the records of any sequence of
/// writable operations parse to exactly those operations.
pub proof fn law_log_round_trip(ops: Seq<StoreOp>)
    requires
        forall|i: int| 0 <= i < ops.len() ==> valid_op(#[trigger] ops[i]),
    ensures
        parse_log(frames(ops)) == Ok::<Seq<StoreOp>, AolError>(ops),
{
    lemma_frames_then(ops, seq![]);
    assert(frames(ops) + Seq::<u8>::empty() =~= frames(ops));
    assert(ops + Seq::<StoreOp>::empty() =~= ops);
}

/// A record cut short at the end of a log file, as a crash in the middle of
/// its write leaves it, is left out: the complete records before it parse to
/// their operations.
pub proof fn law_truncated_tail(ops: Seq<StoreOp>, last: StoreOp, cut: nat)
    requires
        forall|i: int| 0 <= i < ops.len() ==> valid_op(#[trigger] ops[i]),
        valid_op(last),
        cut < frame(last).len(),
    ensures
        parse_log(frames(ops) + frame(last).subrange(0, cut as int)) == Ok::<
            Seq<StoreOp>,
            AolError,
        >(ops),
{
    let partial = frame(last).subrange(0, cut as int);
    lemma_frames_then(ops, partial);
    if partial.len() >= 8 {
        lemma_be64_round_trip(record_body(last).len() as u64);
        assert(partial.subrange(0, 8) =~= be64_bytes(record_body(last).len() as u64));
        assert(be64(partial) == be64(partial.subrange(0, 8)));
    }
    assert(ops + Seq::<StoreOp>::empty() =~= ops);
}

/// The operations of `ops` on the keys that log file `i` of `n` records, in
/// their order.
pub open spec fn file_ops(ops: Seq<StoreOp>, i: nat, n: nat) -> Seq<StoreOp>
    decreases ops.len(),
{
    if ops.len() == 0 {
        seq![]
    } else {
        let earlier = file_ops(ops.drop_last(), i, n);
        if shard_of(ops.last().0, n) == i {
            earlier.push(ops.last())
        } else {
            earlier
        }
    }
}

/// The operations of log files `0` to `j - 1` of `n`, file after file.
pub open spec fn files_ops(ops: Seq<StoreOp>, j: nat, n: nat) -> Seq<StoreOp>
    decreases j,
{
    if j == 0 {
        seq![]
    } else {
        files_ops(ops, (j - 1) as nat, n) + file_ops(ops, (j - 1) as nat, n)
    }
}

/// The last operation of `ops` on `k`: `None` when there is none.
pub open spec fn last_op(ops: Seq<StoreOp>, k: Seq<u8>) -> Option<Option<Seq<u8>>>
    decreases ops.len(),
{
    if ops.len() == 0 {
        None
    } else if ops.last().0 == k {
        Some(ops.last().1)
    } else {
        last_op(ops.drop_last(), k)
    }
}

proof fn lemma_apply_ops_at(m: Map<Seq<u8>, Seq<u8>>, ops: Seq<StoreOp>, k: Seq<u8>)
    ensures
        match last_op(ops, k) {
            None => apply_ops(m, ops).contains_key(k) == m.contains_key(k) && (m.contains_key(k)
                ==> apply_ops(m, ops)[k] == m[k]),
            Some(None) => !apply_ops(m, ops).contains_key(k),
            Some(Some(v)) => apply_ops(m, ops).contains_key(k) && apply_ops(m, ops)[k] == v,
        },
    decreases ops.len(),
{
    if ops.len() > 0 {
        lemma_apply_ops_at(m, ops.drop_last(), k);
    }
}

proof fn lemma_same_last_ops(m: Map<Seq<u8>, Seq<u8>>, a: Seq<StoreOp>, b: Seq<StoreOp>)
    requires
        forall|k: Seq<u8>| #[trigger] last_op(a, k) == last_op(b, k),
    ensures
        apply_ops(m, a) == apply_ops(m, b),
{
    assert forall|k: Seq<u8>| #[trigger] apply_ops(m, a).contains_key(k) == apply_ops(
        m,
        b,
    ).contains_key(k) && (apply_ops(m, a).contains_key(k) ==> apply_ops(m, a)[k] == apply_ops(
        m,
        b,
    )[k]) by {
        lemma_apply_ops_at(m, a, k);
        lemma_apply_ops_at(m, b, k);
        assert(last_op(a, k) == last_op(b, k));
    }
    assert(apply_ops(m, a) =~= apply_ops(m, b));
}

proof fn lemma_last_op_concat(a: Seq<StoreOp>, b: Seq<StoreOp>, k: Seq<u8>)
    ensures
        last_op(a + b, k) == if last_op(b, k) is Some {
            last_op(b, k)
        } else {
            last_op(a, k)
        },
    decreases b.len(),
{
    if b.len() == 0 {
        assert(a + b =~= a);
    } else {
        assert((a + b).drop_last() =~= a + b.drop_last());
        assert((a + b).last() == b.last());
        lemma_last_op_concat(a, b.drop_last(), k);
    }
}

proof fn lemma_last_op_file(ops: Seq<StoreOp>, i: nat, n: nat, k: Seq<u8>)
    ensures
        last_op(file_ops(ops, i, n), k) == if shard_of(k, n) == i {
            last_op(ops, k)
        } else {
            None
        },
    decreases ops.len(),
{
    if ops.len() > 0 {
        lemma_last_op_file(ops.drop_last(), i, n, k);
        let earlier = file_ops(ops.drop_last(), i, n);
        if shard_of(ops.last().0, n) == i {
            assert(earlier.push(ops.last()).drop_last() =~= earlier);
        }
    }
}

proof fn lemma_last_op_files(ops: Seq<StoreOp>, j: nat, n: nat, k: Seq<u8>)
    ensures
        last_op(files_ops(ops, j, n), k) == if shard_of(k, n) < j {
            last_op(ops, k)
        } else {
            None
        },
    decreases j,
{
    if j > 0 {
        let jm = (j - 1) as nat;
        lemma_last_op_files(ops, jm, n, k);
        lemma_last_op_file(ops, jm, n, k);
        lemma_last_op_concat(files_ops(ops, jm, n), file_ops(ops, jm, n), k);
    }
}

proof fn lemma_file_ops_valid(ops: Seq<StoreOp>, i: nat, n: nat)
    requires
        forall|j: int| 0 <= j < ops.len() ==> valid_op(#[trigger] ops[j]),
    ensures
        forall|j: int|
            0 <= j < file_ops(ops, i, n).len() ==> valid_op(#[trigger] file_ops(ops, i, n)[j]),
    decreases ops.len(),
{
    if ops.len() > 0 {
        let d = ops.drop_last();
        assert forall|j: int| 0 <= j < d.len() implies valid_op(#[trigger] d[j]) by {
            assert(d[j] == ops[j]);
        }
        lemma_file_ops_valid(d, i, n);
        assert(valid_op(ops[ops.len() - 1]));
        let earlier = file_ops(d, i, n);
        let f = file_ops(ops, i, n);
        assert forall|j: int| 0 <= j < f.len() implies valid_op(#[trigger] f[j]) by {
            if shard_of(ops.last().0, n) == i {
                if j < earlier.len() {
                    assert(f[j] == earlier[j]);
                } else {
                    assert(f[j] == ops.last());
                }
            } else {
                assert(f[j] == earlier[j]);
            }
        }
    }
}

/// Recovery over several log files: when each file holds, in order, the
/// records of the operations on the keys it hosts, replaying the files in
/// index order parses every operation and leaves the store as applying all
/// of them in the order they were made does.
pub proof fn law_recovery_across_files(
    m: Map<Seq<u8>, Seq<u8>>,
    ops: Seq<StoreOp>,
    files: Seq<Seq<u8>>,
)
    requires
        forall|i: int| 0 <= i < ops.len() ==> valid_op(#[trigger] ops[i]),
        files.len() >= 1,
        forall|i: int|
            0 <= i < files.len() ==> #[trigger] files[i] == frames(
                file_ops(ops, i as nat, files.len()),
            ),
    ensures
        parse_logs(files) == Ok::<Seq<StoreOp>, AolError>(files_ops(ops, files.len(), files.len())),
        apply_ops(m, files_ops(ops, files.len(), files.len())) == apply_ops(m, ops),
{
    let n = files.len();
    let tails = Seq::new(n, |i: int| Seq::<u8>::empty());
    assert forall|i: int| 0 <= i < n implies #[trigger] files[i] == frames(
        file_ops(ops, i as nat, n),
    ) + tails[i] && parse_log(tails[i]) == Ok::<Seq<StoreOp>, AolError>(seq![]) by {
        assert(frames(file_ops(ops, i as nat, n)) + tails[i] =~= frames(file_ops(ops, i as nat, n)));
    }
    lemma_recovery_in_order(m, ops, files, tails);
}

/// Recovery over several log files after a crash: when each file holds the
/// records of the operations on the keys it hosts, some followed by a
/// record cut short, replaying the files leaves those cut records out and
/// leaves the store as applying the complete ones in the order they were
/// made does.
pub proof fn law_truncated_tails_across_files(
    m: Map<Seq<u8>, Seq<u8>>,
    ops: Seq<StoreOp>,
    files: Seq<Seq<u8>>,
    lasts: Seq<StoreOp>,
    cuts: Seq<nat>,
)
    requires
        forall|i: int| 0 <= i < ops.len() ==> valid_op(#[trigger] ops[i]),
        files.len() >= 1,
        lasts.len() == files.len(),
        cuts.len() == files.len(),
        forall|i: int|
            0 <= i < files.len() ==> valid_op(#[trigger] lasts[i]) && cuts[i] < frame(
                lasts[i],
            ).len(),
        forall|i: int|
            0 <= i < files.len() ==> #[trigger] files[i] == frames(
                file_ops(ops, i as nat, files.len()),
            ) + frame(lasts[i]).subrange(0, cuts[i] as int),
    ensures
        parse_logs(files) == Ok::<Seq<StoreOp>, AolError>(files_ops(ops, files.len(), files.len())),
        apply_ops(m, files_ops(ops, files.len(), files.len())) == apply_ops(m, ops),
{
    let n = files.len();
    let tails = Seq::new(n, |i: int| frame(lasts[i]).subrange(0, cuts[i] as int));
    assert forall|i: int| 0 <= i < n implies #[trigger] files[i] == frames(
        file_ops(ops, i as nat, n),
    ) + tails[i] && parse_log(tails[i]) == Ok::<Seq<StoreOp>, AolError>(seq![]) by {
        assert(valid_op(lasts[i]));
        law_truncated_tail(seq![], lasts[i], cuts[i]);
        assert(frames(Seq::<StoreOp>::empty()) + tails[i] =~= tails[i]);
    }
    lemma_recovery_in_order(m, ops, files, tails);
}

proof fn lemma_recovery_in_order(
    m: Map<Seq<u8>, Seq<u8>>,
    ops: Seq<StoreOp>,
    files: Seq<Seq<u8>>,
    tails: Seq<Seq<u8>>,
)
    requires
        forall|i: int| 0 <= i < ops.len() ==> valid_op(#[trigger] ops[i]),
        files.len() >= 1,
        tails.len() == files.len(),
        forall|i: int|
            0 <= i < files.len() ==> #[trigger] files[i] == frames(
                file_ops(ops, i as nat, files.len()),
            ) + tails[i] && parse_log(tails[i]) == Ok::<Seq<StoreOp>, AolError>(seq![]),
    ensures
        parse_logs(files) == Ok::<Seq<StoreOp>, AolError>(files_ops(ops, files.len(), files.len())),
        apply_ops(m, files_ops(ops, files.len(), files.len())) == apply_ops(m, ops),
{
    let n = files.len();
    lemma_parse_files_prefix(ops, files, tails, n);
    assert(files.subrange(0, n as int) =~= files);
    assert forall|k: Seq<u8>| #[trigger] last_op(files_ops(ops, n, n), k) == last_op(ops, k) by {
        lemma_last_op_files(ops, n, n, k);
    }
    lemma_same_last_ops(m, files_ops(ops, n, n), ops);
}

proof fn lemma_parse_files_prefix(
    ops: Seq<StoreOp>,
    files: Seq<Seq<u8>>,
    tails: Seq<Seq<u8>>,
    j: nat,
)
    requires
        forall|i: int| 0 <= i < ops.len() ==> valid_op(#[trigger] ops[i]),
        j <= files.len(),
        tails.len() == files.len(),
        forall|i: int|
            0 <= i < files.len() ==> #[trigger] files[i] == frames(
                file_ops(ops, i as nat, files.len()),
            ) + tails[i] && parse_log(tails[i]) == Ok::<Seq<StoreOp>, AolError>(seq![]),
    ensures
        parse_logs(files.subrange(0, j as int)) == Ok::<Seq<StoreOp>, AolError>(
            files_ops(ops, j, files.len()),
        ),
    decreases j,
{
    if j > 0 {
        let jm = (j - 1) as nat;
        lemma_parse_files_prefix(ops, files, tails, jm);
        let pre = files.subrange(0, j as int);
        assert(pre.drop_last() =~= files.subrange(0, jm as int));
        assert(pre.last() == files[jm as int]);
        let fo = file_ops(ops, jm, files.len());
        lemma_file_ops_valid(ops, jm, files.len());
        lemma_frames_then(fo, tails[jm as int]);
        assert(fo + Seq::<StoreOp>::empty() =~= fo);
    } else {
        assert(files.subrange(0, 0) =~= Seq::<Seq<u8>>::empty());
    }
}

/// One logged operation.
#[derive(Debug)]
pub enum Log {
    /// Store an object under a key.
    Put(Key, Object),
    /// Delete what is stored under a key.
    Del(Key),
}

impl View for Log {
    type V = StoreOp;

    open spec fn view(&self) -> StoreOp {
        match self {
            Log::Put(k, o) => (k@, Some(o@)),
            Log::Del(k) => (k@, None),
        }
    }
}

impl Log {
    /// The key the operation is on.
    pub fn key(&self) -> (r: &Key)
        ensures
            r@ == self@.0,
    {
        match self {
            Log::Put(key, _) => key,
            Log::Del(key) => key,
        }
    }

    /// The record of this operation, as appended to a log file.
    pub fn to_bytes(&self) -> (r: Vec<u8>)
        ensures
            valid_op(self@),
            r@ == frame(self@),
    {
        let mut body: Vec<u8> = Vec::new();
        match self {
            Log::Put(key, object) => {
                let _ = key.len();
                object.check_valid();
                body.push(0u8);
                let k = key.to_bytes();
                push_all(&mut body, k.as_slice());
                let o = object.serialize();
                push_all(&mut body, o.as_slice());
            },
            Log::Del(key) => {
                let _ = key.len();
                body.push(1u8);
                let k = key.to_bytes();
                push_all(&mut body, k.as_slice());
            },
        }
        assert(body@ =~= record_body(self@));
        let mut out: Vec<u8> = Vec::new();
        push_u64_be(&mut out, body.len() as u64);
        push_all(&mut out, body.as_slice());
        out
    }

    /// Parses a record body.
    pub fn from_bytes(data: &[u8]) -> (r: Result<Log, AolError>)
        ensures
            match parse_record(data@) {
                Ok(op) => r matches Ok(l) && l@ == op,
                Err(e) => r matches Err(e2) && e2 == e,
            },
    {
        if data.len() < 1 {
            return Err(AolError::CorruptedEntry);
        }
        let op = data[0];
        if op != 0 && op != 1 {
            return Err(AolError::CorruptedEntry);
        }
        let rest = slice_subrange(data, 1, data.len());
        let (key, after) = match Key::new(rest) {
            Ok(x) => x,
            Err(e) => return Err(AolError::ObjectParse(e)),
        };
        if op == 1 {
            return Ok(Log::Del(key));
        }
        match Object::deserialize(after) {
            Ok((object, _)) => Ok(Log::Put(key, object)),
            Err(e) => Err(AolError::ObjectParse(e)),
        }
    }

    /// Applies the operation to `store`, a write stamped with the time `now`,
    /// returning the object it replaces or removes, or null.
    pub fn apply(self, now: u64, store: &mut InMemoryStore) -> (r: Result<Object, StoreError>)
        requires
            old(store).wf(),
        ensures
            final(store).wf(),
            final(store).contents() == apply_op(old(store).contents(), self@),
            r matches Ok(prior) && prior@ == crate::storage::lookup(old(store).contents(), self@.0),
    {
        match self {
            Log::Put(key, object) => store.store(key, object, now),
            Log::Del(key) => store.remove(&key),
        }
    }
}

/// The index of the log file, among `num_files`, that records operations on
/// `key`: the same selection as the store's shards.
pub fn log_file_index(key: &Key, num_files: usize) -> (r: usize)
    requires
        num_files >= 1,
    ensures
        r == shard_of(key@, num_files as nat),
        r < num_files,
{
    (fingerprint(key.as_bytes()) % (num_files as u64)) as usize
}

/// The write path after the record of `log` was appended and flushed, or
/// failed to be: only a record that reached the log is applied to `store`;
/// otherwise the operation fails and `store` is unchanged.
pub fn commit(log: Log, written: bool, now: u64, store: &mut InMemoryStore) -> (r: Result<Object, StoreError>)
    requires
        old(store).wf(),
    ensures
        final(store).wf(),
        !written ==> r is Err && final(store).contents() == old(store).contents(),
        written ==> (r matches Ok(prior) && prior@ == crate::storage::lookup(
            old(store).contents(),
            log@.0,
        ) && final(store).contents() == apply_op(old(store).contents(), log@)),
{
    if written {
        log.apply(now, store)
    } else {
        Err(StoreError)
    }
}

/// `b` is empty or starts with a record cut short: its size field, or the
/// body that the size announces, runs past the end.
pub open spec fn torn(b: Seq<u8>) -> bool {
    b.len() < 8 || b.len() - 8 < be64(b)
}

/// The length of the complete records at the start of a log file's bytes:
/// where recovery stops.
pub open spec fn complete_len(b: Seq<u8>) -> nat
    decreases b.len(),
{
    if torn(b) {
        0
    } else {
        let end: nat = 8 + be64(b) as nat;
        if end > 8 {
            end + complete_len(b.subrange(end as int, b.len() as int))
        } else {
            0
        }
    }
}

/// The complete records of a file that recovery accepts parse on their own
/// to the same operations, and what follows them is a record cut short.
pub proof fn lemma_complete_prefix(b: Seq<u8>)
    requires
        parse_log(b) is Ok,
    ensures
        complete_len(b) <= b.len(),
        torn(b.subrange(complete_len(b) as int, b.len() as int)),
        parse_log(b.subrange(0, complete_len(b) as int)) == parse_log(b),
        complete_len(b.subrange(0, complete_len(b) as int)) == complete_len(b),
    decreases b.len(),
{
    let c = complete_len(b);
    if torn(b) {
        assert(b.subrange(0, 0) =~= Seq::<u8>::empty());
        assert(b.subrange(0, b.len() as int) =~= b);
    } else {
        let end = 8 + be64(b);
        let rest = b.subrange(end as int, b.len() as int);
        lemma_complete_prefix(rest);
        let cr = complete_len(rest);
        let p = b.subrange(0, c as int);
        assert(p.subrange(0, 8) =~= b.subrange(0, 8));
        assert(be64(p) == be64(p.subrange(0, 8)));
        assert(be64(b) == be64(b.subrange(0, 8)));
        assert(p.subrange(8, end as int) =~= b.subrange(8, end as int));
        assert(p.subrange(end as int, p.len() as int) =~= rest.subrange(0, cr as int));
        assert(b.subrange(c as int, b.len() as int) =~= rest.subrange(cr as int, rest.len() as int));
    }
}

proof fn lemma_records_then(c: Seq<u8>, t: Seq<u8>)
    requires
        parse_log(c) is Ok,
        complete_len(c) == c.len(),
    ensures
        parse_log(c + t) == prepend(parse_log(c)->Ok_0, parse_log(t)),
    decreases c.len(),
{
    if c.len() == 0 {
        assert(c + t =~= t);
        assert(parse_log(c) == Ok::<Seq<StoreOp>, AolError>(seq![]));
        lemma_prepend_empty(parse_log(t));
    } else {
        let end = 8 + be64(c);
        let rest = c.subrange(end as int, c.len() as int);
        let ct = c + t;
        assert(ct.subrange(0, 8) =~= c.subrange(0, 8));
        assert(be64(ct) == be64(ct.subrange(0, 8)));
        assert(be64(c) == be64(c.subrange(0, 8)));
        assert(ct.subrange(8, end as int) =~= c.subrange(8, end as int));
        assert(ct.subrange(end as int, ct.len() as int) =~= rest + t);
        lemma_records_then(rest, t);
        let op = parse_record(c.subrange(8, end as int))->Ok_0;
        lemma_prepend_assoc(seq![op], parse_log(rest)->Ok_0, parse_log(t));
    }
}

/// The store stays usable after a crash in the middle of a write: once a
/// log file is cut back to its complete records, records appended later
/// parse after the recovered ones.
pub proof fn law_write_after_recovery(b: Seq<u8>, ops: Seq<StoreOp>)
    requires
        parse_log(b) is Ok,
        forall|i: int| 0 <= i < ops.len() ==> valid_op(#[trigger] ops[i]),
    ensures
        parse_log(b.subrange(0, complete_len(b) as int) + frames(ops)) == Ok::<
            Seq<StoreOp>,
            AolError,
        >(parse_log(b)->Ok_0 + ops),
{
    lemma_complete_prefix(b);
    let c = b.subrange(0, complete_len(b) as int);
    lemma_records_then(c, frames(ops));
    law_log_round_trip(ops);
}

/// Parses the complete records of a log file's bytes, in order, with
/// their length.
pub fn parse_log_records(buffer: &[u8]) -> (r: Result<(Vec<Log>, usize), AolError>)
    ensures
        match parse_log(buffer@) {
            Ok(ops) => r matches Ok((logs, used)) && logs@.len() == ops.len() && (forall|i: int|
                0 <= i < ops.len() ==> (#[trigger] logs@[i])@ == ops[i]) && used == complete_len(
                buffer@,
            ) && used <= buffer@.len() && torn(buffer@.subrange(used as int, buffer@.len() as int))
                && parse_log(buffer@.subrange(0, used as int)) == parse_log(buffer@),
            Err(e) => r matches Err(e2) && e2 == e,
        },
{
    let mut logs: Vec<Log> = Vec::new();
    let mut offset: usize = 0;
    let mut used: usize = 0;
    proof {
        lemma_prepend_empty(parse_log(buffer@));
        assert(logs@.map_values(|l: Log| l@) =~= Seq::<StoreOp>::empty());
        assert(buffer@.subrange(0, buffer@.len() as int) =~= buffer@);
    }
    while offset < buffer.len()
        invariant
            offset <= buffer@.len(),
            parse_log(buffer@) == prepend(
                logs@.map_values(|l: Log| l@),
                parse_log(buffer@.subrange(offset as int, buffer@.len() as int)),
            ),
            complete_len(buffer@) == used + complete_len(
                buffer@.subrange(offset as int, buffer@.len() as int),
            ),
            used == offset || offset == buffer@.len(),
        decreases buffer@.len() - offset,
    {
        let rem = slice_subrange(buffer, offset, buffer.len());
        if rem.len() < 8 {
            proof {
                assert(torn(rem@));
                assert(complete_len(rem@) == 0);
                assert(torn(buffer@.subrange(buffer@.len() as int, buffer@.len() as int)));
            }
            offset = buffer.len();
            continue;
        }
        let size = read_u64_be(rem);
        if ((rem.len() - 8) as u64) < size {
            proof {
                assert(torn(rem@));
                assert(complete_len(rem@) == 0);
                assert(torn(buffer@.subrange(buffer@.len() as int, buffer@.len() as int)));
            }
            offset = buffer.len();
            continue;
        }
        let end = 8 + size as usize;
        let body = slice_subrange(rem, 8, end);
        let log = match Log::from_bytes(body) {
            Ok(l) => l,
            Err(e) => {
                return Err(e);
            },
        };
        if end <= 8 {
            return Err(AolError::CorruptedEntry);
        }
        proof {
            assert(!torn(rem@));
            assert(complete_len(rem@) == end + complete_len(
                rem@.subrange(end as int, rem@.len() as int),
            ));
            let old_done = logs@.map_values(|l: Log| l@);
            assert(rem@.subrange(end as int, rem@.len() as int) =~= buffer@.subrange(
                offset + end,
                buffer@.len() as int,
            ));
            assert(logs@.push(log).map_values(|l: Log| l@) =~= old_done + seq![log@]);
            assert(old_done + (seq![log@] + Seq::<StoreOp>::empty()) =~= old_done + seq![log@]);
            assert forall|rest: Seq<StoreOp>| #![auto] old_done + (seq![log@] + rest) =~= (old_done
                + seq![log@]) + rest by {}
        }
        logs.push(log);
        offset = offset + end;
        used = offset;
    }
    proof {
        let rem = buffer@.subrange(offset as int, buffer@.len() as int);
        assert(rem.len() == 0);
        assert(parse_log(rem) == Ok::<Seq<StoreOp>, AolError>(seq![]));
        assert(logs@.map_values(|l: Log| l@) + Seq::<StoreOp>::empty() =~= logs@.map_values(
            |l: Log| l@,
        ));
        lemma_complete_prefix(buffer@);
    }
    Ok((logs, used))
}

/// Replays the records of one log file into `store`, in order, writes
/// stamped with the time `now`, and returns the length of the complete
/// records: the file is cut back to it before anything is appended. Nothing
/// is applied when a complete record does not parse.
pub fn replay(buffer: &[u8], now: u64, store: &mut InMemoryStore) -> (r: Result<usize, AolError>)
    requires
        old(store).wf(),
    ensures
        final(store).wf(),
        match parse_log(buffer@) {
            Ok(ops) => r matches Ok(used) && used == complete_len(buffer@) && used
                <= buffer@.len() && final(store).contents() == apply_ops(
                old(store).contents(),
                ops,
            ),
            Err(e) => r == Err::<usize, AolError>(e) && final(store).contents() == old(
                store,
            ).contents(),
        },
{
    let (logs, used) = match parse_log_records(buffer) {
        Ok(l) => l,
        Err(e) => return Err(e),
    };
    let ghost ops = parse_log(buffer@)->Ok_0;
    let mut logs = logs;
    let mut i: usize = 0;
    let count = logs.len();
    let ghost n = logs@.len();
    let ghost all = logs@;
    assert(logs@ =~= all.subrange(0, n as int));
    assert(ops.subrange(0, 0) =~= Seq::<StoreOp>::empty());
    while logs.len() > 0
        invariant
            store.wf(),
            i <= n,
            n == ops.len(),
            n == count,
            all.len() == n,
            logs@ == all.subrange(i as int, n as int),
            forall|j: int| 0 <= j < ops.len() ==> (#[trigger] all[j])@ == ops[j],
            store.contents() == apply_ops(old(store).contents(), ops.subrange(0, i as int)),
        decreases logs@.len(),
    {
        let log = logs.remove(0);
        proof {
            assert(log == all[i as int]);
            assert(ops.subrange(0, i + 1).drop_last() =~= ops.subrange(0, i as int));
            assert(logs@ =~= all.subrange(i + 1, n as int));
        }
        let _ = log.apply(now, store);
        i = i + 1;
    }
    assert(ops.subrange(0, i as int) =~= ops);
    Ok(used)
}

/// Replays log files into `store` in ascending index order, writes stamped
/// with the time `now`, and returns for each file the length of its complete
/// records, to cut it back to. A complete record of a file that does not
/// parse is an error.
pub fn recover(files: &Vec<Vec<u8>>, now: u64, store: &mut InMemoryStore) -> (r: Result<
    Vec<usize>,
    AolError,
>)
    requires
        old(store).wf(),
    ensures
        final(store).wf(),
        match parse_logs(files@.map_values(|f: Vec<u8>| f@)) {
            Ok(ops) => r matches Ok(lens) && final(store).contents() == apply_ops(
                old(store).contents(),
                ops,
            ) && lens@.len() == files@.len() && forall|i: int|
                0 <= i < files@.len() ==> #[trigger] lens@[i] == complete_len(files@[i]@),
            Err(e) => r == Err::<Vec<usize>, AolError>(e),
        },
{
    let mut i: usize = 0;
    let mut lens: Vec<usize> = Vec::new();
    while i < files.len()
        invariant
            store.wf(),
            i <= files@.len(),
            lens@.len() == i,
            forall|j: int| 0 <= j < i ==> #[trigger] lens@[j] == complete_len(files@[j]@),
            match parse_logs(files@.map_values(|f: Vec<u8>| f@).subrange(0, i as int)) {
                Ok(ops) => store.contents() == apply_ops(old(store).contents(), ops),
                Err(_) => false,
            },
        decreases files@.len() - i,
    {
        let ghost before = store.contents();
        let ghost views = files@.map_values(|f: Vec<u8>| f@);
        proof {
            assert(views.subrange(0, i + 1).drop_last() =~= views.subrange(0, i as int));
            assert(views.subrange(0, i + 1).last() == files@[i as int]@);
        }
        match replay(files[i].as_slice(), now, store) {
            Err(e) => {
                proof {
                    lemma_parse_logs_err(views, (i + 1) as nat);
                }
                return Err(e);
            },
            Ok(used) => {
                proof {
                    let prev = parse_logs(views.subrange(0, i as int))->Ok_0;
                    let more = parse_log(files@[i as int]@)->Ok_0;
                    lemma_apply_ops_concat(old(store).contents(), prev, more);
                }
                let ghost before_lens = lens@;
                lens.push(used);
                proof {
                    assert(lens@[i as int] == complete_len(files@[i as int]@));
                    assert forall|j: int| 0 <= j < i + 1 implies #[trigger] lens@[j]
                        == complete_len(files@[j]@) by {
                        if j < i {
                            assert(lens@[j] == before_lens[j]);
                        }
                    }
                }
            },
        }
        i = i + 1;
    }
    proof {
        assert(files@.map_values(|f: Vec<u8>| f@).subrange(0, i as int) =~= files@.map_values(
            |f: Vec<u8>| f@,
        ));
    }
    Ok(lens)
}

proof fn lemma_apply_ops_concat(
    m: Map<Seq<u8>, Seq<u8>>,
    a: Seq<StoreOp>,
    b: Seq<StoreOp>,
)
    ensures
        apply_ops(m, a + b) == apply_ops(apply_ops(m, a), b),
    decreases b.len(),
{
    if b.len() == 0 {
        assert(a + b =~= a);
    } else {
        assert((a + b).drop_last() =~= a + b.drop_last());
        lemma_apply_ops_concat(m, a, b.drop_last());
    }
}

proof fn lemma_parse_logs_err(files: Seq<Seq<u8>>, k: nat)
    requires
        k <= files.len(),
        parse_logs(files.subrange(0, k as int)) is Err,
    ensures
        parse_logs(files) == parse_logs(files.subrange(0, k as int)),
    decreases files.len() - k,
{
    if k < files.len() {
        assert(files.subrange(0, k + 1 as int).drop_last() =~= files.subrange(0, k as int));
        lemma_parse_logs_err(files, k + 1);
    } else {
        assert(files.subrange(0, k as int) =~= files);
    }
}

} // verus!
