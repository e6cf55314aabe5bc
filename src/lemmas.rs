//! What holds of the log and the index across operations.
use vstd::prelude::*;
use crate::codec::{
    decode_spec, encodable, field_at, key_at, lemma_decode_record, payload_at, record_bytes,
    record_end, value_at, LogError, HEADER_LEN,
};
use crate::index::entries_map;
use crate::snapshot::bincode_entries;
use crate::store::{
    appendable, find_from, get_spec, persisted, read_at_spec, replay_from, snapshot_key_spec,
};

verus! {

/// Bytes appended after a record do not change how it reads.
pub proof fn lemma_decode_extend(log: Seq<u8>, ext: Seq<u8>, pos: int)
    requires
        0 <= pos,
        pos + HEADER_LEN <= log.len(),
        record_end(log, pos) <= log.len(),
    ensures
        decode_spec(log + ext, pos) == decode_spec(log, pos),
        record_end(log + ext, pos) == record_end(log, pos),
        key_at(log + ext, pos) == key_at(log, pos),
        value_at(log + ext, pos) == value_at(log, pos),
{
    let l = log + ext;
    assert forall|i: int| 0 <= i < log.len() implies l[i] == log[i] by {}
    assert(field_at(l, pos) == field_at(log, pos));
    assert(field_at(l, pos + 4) == field_at(log, pos + 4));
    assert(field_at(l, pos + 8) == field_at(log, pos + 8));
    assert(key_at(l, pos) =~= key_at(log, pos));
    assert(value_at(l, pos) =~= value_at(log, pos));
    assert(payload_at(l, pos) =~= payload_at(log, pos));
}

/// Appending a record to a log that replays from `pos` to `idx` makes it
/// replay to `idx` with the record's key set to the record's offset.
pub proof fn lemma_replay_append(
    log: Seq<u8>,
    pos: int,
    m: Map<Seq<u8>, u64>,
    idx: Map<Seq<u8>, u64>,
    key: Seq<u8>,
    value: Seq<u8>,
)
    requires
        0 <= pos <= log.len(),
        log.len() <= u64::MAX,
        encodable(key, value),
        replay_from(log, pos, m) == Ok::<Map<Seq<u8>, u64>, LogError>(idx),
    ensures
        replay_from(log + record_bytes(key, value), pos, m) == Ok::<Map<Seq<u8>, u64>, LogError>(
            idx.insert(key, log.len() as u64),
        ),
    decreases log.len() - pos,
{
    let rec = record_bytes(key, value);
    let l = log + rec;
    if pos == log.len() {
        lemma_decode_record(log, key, value, Seq::empty());
        assert(log + rec + Seq::<u8>::empty() =~= l);
        assert(key_at(l, pos) == key);
        assert(record_end(l, pos) == l.len());
        assert(idx == m);
        let m2 = m.insert(key, pos as u64);
        assert(replay_from(l, l.len() as int, m2) == Ok::<Map<Seq<u8>, u64>, LogError>(m2));
        assert(replay_from(l, pos, m) == replay_from(l, l.len() as int, m2));
    } else {
        lemma_decode_extend(log, rec, pos);
        lemma_replay_append(
            log,
            record_end(log, pos),
            m.insert(key_at(log, pos), pos as u64),
            idx,
            key,
            value,
        );
    }
}

/// The log that a run of writes produces on an empty log; each write is a
/// key and a value (a delete writes the empty value).
pub open spec fn log_after(ops: Seq<(Seq<u8>, Seq<u8>)>) -> Seq<u8>
    decreases ops.len(),
{
    if ops.len() == 0 {
        Seq::empty()
    } else {
        log_after(ops.drop_last()) + record_bytes(ops.last().0, ops.last().1)
    }
}

/// The index kept up to date write by write over the same run.
pub open spec fn index_after(ops: Seq<(Seq<u8>, Seq<u8>)>) -> Map<Seq<u8>, u64>
    decreases ops.len(),
{
    if ops.len() == 0 {
        Map::empty()
    } else {
        index_after(ops.drop_last()).insert(
            ops.last().0,
            log_after(ops.drop_last()).len() as u64,
        )
    }
}

/// Whether every write of the run can be made.
pub open spec fn ops_fit(ops: Seq<(Seq<u8>, Seq<u8>)>) -> bool {
    &&& forall|i: int| 0 <= i < ops.len() ==> encodable(#[trigger] ops[i].0, ops[i].1)
    &&& log_after(ops).len() <= u64::MAX
}

/// Replaying the log that a run of writes produced rebuilds exactly the
/// index that was kept up to date during those writes.
pub proof fn lemma_replay_equivalence(ops: Seq<(Seq<u8>, Seq<u8>)>)
    requires
        ops_fit(ops),
    ensures
        replay_from(log_after(ops), 0, Map::empty()) == Ok::<Map<Seq<u8>, u64>, LogError>(
            index_after(ops),
        ),
    decreases ops.len(),
{
    if ops.len() > 0 {
        let t = ops.drop_last();
        assert(encodable(ops[ops.len() - 1].0, ops[ops.len() - 1].1));
        assert(ops_fit(t)) by {
            assert forall|i: int| 0 <= i < t.len() implies encodable(#[trigger] t[i].0, t[i].1) by {
                assert(t[i] == ops[i]);
            }
        }
        lemma_replay_equivalence(t);
        lemma_replay_append(log_after(t), 0, Map::empty(), index_after(t), ops.last().0, ops.last().1);
    }
}

/// Every key that the index holds reads back, at its offset, as a record
/// with that key.
pub open spec fn offsets_valid(log: Seq<u8>, m: Map<Seq<u8>, u64>) -> bool {
    forall|k: Seq<u8>|
        #[trigger] m.contains_key(k) ==> read_at_spec(log, m[k] as int) == Ok::<
            (Seq<u8>, Seq<u8>),
            LogError,
        >((k, value_at(log, m[k] as int)))
}

pub open spec fn last_match(log: Seq<u8>, m: Map<Seq<u8>, u64>, key: Seq<u8>) -> Option<
    (u64, Seq<u8>),
> {
    if m.contains_key(key) {
        Some((m[key], value_at(log, m[key] as int)))
    } else {
        None
    }
}

proof fn lemma_find_replay(
    log: Seq<u8>,
    pos: int,
    m: Map<Seq<u8>, u64>,
    idx: Map<Seq<u8>, u64>,
    key: Seq<u8>,
)
    requires
        0 <= pos <= log.len(),
        log.len() <= u64::MAX,
        replay_from(log, pos, m) == Ok::<Map<Seq<u8>, u64>, LogError>(idx),
        offsets_valid(log, m),
    ensures
        find_from(log, pos, key, last_match(log, m, key)) == Ok::<
            Option<(u64, Seq<u8>)>,
            LogError,
        >(last_match(log, idx, key)),
        offsets_valid(log, idx),
    decreases log.len() - pos,
{
    if pos < log.len() {
        let k = key_at(log, pos);
        let m2 = m.insert(k, pos as u64);
        assert(read_at_spec(log, pos) == Ok::<(Seq<u8>, Seq<u8>), LogError>(
            (k, value_at(log, pos)),
        ));
        assert(offsets_valid(log, m2)) by {
            assert forall|j: Seq<u8>| #[trigger] m2.contains_key(j) implies read_at_spec(
                log,
                m2[j] as int,
            ) == Ok::<(Seq<u8>, Seq<u8>), LogError>((j, value_at(log, m2[j] as int))) by {
                if j != k {
                    assert(m.contains_key(j));
                }
            }
        }
        assert(last_match(log, m2, key) == (if k == key {
            Some((pos as u64, value_at(log, pos)))
        } else {
            last_match(log, m, key)
        }));
        lemma_find_replay(log, record_end(log, pos), m2, idx, key);
    }
}

/// Scanning the whole log for a key and looking it up through the rebuilt
/// index give the same value: the one of the key's last record.
pub proof fn lemma_find_matches_get(log: Seq<u8>, idx: Map<Seq<u8>, u64>, key: Seq<u8>)
    requires
        log.len() <= u64::MAX,
        replay_from(log, 0, Map::empty()) == Ok::<Map<Seq<u8>, u64>, LogError>(idx),
    ensures
        find_from(log, 0, key, None) == Ok::<Option<(u64, Seq<u8>)>, LogError>(
            last_match(log, idx, key),
        ),
        get_spec(log, idx, key) == Ok::<Option<Seq<u8>>, LogError>(
            if idx.contains_key(key) {
                Some(value_at(log, idx[key] as int))
            } else {
                None
            },
        ),
{
    let e = Map::<Seq<u8>, u64>::empty();
    assert(last_match(log, e, key) == None::<(u64, Seq<u8>)>);
    lemma_find_replay(log, 0, e, idx, key);
    if idx.contains_key(key) {
        assert(read_at_spec(log, idx[key] as int) == Ok::<(Seq<u8>, Seq<u8>), LogError>(
            (key, value_at(log, idx[key] as int)),
        ));
    }
}

/// Writing a key twice and then reading it gives the second value, and the
/// index points at the second record.
pub proof fn lemma_last_write_wins(
    log: Seq<u8>,
    idx: Map<Seq<u8>, u64>,
    key: Seq<u8>,
    v1: Seq<u8>,
    v2: Seq<u8>,
)
    requires
        appendable(log, key, v1),
        appendable(log + record_bytes(key, v1), key, v2),
    ensures
        ({
            let log1 = log + record_bytes(key, v1);
            let idx2 = idx.insert(key, log.len() as u64).insert(key, log1.len() as u64);
            &&& idx2[key] == log1.len()
            &&& get_spec(log1 + record_bytes(key, v2), idx2, key) == Ok::<
                Option<Seq<u8>>,
                LogError,
            >(Some(v2))
        }),
{
    let log1 = log + record_bytes(key, v1);
    lemma_decode_record(log1, key, v2, Seq::empty());
    assert(log1 + record_bytes(key, v2) + Seq::<u8>::empty() =~= log1 + record_bytes(key, v2));
}

/// After a delete the key is still indexed, and reading it gives the empty
/// value rather than nothing.
pub proof fn lemma_tombstone(log: Seq<u8>, idx: Map<Seq<u8>, u64>, key: Seq<u8>)
    requires
        appendable(log, key, Seq::empty()),
    ensures
        idx.insert(key, log.len() as u64).contains_key(key),
        get_spec(
            log + record_bytes(key, Seq::empty()),
            idx.insert(key, log.len() as u64),
            key,
        ) == Ok::<Option<Seq<u8>>, LogError>(Some(Seq::empty())),
{
    lemma_decode_record(log, key, Seq::empty(), Seq::empty());
    assert(log + record_bytes(key, Seq::empty()) + Seq::<u8>::empty() =~= log + record_bytes(
        key,
        Seq::empty(),
    ));
}

/// After a snapshot is written, the snapshot that the log holds under the
/// reserved key encodes the index as it was, the reserved key left out.
pub proof fn lemma_snapshot_round_trip(
    before_log: Seq<u8>,
    before_idx: Map<Seq<u8>, u64>,
    after_log: Seq<u8>,
    after_idx: Map<Seq<u8>, u64>,
)
    requires
        persisted(before_log, before_idx, after_log, after_idx),
    ensures
        exists|e: Seq<(Seq<u8>, u64)>|
            {
                &&& get_spec(after_log, after_idx, snapshot_key_spec()) == Ok::<
                    Option<Seq<u8>>,
                    LogError,
                >(Some(#[trigger] bincode_entries(e)))
                &&& entries_map(e) == before_idx.remove(snapshot_key_spec())
            },
{
    let e = choose|e: Seq<(Seq<u8>, u64)>|
        {
            &&& entries_map(e) == before_idx.remove(snapshot_key_spec())
            &&& appendable(before_log, snapshot_key_spec(), #[trigger] bincode_entries(e))
            &&& after_log == before_log + record_bytes(snapshot_key_spec(), bincode_entries(e))
            &&& after_idx == before_idx.insert(snapshot_key_spec(), before_log.len() as u64)
        };
    let k = snapshot_key_spec();
    let b = bincode_entries(e);
    lemma_decode_record(before_log, k, b, Seq::empty());
    assert(before_log + record_bytes(k, b) + Seq::<u8>::empty() =~= after_log);
    assert(get_spec(after_log, after_idx, k) == Ok::<Option<Seq<u8>>, LogError>(Some(b)));
}

} // verus!
