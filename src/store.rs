//! The store: a log of records held as bytes, and the index over it.
use vstd::prelude::*;
use vstd::slice::slice_subrange;
use vstd::slice::slice_to_vec;
use crate::codec::{
    checksum_ieee, crc32_ieee, decode_spec, decoded_view, encodable, encode, key_at, read_u32_le,
    record_bytes, record_end, value_at, KeyValuePair, LogError, HEADER_LEN,
};
use crate::index::{entries_map, Index};
use crate::snapshot::{bincode_entries, deserialize_entries, serialize_entries};

verus! {

/// The index that replaying the log from `pos` on builds, starting from
/// `idx`: each record sets its key to its own offset, later ones winning.
pub open spec fn replay_from(log: Seq<u8>, pos: int, idx: Map<Seq<u8>, u64>) -> Result<
    Map<Seq<u8>, u64>,
    LogError,
>
    decreases log.len() - pos,
{
    if pos < 0 || pos >= log.len() {
        Ok(idx)
    } else {
        match decode_spec(log, pos) {
            Err(e) => Err(e),
            Ok(None) => Ok(idx),
            Ok(Some(_)) => replay_from(
                log,
                record_end(log, pos),
                idx.insert(key_at(log, pos), pos as u64),
            ),
        }
    }
}

/// The offset and value of the last record with key `target` at or after
/// `pos`, or `found` where there is none.
pub open spec fn find_from(
    log: Seq<u8>,
    pos: int,
    target: Seq<u8>,
    found: Option<(u64, Seq<u8>)>,
) -> Result<Option<(u64, Seq<u8>)>, LogError>
    decreases log.len() - pos,
{
    if pos < 0 || pos >= log.len() {
        Ok(found)
    } else {
        match decode_spec(log, pos) {
            Err(e) => Err(e),
            Ok(None) => Ok(found),
            Ok(Some(_)) => find_from(
                log,
                record_end(log, pos),
                target,
                if key_at(log, pos) == target {
                    Some((pos as u64, value_at(log, pos)))
                } else {
                    found
                },
            ),
        }
    }
}

/// The key and value of the record at `pos`; past the end there is none.
pub open spec fn read_at_spec(log: Seq<u8>, pos: int) -> Result<(Seq<u8>, Seq<u8>), LogError> {
    match decode_spec(log, pos) {
        Ok(Some((k, v, _))) => Ok((k, v)),
        Ok(None) => Err(LogError::Truncated),
        Err(e) => Err(e),
    }
}

/// The current value of `key`: the value of the record that the index
/// names for it, or nothing where the index does not hold it.
pub open spec fn get_spec(log: Seq<u8>, idx: Map<Seq<u8>, u64>, key: Seq<u8>) -> Result<
    Option<Seq<u8>>,
    LogError,
> {
    if idx.contains_key(key) {
        match read_at_spec(log, idx[key] as int) {
            Ok((_, v)) => Ok(Some(v)),
            Err(e) => Err(e),
        }
    } else {
        Ok(None)
    }
}

/// Whether a record of `key` and `value` can be appended to `log`.
pub open spec fn appendable(log: Seq<u8>, key: Seq<u8>, value: Seq<u8>) -> bool {
    encodable(key, value) && log.len() + HEADER_LEN + key.len() + value.len() <= usize::MAX
        && log.len() + HEADER_LEN + key.len() + value.len() <= u64::MAX
}

pub open spec fn option_view(o: Option<(u64, Vec<u8>)>) -> Option<(u64, Seq<u8>)> {
    match o {
        Some((p, v)) => Some((p, v@)),
        None => None,
    }
}

pub open spec fn found_view(r: Result<Option<(u64, Vec<u8>)>, LogError>) -> Result<
    Option<(u64, Seq<u8>)>,
    LogError,
> {
    match r {
        Ok(o) => Ok(option_view(o)),
        Err(e) => Err(e),
    }
}

/// The reserved key under which the index snapshot is stored: `+index`.
pub open spec fn snapshot_key_spec() -> Seq<u8> {
    seq![0x2bu8, 0x69u8, 0x6eu8, 0x64u8, 0x65u8, 0x78u8]
}

/// The reserved key `+index`, under which the index snapshot is stored.
pub fn snapshot_key() -> (r: Vec<u8>)
    ensures
        r@ == snapshot_key_spec(),
{
    let mut r: Vec<u8> = Vec::new();
    r.push(0x2b);
    r.push(0x69);
    r.push(0x6e);
    r.push(0x64);
    r.push(0x65);
    r.push(0x78);
    assert(r@ =~= snapshot_key_spec());
    r
}

/// Whether `after` is `before` with a snapshot of `before`'s index (the
/// reserved key left out) appended under the reserved key.
pub open spec fn persisted(
    before_log: Seq<u8>,
    before_idx: Map<Seq<u8>, u64>,
    after_log: Seq<u8>,
    after_idx: Map<Seq<u8>, u64>,
) -> bool {
    exists|e: Seq<(Seq<u8>, u64)>|
        {
            &&& entries_map(e) == before_idx.remove(snapshot_key_spec())
            &&& appendable(before_log, snapshot_key_spec(), #[trigger] bincode_entries(e))
            &&& after_log == before_log + record_bytes(snapshot_key_spec(), bincode_entries(e))
            &&& after_idx == before_idx.insert(snapshot_key_spec(), before_log.len() as u64)
        }
}

/// Whether the snapshot of `idx` (the reserved key left out) is too large
/// to be appended to `log`, however its entries are ordered.
pub open spec fn snapshot_too_large(log: Seq<u8>, idx: Map<Seq<u8>, u64>) -> bool {
    exists|e: Seq<(Seq<u8>, u64)>|
        crate::index::keys_unique(e) && entries_map(e) == idx.remove(snapshot_key_spec())
            && !appendable(
            log,
            snapshot_key_spec(),
            #[trigger] bincode_entries(e),
        )
}

/// A store: the bytes of its log and the index over them.
pub struct ActionKV {
    log: Vec<u8>,
    index: Index,
}

impl ActionKV {
    /// The bytes of the log.
    pub closed spec fn log_view(&self) -> Seq<u8> {
        self.log@
    }

    /// The index, as a map from keys to offsets.
    pub closed spec fn index_view(&self) -> Map<Seq<u8>, u64> {
        self.index@
    }

    pub closed spec fn wf(&self) -> bool {
        self.index.wf()
    }

    /// A store over the given log bytes, with an empty index; nothing is
    /// read yet.
    pub fn open(log: Vec<u8>) -> (r: ActionKV)
        ensures
            r.wf(),
            r.log_view() == log@,
            r.index_view() == Map::<Seq<u8>, u64>::empty(),
    {
        ActionKV { log, index: Index::new() }
    }

    /// The index over the log.
    pub fn index(&self) -> (r: &Index)
        ensures
            r@ == self.index_view(),
            r.wf() == self.wf(),
    {
        &self.index
    }

    /// The bytes of the log, as they are to stand on disk.
    pub fn log(&self) -> (r: &[u8])
        ensures
            r@ == self.log_view(),
    {
        self.log.as_slice()
    }

    /// The offset at which the next record will be written.
    pub fn seek_to_end(&self) -> (r: u64)
        ensures
            r == self.log_view().len(),
    {
        self.log.len() as u64
    }

    /// Reads the record that starts at `pos`. At the end of the log there is
    /// no record; a record that runs past the end is `Truncated`, and one whose
    /// checksum does not match is `Corrupted`.
    pub fn process_record(log: &[u8], pos: usize) -> (r: Result<Option<(KeyValuePair, usize)>, LogError>)
        ensures
            decoded_view(r) == decode_spec(log@, pos as int),
    {
        let len = log.len();
        if pos >= len {
            return Ok(None);
        }
        let rem = len - pos;
        if rem < HEADER_LEN {
            return Err(LogError::Truncated);
        }
        let saved_checksum = read_u32_le(log, pos);
        let key_len = read_u32_le(log, pos + 4) as usize;
        let val_len = read_u32_le(log, pos + 8) as usize;
        if key_len > rem - HEADER_LEN || val_len > rem - HEADER_LEN - key_len {
            return Err(LogError::Truncated);
        }
        let start = pos + HEADER_LEN;
        let end = start + key_len + val_len;
        let payload = slice_subrange(log, start, end);
        let checksum = checksum_ieee(payload);
        if checksum != saved_checksum {
            return Err(LogError::Corrupted);
        }
        let mut key = slice_to_vec(payload);
        let value = key.split_off(key_len);
        proof {
            assert(key@ =~= key_at(log@, pos as int));
            assert(value@ =~= value_at(log@, pos as int));
        }
        Ok(Some((KeyValuePair { key, value }, end)))
    }

    /// Reads the record at offset `pos`.
    pub fn get_at(&self, pos: u64) -> (r: Result<KeyValuePair, LogError>)
        ensures
            r matches Ok(kv) ==> read_at_spec(self.log_view(), pos as int) == Ok::<
                (Seq<u8>, Seq<u8>),
                LogError,
            >((kv.key@, kv.value@)),
            r matches Err(e) ==> read_at_spec(self.log_view(), pos as int) == Err::<
                (Seq<u8>, Seq<u8>),
                LogError,
            >(e),
    {
        if pos >= self.log.len() as u64 {
            return Err(LogError::Truncated);
        }
        match ActionKV::process_record(self.log.as_slice(), pos as usize) {
            Ok(Some((kv, _))) => Ok(kv),
            Ok(None) => Err(LogError::Truncated),
            Err(e) => Err(e),
        }
    }

    /// The current value of `key`, read from the record the index names.
    pub fn get(&self, key: &[u8]) -> (r: Result<Option<Vec<u8>>, LogError>)
        requires
            self.wf(),
        ensures
            match r {
                Ok(Some(v)) => get_spec(self.log_view(), self.index_view(), key@) == Ok::<
                    Option<Seq<u8>>,
                    LogError,
                >(Some(v@)),
                Ok(None) => get_spec(self.log_view(), self.index_view(), key@) == Ok::<
                    Option<Seq<u8>>,
                    LogError,
                >(None),
                Err(e) => get_spec(self.log_view(), self.index_view(), key@) == Err::<
                    Option<Seq<u8>>,
                    LogError,
                >(e),
            },
    {
        match self.index.lookup(key) {
            None => Ok(None),
            Some(pos) => match self.get_at(pos) {
                Ok(kv) => Ok(Some(kv.value)),
                Err(e) => Err(e),
            },
        }
    }

    /// Appends one record for `key` and `value` and returns the offset at
    /// which it starts; the index is left as it was.
    pub fn insert_but_ignore_index(&mut self, key: &[u8], value: &[u8]) -> (r: Result<
        u64,
        LogError,
    >)
        ensures
            appendable(old(self).log_view(), key@, value@) ==> r == Ok::<u64, LogError>(
                old(self).log_view().len() as u64,
            ) && final(self).log_view() == old(self).log_view() + record_bytes(key@, value@),
            !appendable(old(self).log_view(), key@, value@) ==> r == Err::<u64, LogError>(
                LogError::TooLarge,
            ) && final(self).log_view() == old(self).log_view(),
            final(self).index_view() == old(self).index_view(),
            final(self).wf() == old(self).wf(),
    {
        let rec = match encode(key, value) {
            Ok(b) => b,
            Err(e) => return Err(e),
        };
        let len = self.log.len();
        if rec.len() > usize::MAX - len || rec.len() as u64 > u64::MAX - len as u64 {
            return Err(LogError::TooLarge);
        }
        let mut i: usize = 0;
        while i < rec.len()
            invariant
                i <= rec@.len(),
                self.log@ == old(self).log@ + rec@.subrange(0, i as int),
                self.index == old(self).index,
            decreases rec@.len() - i,
        {
            self.log.push(rec[i]);
            i = i + 1;
            assert(self.log@ =~= old(self).log@ + rec@.subrange(0, i as int));
        }
        assert(rec@.subrange(0, i as int) =~= rec@);
        Ok(len as u64)
    }

    /// Appends a record for `key` and `value` and points the index at it.
    pub fn insert(&mut self, key: &[u8], value: &[u8]) -> (r: Result<(), LogError>)
        requires
            old(self).wf(),
        ensures
            final(self).wf(),
            appendable(old(self).log_view(), key@, value@) ==> r == Ok::<(), LogError>(())
                && final(self).log_view() == old(self).log_view() + record_bytes(key@, value@)
                && final(self).index_view() == old(self).index_view().insert(
                key@,
                old(self).log_view().len() as u64,
            ),
            !appendable(old(self).log_view(), key@, value@) ==> r == Err::<(), LogError>(
                LogError::TooLarge,
            ) && final(self).log_view() == old(self).log_view() && final(self).index_view()
                == old(self).index_view(),
    {
        let pos = match self.insert_but_ignore_index(key, value) {
            Ok(p) => p,
            Err(e) => return Err(e),
        };
        self.index.insert(key, pos);
        Ok(())
    }

    /// The same as `insert`: a new record always wins over older ones.
    pub fn update(&mut self, key: &[u8], value: &[u8]) -> (r: Result<(), LogError>)
        requires
            old(self).wf(),
        ensures
            final(self).wf(),
            appendable(old(self).log_view(), key@, value@) ==> r == Ok::<(), LogError>(())
                && final(self).log_view() == old(self).log_view() + record_bytes(key@, value@)
                && final(self).index_view() == old(self).index_view().insert(
                key@,
                old(self).log_view().len() as u64,
            ),
            !appendable(old(self).log_view(), key@, value@) ==> r == Err::<(), LogError>(
                LogError::TooLarge,
            ) && final(self).log_view() == old(self).log_view() && final(self).index_view()
                == old(self).index_view(),
    {
        self.insert(key, value)
    }

    /// Writes a tombstone for `key`: a record with an empty value. The key
    /// stays in the index.
    pub fn delete(&mut self, key: &[u8]) -> (r: Result<(), LogError>)
        requires
            old(self).wf(),
        ensures
            final(self).wf(),
            appendable(old(self).log_view(), key@, Seq::<u8>::empty()) ==> r == Ok::<
                (),
                LogError,
            >(()) && final(self).log_view() == old(self).log_view() + record_bytes(
                key@,
                Seq::<u8>::empty(),
            ) && final(self).index_view() == old(self).index_view().insert(
                key@,
                old(self).log_view().len() as u64,
            ),
            !appendable(old(self).log_view(), key@, Seq::<u8>::empty()) ==> r == Err::<
                (),
                LogError,
            >(LogError::TooLarge) && final(self).log_view() == old(self).log_view()
                && final(self).index_view() == old(self).index_view(),
    {
        let empty: Vec<u8> = Vec::new();
        self.insert(key, empty.as_slice())
    }

    /// Rebuilds the index by replaying the whole log from its start.
    pub fn load(&mut self) -> (r: Result<(), LogError>)
        requires
            old(self).wf(),
        ensures
            final(self).wf(),
            final(self).log_view() == old(self).log_view(),
            match replay_from(old(self).log_view(), 0, Map::empty()) {
                Ok(m) => r == Ok::<(), LogError>(()) && final(self).index_view() == m,
                Err(e) => r == Err::<(), LogError>(e) && final(self).index_view()
                    == old(self).index_view(),
            },
    {
        let mut index = Index::new();
        let mut pos: usize = 0;
        loop
            invariant
                pos <= self.log@.len(),
                index.wf(),
                self.index.wf(),
                self.index@ == old(self).index@,
                self.log@ == old(self).log@,
                replay_from(self.log@, 0, Map::empty()) == replay_from(self.log@, pos as int, index@),
            ensures
                index.wf(),
                replay_from(self.log@, 0, Map::empty()) == Ok::<Map<Seq<u8>, u64>, LogError>(index@),
            decreases self.log@.len() - pos,
        {
            match ActionKV::process_record(self.log.as_slice(), pos) {
                Ok(None) => break,
                Err(e) => return Err(e),
                Ok(Some((kv, next))) => {
                    index.insert(kv.key.as_slice(), pos as u64);
                    pos = next;
                },
            }
        }
        self.index = index;
        Ok(())
    }

    /// Finds the last record with key `target` by scanning the whole log,
    /// without the index: its offset and value.
    pub fn find(&self, target: &[u8]) -> (r: Result<Option<(u64, Vec<u8>)>, LogError>)
        ensures
            found_view(r) == find_from(self.log_view(), 0, target@, None),
    {
        let mut found: Option<(u64, Vec<u8>)> = None;
        let mut pos: usize = 0;
        loop
            invariant
                pos <= self.log@.len(),
                find_from(self.log@, 0, target@, None) == find_from(
                    self.log@,
                    pos as int,
                    target@,
                    option_view(found),
                ),
            ensures
                find_from(self.log@, 0, target@, None) == Ok::<
                    Option<(u64, Seq<u8>)>,
                    LogError,
                >(option_view(found)),
            decreases self.log@.len() - pos,
        {
            match ActionKV::process_record(self.log.as_slice(), pos) {
                Ok(None) => break,
                Err(e) => return Err(e),
                Ok(Some((kv, next))) => {
                    if crate::index::bytes_eq(kv.key.as_slice(), target) {
                        found = Some((pos as u64, kv.value));
                    }
                    pos = next;
                },
            }
        }
        Ok(found)
    }

    /// Writes a snapshot of the index, without the reserved key itself, as
    /// the value of the reserved key.
    pub fn persist(&mut self) -> (r: Result<(), LogError>)
        requires
            old(self).wf(),
        ensures
            final(self).wf(),
            r is Ok ==> persisted(
                old(self).log_view(),
                old(self).index_view(),
                final(self).log_view(),
                final(self).index_view(),
            ),
            r is Err ==> r == Err::<(), LogError>(LogError::TooLarge) && final(self).log_view()
                == old(self).log_view() && final(self).index_view() == old(self).index_view()
                && snapshot_too_large(old(self).log_view(), old(self).index_view()),
    {
        let key = snapshot_key();
        let entries = self.index.entries_without(key.as_slice());
        let bytes = match serialize_entries(&entries) {
            Some(b) => b,
            None => return Err(LogError::BadSnapshot),
        };
        let ghost e = crate::index::entries_view(entries@);
        let r = self.insert(key.as_slice(), bytes.as_slice());
        assert(bincode_entries(e) == bytes@);
        r
    }

    /// Reads the index back from the latest snapshot in the log.
    pub fn load_snapshot(&self) -> (r: Result<Index, LogError>)
        requires
            self.wf(),
        ensures
            r matches Ok(ix) ==> ix.wf(),
            match get_spec(self.log_view(), self.index_view(), snapshot_key_spec()) {
                Err(e) => r matches Err(x) && x == e,
                Ok(None) => r matches Err(x) && x == LogError::MissingSnapshot,
                Ok(Some(b)) => (r matches Err(x) ==> x == LogError::BadSnapshot) && forall|
                    e: Seq<(Seq<u8>, u64)>,
                | b == #[trigger] bincode_entries(e) ==> (r matches Ok(ix) && ix@ == entries_map(e)),
            },
    {
        let key = snapshot_key();
        match self.get(key.as_slice()) {
            Err(e) => Err(e),
            Ok(None) => Err(LogError::MissingSnapshot),
            Ok(Some(b)) => match deserialize_entries(b.as_slice()) {
                None => Err(LogError::BadSnapshot),
                Some(v) => Ok(Index::from_entries(&v)),
            },
        }
    }
}

} // verus!
