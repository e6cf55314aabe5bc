use actionkv::codec::{encode, LogError};
use actionkv::store::{snapshot_key, ActionKV};

fn fresh() -> ActionKV {
    ActionKV::open(Vec::new())
}

fn reopen(db: &ActionKV) -> ActionKV {
    let mut again = ActionKV::open(db.log().to_vec());
    again.load().unwrap();
    again
}

#[test]
fn encode_gives_exact_bytes() {
    let rec = encode(b"a", b"1").unwrap();
    assert_eq!(rec, vec![35, 72, 225, 108, 1, 0, 0, 0, 1, 0, 0, 0, 97, 49]);
}

#[test]
fn encode_empty_record() {
    let rec = encode(b"", b"").unwrap();
    assert_eq!(rec, vec![0u8; 12]);
}

#[test]
fn decode_round_trip() {
    let rec = encode(b"hello", b"world!").unwrap();
    let (kv, next) = ActionKV::process_record(&rec, 0).unwrap().unwrap();
    assert_eq!(kv.key, b"hello".to_vec());
    assert_eq!(kv.value, b"world!".to_vec());
    assert_eq!(next, rec.len());
}

#[test]
fn decode_at_end_is_none() {
    let rec = encode(b"k", b"v").unwrap();
    assert!(ActionKV::process_record(&rec, rec.len()).unwrap().is_none());
    assert!(ActionKV::process_record(&[], 0).unwrap().is_none());
}

#[test]
fn flipped_bit_is_corruption() {
    let rec = encode(b"key", b"value").unwrap();
    for i in 12..rec.len() {
        for bit in 0..8 {
            let mut bad = rec.clone();
            bad[i] ^= 1 << bit;
            assert_eq!(ActionKV::process_record(&bad, 0).err(), Some(LogError::Corrupted));
        }
    }
}

#[test]
fn short_record_is_truncated() {
    let rec = encode(b"key", b"value").unwrap();
    assert_eq!(ActionKV::process_record(&rec[..5], 0).err(), Some(LogError::Truncated));
    assert_eq!(ActionKV::process_record(&rec[..rec.len() - 1], 0).err(), Some(LogError::Truncated));
    let mut db = ActionKV::open(rec[..rec.len() - 1].to_vec());
    assert_eq!(db.load(), Err(LogError::Truncated));
}

#[test]
fn corrupt_log_fails_load() {
    let mut rec = encode(b"key", b"value").unwrap();
    let last = rec.len() - 1;
    rec[last] ^= 0x10;
    let mut db = ActionKV::open(rec);
    assert_eq!(db.load(), Err(LogError::Corrupted));
}

#[test]
fn last_write_wins() {
    let mut db = fresh();
    db.insert(b"k", b"v1").unwrap();
    let second = db.seek_to_end();
    db.insert(b"k", b"v2").unwrap();
    assert_eq!(db.get(b"k").unwrap(), Some(b"v2".to_vec()));
    assert_eq!(second, 15);
    let (pos, value) = db.find(b"k").unwrap().unwrap();
    assert_eq!(pos, second);
    assert_eq!(value, b"v2".to_vec());
}

#[test]
fn delete_leaves_empty_value() {
    let mut db = fresh();
    db.insert(b"k", b"v").unwrap();
    db.delete(b"k").unwrap();
    assert_eq!(db.get(b"k").unwrap(), Some(Vec::new()));
    assert_eq!(reopen(&db).get(b"k").unwrap(), Some(Vec::new()));
}

#[test]
fn missing_key_is_none() {
    let mut db = fresh();
    db.insert(b"k", b"v").unwrap();
    assert_eq!(db.get(b"other").unwrap(), None);
    assert_eq!(db.find(b"other").unwrap(), None);
}

#[test]
fn replay_matches_incremental_index() {
    let mut db = fresh();
    db.insert(b"a", b"1").unwrap();
    db.update(b"b", b"22").unwrap();
    db.delete(b"a").unwrap();
    db.insert(b"c", b"333").unwrap();
    db.update(b"b", b"4").unwrap();
    let again = reopen(&db);
    for key in [&b"a"[..], b"b", b"c", b"d"] {
        assert_eq!(again.get(key).unwrap(), db.get(key).unwrap());
        let f = again.find(key).unwrap().map(|(_, v)| v);
        assert_eq!(f, db.get(key).unwrap());
    }
    assert_eq!(again.get(b"b").unwrap(), Some(b"4".to_vec()));
}

#[test]
fn load_of_empty_log() {
    let mut db = fresh();
    db.load().unwrap();
    assert_eq!(db.get(b"a").unwrap(), None);
    assert_eq!(db.seek_to_end(), 0);
}

#[test]
fn get_at_reads_one_record() {
    let mut db = fresh();
    db.insert(b"a", b"1").unwrap();
    db.insert(b"b", b"2").unwrap();
    let kv = db.get_at(14).unwrap();
    assert_eq!(kv.key, b"b".to_vec());
    assert_eq!(kv.value, b"2".to_vec());
    assert_eq!(db.get_at(28).err(), Some(LogError::Truncated));
    assert_eq!(db.get_at(3).err(), Some(LogError::Truncated));
}

#[test]
fn insert_but_ignore_index_returns_offset() {
    let mut db = fresh();
    assert_eq!(db.insert_but_ignore_index(b"a", b"1").unwrap(), 0);
    assert_eq!(db.insert_but_ignore_index(b"bb", b"").unwrap(), 14);
    assert_eq!(db.get(b"a").unwrap(), None);
    assert_eq!(db.seek_to_end(), 28);
}

#[test]
fn snapshot_round_trip() {
    let mut db = fresh();
    db.insert(b"a", b"1").unwrap();
    db.insert(b"b", b"2").unwrap();
    db.persist().unwrap();
    db.update(b"a", b"3").unwrap();
    db.persist().unwrap();
    let ix = db.load_snapshot().unwrap();
    assert_eq!(ix.lookup(b"a"), Some(88));
    assert_eq!(ix.lookup(b"b"), Some(14));
    assert_eq!(ix.lookup(&snapshot_key()), None);
    assert_eq!(ix.lookup(b"c"), None);
}

#[test]
fn snapshot_value_is_bincode() {
    let mut db = fresh();
    db.insert(b"a", b"1").unwrap();
    db.persist().unwrap();
    let stored = db.get(&snapshot_key()).unwrap().unwrap();
    assert_eq!(
        stored,
        vec![1, 0, 0, 0, 0, 0, 0, 0, 1, 0, 0, 0, 0, 0, 0, 0, 97, 0, 0, 0, 0, 0, 0, 0, 0]
    );
}

#[test]
fn snapshot_missing() {
    let mut db = fresh();
    db.insert(b"a", b"1").unwrap();
    assert_eq!(db.load_snapshot().err(), Some(LogError::MissingSnapshot));
}

#[test]
fn snapshot_bad_bytes() {
    let mut db = fresh();
    db.insert(&snapshot_key(), b"xy").unwrap();
    assert_eq!(db.load_snapshot().err(), Some(LogError::BadSnapshot));
}

#[test]
fn snapshot_key_is_plus_index() {
    assert_eq!(snapshot_key(), b"+index".to_vec());
}

#[test]
fn end_to_end_scenario() {
    let mut db = fresh();
    db.load().unwrap();
    db.insert(b"a", b"1").unwrap();
    db.insert(b"b", b"2").unwrap();
    db.update(b"a", b"3").unwrap();
    db.delete(b"b").unwrap();
    let again = reopen(&db);
    assert_eq!(again.get(b"a").unwrap(), Some(b"3".to_vec()));
    assert_eq!(again.get(b"b").unwrap(), Some(Vec::new()));
    assert_eq!(again.get(b"c").unwrap(), None);
}

#[test]
fn index_points_at_latest_record() {
    let mut db = fresh();
    db.insert(b"a", b"1").unwrap();
    db.insert(b"b", b"2").unwrap();
    db.update(b"a", b"3").unwrap();
    assert_eq!(db.index().lookup(b"a"), Some(28));
    assert_eq!(db.index().lookup(b"b"), Some(14));
    assert_eq!(db.index().lookup(b"c"), None);
    assert_eq!(reopen(&db).index().lookup(b"a"), Some(28));
}
