use crab::append_only_log::{
    commit, log_file_index, parse_log_records, recover, replay, AolError, Log,
};
use crab::concurrent_map::{fingerprint, ConcurrentMap};
use crab::object::{Key, Object, ObjectError};
use crab::storage::InMemoryStore;
use crab::types::Int;

fn key(s: &str) -> Key {
    Key::from_slice(s.as_bytes()).unwrap()
}

fn int_bytes(v: i64) -> Vec<u8> {
    let mut b = vec![1u8];
    b.extend_from_slice(&v.to_be_bytes());
    b
}

#[test]
fn fingerprint_is_fnv1a() {
    assert_eq!(fingerprint(b""), 0xcbf2_9ce4_8422_2325);
    assert_eq!(fingerprint(b"a"), 0xaf63_dc4c_8601_ec8c);
    assert_eq!(fingerprint(b"foobar"), 0x8594_4171_f739_67e8);
}

#[test]
fn sharded_map_operations() {
    let mut m: ConcurrentMap<u32> = ConcurrentMap::new(4);
    assert_eq!(m.insert(key("a"), 1), None);
    assert_eq!(m.insert(key("b"), 2), None);
    assert_eq!(m.insert(key("a"), 3), Some(1));
    assert_eq!(m.get(&key("a")), Some(&3));
    assert_eq!(m.get(&key("c")), None);
    assert_eq!(m.remove(&key("b")), Some(2));
    assert_eq!(m.remove(&key("b")), None);
    assert_eq!(m.get(&key("b")), None);
    let i = m.shard_index(&key("a"));
    assert_eq!(i, (fingerprint(b"a") % 4) as usize);
}

#[test]
fn store_returns_prior_values() {
    let mut s = InMemoryStore::new(4);
    assert_eq!(s.store(key("x"), Int::new_object(42), 1).unwrap().serialize(), vec![0u8]);
    assert_eq!(s.retrieve(&key("x")).unwrap().serialize(), int_bytes(42));
    assert_eq!(s.store(key("x"), Int::new_object(7), 1).unwrap().serialize(), int_bytes(42));
    assert_eq!(s.remove(&key("x")).unwrap().serialize(), int_bytes(7));
    assert_eq!(s.retrieve(&key("x")).unwrap().serialize(), vec![0u8]);
    assert_eq!(s.remove(&key("x")).unwrap().serialize(), vec![0u8]);
}

#[test]
fn store_tracks_update_time() {
    let mut s = InMemoryStore::new(1);
    assert_eq!(s.updated_at(&key("t")), 0);
    s.store(key("t"), Object::null(), 1234).unwrap();
    assert_eq!(s.updated_at(&key("t")), 1234);
    s.store(key("t"), Int::new_object(1), 1300).unwrap();
    assert_eq!(s.updated_at(&key("t")), 1300);
    s.remove(&key("t")).unwrap();
    assert_eq!(s.updated_at(&key("t")), 0);
}

#[test]
fn last_write_wins() {
    let mut s = InMemoryStore::new(2);
    s.store(key("k"), Int::new_object(1), 1).unwrap();
    s.store(key("k"), Int::new_object(2), 1).unwrap();
    s.remove(&key("k")).unwrap();
    s.store(key("k"), Int::new_object(3), 1).unwrap();
    s.store(key("j"), Int::new_object(9), 1).unwrap();
    s.remove(&key("j")).unwrap();
    assert_eq!(s.retrieve(&key("k")).unwrap().serialize(), int_bytes(3));
    assert_eq!(s.retrieve(&key("j")).unwrap().serialize(), vec![0u8]);
}

#[test]
fn log_record_bytes() {
    let rec = Log::Put(key("k"), Int::new_object(3)).to_bytes();
    let mut expected = 13u64.to_be_bytes().to_vec();
    expected.extend([0u8, 0, 1, b'k']);
    expected.extend(int_bytes(3));
    assert_eq!(rec, expected);
    let del = Log::Del(key("k")).to_bytes();
    let mut expected = 4u64.to_be_bytes().to_vec();
    expected.extend([1u8, 0, 1, b'k']);
    assert_eq!(del, expected);
    assert_eq!(Log::Del(key("k")).key().as_bytes(), b"k");
}

fn sequence_bytes() -> Vec<u8> {
    let mut file = Vec::new();
    file.extend(Log::Put(key("k"), Int::new_object(1)).to_bytes());
    file.extend(Log::Put(key("k"), Int::new_object(2)).to_bytes());
    file.extend(Log::Del(key("k")).to_bytes());
    file.extend(Log::Put(key("k"), Int::new_object(3)).to_bytes());
    file
}

#[test]
fn recovery_replays_log() {
    let file = sequence_bytes();
    let (logs, used) = parse_log_records(&file).unwrap();
    assert_eq!(logs.len(), 4);
    assert_eq!(used, file.len());
    let mut s = InMemoryStore::new(4);
    assert_eq!(replay(&file, 5, &mut s).unwrap(), file.len());
    assert_eq!(s.updated_at(&key("k")), 5);
    assert_eq!(s.retrieve(&key("k")).unwrap().serialize(), int_bytes(3));
}

#[test]
fn recovery_drops_truncated_tail() {
    let mut file = sequence_bytes();
    let extra = Log::Put(key("k"), Int::new_object(4)).to_bytes();
    for cut in [0usize, 3, 8, 12, extra.len() - 1] {
        let mut f = file.clone();
        f.extend_from_slice(&extra[..cut]);
        let mut s = InMemoryStore::new(4);
        assert_eq!(replay(&f, 0, &mut s).unwrap(), file.len());
        assert_eq!(s.retrieve(&key("k")).unwrap().serialize(), int_bytes(3));
        // the store stays usable
        s.store(key("k"), Int::new_object(5), 1).unwrap();
        assert_eq!(s.retrieve(&key("k")).unwrap().serialize(), int_bytes(5));
    }
    file.extend(extra);
    assert_eq!(parse_log_records(&file).unwrap().0.len(), 5);
}

#[test]
fn recovery_rejects_corrupted_record() {
    let mut file = Log::Del(key("a")).to_bytes();
    file.extend(2u64.to_be_bytes());
    file.extend([7u8, 0]);
    file.extend(Log::Del(key("b")).to_bytes());
    assert_eq!(parse_log_records(&file).unwrap_err(), AolError::CorruptedEntry);
    let mut bad_key = 3u64.to_be_bytes().to_vec();
    bad_key.extend([1u8, 0, 0]);
    assert_eq!(
        parse_log_records(&bad_key).unwrap_err(),
        AolError::ObjectParse(ObjectError::MalformedData)
    );
    let mut empty_body = 0u64.to_be_bytes().to_vec();
    empty_body.push(0);
    assert_eq!(parse_log_records(&empty_body).unwrap_err(), AolError::CorruptedEntry);
    let mut s = InMemoryStore::new(1);
    s.store(key("a"), Object::null(), 1).unwrap();
    assert_eq!(replay(&file, 0, &mut s).unwrap_err(), AolError::CorruptedEntry);
    assert_eq!(s.retrieve(&key("a")).unwrap().serialize(), vec![0u8]);
}

#[test]
fn recovery_over_several_files() {
    let mut f0 = Log::Put(key("a"), Int::new_object(1)).to_bytes();
    f0.extend(Log::Put(key("b"), Int::new_object(2)).to_bytes());
    let f1 = Log::Del(key("a")).to_bytes();
    let mut s = InMemoryStore::new(2);
    let lens = recover(&vec![f0.clone(), f1.clone()], 0, &mut s).unwrap();
    assert_eq!(lens, vec![f0.len(), f1.len()]);
    assert_eq!(s.retrieve(&key("a")).unwrap().serialize(), vec![0u8]);
    assert_eq!(s.retrieve(&key("b")).unwrap().serialize(), int_bytes(2));
    assert!(log_file_index(&key("a"), 3) < 3);
    assert_eq!(log_file_index(&key("a"), 4), (fingerprint(b"a") % 4) as usize);
}

#[test]
fn failed_log_write_leaves_store_unchanged() {
    let mut s = InMemoryStore::new(1);
    assert!(commit(Log::Put(key("q"), Int::new_object(1)), false, 0, &mut s).is_err());
    assert_eq!(s.retrieve(&key("q")).unwrap().serialize(), vec![0u8]);
    let prior = commit(Log::Put(key("q"), Int::new_object(1)), true, 0, &mut s).unwrap();
    assert_eq!(prior.serialize(), vec![0u8]);
    assert_eq!(s.retrieve(&key("q")).unwrap().serialize(), int_bytes(1));
}

#[test]
fn writes_after_torn_tail_survive_restart() {
    let mut file = sequence_bytes();
    let complete = file.len();
    let torn = Log::Put(key("k"), Int::new_object(4)).to_bytes();
    file.extend_from_slice(&torn[..3]);
    let mut s = InMemoryStore::new(2);
    let used = replay(&file, 0, &mut s).unwrap();
    assert_eq!(used, complete);
    // cut the file back, then log a write as the server does
    file.truncate(used);
    file.extend(Log::Put(key("k"), Int::new_object(6)).to_bytes());
    file.extend(Log::Put(key("z"), Int::new_object(7)).to_bytes());
    let mut restarted = InMemoryStore::new(2);
    assert_eq!(replay(&file, 0, &mut restarted).unwrap(), file.len());
    assert_eq!(restarted.retrieve(&key("k")).unwrap().serialize(), int_bytes(6));
    assert_eq!(restarted.retrieve(&key("z")).unwrap().serialize(), int_bytes(7));
}

#[test]
fn torn_tails_in_several_files() {
    let mut f0 = Log::Put(key("a"), Int::new_object(1)).to_bytes();
    let torn = Log::Put(key("a"), Int::new_object(2)).to_bytes();
    f0.extend_from_slice(&torn[..10]);
    let mut f1 = Log::Put(key("b"), Int::new_object(3)).to_bytes();
    let torn1 = Log::Del(key("b")).to_bytes();
    f1.extend_from_slice(&torn1[..5]);
    let mut s = InMemoryStore::new(2);
    let lens = recover(&vec![f0.clone(), f1.clone()], 0, &mut s).unwrap();
    assert_eq!(lens, vec![f0.len() - 10, f1.len() - 5]);
    assert_eq!(s.retrieve(&key("a")).unwrap().serialize(), int_bytes(1));
    assert_eq!(s.retrieve(&key("b")).unwrap().serialize(), int_bytes(3));
}
