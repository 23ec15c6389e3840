use kvs::keydir::{KeyDir, Value};
use kvs::kvs::{value_string, KvStore, KvsError, MAX_FILE_SIZE};
use kvs::record::{decode_value, encode_record};
use kvs::simple_kv;

fn read_back(log: &[u8], v: &Value) -> Vec<u8> {
    let start = v.offset_position as usize;
    log[start..start + v.size].to_vec()
}

#[test]
fn record_layout() {
    let r = encode_record(0x0102030405060708, b"ab", b"xyz");
    assert_eq!(
        r,
        vec![1, 2, 3, 4, 5, 6, 7, 8, 0, 0, 0, 0, 0, 0, 0, 2, 0, 0, 0, 0, 0, 0, 0, 3, b'a', b'b', b'x', b'y', b'z']
    );
}

#[test]
fn record_roundtrip() {
    let r = encode_record(42, b"key", b"value");
    assert_eq!(decode_value(&r), Some(b"value".to_vec()));
}

#[test]
fn record_too_short() {
    assert_eq!(decode_value(&[0u8; 23]), None);
    let mut r = encode_record(1, b"k", b"v");
    r.pop();
    assert_eq!(decode_value(&r), None);
}

#[test]
fn value_string_checks_utf8() {
    assert_eq!(value_string("héllo".as_bytes().to_vec()).ok(), Some("héllo".to_string()));
    assert!(matches!(value_string(vec![0xff, 0xfe]), Err(KvsError::Io(_))));
}

#[test]
fn keydir_insert_replaces() {
    let mut d = KeyDir::new();
    let v1 = Value { offset_position: 0, size: 10, file_id: 1, timestamp: 5 };
    let v2 = Value { offset_position: 10, size: 12, file_id: 1, timestamp: 6 };
    d.insert("a", v1);
    d.insert("b", v1);
    d.insert("a", v2);
    assert_eq!(d.get("a"), Some(v2));
    assert_eq!(d.get("b"), Some(v1));
    assert_eq!(d.get("c"), None);
}

#[test]
fn bitcask_get_after_set() {
    let mut kv = KvStore::new("./data", 7);
    let mut log: Vec<u8> = Vec::new();
    for (k, v, ts) in [("k1", "one", 100u64), ("k2", "two", 101), ("k1", "uno", 102)] {
        assert!(kv.has_room_for(k, v));
        let rec = encode_record(ts, k.as_bytes(), v.as_bytes());
        log.extend_from_slice(&rec);
        kv.set(k, v, ts);
    }
    assert_eq!(kv.active_position(), log.len() as u64);
    let loc = kv.locate("k1").ok().unwrap();
    assert_eq!(loc, Value { offset_position: 58, size: 29, file_id: 7, timestamp: 102 });
    let bytes = decode_value(&read_back(&log, &loc)).unwrap();
    assert_eq!(value_string(bytes).ok(), Some("uno".to_string()));
    let loc2 = kv.locate("k2").ok().unwrap();
    let bytes2 = decode_value(&read_back(&log, &loc2)).unwrap();
    assert_eq!(value_string(bytes2).ok(), Some("two".to_string()));
}

#[test]
fn bitcask_missing_key() {
    let kv = KvStore::new("d", 1);
    assert!(matches!(kv.locate("nope"), Err(KvsError::KeyNotFound)));
}

#[test]
fn bitcask_rotation() {
    let mut kv = KvStore::new("d", 1);
    assert!(!kv.needs_new_file());
    let big = "x".repeat(MAX_FILE_SIZE as usize);
    kv.set("k", &big, 1);
    assert!(kv.needs_new_file());
    assert!(kv.has_file(1));
    assert!(!kv.has_file(2));
    kv.start_file(2);
    assert_eq!(kv.active_file_id(), 2);
    assert_eq!(kv.active_position(), 0);
    assert!(kv.has_file(1) && kv.has_file(2));
    assert_eq!(kv.locate("k").ok().unwrap().file_id, 1);
    kv.set("j", "v", 2);
    assert_eq!(kv.locate("j").ok().unwrap(), Value { offset_position: 0, size: 26, file_id: 2, timestamp: 2 });
    assert_eq!(kv.dir_path(), "d");
}

#[test]
fn error_messages() {
    assert_eq!(KvsError::KeyNotFound.describe(), "key not found");
    assert_eq!(KvsError::LockPoisoned.describe(), "lock poisoned");
    let e = KvsError::from(std::io::Error::new(std::io::ErrorKind::Other, "boom"));
    assert_eq!(e.describe(), "IO error: boom");
}

#[test]
fn simple_kv_set_returns_record() {
    let mut kv = simple_kv::KvStore::new("tmp");
    let r1 = kv.set("a".to_string(), "1".to_string(), 9);
    assert_eq!(r1, encode_record(9, b"a", b"1"));
    let r2 = kv.set("a".to_string(), "22".to_string(), 10);
    assert_eq!(kv.log_position(), (r1.len() + r2.len()) as u64);
    let loc = kv.locate("a").unwrap();
    assert_eq!(loc.offset_position(), r1.len() as u64);
    assert_eq!(loc.size(), r2.len());
    assert_eq!(loc.file_id(), simple_kv::FILE_ID);
    assert_eq!(loc.timestamp(), 10);
    assert_eq!(kv.locate("b"), None);
    assert_eq!(kv.dir_path(), "tmp");
}

#[test]
fn io_message_appends_text() {
    assert_eq!(kvs::kvs::io_message("disk full"), "IO error: disk full");
}
