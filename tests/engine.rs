use kvs::codec::{encode_command, read_record, Command, Decoded};
use kvs::store::{KvStore, KvsError};

fn s(t: &str) -> String {
    t.to_owned()
}

fn get(store: &KvStore, k: &str) -> Option<String> {
    store.get(s(k)).unwrap()
}

fn total(store: &KvStore) -> usize {
    store.segment_bytes().iter().map(|b| b.len()).sum()
}

#[test]
fn set_get_remove_scenario() {
    let mut store = KvStore::new();
    store.set(s("foo"), s("bar")).unwrap();
    assert_eq!(get(&store, "foo"), Some(s("bar")));
    store.remove(s("foo")).unwrap();
    assert_eq!(get(&store, "foo"), None);
    assert_eq!(store.remove(s("foo")), Err(KvsError::KeyNotFound));
}

#[test]
fn round_trip_including_empty_strings() {
    let mut store = KvStore::new();
    store.set(s(""), s("")).unwrap();
    assert_eq!(get(&store, ""), Some(s("")));
    store.set(s("k"), s("")).unwrap();
    assert_eq!(get(&store, "k"), Some(s("")));
    store.set(s(""), s("v")).unwrap();
    assert_eq!(get(&store, ""), Some(s("v")));
}

#[test]
fn non_ascii_text_round_trips() {
    let mut store = KvStore::new();
    store.set(s("clé"), s("héllo wörld ✓")).unwrap();
    assert_eq!(get(&store, "clé"), Some(s("héllo wörld ✓")));
    let reopened = KvStore::open(store.segment_bytes()).unwrap();
    assert_eq!(get(&reopened, "clé"), Some(s("héllo wörld ✓")));
}

#[test]
fn latest_write_wins_over_a_sequence() {
    let mut store = KvStore::new();
    store.set(s("a"), s("1")).unwrap();
    store.set(s("b"), s("2")).unwrap();
    store.set(s("a"), s("3")).unwrap();
    store.remove(s("b")).unwrap();
    store.set(s("c"), s("4")).unwrap();
    store.remove(s("c")).unwrap();
    store.set(s("c"), s("5")).unwrap();
    assert_eq!(get(&store, "a"), Some(s("3")));
    assert_eq!(get(&store, "b"), None);
    assert_eq!(get(&store, "c"), Some(s("5")));
    assert_eq!(get(&store, "never"), None);
}

#[test]
fn restart_keeps_values() {
    let mut store = KvStore::new();
    store.set(s("a"), s("1")).unwrap();
    store.set(s("b"), s("2")).unwrap();
    let reopened = KvStore::open(store.segment_bytes()).unwrap();
    assert_eq!(get(&reopened, "a"), Some(s("1")));
    assert_eq!(get(&reopened, "b"), Some(s("2")));
}

#[test]
fn open_of_nothing_is_empty() {
    let store = KvStore::open(Vec::new()).unwrap();
    assert_eq!(get(&store, "a"), None);
    assert_eq!(store.segment_count(), 1);
}

#[test]
fn torn_tail_is_discarded_at_every_cut() {
    let mut store = KvStore::new();
    store.set(s("a"), s("1")).unwrap();
    store.set(s("b"), s("2")).unwrap();
    let whole = store.segment_bytes();
    let before = whole[0].len();
    store.set(s("c"), s("3")).unwrap();
    let full = store.segment_bytes();
    for cut in before + 1..full[0].len() {
        let mut segs = full.clone();
        segs[0].truncate(cut);
        let reopened = KvStore::open(segs).unwrap();
        assert_eq!(get(&reopened, "a"), Some(s("1")));
        assert_eq!(get(&reopened, "b"), Some(s("2")));
        assert_eq!(get(&reopened, "c"), None);
        assert_eq!(reopened.segment_bytes()[0].len(), before);
    }
}

#[test]
fn bad_record_is_corrupt() {
    let mut store = KvStore::new();
    store.set(s("a"), s("1")).unwrap();
    store.set(s("b"), s("2")).unwrap();
    let mut segs = store.segment_bytes();
    segs[0][0] = 9;
    assert!(matches!(KvStore::open(segs), Err(KvsError::CorruptRecord)));
}

#[test]
fn invalid_utf8_is_corrupt() {
    let mut store = KvStore::new();
    store.set(s("a"), s("1")).unwrap();
    let mut segs = store.segment_bytes();
    segs[0][9] = 0xff;
    assert!(matches!(KvStore::open(segs), Err(KvsError::CorruptRecord)));
}

#[test]
fn torn_record_in_sealed_segment_is_corrupt() {
    let mut store = KvStore::with_segment_limit(1);
    store.set(s("a"), s("1")).unwrap();
    store.set(s("b"), s("2")).unwrap();
    let mut segs = store.segment_bytes();
    assert_eq!(segs.len(), 2);
    segs[0].truncate(5);
    assert!(matches!(KvStore::open(segs), Err(KvsError::CorruptRecord)));
}

#[test]
fn segments_roll_at_the_limit() {
    let mut store = KvStore::with_segment_limit(30);
    for i in 0..10 {
        store.set(format!("k{}", i), format!("v{}", i)).unwrap();
    }
    assert!(store.segment_count() > 1);
    let reopened = KvStore::open(store.segment_bytes()).unwrap();
    for i in 0..10 {
        assert_eq!(get(&reopened, &format!("k{}", i)), Some(format!("v{}", i)));
    }
    assert_eq!(KvStore::with_segment_limit(0).limit(), 1);
}

#[test]
fn compaction_is_idempotent() {
    let mut store = KvStore::with_segment_limit(20);
    store.set(s("a"), s("1")).unwrap();
    store.set(s("b"), s("2")).unwrap();
    store.set(s("a"), s("3")).unwrap();
    store.remove(s("b")).unwrap();
    store.set(s("c"), s("4")).unwrap();
    for _ in 0..3 {
        store.compact().unwrap();
        assert_eq!(get(&store, "a"), Some(s("3")));
        assert_eq!(get(&store, "b"), None);
        assert_eq!(get(&store, "c"), Some(s("4")));
        assert_eq!(store.segment_count(), 2);
    }
    let reopened = KvStore::open(store.segment_bytes()).unwrap();
    assert_eq!(get(&reopened, "a"), Some(s("3")));
    assert_eq!(get(&reopened, "c"), Some(s("4")));
}

#[test]
fn compaction_reclaims_space() {
    let mut store = KvStore::new();
    store.set(s("k"), s("a")).unwrap();
    store.set(s("k"), s("b")).unwrap();
    let before = total(&store);
    store.compact().unwrap();
    let after = total(&store);
    assert!(after <= before);
    assert_eq!(after, 19);
    assert_eq!(before, 38);
    assert_eq!(get(&store, "k"), Some(s("b")));
}

#[test]
fn writes_after_compaction_land_in_the_active_segment() {
    let mut store = KvStore::new();
    store.set(s("x"), s("1")).unwrap();
    store.compact().unwrap();
    store.set(s("y"), s("2")).unwrap();
    store.remove(s("x")).unwrap();
    let reopened = KvStore::open(store.segment_bytes()).unwrap();
    assert_eq!(get(&reopened, "x"), None);
    assert_eq!(get(&reopened, "y"), Some(s("2")));
}

#[test]
fn put_record_bytes() {
    let bytes = encode_command(&Command::Put(s("a"), s("bc")));
    let mut expected = vec![1u8, 1, 0, 0, 0, 0, 0, 0, 0, b'a', 2, 0, 0, 0, 0, 0, 0, 0];
    expected.extend_from_slice(b"bc");
    assert_eq!(bytes, expected);
}

#[test]
fn rm_record_bytes() {
    let bytes = encode_command(&Command::Rm(s("key")));
    let mut expected = vec![2u8, 3, 0, 0, 0, 0, 0, 0, 0];
    expected.extend_from_slice(b"key");
    assert_eq!(bytes, expected);
}

#[test]
fn read_record_outcomes() {
    let bytes = encode_command(&Command::Put(s("k"), s("v")));
    assert_eq!(read_record(&bytes, 0), Decoded::Record(Command::Put(s("k"), s("v")), 19));
    assert_eq!(read_record(&bytes[..10], 0), Decoded::Short);
    assert_eq!(read_record(&bytes, 19), Decoded::Short);
    assert_eq!(read_record(&[7u8, 0, 0], 0), Decoded::Bad);
    let rm = encode_command(&Command::Rm(s("é")));
    assert_eq!(read_record(&rm, 0), Decoded::Record(Command::Rm(s("é")), 11));
}

#[test]
fn contains_key_follows_the_index() {
    let mut store = KvStore::new();
    assert!(!store.contains_key(&s("a")));
    store.set(s("a"), s("1")).unwrap();
    assert!(store.contains_key(&s("a")));
    store.remove(s("a")).unwrap();
    assert!(!store.contains_key(&s("a")));
}

#[test]
fn replaying_rm_of_unknown_key_is_a_no_op() {
    let mut seg = encode_command(&Command::Put(s("a"), s("1")));
    seg.extend(encode_command(&Command::Rm(s("zz"))));
    let store = KvStore::open(vec![seg]).unwrap();
    assert_eq!(get(&store, "a"), Some(s("1")));
    assert_eq!(get(&store, "zz"), None);
}

#[test]
fn default_store_is_empty() {
    let store = KvStore::default();
    assert_eq!(get(&store, "a"), None);
    assert_eq!(store.limit(), kvs::store::DEFAULT_SEGMENT_LIMIT);
}

#[test]
fn write_after_torn_recovery_survives_reopen() {
    let mut store = KvStore::new();
    store.set(s("a"), s("1")).unwrap();
    let keep = store.segment_bytes()[0].len();
    store.set(s("b"), s("2")).unwrap();
    let mut segs = store.segment_bytes();
    segs[0].truncate(keep + 7);
    let mut recovered = KvStore::open(segs).unwrap();
    recovered.set(s("c"), s("3")).unwrap();
    let reopened = KvStore::open(recovered.segment_bytes()).unwrap();
    assert_eq!(get(&reopened, "a"), Some(s("1")));
    assert_eq!(get(&reopened, "b"), None);
    assert_eq!(get(&reopened, "c"), Some(s("3")));
}

#[test]
fn failed_remove_leaves_the_log_alone() {
    let mut store = KvStore::new();
    store.set(s("a"), s("1")).unwrap();
    let before = store.segment_bytes();
    assert_eq!(store.remove(s("b")), Err(KvsError::KeyNotFound));
    assert_eq!(store.segment_bytes(), before);
}
