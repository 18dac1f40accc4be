use kvs::KvError;
use kvs::KvStore;

fn fresh() -> KvStore {
    KvStore::open(Vec::new()).expect("an empty log replays cleanly")
}

fn reopen(st: &KvStore) -> KvStore {
    KvStore::open(st.log_bytes().clone()).expect("a store's own log replays cleanly")
}

#[test]
fn round_trip_single_pair() {
    let mut st = fresh();
    st.set(b"key1".to_vec(), b"value1".to_vec()).unwrap();
    assert_eq!(st.get(b"key1".to_vec()).unwrap(), Some(b"value1".to_vec()));
}

#[test]
fn round_trip_many_pairs_bit_for_bit() {
    let pairs: Vec<(Vec<u8>, Vec<u8>)> = vec![
        (b"a".to_vec(), b"1".to_vec()),
        (b"binary".to_vec(), vec![0u8, 10, 13, 255, 0, 10]),
        (b"with\nnewline".to_vec(), b"line1\nline2\n".to_vec()),
        (vec![], b"empty key".to_vec()),
        (b"empty value".to_vec(), vec![]),
        (vec![0u8; 300], vec![7u8; 70000]),
    ];
    let mut st = fresh();
    for (k, v) in &pairs {
        let returned = st.set(k.clone(), v.clone()).unwrap();
        assert_eq!(&returned, v);
    }
    for (k, v) in &pairs {
        assert_eq!(st.get(k.clone()).unwrap(), Some(v.clone()));
    }
}

#[test]
fn last_write_wins() {
    let mut st = fresh();
    st.set(b"k".to_vec(), b"v1".to_vec()).unwrap();
    st.set(b"k".to_vec(), b"v2".to_vec()).unwrap();
    assert_eq!(st.get(b"k".to_vec()).unwrap(), Some(b"v2".to_vec()));
}

#[test]
fn tombstone_then_not_found() {
    let mut st = fresh();
    st.set(b"k".to_vec(), b"v".to_vec()).unwrap();
    st.remove(b"k".to_vec()).unwrap();
    assert_eq!(st.get(b"k".to_vec()).unwrap(), None);
    assert_eq!(st.remove(b"k".to_vec()), Err(KvError::NotFound));
}

#[test]
fn remove_missing_key_is_not_found() {
    let mut st = fresh();
    assert_eq!(st.remove(b"absent".to_vec()), Err(KvError::NotFound));
}

#[test]
fn replay_equivalence_after_mixed_operations() {
    let mut st = fresh();
    st.set(b"a".to_vec(), b"1".to_vec()).unwrap();
    st.set(b"b".to_vec(), b"2".to_vec()).unwrap();
    st.set(b"a".to_vec(), b"3".to_vec()).unwrap();
    st.remove(b"b".to_vec()).unwrap();
    st.set(b"c".to_vec(), vec![0u8, 1, 2]).unwrap();
    st.remove(b"missing".to_vec()).unwrap_err();

    let st2 = reopen(&st);
    for key in [&b"a"[..], b"b", b"c", b"missing"] {
        assert_eq!(
            st.get(key.to_vec()).unwrap(),
            st2.get(key.to_vec()).unwrap(),
            "reopened store must answer get({:?}) identically",
            key
        );
    }
}

#[test]
fn log_length_is_monotone_and_prior_bytes_are_kept() {
    let mut st = fresh();
    let mut prior = st.log_bytes().clone();
    let steps: Vec<Box<dyn Fn(&mut KvStore)>> = vec![
        Box::new(|s| {
            s.set(b"a".to_vec(), b"1".to_vec()).unwrap();
        }),
        Box::new(|s| {
            s.get(b"a".to_vec()).unwrap();
        }),
        Box::new(|s| {
            s.set(b"a".to_vec(), b"2".to_vec()).unwrap();
        }),
        Box::new(|s| {
            s.remove(b"a".to_vec()).unwrap();
        }),
        Box::new(|s| {
            let _ = s.remove(b"a".to_vec());
        }),
        Box::new(|s| {
            s.get(b"gone".to_vec()).unwrap();
        }),
    ];
    for step in steps {
        step(&mut st);
        let now = st.log_bytes().clone();
        assert!(now.len() >= prior.len(), "the log never shrinks");
        assert_eq!(&now[..prior.len()], &prior[..], "prior bytes are never rewritten");
        prior = now;
    }
}

#[test]
fn scenario_set_returns_value_then_get_finds_it() {
    let mut st = fresh();
    let returned = st.set(b"a".to_vec(), b"1".to_vec()).unwrap();
    assert_eq!(returned, b"1".to_vec());
    assert_eq!(st.get(b"a".to_vec()).unwrap(), Some(b"1".to_vec()));
}

#[test]
fn scenario_overwrite_survives_reopen() {
    let mut st = fresh();
    st.set(b"a".to_vec(), b"1".to_vec()).unwrap();
    st.set(b"a".to_vec(), b"2".to_vec()).unwrap();
    let st2 = reopen(&st);
    assert_eq!(st2.get(b"a".to_vec()).unwrap(), Some(b"2".to_vec()));
}

#[test]
fn scenario_get_on_fresh_empty_store_is_not_found() {
    let st = fresh();
    assert_eq!(st.get(b"missing".to_vec()).unwrap(), None);
}

#[test]
fn scenario_remove_survives_reopen() {
    let mut st = fresh();
    st.set(b"a".to_vec(), b"1".to_vec()).unwrap();
    st.remove(b"a".to_vec()).unwrap();
    let st2 = reopen(&st);
    assert_eq!(st2.get(b"a".to_vec()).unwrap(), None);
}

#[test]
fn make_index_is_idempotent() {
    let mut st = fresh();
    st.set(b"a".to_vec(), b"1".to_vec()).unwrap();
    st.set(b"b".to_vec(), b"2".to_vec()).unwrap();
    st.remove(b"a".to_vec()).unwrap();
    st.make_index().unwrap();
    assert_eq!(st.get(b"a".to_vec()).unwrap(), None);
    assert_eq!(st.get(b"b".to_vec()).unwrap(), Some(b"2".to_vec()));
    st.make_index().unwrap();
    assert_eq!(st.get(b"a".to_vec()).unwrap(), None);
    assert_eq!(st.get(b"b".to_vec()).unwrap(), Some(b"2".to_vec()));
}

#[test]
fn open_rejects_a_corrupt_log() {
    // A lone unknown tag byte is not a record boundary.
    match KvStore::open(vec![9u8]) {
        Ok(_) => panic!("garbage bytes must not replay"),
        Err(e) => assert_eq!(e, KvError::CorruptionError),
    }
}

#[test]
fn open_rejects_a_truncated_record() {
    let mut st = fresh();
    st.set(b"abc".to_vec(), b"def".to_vec()).unwrap();
    let mut log = st.log_bytes().clone();
    log.pop();
    match KvStore::open(log) {
        Ok(_) => panic!("a truncated record must not replay"),
        Err(e) => assert_eq!(e, KvError::CorruptionError),
    }
}

#[test]
fn error_variants_stay_distinguishable() {
    assert_ne!(KvError::NotFound, KvError::IoError);
    assert_ne!(KvError::NotFound, KvError::CorruptionError);
    assert_ne!(KvError::IoError, KvError::CorruptionError);
}
