use kvs::engines::keys_to_strings;
use kvs::{KvsEngine, KvsError, SledKvsEngine};

#[test]
fn sled_engine_round_trip() {
    let config = sled::ConfigBuilder::new().temporary(true).build();
    let mut engine = SledKvsEngine::open(sled::Db::start(config).unwrap());
    engine.set("k1".to_owned(), "v1".to_owned()).unwrap();
    engine.set("k2".to_owned(), "é".to_owned()).unwrap();
    assert_eq!(engine.get("k1".to_owned()).unwrap(), Some("v1".to_owned()));
    assert_eq!(engine.get("k2".to_owned()).unwrap(), Some("é".to_owned()));
    assert_eq!(engine.get("k3".to_owned()).unwrap(), None);
    let mut keys = engine.scan();
    keys.sort();
    assert_eq!(keys, vec!["k1".to_owned(), "k2".to_owned()]);
    engine.remove("k1".to_owned()).unwrap();
    assert_eq!(engine.get("k1".to_owned()).unwrap(), None);
    assert!(matches!(engine.remove("k1".to_owned()), Err(KvsError::KeyNotFound)));
    engine.remove("k2".to_owned()).unwrap();
    assert!(engine.scan().is_empty());
}

#[test]
fn sled_remove_absent_key() {
    let config = sled::ConfigBuilder::new().temporary(true).build();
    let mut engine = SledKvsEngine::open(sled::Db::start(config).unwrap());
    assert!(matches!(engine.remove("nothing".to_owned()), Err(KvsError::KeyNotFound)));
    assert!(engine.save_index_log().is_ok());
}

#[test]
fn keys_to_strings_drops_invalid_utf8() {
    let keys = vec![b"a".to_vec(), vec![0xff, 0xfe], "é".as_bytes().to_vec()];
    assert_eq!(keys_to_strings(&keys), vec!["a".to_owned(), "é".to_owned()]);
    assert!(keys_to_strings(&vec![]).is_empty());
}
