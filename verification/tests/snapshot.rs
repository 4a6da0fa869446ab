use alex_db::config::Config;
use alex_db::db::{Db, Direction, Snapshot, SnapshotFiles, Sort};
use alex_db::error::Error;
use alex_db::value_record::{Value, ValuePost};

fn saving_cfg() -> Config {
    Config {
        data_dir: Some("data".to_string()),
        save_triggered_after_ms: 0,
        save_triggered_by_threshold: 5,
        enable_security_api_keys: false,
    }
}

fn post(key: &str, value: Value) -> ValuePost {
    ValuePost { key: key.to_string(), value, ttl: None }
}

fn files_of(snap: Snapshot) -> SnapshotFiles {
    SnapshotFiles {
        api_keys: Some(snap.api_keys),
        created_at: Some(snap.created_at),
        delete_at: Some(snap.delete_at),
        key: Some(snap.key),
        updated_at: Some(snap.updated_at),
        values: Some(snap.values),
    }
}

#[test]
fn save_gated_by_threshold() {
    // ten writes with a threshold of five: the first save writes, the
    // second has nothing new to save
    let mut db = Db::new(saving_cfg());
    let mut i: i64 = 0;
    while i < 10 {
        let key = format!("k{}", i);
        db.try_insert(ValuePost { key, value: Value::Integer(i), ttl: None }, i)
            .unwrap();
        i += 1;
    }
    let first = db.save(1_000_000_000);
    assert!(first.is_some());
    // until the outer layer confirms the files reached disk, nothing is
    // marked saved and the snapshot is offered again
    assert!(db.save(1_500_000_000).is_some());
    db.confirm_saved(1_000_000_000);
    let second = db.save(2_000_000_000);
    assert!(second.is_none());
    // five more writes re-arm the trigger
    let mut j: i64 = 0;
    while j < 5 {
        let key = format!("m{}", j);
        db.try_insert(ValuePost { key, value: Value::Integer(j), ttl: None }, j)
            .unwrap();
        j += 1;
    }
    assert!(db.save(3_000_000_000).is_some());
    db.confirm_saved(3_000_000_000);
    let stats = db.get_stats().unwrap();
    assert_eq!(stats.saved_writes, stats.writes);
    assert_eq!(stats.last_saved_at, 3_000_000_000);
}

#[test]
fn save_noop_without_data_dir() {
    let mut db = Db::new(Config::default());
    db.try_insert(post("a", Value::Integer(1)), 0).unwrap();
    assert!(db.save(i64::MAX).is_none());
}

#[test]
fn snapshot_round_trip() {
    let mut db = Db::new(saving_cfg());
    db.try_insert(post("a", Value::Integer(5)), 1).unwrap();
    db.try_insert(post("b", Value::String("text".to_string())), 2)
        .unwrap();
    db.try_insert(
        post(
            "c",
            Value::Array(vec![
                Value::Integer(1),
                Value::Array(vec![Value::Boolean(true), Value::String("in".to_string())]),
            ]),
        ),
        3,
    )
    .unwrap();
    db.try_insert(
        ValuePost { key: "ttl".to_string(), value: Value::Integer(9), ttl: Some(60) },
        4,
    )
    .unwrap();
    db.try_insert(post("flag", Value::Boolean(true)), 5).unwrap();
    let minted = db.api_key_init().unwrap().expect("first init mints");

    let snap = db.save(1_000_000_000).expect("trigger was met");
    let before = db.select_all(Direction::Asc, None, None, Sort::Key).unwrap();

    let mut fresh = Db::new(saving_cfg());
    fresh.restore(files_of(snap)).unwrap();
    assert!(fresh.api_key_exists(minted).unwrap());
    let after = fresh.select_all(Direction::Asc, None, None, Sort::Key).unwrap();

    assert_eq!(before.len(), after.len());
    let mut i = 0;
    while i < before.len() {
        assert_eq!(before[i].id, after[i].id);
        assert_eq!(before[i].key, after[i].key);
        assert_eq!(before[i].value, after[i].value);
        assert_eq!(before[i].created_at, after[i].created_at);
        assert_eq!(before[i].updated_at, after[i].updated_at);
        assert_eq!(before[i].delete_at, after[i].delete_at);
        i += 1;
    }
}

#[test]
fn restore_missing_files_is_cold_start() {
    let mut db = Db::new(Config::default());
    let none = SnapshotFiles {
        api_keys: None,
        created_at: None,
        delete_at: None,
        key: None,
        updated_at: None,
        values: None,
    };
    db.restore(none).unwrap();
    assert!(db.try_select("anything").unwrap().is_none());
}

#[test]
fn restore_rejects_garbage() {
    // a payload the compressor never produced fails as corrupt, and the
    // running store is untouched
    let mut db = Db::new(saving_cfg());
    db.try_insert(post("live", Value::Integer(1)), 0).unwrap();
    let garbage = SnapshotFiles {
        api_keys: None,
        created_at: None,
        delete_at: None,
        key: None,
        updated_at: None,
        values: Some(vec![0xFF, 0xFE, 0xFD, 0x00, 0x01]),
    };
    let r = db.restore(garbage);
    assert_eq!(r, Err(Error::SnapshotCorrupt));
    assert!(db.try_select("live").unwrap().is_some());
}

#[test]
fn restore_rejects_inconsistent_mix() {
    // a key index from one generation against records from another
    // breaks the cross-structure invariant and is refused
    let mut one = Db::new(saving_cfg());
    one.try_insert(post("a", Value::Integer(1)), 0).unwrap();
    for i in 0..5 {
        one.try_insert(post(&format!("x{}", i), Value::Integer(i)), 1)
            .unwrap();
    }
    let snap_one = one.save(1_000_000_000).unwrap();

    let mut two = Db::new(saving_cfg());
    for i in 0..6 {
        two.try_insert(post(&format!("y{}", i), Value::Integer(i)), 2)
            .unwrap();
    }
    let snap_two = two.save(1_000_000_000).unwrap();

    let mixed = SnapshotFiles {
        api_keys: None,
        created_at: Some(snap_two.created_at),
        delete_at: Some(snap_two.delete_at),
        key: Some(snap_two.key),
        updated_at: Some(snap_two.updated_at),
        values: Some(snap_one.values),
    };
    let mut target = Db::new(saving_cfg());
    assert_eq!(target.restore(mixed), Err(Error::SnapshotCorrupt));
}

#[test]
fn restore_values_alone_needs_matching_indexes() {
    // records without their index entries break the cross-structure
    // invariant, so a lone values file over an empty store is refused
    let mut source = Db::new(saving_cfg());
    for i in 0..5 {
        source
            .try_insert(post(&format!("v{}", i), Value::Integer(i)), i)
            .unwrap();
    }
    let snap = source.save(1_000_000_000).unwrap();
    let only_values = SnapshotFiles {
        api_keys: None,
        created_at: None,
        delete_at: None,
        key: None,
        updated_at: None,
        values: Some(snap.values),
    };
    let mut target = Db::new(saving_cfg());
    assert_eq!(target.restore(only_values), Err(Error::SnapshotCorrupt));
    // the failed restore left the store untouched
    assert!(target.try_select("v0").unwrap().is_none());
}
