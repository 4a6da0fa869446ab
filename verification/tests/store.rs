use alex_db::config::Config;
use alex_db::db::{Db, Direction, Sort};
use alex_db::error::Error;
use alex_db::value_record::{Value, ValueDecrement, ValueIncrement, ValuePost, ValuePut};

fn cfg() -> Config {
    Config::default()
}

fn post(key: &str, value: Value) -> ValuePost {
    ValuePost { key: key.to_string(), value, ttl: None }
}

#[test]
fn insert_and_select() {
    let mut db = Db::new(cfg());
    let rec = db
        .try_insert(post("a", Value::Integer(5)), 10)
        .unwrap()
        .unwrap();
    assert_eq!(rec.key, "a");
    assert_eq!(rec.value, Value::Integer(5));
    assert_eq!(rec.created_at, 10);
    assert_eq!(rec.updated_at, 10);
    assert!(rec.delete_at.is_none());

    let found = db.try_select("a").unwrap().unwrap();
    assert_eq!(found.id, rec.id);
    assert_eq!(found.value, Value::Integer(5));
    assert!(db.try_select("missing").unwrap().is_none());
}

#[test]
fn insert_duplicate_key_fails() {
    let mut db = Db::new(cfg());
    db.try_insert(post("a", Value::Integer(1)), 0).unwrap();
    let r = db.try_insert(post("a", Value::Integer(2)), 1);
    assert_eq!(r, Err(Error::KeyExists));
    let kept = db.try_select("a").unwrap().unwrap();
    assert_eq!(kept.value, Value::Integer(1));
}

#[test]
fn increment_decrement_magnitudes() {
    // insert 5; +3 -> 8; +1 -> 9; decrement by -4 still subtracts 4 -> 5
    let mut db = Db::new(cfg());
    db.try_insert(post("a", Value::Integer(5)), 0).unwrap();
    let r1 = db
        .try_increment("a", ValueIncrement { increment: Some(3) }, 1)
        .unwrap()
        .unwrap();
    assert_eq!(r1.value, Value::Integer(8));
    let r2 = db
        .try_increment("a", ValueIncrement { increment: None }, 2)
        .unwrap()
        .unwrap();
    assert_eq!(r2.value, Value::Integer(9));
    let r3 = db
        .try_decrement("a", ValueDecrement { decrement: Some(-4) }, 3)
        .unwrap()
        .unwrap();
    assert_eq!(r3.value, Value::Integer(5));
}

#[test]
fn increment_wrong_type_is_no_change() {
    let mut db = Db::new(cfg());
    db.try_insert(post("s", Value::String("hi".to_string())), 0)
        .unwrap();
    let r = db
        .try_increment("s", ValueIncrement { increment: None }, 1)
        .unwrap();
    assert!(r.is_none());
    let kept = db.try_select("s").unwrap().unwrap();
    assert_eq!(kept.value, Value::String("hi".to_string()));
    assert_eq!(kept.updated_at, 0);
}

#[test]
fn increment_missing_key_not_found() {
    let mut db = Db::new(cfg());
    let r = db.try_increment("none", ValueIncrement { increment: None }, 1);
    assert_eq!(r, Err(Error::NotFound));
}

#[test]
fn increment_overflow_checked() {
    let mut db = Db::new(cfg());
    db.try_insert(post("big", Value::Integer(i64::MAX)), 0)
        .unwrap();
    let r = db.try_increment("big", ValueIncrement { increment: Some(1) }, 1);
    assert_eq!(r, Err(Error::ArithmeticOverflow));
    let kept = db.try_select("big").unwrap().unwrap();
    assert_eq!(kept.value, Value::Integer(i64::MAX));

    db.try_insert(post("small", Value::Integer(i64::MIN)), 2)
        .unwrap();
    let r2 = db.try_decrement("small", ValueDecrement { decrement: Some(1) }, 3);
    assert_eq!(r2, Err(Error::ArithmeticOverflow));
}

#[test]
fn upsert_preserves_identity() {
    let mut db = Db::new(cfg());
    let first = db
        .try_insert(post("k", Value::Integer(1)), 100)
        .unwrap()
        .unwrap();
    let second = db
        .try_upsert(
            ValuePut { key: "k".to_string(), value: Value::Boolean(true), ttl: Some(10) },
            200,
        )
        .unwrap()
        .unwrap();
    assert_eq!(second.id, first.id);
    assert_eq!(second.created_at, first.created_at);
    assert_eq!(second.value, Value::Boolean(true));
    assert_eq!(second.updated_at, 200);
    assert_eq!(second.delete_at, Some(200 + 10 * 1_000_000_000));

    let missing = db.try_upsert(
        ValuePut { key: "other".to_string(), value: Value::Boolean(false), ttl: None },
        300,
    );
    assert_eq!(missing, Err(Error::NotFound));
}

#[test]
fn mutators_preserve_identity() {
    let mut db = Db::new(cfg());
    let first = db
        .try_insert(post("n", Value::Integer(0)), 5)
        .unwrap()
        .unwrap();
    let bumped = db
        .try_increment("n", ValueIncrement { increment: Some(2) }, 6)
        .unwrap()
        .unwrap();
    assert_eq!(bumped.id, first.id);
    assert_eq!(bumped.created_at, first.created_at);

    let second = db
        .try_insert(post("arr", Value::Array(vec![Value::Integer(1)])), 7)
        .unwrap()
        .unwrap();
    let appended = db
        .try_append("arr", Value::Integer(2), 8)
        .unwrap()
        .unwrap();
    assert_eq!(appended.id, second.id);
    assert_eq!(appended.created_at, second.created_at);
}

#[test]
fn delete_by_key_and_id() {
    let mut db = Db::new(cfg());
    let rec = db
        .try_insert(post("gone", Value::Boolean(false)), 0)
        .unwrap()
        .unwrap();
    let removed = db.try_delete_by_key("gone").unwrap().unwrap();
    assert_eq!(removed.id, rec.id);
    assert!(db.try_select("gone").unwrap().is_none());
    assert!(db.try_delete_by_key("gone").unwrap().is_none());
    assert!(db.try_delete_by_id(rec.id).unwrap().is_none());

    let rec2 = db
        .try_insert(post("two", Value::Integer(2)), 1)
        .unwrap()
        .unwrap();
    let removed2 = db.try_delete_by_id(rec2.id).unwrap().unwrap();
    assert_eq!(removed2.key, "two");
    assert!(db.try_select("two").unwrap().is_none());
}

#[test]
fn pop_back_and_front() {
    // [1,2,3]: pop_back -> [3] leaving [1,2]; pop_front 2 -> [1,2] leaving []
    let mut db = Db::new(cfg());
    db.try_insert(
        post(
            "q",
            Value::Array(vec![Value::Integer(1), Value::Integer(2), Value::Integer(3)]),
        ),
        0,
    )
    .unwrap();
    let popped = db.try_pop_back("q", None, 1).unwrap().unwrap();
    assert_eq!(popped, Value::Array(vec![Value::Integer(3)]));
    let kept = db.try_select("q").unwrap().unwrap();
    assert_eq!(kept.value, Value::Array(vec![Value::Integer(1), Value::Integer(2)]));

    let popped2 = db.try_pop_front("q", Some(2), 2).unwrap().unwrap();
    assert_eq!(popped2, Value::Array(vec![Value::Integer(1), Value::Integer(2)]));
    let emptied = db.try_select("q").unwrap().unwrap();
    assert_eq!(emptied.value, Value::Array(vec![]));

    // popping a non-array is the no-change outcome
    db.try_insert(post("t", Value::Boolean(true)), 3).unwrap();
    assert!(db.try_pop_back("t", None, 4).unwrap().is_none());
}

#[test]
fn append_prepend_text_and_arrays() {
    let mut db = Db::new(cfg());
    db.try_insert(post("s", Value::String("hi".to_string())), 0)
        .unwrap();
    let joined = db
        .try_append("s", Value::String(" there".to_string()), 1)
        .unwrap()
        .unwrap();
    assert_eq!(joined.value, Value::String("hi there".to_string()));
    let fronted = db
        .try_prepend("s", Value::String("oh ".to_string()), 2)
        .unwrap()
        .unwrap();
    assert_eq!(fronted.value, Value::String("oh hi there".to_string()));
    // text cannot take a non-text appendix
    assert!(db.try_append("s", Value::Integer(1), 3).unwrap().is_none());

    db.try_insert(post("a", Value::Array(vec![Value::Integer(2)])), 4)
        .unwrap();
    let tail = db
        .try_append("a", Value::Array(vec![Value::Integer(3)]), 5)
        .unwrap()
        .unwrap();
    assert_eq!(tail.value, Value::Array(vec![Value::Integer(2), Value::Integer(3)]));
    let head = db
        .try_prepend("a", Value::Integer(1), 6)
        .unwrap()
        .unwrap();
    assert_eq!(
        head.value,
        Value::Array(vec![Value::Integer(1), Value::Integer(2), Value::Integer(3)])
    );
}

#[test]
fn ttl_gc_removes_expired() {
    // ttl of one second; a moment later the record is gone
    let mut db = Db::new(cfg());
    db.try_insert(
        ValuePost { key: "t".to_string(), value: Value::Integer(1), ttl: Some(1) },
        0,
    )
    .unwrap();
    db.try_insert(post("keep", Value::Integer(2)), 0).unwrap();
    let removed = db.gc(1_100_000_000).unwrap();
    assert_eq!(removed, 1);
    assert!(db.try_select("t").unwrap().is_none());
    assert!(db.try_select("keep").unwrap().is_some());
    // nothing left to collect
    assert_eq!(db.gc(1_100_000_000).unwrap(), 0);
}

#[test]
fn list_sorted_and_paged() {
    // keys a,b,c: descending by key, two per page
    let mut db = Db::new(cfg());
    db.try_insert(post("a", Value::Integer(1)), 1).unwrap();
    db.try_insert(post("b", Value::Integer(2)), 2).unwrap();
    db.try_insert(post("c", Value::Integer(3)), 3).unwrap();

    let page1 = db
        .select_all(Direction::Desc, Some(2), Some(1), Sort::Key)
        .unwrap();
    assert_eq!(page1.len(), 2);
    assert_eq!(page1[0].key, "c");
    assert_eq!(page1[1].key, "b");

    let page2 = db
        .select_all(Direction::Desc, Some(2), Some(2), Sort::Key)
        .unwrap();
    assert_eq!(page2.len(), 1);
    assert_eq!(page2[0].key, "a");

    let all = db.select_all(Direction::Asc, None, None, Sort::Key).unwrap();
    assert_eq!(all.len(), 3);
    assert_eq!(all[0].key, "a");
    assert_eq!(all[2].key, "c");

    let by_created = db
        .select_all(Direction::Asc, None, None, Sort::CreatedAt)
        .unwrap();
    assert_eq!(by_created[0].key, "a");
    assert_eq!(by_created[2].key, "c");

    db.try_upsert(
        ValuePut { key: "a".to_string(), value: Value::Integer(9), ttl: None },
        10,
    )
    .unwrap();
    let by_updated = db
        .select_all(Direction::Desc, None, None, Sort::UpdatedAt)
        .unwrap();
    assert_eq!(by_updated[0].key, "a");
}

#[test]
fn stats_counters() {
    let mut db = Db::new(cfg());
    let s0 = db.get_stats().unwrap();
    assert_eq!(s0.requests, 0);
    assert_eq!(s0.reads, 0);
    assert_eq!(s0.writes, 0);
    assert_eq!(s0.saved_writes, 0);

    db.try_insert(post("a", Value::Integer(1)), 0).unwrap();
    db.try_select("a").unwrap();
    db.try_select("missing").unwrap();
    let s1 = db.get_stats().unwrap();
    assert_eq!(s1.requests, 3);
    assert_eq!(s1.writes, 1);
    assert_eq!(s1.reads, 1);
}

#[test]
fn api_key_bootstrap() {
    let mut db = Db::new(cfg());
    let minted = db.api_key_init().unwrap();
    let key = minted.expect("first init mints a key");
    assert!(db.api_key_exists(key).unwrap());
    assert!(!db.api_key_exists(key.wrapping_add(1)).unwrap());
    // a second init is a no-op
    assert!(db.api_key_init().unwrap().is_none());
}

#[test]
fn pagination_defaults_and_concatenation() {
    let mut db = Db::new(cfg());
    let mut i: i64 = 0;
    while i < 25 {
        // two-digit suffixes keep the lexical order numeric
        let key = format!("k{:02}", i);
        db.try_insert(ValuePost { key, value: Value::Integer(i), ttl: None }, i)
            .unwrap();
        i += 1;
    }
    // a limit with no page means page one; a page with no limit means ten
    let first = db
        .select_all(Direction::Asc, Some(3), None, Sort::Key)
        .unwrap();
    assert_eq!(first.len(), 3);
    assert_eq!(first[0].key, "k00");
    let second_default = db
        .select_all(Direction::Asc, None, Some(2), Sort::Key)
        .unwrap();
    assert_eq!(second_default.len(), 10);
    assert_eq!(second_default[0].key, "k10");

    // pages one after another cover the whole listing in order
    let all = db.select_all(Direction::Asc, None, None, Sort::Key).unwrap();
    let mut joined: Vec<String> = Vec::new();
    for page in 1..4 {
        let chunk = db
            .select_all(Direction::Asc, Some(10), Some(page), Sort::Key)
            .unwrap();
        for rec in chunk {
            joined.push(rec.key);
        }
    }
    assert_eq!(joined.len(), all.len());
    for (j, rec) in all.iter().enumerate() {
        assert_eq!(joined[j], rec.key);
    }

    // a page past the end is empty
    let empty = db
        .select_all(Direction::Asc, Some(10), Some(9), Sort::Key)
        .unwrap();
    assert!(empty.is_empty());
}

#[test]
fn upsert_recomputes_ttl() {
    let mut db = Db::new(cfg());
    db.try_insert(
        ValuePost { key: "t".to_string(), value: Value::Integer(1), ttl: Some(1) },
        0,
    )
    .unwrap();
    // replacing without a ttl clears the expiration, so gc keeps it
    db.try_upsert(
        ValuePut { key: "t".to_string(), value: Value::Integer(2), ttl: None },
        500_000_000,
    )
    .unwrap();
    assert_eq!(db.gc(2_000_000_000).unwrap(), 0);
    let kept = db.try_select("t").unwrap().unwrap();
    assert_eq!(kept.value, Value::Integer(2));
    assert!(kept.delete_at.is_none());
}

#[test]
fn error_names() {
    assert_eq!(Error::NotFound.name(), "not_found");
    assert_eq!(Error::KeyExists.name(), "key_exists");
    assert_eq!(Error::ArithmeticOverflow.name(), "arithmetic_overflow");
    assert_eq!(Error::SnapshotCorrupt.name(), "snapshot_corrupt");
}

#[test]
fn pop_of_empty_array_returns_empty() {
    let mut db = Db::new(cfg());
    db.try_insert(post("e", Value::Array(vec![])), 0).unwrap();
    let popped = db.try_pop_back("e", None, 1).unwrap().unwrap();
    assert_eq!(popped, Value::Array(vec![]));
    let kept = db.try_select("e").unwrap().unwrap();
    assert_eq!(kept.value, Value::Array(vec![]));
}

#[test]
fn list_by_time_breaks_ties_deterministically() {
    // three records born at the same instant: one run's order is kept
    let mut db = Db::new(cfg());
    db.try_insert(post("x", Value::Integer(1)), 7).unwrap();
    db.try_insert(post("y", Value::Integer(2)), 7).unwrap();
    db.try_insert(post("z", Value::Integer(3)), 7).unwrap();
    let asc = db
        .select_all(Direction::Asc, None, None, Sort::CreatedAt)
        .unwrap();
    let desc = db
        .select_all(Direction::Desc, None, None, Sort::CreatedAt)
        .unwrap();
    assert_eq!(asc.len(), 3);
    assert_eq!(desc.len(), 3);
    for i in 0..3 {
        assert_eq!(asc[i].id, desc[2 - i].id);
    }
}
