use littledb::Condition;
use littledb::Database;
use littledb::DbError;
use littledb::Value;

fn user(name: &str, age: i64, active: bool) -> Value {
    Value::Object(vec![
        ("name".to_string(), Value::String(name.to_string())),
        ("age".to_string(), Value::Integer(age)),
        ("active".to_string(), Value::Boolean(active)),
    ])
}

fn seeded() -> Database {
    let mut db = Database::new("demo.db");
    db.set_auto_save(false);
    db.insert("user:1".to_string(), user("Alice", 30, true));
    db.insert("user:2".to_string(), user("Bob", 25, false));
    db.insert("user:3".to_string(), user("Charlie", 35, true));
    db
}

fn keys_of(rows: &[(String, Value)]) -> Vec<String> {
    let mut ks: Vec<String> = rows.iter().map(|p| p.0.clone()).collect();
    ks.sort();
    ks
}

#[test]
fn insert_and_get() {
    let mut db = Database::new("demo.db");
    db.set_auto_save(false);
    assert!(db.insert("k".to_string(), Value::Integer(7)).is_none());
    let got = db.get("k").unwrap();
    assert!(got.structural_eq(&Value::Integer(7)));
    assert!(db.get("other").is_none());
    db.insert("k".to_string(), Value::Integer(8));
    assert!(db.get("k").unwrap().structural_eq(&Value::Integer(8)));
    assert_eq!(db.count(), 1);
}

#[test]
fn auto_save_hands_back_snapshot_bytes() {
    let mut db = Database::new("demo.db");
    let bytes = db.insert("k".to_string(), Value::Integer(7)).unwrap();
    assert_eq!(bytes, db.save());
    db.set_auto_save(false);
    assert!(db.insert("k2".to_string(), Value::Null).is_none());
    let stats = db.stats(0);
    assert!(!stats.auto_save_enabled);
    assert_eq!(stats.total_entries, 2);
}

#[test]
fn update_requires_presence() {
    let mut db = seeded();
    assert_eq!(db.update("user:9", Value::Null), Err(DbError::KeyNotFound));
    assert_eq!(db.count(), 3);
    assert_eq!(db.update("user:2", user("Bob", 26, true)), Ok(()));
    let bob = db.get("user:2").unwrap();
    assert_eq!(bob.get_field("age").unwrap().as_integer(), Some(26));
}

#[test]
fn delete_absent_is_key_not_found_and_count_unchanged() {
    let mut db = seeded();
    assert_eq!(db.count(), 3);
    assert_eq!(db.delete("user:9"), Err(DbError::KeyNotFound));
    assert_eq!(db.count(), 3);
    assert_eq!(db.delete("user:2"), Ok(()));
    assert_eq!(db.count(), 2);
    assert!(db.get("user:2").is_none());
    assert_eq!(db.delete("user:2"), Err(DbError::KeyNotFound));
    assert_eq!(db.count(), 2);
}

#[test]
fn batch_insert_later_duplicate_wins() {
    let mut db = Database::new("demo.db");
    db.set_auto_save(false);
    let (count, bytes) = db.batch_insert(vec![
        ("a".to_string(), Value::Integer(1)),
        ("b".to_string(), Value::Integer(2)),
        ("a".to_string(), Value::Integer(3)),
    ]);
    assert_eq!(count, 3);
    assert!(bytes.is_none());
    assert_eq!(db.count(), 2);
    assert!(db.get("a").unwrap().structural_eq(&Value::Integer(3)));
    assert!(db.get("b").unwrap().structural_eq(&Value::Integer(2)));
}

#[test]
fn batch_get_skips_absent_keys() {
    let db = seeded();
    let got = db.batch_get(vec!["user:1", "user:9", "user:3", "user:1"]);
    assert_eq!(keys_of(&got), vec!["user:1".to_string(), "user:3".to_string()]);
}

#[test]
fn batch_delete_counts_removed() {
    let mut db = seeded();
    let removed = db.batch_delete(vec!["user:1", "user:9", "user:3"]);
    assert_eq!(removed, 2);
    assert_eq!(db.count(), 1);
    assert!(db.contains("user:2"));
    assert!(!db.contains("user:1"));
}

#[test]
fn clear_and_list_keys() {
    let mut db = seeded();
    let mut names = db.list_keys();
    names.sort();
    assert_eq!(
        names,
        vec!["user:1".to_string(), "user:2".to_string(), "user:3".to_string()],
    );
    db.clear();
    assert_eq!(db.count(), 0);
    assert!(db.list_keys().is_empty());
}

#[test]
fn get_all_integers_filters_variants() {
    let mut db = Database::new("demo.db");
    db.set_auto_save(false);
    db.insert("n".to_string(), Value::Integer(5));
    db.insert("f".to_string(), Value::Float(5.0f64.to_bits()));
    db.insert("s".to_string(), Value::String("5".to_string()));
    db.insert("m".to_string(), Value::Integer(-5));
    let mut ints = db.get_all_integers();
    ints.sort();
    assert_eq!(ints, vec![("m".to_string(), -5), ("n".to_string(), 5)]);
}

#[test]
fn end_to_end_queries() {
    let db = seeded();
    let older = db.query(Condition::GreaterThan("age".to_string(), 28));
    assert_eq!(keys_of(&older), vec!["user:1".to_string(), "user:3".to_string()]);
    let active = db.query(Condition::Equals("active".to_string(), Value::Boolean(true)));
    assert_eq!(keys_of(&active), vec!["user:1".to_string(), "user:3".to_string()]);
    let mid = db.query(Condition::Between("age".to_string(), 25, 32));
    assert_eq!(keys_of(&mid), vec!["user:1".to_string(), "user:2".to_string()]);
    let both = db.query_multiple(vec![
        Condition::Equals("active".to_string(), Value::Boolean(true)),
        Condition::GreaterThan("age".to_string(), 28),
    ]);
    assert_eq!(keys_of(&both), vec!["user:1".to_string(), "user:3".to_string()]);
    let everything = db.query_multiple(vec![]);
    assert_eq!(everything.len(), 3);
    let mut users = db.keys_with_prefix("user:");
    users.sort();
    assert_eq!(
        users,
        vec!["user:1".to_string(), "user:2".to_string(), "user:3".to_string()],
    );
    assert!(db.keys_with_prefix("product:").is_empty());
}

#[test]
fn save_then_load_restores_the_mapping() {
    let db = seeded();
    let bytes = db.save();
    let mut restored = Database::new("demo.db");
    assert_eq!(restored.load(Some(&bytes)), Ok(()));
    assert_eq!(restored.count(), 3);
    for key in ["user:1", "user:2", "user:3"] {
        let a = db.get(key).unwrap();
        let b = restored.get(key).unwrap();
        assert!(a.structural_eq(&b));
    }
}

#[test]
fn load_nothing_starts_fresh_and_garbage_fails() {
    let mut db = seeded();
    assert_eq!(db.load(None), Ok(()));
    assert_eq!(db.count(), 0);
    let mut db2 = seeded();
    let garbage = vec![9u8; 11];
    assert_eq!(db2.load(Some(&garbage)), Err(DbError::SerializationError));
    assert_eq!(db2.count(), 3);
}
