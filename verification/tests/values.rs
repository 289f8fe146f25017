use littledb::Condition;
use littledb::StorageEngine;
use littledb::Value;

fn user(name: &str, age: i64, active: bool) -> Value {
    Value::Object(vec![
        ("name".to_string(), Value::String(name.to_string())),
        ("age".to_string(), Value::Integer(age)),
        ("active".to_string(), Value::Boolean(active)),
    ])
}

#[test]
fn display_scalars() {
    assert_eq!(Value::Integer(42).to_string(), "42");
    assert_eq!(Value::Integer(-7).to_string(), "-7");
    assert_eq!(Value::Integer(0).to_string(), "0");
    assert_eq!(Value::Integer(i64::MIN).to_string(), "-9223372036854775808");
    assert_eq!(Value::String("hello".to_string()).to_string(), "hello");
    assert_eq!(Value::Boolean(true).to_string(), "true");
    assert_eq!(Value::Boolean(false).to_string(), "false");
    assert_eq!(Value::Null.to_string(), "null");
}

#[test]
fn display_float_shows_bits() {
    let bits = 1.5f64.to_bits();
    let rendered = Value::Float(bits).to_string();
    assert_eq!(rendered, format!("float:{}", bits));
}

#[test]
fn display_nested() {
    let arr = Value::Array(vec![
        Value::Integer(1),
        Value::Integer(2),
        Value::Integer(3),
    ]);
    assert_eq!(arr.to_string(), "[1, 2, 3]");
    let obj = Value::Object(vec![
        ("a".to_string(), Value::Integer(1)),
        ("b".to_string(), Value::Array(vec![Value::Null, Value::Boolean(true)])),
    ]);
    assert_eq!(obj.to_string(), "{a: 1, b: [null, true]}");
    assert_eq!(Value::Array(vec![]).to_string(), "[]");
    assert_eq!(Value::Object(vec![]).to_string(), "{}");
}

#[test]
fn variant_names() {
    assert_eq!(Value::String(String::new()).variant_name(), "String");
    assert_eq!(Value::Integer(0).variant_name(), "Integer");
    assert_eq!(Value::Float(0).variant_name(), "Float");
    assert_eq!(Value::Boolean(false).variant_name(), "Boolean");
    assert_eq!(Value::Array(vec![]).variant_name(), "Array");
    assert_eq!(Value::Object(vec![]).variant_name(), "Object");
    assert_eq!(Value::Null.variant_name(), "Null");
}

#[test]
fn accessors_do_not_coerce() {
    assert_eq!(Value::Integer(9).as_integer(), Some(9));
    assert_eq!(Value::Float(9.0f64.to_bits()).as_integer(), None);
    assert_eq!(Value::String("9".to_string()).as_integer(), None);
    assert_eq!(Value::String("x".to_string()).as_string(), Some("x".to_string()));
    assert_eq!(Value::Integer(9).as_string(), None);
    let rec = user("Alice", 30, true);
    assert_eq!(rec.get_field("age").and_then(|v| v.as_integer()), Some(30));
    assert!(rec.get_field("missing").is_none());
    assert!(Value::Integer(1).get_field("age").is_none());
}

#[test]
fn structural_equality_ignores_object_order() {
    let a = Value::Object(vec![
        ("x".to_string(), Value::Integer(1)),
        ("y".to_string(), Value::Integer(2)),
    ]);
    let b = Value::Object(vec![
        ("y".to_string(), Value::Integer(2)),
        ("x".to_string(), Value::Integer(1)),
    ]);
    assert!(a.structural_eq(&b));
    assert!(b.structural_eq(&a));
    let c = Value::Object(vec![
        ("x".to_string(), Value::Integer(1)),
        ("y".to_string(), Value::Integer(3)),
    ]);
    assert!(!a.structural_eq(&c));
}

#[test]
fn structural_equality_respects_array_order() {
    let a = Value::Array(vec![Value::Integer(1), Value::Integer(2)]);
    let b = Value::Array(vec![Value::Integer(2), Value::Integer(1)]);
    assert!(!a.structural_eq(&b));
    assert!(a.structural_eq(&a.deep_clone()));
    assert!(!a.structural_eq(&Value::Integer(1)));
}

#[test]
fn condition_equals_is_structural() {
    let rec = Value::Object(vec![(
        "tags".to_string(),
        Value::Object(vec![
            ("a".to_string(), Value::Integer(1)),
            ("b".to_string(), Value::Integer(2)),
        ]),
    )]);
    let expected = Value::Object(vec![
        ("b".to_string(), Value::Integer(2)),
        ("a".to_string(), Value::Integer(1)),
    ]);
    assert!(Condition::Equals("tags".to_string(), expected).matches(&rec));
    assert!(!Condition::Equals("tags".to_string(), Value::Null).matches(&rec));
    assert!(!Condition::Equals("missing".to_string(), Value::Null).matches(&rec));
}

#[test]
fn condition_between_is_inclusive() {
    let between = |lo: i64, hi: i64| Condition::Between("age".to_string(), lo, hi);
    assert!(between(25, 32).matches(&user("a", 25, true)));
    assert!(between(25, 32).matches(&user("a", 32, true)));
    assert!(!between(25, 32).matches(&user("a", 24, true)));
    assert!(!between(25, 32).matches(&user("a", 33, true)));
    assert!(!between(25, 32).matches(&Value::Object(vec![])));
}

#[test]
fn condition_ordering_needs_integer() {
    let gt = Condition::GreaterThan("age".to_string(), 10);
    let lt = Condition::LessThan("age".to_string(), 100);
    assert!(gt.matches(&user("a", 30, true)));
    assert!(lt.matches(&user("a", 30, true)));
    let absent = Value::Object(vec![]);
    assert!(!gt.matches(&absent));
    assert!(!lt.matches(&absent));
    let float_age = Value::Object(vec![(
        "age".to_string(),
        Value::Float(30.0f64.to_bits()),
    )]);
    assert!(!gt.matches(&float_age));
    assert!(!lt.matches(&float_age));
    let text_age = Value::Object(vec![(
        "age".to_string(),
        Value::String("30".to_string()),
    )]);
    assert!(!gt.matches(&text_age));
    assert!(!lt.matches(&text_age));
}

#[test]
fn condition_contains_is_case_sensitive() {
    let rec = Value::Object(vec![(
        "name".to_string(),
        Value::String("Alice Smith".to_string()),
    )]);
    assert!(Condition::Contains("name".to_string(), "ce Sm".to_string()).matches(&rec));
    assert!(Condition::Contains("name".to_string(), String::new()).matches(&rec));
    assert!(!Condition::Contains("name".to_string(), "alice".to_string()).matches(&rec));
    assert!(!Condition::Contains("age".to_string(), "A".to_string()).matches(&rec));
    let numeric = Value::Object(vec![("name".to_string(), Value::Integer(3))]);
    assert!(!Condition::Contains("name".to_string(), "3".to_string()).matches(&numeric));
}

#[test]
fn snapshot_roundtrips_every_variant() {
    let engine = StorageEngine::new("unused.db");
    let data = vec![
        ("text".to_string(), Value::String("héllo, wörld".to_string())),
        ("int".to_string(), Value::Integer(-123456789)),
        ("min".to_string(), Value::Integer(i64::MIN)),
        ("max".to_string(), Value::Integer(i64::MAX)),
        ("float".to_string(), Value::Float(3.25f64.to_bits())),
        ("flag".to_string(), Value::Boolean(true)),
        ("nothing".to_string(), Value::Null),
        (
            "deep".to_string(),
            Value::Array(vec![
                Value::Object(vec![(
                    "inner".to_string(),
                    Value::Array(vec![Value::Integer(1), Value::String("s".to_string())]),
                )]),
                Value::Null,
            ]),
        ),
    ];
    let bytes = engine.save(&data);
    let back = engine.load(Some(&bytes)).unwrap();
    assert_eq!(back.len(), data.len());
    for ((k1, v1), (k2, v2)) in data.iter().zip(back.iter()) {
        assert_eq!(k1, k2);
        assert!(v1.structural_eq(v2));
    }
}

#[test]
fn load_without_file_is_empty_success() {
    let engine = StorageEngine::new("missing.db");
    let back = engine.load(None).unwrap();
    assert!(back.is_empty());
}

#[test]
fn corrupt_snapshot_is_an_error() {
    let engine = StorageEngine::new("unused.db");
    let data = vec![("k".to_string(), Value::Integer(1))];
    let mut bytes = engine.save(&data);
    bytes.push(0);
    assert!(engine.load(Some(&bytes)).is_err());
    let short = vec![1u8, 2, 3];
    assert!(engine.load(Some(&short)).is_err());
    assert!(engine.load(Some(&vec![])).is_err());
}

#[test]
fn append_block_decodes_as_single_entry() {
    let engine = StorageEngine::new("unused.db");
    let block = engine.append("solo", &Value::Integer(5));
    let back = engine.load(Some(&block)).unwrap();
    assert_eq!(back.len(), 1);
    assert_eq!(back[0].0, "solo");
    assert!(back[0].1.structural_eq(&Value::Integer(5)));
}
