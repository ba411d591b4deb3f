use switchhosts::value::{copy_values, Number, Value};

fn text(s: &str) -> Value {
    Value::String(s.to_string())
}

#[test]
fn a_key_is_set_and_read_back() {
    let mut v = Value::object();
    assert!(v.get("k").is_none());
    v.insert("k", text("one"));
    v.insert("l", Value::Bool(true));
    v.insert("k", text("two"));
    assert_eq!(v.get("k").and_then(Value::as_str), Some("two"));
    assert_eq!(v.get("l").and_then(Value::as_bool), Some(true));
    match v {
        Value::Object(members) => assert_eq!(members.len(), 2),
        _ => panic!("still an object"),
    }
}

#[test]
fn the_first_member_with_a_key_counts() {
    let mut v = Value::Object(vec![
        ("k".to_string(), text("first")),
        ("k".to_string(), text("second")),
    ]);
    assert_eq!(v.get("k").and_then(Value::as_str), Some("first"));
    v.insert("k", text("third"));
    assert_eq!(v.get("k").and_then(Value::as_str), Some("third"));
}

#[test]
fn what_is_no_object_has_no_keys() {
    let mut v = Value::Array(vec![]);
    v.insert("k", Value::Null);
    assert!(v.get("k").is_none());
    assert!(v.get_mut("k").is_none());
    assert_eq!(v.as_array().unwrap().len(), 0);
}

#[test]
fn a_member_can_be_written_in_place() {
    let mut v = Value::object();
    v.insert("items", Value::Array(vec![]));
    let items = v.get_mut("items").and_then(Value::as_array_mut).unwrap();
    items.push(Value::Null);
    assert_eq!(v.get("items").and_then(Value::as_array).unwrap().len(), 1);
    assert!(v.get_mut("absent").is_none());
}

#[test]
fn each_reading_accepts_its_own_kind_only() {
    let number = Value::Number(Number::PosInt(3));
    assert_eq!(number.as_u64(), Some(3));
    assert_eq!(number.as_str(), None);
    assert_eq!(number.as_bool(), None);
    assert!(number.as_array().is_none());
    assert_eq!(Value::Number(Number::NegInt(-3)).as_u64(), None);
    assert_eq!(Value::Number(Number::Float(3.0f64.to_bits())).as_u64(), None);
    assert_eq!(text("3").as_u64(), None);
    assert_eq!(Value::Bool(false).as_bool(), Some(false));
    assert!(text("x").as_array_mut().is_none());
}

#[test]
fn a_copy_is_deep() {
    let mut inner = Value::object();
    inner.insert("n", Value::Number(Number::NegInt(-1)));
    let original = vec![Value::Array(vec![inner, text("x"), Value::Null, Value::Bool(true)])];
    let mut copy = copy_values(&original);
    assert_eq!(format!("{:?}", copy), format!("{:?}", original));
    copy[0].as_array_mut().unwrap()[0].insert("n", Value::Null);
    let kept = &original[0].as_array().unwrap()[0];
    assert!(matches!(kept.get("n"), Some(Value::Number(Number::NegInt(-1)))));
}
