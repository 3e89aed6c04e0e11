use maroon::value::Value;

#[test]
fn value_is_extracted_once() {
    let mut v = Value::Here(42u32);
    assert!(v.contains());
    assert_eq!(v.extract(), 42);
    assert!(!v.contains());
}

#[test]
fn moved_value_is_not_here() {
    let v: Value<u32> = Value::Moved;
    assert!(!v.contains());
}
