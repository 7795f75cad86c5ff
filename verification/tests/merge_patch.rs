use merge_patch::{create_patch, merge_json, Value};

fn text(s: &str) -> Value {
    Value::Text(s.to_string())
}

fn num(s: &str) -> Value {
    Value::Num(s.to_string())
}

fn obj(entries: Vec<(&str, Value)>) -> Value {
    Value::Obj(entries.into_iter().map(|(k, v)| (k.to_string(), v)).collect())
}

#[test]
fn rfc_merge_example() {
    let mut target = obj(vec![
        ("a", text("b")),
        ("c", obj(vec![("d", text("e")), ("f", text("g"))])),
    ]);
    let patch = obj(vec![
        ("a", text("z")),
        ("c", obj(vec![("f", Value::Null)])),
    ]);
    let expected = obj(vec![
        ("a", text("z")),
        ("c", obj(vec![("d", text("e"))])),
    ]);
    assert!(merge_json(&mut target, &patch).is_ok());
    assert_eq!(target, expected);
}

#[test]
fn rfc_diff_example() {
    let source = obj(vec![
        ("a", text("b")),
        ("c", obj(vec![("d", text("e")), ("f", text("g"))])),
    ]);
    let target = obj(vec![
        ("a", text("z")),
        ("c", obj(vec![("d", text("e"))])),
    ]);
    let expected_patch = obj(vec![
        ("a", text("z")),
        ("c", obj(vec![("f", Value::Null)])),
    ]);
    let patch = create_patch(source, target).unwrap();
    assert!(patch.deep_eq(&expected_patch));
}

#[test]
fn type_replacement() {
    let mut target = obj(vec![("a", obj(vec![("b", num("1"))]))]);
    let patch = obj(vec![("a", text("scalar"))]);
    assert!(merge_json(&mut target, &patch).is_ok());
    assert_eq!(target, obj(vec![("a", text("scalar"))]));
}

#[test]
fn addition_via_diff() {
    let source = obj(vec![]);
    let target = obj(vec![("x", num("1"))]);
    let patch = create_patch(source, target).unwrap();
    assert_eq!(patch, obj(vec![("x", num("1"))]));

    let mut base = obj(vec![]);
    assert!(merge_json(&mut base, &patch).is_ok());
    assert_eq!(base, obj(vec![("x", num("1"))]));
}

#[test]
fn deletion_via_diff() {
    let source = obj(vec![("x", num("1")), ("y", num("2"))]);
    let target = obj(vec![("y", num("2"))]);
    let patch = create_patch(source, target).unwrap();
    assert_eq!(patch, obj(vec![("x", Value::Null)]));
}

#[test]
fn null_deletion_idempotent() {
    let patch = obj(vec![("k", Value::Null)]);
    let mut target = obj(vec![("k", num("1")), ("m", num("2"))]);
    assert!(merge_json(&mut target, &patch).is_ok());
    assert_eq!(target, obj(vec![("m", num("2"))]));
    assert!(merge_json(&mut target, &patch).is_ok());
    assert_eq!(target, obj(vec![("m", num("2"))]));
}

#[test]
fn null_deletion_of_absent_key() {
    let patch = obj(vec![("k", Value::Null)]);
    let mut target = obj(vec![]);
    assert!(merge_json(&mut target, &patch).is_ok());
    assert_eq!(target, obj(vec![]));
}

#[test]
fn leaf_replacement() {
    let patch = num("5");
    let mut target = obj(vec![("a", num("1"))]);
    assert!(merge_json(&mut target, &patch).is_ok());
    assert_eq!(target, num("5"));

    let arr_patch = Value::Arr(vec![num("1"), num("2")]);
    let mut scalar_target = Value::Bool(true);
    assert!(merge_json(&mut scalar_target, &arr_patch).is_ok());
    assert_eq!(scalar_target, Value::Arr(vec![num("1"), num("2")]));
}

#[test]
fn merge_into_non_object_target() {
    let mut target = text("x");
    let patch = obj(vec![("a", num("1"))]);
    assert!(merge_json(&mut target, &patch).is_ok());
    assert_eq!(target, obj(vec![("a", num("1"))]));
}

#[test]
fn non_destructive_merge() {
    let mut target = obj(vec![("a", num("1")), ("b", num("2"))]);
    let patch = obj(vec![("b", num("3"))]);
    assert!(merge_json(&mut target, &patch).is_ok());
    assert_eq!(target, obj(vec![("a", num("1")), ("b", num("3"))]));
}

#[test]
fn empty_patch_changes_nothing() {
    let mut target = obj(vec![("a", num("1"))]);
    let patch = obj(vec![]);
    assert!(merge_json(&mut target, &patch).is_ok());
    assert_eq!(target, obj(vec![("a", num("1"))]));
}

#[test]
fn no_op_diff() {
    let x = obj(vec![("a", num("1")), ("b", Value::Arr(vec![text("q")]))]);
    let same = obj(vec![("a", num("1")), ("b", Value::Arr(vec![text("q")]))]);
    let patch = create_patch(x, same).unwrap();
    assert_eq!(patch, obj(vec![]));

    let y = num("7");
    let patch2 = create_patch(num("7"), y).unwrap();
    assert_eq!(patch2, num("7"));
}

#[test]
fn round_trip_nested() {
    let source = obj(vec![
        ("keep", text("same")),
        ("drop", num("1")),
        ("change", obj(vec![("inner", text("old")), ("gone", num("2"))])),
        ("swap", obj(vec![("deep", num("3"))])),
    ]);
    let target = obj(vec![
        ("keep", text("same")),
        ("change", obj(vec![("inner", text("new")), ("added", Value::Bool(true))])),
        ("swap", text("now a leaf")),
        ("fresh", Value::Arr(vec![num("1"), num("2")])),
    ]);
    let source_copy = source.deep_clone();
    let patch = create_patch(source, target.deep_clone()).unwrap();
    let mut merged = source_copy;
    assert!(merge_json(&mut merged, &patch).is_ok());
    assert!(merged.deep_eq(&target));
}

#[test]
fn round_trip_across_variants() {
    let source = obj(vec![("a", obj(vec![("b", num("1"))]))]);
    let target = text("scalar");
    let patch = create_patch(source.deep_clone(), target.deep_clone()).unwrap();
    let mut merged = source;
    assert!(merge_json(&mut merged, &patch).is_ok());
    assert!(merged.deep_eq(&target));
}

#[test]
fn arrays_replaced_wholesale() {
    let source = obj(vec![("a", Value::Arr(vec![num("1"), num("2")]))]);
    let target = obj(vec![("a", Value::Arr(vec![num("2"), num("1")]))]);
    let patch = create_patch(source, target).unwrap();
    assert_eq!(patch, obj(vec![("a", Value::Arr(vec![num("2"), num("1")]))]));
}

#[test]
fn deep_eq_ignores_object_order() {
    let a = obj(vec![("a", num("1")), ("b", num("2"))]);
    let b = obj(vec![("b", num("2")), ("a", num("1"))]);
    assert!(a.deep_eq(&b));
    assert_ne!(a, b);
}

#[test]
fn deep_eq_respects_array_order() {
    let a = Value::Arr(vec![num("1"), num("2")]);
    let b = Value::Arr(vec![num("2"), num("1")]);
    assert!(!a.deep_eq(&b));
}

#[test]
fn deep_clone_preserves_value() {
    let v = obj(vec![
        ("a", Value::Arr(vec![Value::Null, Value::Bool(false), num("3.5")])),
        ("b", obj(vec![("c", text("x"))])),
    ]);
    let c = v.deep_clone();
    assert_eq!(v, c);
    assert!(v.deep_eq(&c));
}

#[test]
fn distinct_number_texts_differ() {
    let a = obj(vec![("n", num("1"))]);
    let b = obj(vec![("n", num("1.0"))]);
    assert!(!a.deep_eq(&b));
    let patch = create_patch(a, b).unwrap();
    assert_eq!(patch, obj(vec![("n", num("1.0"))]));
}

#[test]
fn diff_recurses_only_into_objects() {
    let source = obj(vec![("a", obj(vec![("x", num("1")), ("y", num("2"))]))]);
    let target = obj(vec![("a", obj(vec![("x", num("1")), ("y", num("3"))]))]);
    let patch = create_patch(source, target).unwrap();
    assert!(patch.deep_eq(&obj(vec![("a", obj(vec![("y", num("3"))]))])));
}
