use surrealdb_rs::binding::{into_thing, AppendBinding, Binding, BindingMap, QueryBindings};
use surrealdb_rs::value::{Error, RecordId, Value};

fn is_text(v: Option<&Value>, s: &str) -> bool {
    matches!(v, Some(Value::Strand(t)) if t == s)
}

fn is_record(v: Option<&Value>, table: &str, key: &str) -> bool {
    matches!(v, Some(Value::Thing(id)) if id.table == table && id.key == key)
}

#[test]
fn plain_string_is_kept() {
    let mut m = BindingMap::new();
    m.insert_text("name".to_string(), "John".to_string());
    assert!(is_text(m.get("name"), "John"));
    assert_eq!(m.len(), 1);
}

#[test]
fn string_with_space_is_kept() {
    let mut m = BindingMap::new();
    m.insert_text("title".to_string(), "hello world".to_string());
    assert!(is_text(m.get("title"), "hello world"));
}

#[test]
fn empty_string_is_kept() {
    let mut m = BindingMap::new();
    m.insert_text("e".to_string(), String::new());
    assert!(is_text(m.get("e"), ""));
}

#[test]
fn record_string_becomes_identifier() {
    let mut m = BindingMap::new();
    m.insert_text("owner".to_string(), "user:john".to_string());
    assert!(is_record(m.get("owner"), "user", "john"));
}

#[test]
fn numeric_record_key() {
    let mut m = BindingMap::new();
    m.insert_text("owner".to_string(), "user:1".to_string());
    assert!(is_record(m.get("owner"), "user", "1"));
}

#[test]
fn into_thing_parses_identifier() {
    let id = into_thing("person:tobie").unwrap();
    assert_eq!(id.table, "person");
    assert_eq!(id.key, "tobie");
    assert!(into_thing("just text").is_none());
    assert!(into_thing("").is_none());
}

#[test]
fn record_id_into_value() {
    let id = RecordId { table: "t".to_string(), key: "k".to_string() };
    assert!(matches!(id.into_value(), Value::Thing(r) if r.table == "t" && r.key == "k"));
}

#[test]
fn later_bind_replaces_earlier() {
    let mut m = BindingMap::new();
    m.insert("n".to_string(), Value::Number(1));
    m.insert("n".to_string(), Value::Number(2));
    assert!(matches!(m.get("n"), Some(Value::Number(2))));
    assert_eq!(m.len(), 1);
    m.insert_text("s".to_string(), "first".to_string());
    m.insert_text("s".to_string(), "second".to_string());
    assert!(is_text(m.get("s"), "second"));
    assert_eq!(m.len(), 2);
}

#[test]
fn absent_optional_binds_nothing() {
    let mut m = BindingMap::new();
    let r = Binding::OptionalText("x".to_string(), None).append_binding(&mut m);
    assert_eq!(r, Ok(()));
    assert_eq!(m.len(), 0);
    assert!(m.get("x").is_none());
}

#[test]
fn present_optional_binds_text() {
    let mut m = BindingMap::new();
    let r = Binding::OptionalText("x".to_string(), Some("user:ann".to_string())).append_binding(&mut m);
    assert_eq!(r, Ok(()));
    assert!(is_record(m.get("x"), "user", "ann"));
}

#[test]
fn tagged_value_bound_as_is() {
    let mut m = BindingMap::new();
    let r = Binding::Tagged("t".to_string(), Value::Strand("user:john".to_string())).append_binding(&mut m);
    assert_eq!(r, Ok(()));
    assert!(is_text(m.get("t"), "user:john"));
}

#[test]
fn object_fields_decompose() {
    let mut m = BindingMap::new();
    let obj = Value::Object(vec![
        ("a".to_string(), Value::Strand("x".to_string())),
        ("b".to_string(), Value::Number(5)),
    ]);
    let r = Binding::Aggregate(obj).append_binding(&mut m);
    assert_eq!(r, Ok(()));
    assert_eq!(m.len(), 2);
    assert!(is_text(m.get("a"), "x"));
    assert!(matches!(m.get("b"), Some(Value::Number(5))));
}

#[test]
fn object_string_field_becomes_identifier() {
    let mut m = BindingMap::new();
    let obj = Value::Object(vec![
        ("who".to_string(), Value::Strand("user:john".to_string())),
        ("tags".to_string(), Value::Array(vec![Value::Strand("user:x".to_string())])),
        ("ok".to_string(), Value::Bool(true)),
        ("nothing".to_string(), Value::Null),
    ]);
    Binding::Aggregate(obj).append_binding(&mut m).unwrap();
    assert!(is_record(m.get("who"), "user", "john"));
    assert!(matches!(m.get("tags"), Some(Value::Array(v)) if v.len() == 1));
    assert!(matches!(m.get("ok"), Some(Value::Bool(true))));
    assert!(matches!(m.get("nothing"), Some(Value::Null)));
}

#[test]
fn object_later_field_wins() {
    let mut m = BindingMap::new();
    m.insert("a".to_string(), Value::Number(0));
    m.insert("keep".to_string(), Value::Number(9));
    let obj = Value::Object(vec![
        ("a".to_string(), Value::Number(1)),
        ("a".to_string(), Value::Number(2)),
    ]);
    Binding::Aggregate(obj).append_binding(&mut m).unwrap();
    assert!(matches!(m.get("a"), Some(Value::Number(2))));
    assert!(matches!(m.get("keep"), Some(Value::Number(9))));
    assert_eq!(m.len(), 2);
}

#[test]
fn non_object_aggregate_is_refused() {
    let shapes = vec![
        Value::Array(vec![Value::Number(1)]),
        Value::Number(3),
        Value::Strand("s".to_string()),
        Value::Bool(false),
        Value::Null,
    ];
    for shape in shapes {
        let mut m = BindingMap::new();
        m.insert("k".to_string(), Value::Number(1));
        let r = Binding::Aggregate(shape).append_binding(&mut m);
        assert_eq!(r, Err(Error::UnsupportedShape));
        assert_eq!(m.len(), 1);
    }
}

#[test]
fn merged_map_wins() {
    let mut m = BindingMap::new();
    m.insert("a".to_string(), Value::Number(1));
    m.insert("b".to_string(), Value::Number(2));
    let q = QueryBindings::from_pair("b".to_string(), Value::Number(3));
    Binding::Merged(q).append_binding(&mut m).unwrap();
    assert!(matches!(m.get("a"), Some(Value::Number(1))));
    assert!(matches!(m.get("b"), Some(Value::Number(3))));
    assert_eq!(m.len(), 2);
}

#[test]
fn query_bindings_from_pair_keeps_string() {
    let q = QueryBindings::from_pair("x".to_string(), Value::Strand("user:1".to_string()));
    let m = q.into_map();
    assert!(is_text(m.get("x"), "user:1"));
}

#[test]
fn query_bindings_from_object() {
    let obj = Value::Object(vec![
        ("a".to_string(), Value::Strand("x".to_string())),
        ("b".to_string(), Value::Number(5)),
    ]);
    let m = QueryBindings::from_value(obj).unwrap().into_map();
    assert_eq!(m.len(), 2);
    assert!(is_text(m.get("a"), "x"));
    assert!(matches!(m.get("b"), Some(Value::Number(5))));
}

#[test]
fn query_bindings_from_scalar_is_refused() {
    assert!(matches!(QueryBindings::from_value(Value::Number(1)), Err(Error::UnsupportedShape)));
    assert!(matches!(QueryBindings::from_value(Value::Array(vec![])), Err(Error::UnsupportedShape)));
}

#[test]
fn into_entries_one_per_name() {
    let mut m = BindingMap::new();
    m.insert("a".to_string(), Value::Number(1));
    m.insert("b".to_string(), Value::Number(2));
    m.insert("a".to_string(), Value::Number(3));
    let e = m.into_entries();
    assert_eq!(e.len(), 2);
    assert!(e.iter().any(|(k, v)| k == "a" && matches!(v, Value::Number(3))));
}

#[test]
fn tuple_text_binds_identifier() {
    let mut m = BindingMap::new();
    ("owner".to_string(), "user:john".to_string()).append_binding(&mut m).unwrap();
    ("plain".to_string(), "John".to_string()).append_binding(&mut m).unwrap();
    assert!(is_record(m.get("owner"), "user", "john"));
    assert!(is_text(m.get("plain"), "John"));
}

#[test]
fn tuple_optional_text() {
    let mut m = BindingMap::new();
    ("gone".to_string(), None::<String>).append_binding(&mut m).unwrap();
    ("here".to_string(), Some("x".to_string())).append_binding(&mut m).unwrap();
    assert!(m.get("gone").is_none());
    assert!(is_text(m.get("here"), "x"));
    assert_eq!(m.len(), 1);
}

#[test]
fn tuple_value_bound_as_is() {
    let mut m = BindingMap::new();
    ("v".to_string(), Value::Strand("user:john".to_string())).append_binding(&mut m).unwrap();
    assert!(is_text(m.get("v"), "user:john"));
}
