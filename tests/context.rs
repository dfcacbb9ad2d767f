use stencil::context::{
    Context, ContextBuilder, GetContents, GetValue, Object, SetValue, Value,
};

fn text(v: Option<&Value>) -> Option<String> {
    match v {
        Some(Value::String(s)) => Some(s.clone()),
        _ => None,
    }
}

#[test]
fn resolves_dotted_paths() {
    let c = ContextBuilder::new().set_string("name", "leaf").build_to_value();
    let b = ContextBuilder::new().set_value("c", c).build_to_value();
    let context = ContextBuilder::new().set_value("b", b).build();

    assert_eq!(context.get_string("b.c.name").map(|s| s.as_str()), Some("leaf"));
    assert!(context.get_object("b.c").is_some());
    assert!(context.get_value("b.x").is_none());
    assert!(context.get_value("b.c.name.more").is_none());
}

#[test]
fn absent_paths_resolve_to_nothing() {
    let context = ContextBuilder::new().set_bool("flag", true).build();

    assert!(context.get_value("nothing").is_none());
    assert!(!context.get_bool("nothing"));
    assert!(context.get_string("nothing").is_none());
    assert!(context.get_list("nothing").is_none());
    assert!(context.get_object("nothing").is_none());
    assert!(context.get_value("flag.inner").is_none());
    assert!(context.get_value("").is_none());
}

#[test]
fn wrong_kind_reads_as_missing() {
    let context = ContextBuilder::new()
        .set_string("s", "true")
        .set_bool("b", true)
        .set_value("nothing", Value::Absent)
        .build();

    assert!(!context.get_bool("s"));
    assert!(context.get_bool("b"));
    assert!(context.get_string("b").is_none());
    assert!(context.get_list("s").is_none());
    assert!(matches!(context.get_value("nothing"), Some(Value::Absent)));
    assert!(!context.get_bool("nothing"));
}

#[test]
fn setters_replace_and_return_previous() {
    let mut context = Context::new();

    assert!(context.set_string("k", "one").is_none());
    let previous = context.set_string("k", "two");
    assert_eq!(text(previous.as_ref()), Some("one".to_string()));
    assert_eq!(context.get_string("k").map(|s| s.as_str()), Some("two"));

    assert!(context.set_bool("flag", true).is_none());
    assert!(context.get_bool("flag"));
    let removed = context.remove("flag");
    assert!(matches!(removed, Some(Value::Bool(true))));
    assert!(context.get_value("flag").is_none());
    assert!(context.remove("flag").is_none());
}

#[test]
fn object_keeps_one_entry_per_key() {
    let mut object = Object::new();
    object.insert("a".to_string(), Value::Bool(true));
    object.insert("b".to_string(), Value::Bool(false));
    object.insert("a".to_string(), Value::Bool(false));

    assert!(matches!(object.get("a"), Some(Value::Bool(false))));
    assert!(matches!(object.get("b"), Some(Value::Bool(false))));
    assert!(object.remove("a").is_some());
    assert!(object.get("a").is_none());
    assert!(object.get("b").is_some());
}

#[test]
fn lists_and_values() {
    let mut context = Context::new();
    context.set_list(
        "xs",
        vec![Value::from(true), Value::from("x".to_string())],
    );

    let xs = context.get_list("xs").unwrap();
    assert_eq!(xs.len(), 2);
    assert!(matches!(xs[0], Value::Bool(true)));
    assert!(xs[1].as_string().is_some());
}

#[test]
fn context_converts_to_object_value() {
    let context = ContextBuilder::new().set_bool("a", true).build();
    let value: Value = context.into();

    match value {
        Value::Object(o) => assert!(matches!(o.get("a"), Some(Value::Bool(true)))),
        other => panic!("unexpected: {:?}", other),
    }
    assert!(Context::new().contents().get("a").is_none());
    let builder = ContextBuilder::from(ContextBuilder::new().set_bool("z", false).build());
    assert!(builder.build().get_value("z").is_some());
}

#[test]
fn clones_are_independent() {
    let inner = ContextBuilder::new().set_string("leaf", "x").build_to_value();
    let original = ContextBuilder::new()
        .set_value("obj", inner)
        .set_list("xs", vec![Value::Bool(true)])
        .build();
    let mut copy = original.clone();

    copy.set_string("obj", "replaced");
    copy.remove("xs");

    assert_eq!(original.get_string("obj.leaf").map(|s| s.as_str()), Some("x"));
    assert_eq!(original.get_list("xs").map(|l| l.len()), Some(1));
    assert_eq!(copy.get_string("obj").map(|s| s.as_str()), Some("replaced"));
    assert!(copy.get_list("xs").is_none());

    let value = original.to_value();
    let value_copy = value.clone();
    match (value, value_copy) {
        (Value::Object(a), Value::Object(b)) => {
            assert!(a.get("obj").is_some());
            assert!(b.get("obj").is_some());
            assert!(b.get("xs").is_some());
        }
        _ => panic!("expected objects"),
    }
}
