use stencil::context::{Context, ContextBuilder, Value};
use stencil::render_to_string;
use stencil::renderer::{Error, Renderer};
use stencil::tokenizer::Error as SyntaxError;

fn strings(items: &[&str]) -> Vec<Value> {
    items.iter().map(|s| Value::String(s.to_string())).collect()
}

#[test]
fn variable_is_replaced() {
    let context = ContextBuilder::new().set_string("item", "Stuff").build();

    assert_eq!(render_to_string(context, "$item").unwrap(), "Stuff");
}

#[test]
fn if_true_and_false() {
    let context = ContextBuilder::new().set_bool("flag", true).build();
    assert_eq!(render_to_string(context, "$if flag: yes").unwrap(), "yes");

    let context = ContextBuilder::new().set_bool("flag", false).build();
    assert_eq!(render_to_string(context, "$if flag: yes").unwrap(), "");
}

#[test]
fn negated_if() {
    let context = ContextBuilder::new().set_bool("flag", false).build();

    assert_eq!(render_to_string(context, "$if !flag: yes").unwrap(), "yes");
}

#[test]
fn for_in_list_order() {
    let context = ContextBuilder::new()
        .set_list("items", strings(&["A", "B", "C"]))
        .build();

    assert_eq!(render_to_string(context, "$for x in items: $x ").unwrap(), "A B C ");
}

#[test]
fn nested_blocks_close_in_order() {
    let inner = ContextBuilder::new().set_bool("b", true).build_to_value();
    let context = ContextBuilder::new().set_value("a", inner).build();

    assert_eq!(
        render_to_string(context, "$if a.b: $if a.b: inner\n$end\n$end").unwrap(),
        "inner"
    );
}

#[test]
fn for_over_empty_list() {
    let context = ContextBuilder::new().set_list("emptyList", Vec::new()).build();

    assert_eq!(render_to_string(context, "$for x in emptyList: $x").unwrap(), "");
}

#[test]
fn plain_text_renders_to_itself() {
    let text = "no directives here,\n just text: and more.\n";
    assert_eq!(render_to_string(Context::new(), text).unwrap(), text);

    let context = ContextBuilder::new().set_bool("text", true).build();
    assert_eq!(render_to_string(context, text).unwrap(), text);

    assert_eq!(render_to_string(Context::new(), "").unwrap(), "");
}

#[test]
fn rendering_twice_gives_the_same_text() {
    let make = || {
        ContextBuilder::new()
            .set_string("name", "World")
            .set_list("xs", strings(&["1", "2"]))
            .build()
    };
    let template = "Hello $name !\n$for x in xs:\n- $x\n$end\n";

    let first = render_to_string(make(), template).unwrap();
    let second = render_to_string(make(), template).unwrap();
    assert_eq!(first, second);
    assert_eq!(first, "Hello World !\n- 1\n- 2\n");
}

#[test]
fn multiline_if_keeps_body_lines() {
    let context = ContextBuilder::new().set_bool("show", true).build();

    assert_eq!(
        render_to_string(context, "start\n$if show:\nline one\nline two\n$end\nend").unwrap(),
        "start\nline one\nline two\nend"
    );
}

#[test]
fn loop_binding_does_not_leak() {
    let context = ContextBuilder::new()
        .set_string("x", "outer")
        .set_list("xs", strings(&["a", "b"]))
        .build();

    assert_eq!(render_to_string(context, "$for x in xs: $x$end $x").unwrap(), "ab outer");
}

#[test]
fn loop_over_objects_and_nested_loop() {
    let row1 = ContextBuilder::new()
        .set_string("name", "r1")
        .set_list("cells", strings(&["a", "b"]))
        .build_to_value();
    let row2 = ContextBuilder::new()
        .set_string("name", "r2")
        .set_list("cells", strings(&["c"]))
        .build_to_value();
    let context = ContextBuilder::new().set_list("rows", vec![row1, row2]).build();

    let template = "$for row in rows:\n$row.name - $for c in row.cells: $c $end |\n$end\n";
    assert_eq!(render_to_string(context, template).unwrap(), "r1 - ab |\nr2 - c |\n");
}

#[test]
fn missing_variable_is_an_error() {
    match render_to_string(Context::new(), "x $missing y") {
        Err(Error::VariableNotFound(path)) => assert_eq!(path, "missing"),
        other => panic!("unexpected: {:?}", other),
    }
}

#[test]
fn non_string_variable_is_an_error() {
    let context = ContextBuilder::new().set_bool("flag", true).build();

    match render_to_string(context, "$flag") {
        Err(Error::VariableNotFound(path)) => assert_eq!(path, "flag"),
        other => panic!("unexpected: {:?}", other),
    }
}

#[test]
fn loop_over_non_list_is_an_error() {
    let context = ContextBuilder::new().set_string("items", "abc").build();

    match render_to_string(context, "$for x in items: $x") {
        Err(Error::VariableNotFound(path)) => assert_eq!(path, "items"),
        other => panic!("unexpected: {:?}", other),
    }
}

#[test]
fn missing_or_non_boolean_condition_is_false() {
    let context = ContextBuilder::new().set_string("s", "true").build();

    assert_eq!(render_to_string(context, "$if s: yes$if missing: no").unwrap(), "");
}

#[test]
fn parse_error_is_reported() {
    match render_to_string(Context::new(), "ab $if flag yes") {
        Err(Error::Parse(e)) => assert_eq!(e, SyntaxError::InvalidIfBlock { offset: 3 }),
        other => panic!("unexpected: {:?}", other),
    }
    match render_to_string(Context::new(), "$if flag:\nbody") {
        Err(Error::Parse(e)) => assert_eq!(e, SyntaxError::NoEnd { offset: 0 }),
        other => panic!("unexpected: {:?}", other),
    }
    match render_to_string(Context::new(), "$for x of xs: $x") {
        Err(Error::Parse(e)) => assert_eq!(e, SyntaxError::InvalidForBlock { offset: 0 }),
        other => panic!("unexpected: {:?}", other),
    }
}

#[test]
fn depth_limit_is_enforced() {
    let context = ContextBuilder::new().set_bool("a", true).build();
    let renderer = Renderer::new(context, "$if a: $if a: x").with_max_depth(1);
    let mut out = String::new();

    assert!(matches!(renderer.render(&mut out), Err(Error::DepthExceeded)));

    let context = ContextBuilder::new().set_bool("a", true).build();
    let renderer = Renderer::new(context, "$if a: $if a: x").with_max_depth(2);
    let mut out = String::from(">");
    assert!(renderer.render(&mut out).is_ok());
    assert_eq!(out, ">x");
}

#[test]
fn render_to_writer_appends() {
    let context = ContextBuilder::new().set_string("n", "2").build();
    let mut out = String::from("1 ");

    stencil::render_to_writer(context, "$n 3", &mut out).unwrap();
    assert_eq!(out, "1 2 3");
}

#[test]
fn unicode_text_and_values() {
    let context = ContextBuilder::new().set_string("name", "Zoë").build();

    assert_eq!(render_to_string(context, "¡Hola $name ahora").unwrap(), "¡Hola Zoë ahora");
}

#[test]
fn blank_one_line_bodies() {
    let context = ContextBuilder::new().set_bool("flag", true).build();
    assert_eq!(render_to_string(context, "$if flag:   ").unwrap(), "  ");

    let context = ContextBuilder::new().set_list("items", Vec::new()).build();
    assert_eq!(render_to_string(context, "$for x in items:   ").unwrap(), "");

    let context = ContextBuilder::new().set_list("items", strings(&["a", "b"])).build();
    assert_eq!(render_to_string(context, "$for x in items:   ").unwrap(), "    ");

    match render_to_string(Context::new(), "$for x in items:   ") {
        Err(Error::VariableNotFound(path)) => assert_eq!(path, "items"),
        other => panic!("unexpected: {:?}", other),
    }
}

#[test]
fn clone_renders_alike() {
    let context = ContextBuilder::new()
        .set_string("name", "x")
        .set_list("xs", strings(&["1", "2"]))
        .build();
    let copy = context.clone();
    let template = "$name :$for v in xs: $v $end .";

    let first = render_to_string(context, template).unwrap();
    assert_eq!(first, render_to_string(copy, template).unwrap());
    assert_eq!(first, "x :12 .");
}

#[test]
fn writer_keeps_prefix_on_error() {
    let mut out = String::from(">");

    assert!(stencil::render_to_writer(Context::new(), "ab $missing", &mut out).is_err());
    assert_eq!(out, ">ab ");
}
