use bart::ast::Ast;
use bart::parse_str;
use bart::render::{render, render_to_string, resolve_value, Partials, RenderError};
use bart::scanner::segmented_name;
use bart::token::Name;
use bart::value::{Field, Value};

fn text(s: &str) -> Value {
    Value::Text(s.to_string())
}

fn num(i: i64) -> Value {
    Value::Int(i)
}

fn list(items: Vec<Value>) -> Value {
    Value::List(items)
}

fn field(name: &str, value: Value) -> Field {
    Field { name: name.to_string(), value, callable: false }
}

fn method(name: &str, value: Value) -> Field {
    Field { name: name.to_string(), value, callable: true }
}

fn record(fields: Vec<Field>) -> Value {
    Value::Record { fields, truth: None }
}

fn some(v: Value) -> Value {
    Value::Maybe(Some(Box::new(v)))
}

fn none() -> Value {
    Value::Maybe(None)
}

fn render_str(template: &str, root: &Value) -> Result<String, RenderError> {
    let ast = parse_str(template).unwrap();
    render_to_string(&ast, root, &Partials::new())
}

fn show(template: &str, root: Value) -> String {
    render_str(template, &root).unwrap()
}

// Interpolation

#[test]
fn basic_it_works() {
    assert_eq!("Hello, World", show("Hello, {{name}}", record(vec![field("name", text("World"))])));
}

#[test]
fn test_it_works() {
    assert_eq!("Hello, World", show("Hello, {{name}}", record(vec![field("name", text("World"))])));
}

#[test]
fn it_finds_template_files() {
    let template = "Hello, {{name}}";
    assert_eq!("Hello, World", show(template, record(vec![field("name", text("World"))])));
}

#[test]
fn basic_it_handles_names_with_underscore() {
    assert_eq!(
        "Hello, World",
        show("Hello, {{your_name}}", record(vec![field("your_name", text("World"))]))
    );
}

#[test]
fn test_it_handles_names_with_underscore() {
    assert_eq!(
        "Hello, World",
        show("Hello, {{your_name}}", record(vec![field("your_name", text("World"))]))
    );
}

#[test]
fn basic_it_handles_tuple_struct_field_names() {
    assert_eq!("Hello, World", show("Hello, {{0}}", record(vec![field("0", text("World"))])));
}

#[test]
fn test_it_handles_tuple_struct_field_names() {
    assert_eq!("Hello, World", show("Hello, {{0}}", record(vec![field("0", text("World"))])));
}

#[test]
fn basic_it_handles_some_whitespace() {
    assert_eq!("Hello, World", show("Hello, {{  name  }}", record(vec![field("name", text("World"))])));
}

#[test]
fn test_it_handles_some_whitespace() {
    assert_eq!("Hello, World", show("Hello, {{  name  }}", record(vec![field("name", text("World"))])));
}

#[test]
fn basic_it_can_borrow() {
    assert_eq!("Hello, World", show("Hello, {{name}}", record(vec![field("name", text("World"))])));
}

#[test]
fn test_it_can_borrow() {
    assert_eq!("Hello, World", show("Hello, {{name}}", record(vec![field("name", text("World"))])));
}

#[test]
fn basic_it_performs_escaping() {
    assert_eq!("&lt;&amp;&quot;&apos;", show("{{txt}}", record(vec![field("txt", text("<&\"'"))])));
}

#[test]
fn test_it_performs_escaping() {
    assert_eq!("&lt;&amp;&quot;&apos;", show("{{txt}}", record(vec![field("txt", text("<&\"'"))])));
}

#[test]
fn basic_it_passes_through() {
    assert_eq!("<&\"'", show("{{{txt}}}", record(vec![field("txt", text("<&\"'"))])));
}

#[test]
fn test_it_passes_through() {
    assert_eq!("<&\"'", show("{{{txt}}}", record(vec![field("txt", text("<&\"'"))])));
}

#[test]
fn template_root_element() {
    let data = record(vec![field("0", record(vec![field("name", text("World"))]))]);
    let root_path = Name { leading_dots: 0, segments: segmented_name("0").unwrap(), function_call: false };
    let stack = vec![&data];
    let root = resolve_value(&stack, &root_path).unwrap();
    let ast = parse_str("Hello, {{name}}").unwrap();
    assert_eq!("Hello, World", render_to_string(&ast, root, &Partials::new()).unwrap());
}

#[test]
fn function_call() {
    assert_eq!("Hello, World", show("Hello, {{name()}}", record(vec![method("name", text("World"))])));
}

// Conditional sections

#[test]
fn conditional_scope_it_supports_conditional_scope_with_boolean() {
    assert_eq!("yes", show("{{#a?}}yes{{/a}}", record(vec![field("a", Value::Bool(true))])));
    assert_eq!("", show("{{#a?}}yes{{/a}}", record(vec![field("a", Value::Bool(false))])));
}

#[test]
fn test_it_supports_conditional_scope_with_boolean() {
    assert_eq!("yes", show("{{#a?}}yes{{/a}}", record(vec![field("a", Value::Bool(true))])));
    assert_eq!("", show("{{#a?}}yes{{/a}}", record(vec![field("a", Value::Bool(false))])));
}

#[test]
fn test_it_supports_boolean_scope() {
    assert_eq!("yes", show("{{#a?}}yes{{/a}}", record(vec![field("a", Value::Bool(true))])));
    assert_eq!("", show("{{#a?}}yes{{/a}}", record(vec![field("a", Value::Bool(false))])));
}

#[test]
fn conditional_scope_it_supports_negative_conditional_scope_with_boolean() {
    assert_eq!("", show("{{^a?}}no{{/a}}", record(vec![field("a", Value::Bool(true))])));
    assert_eq!("no", show("{{^a?}}no{{/a}}", record(vec![field("a", Value::Bool(false))])));
}

#[test]
fn test_it_supports_negative_conditional_scope_with_boolean() {
    assert_eq!("", show("{{^a?}}no{{/a}}", record(vec![field("a", Value::Bool(true))])));
    assert_eq!("no", show("{{^a?}}no{{/a}}", record(vec![field("a", Value::Bool(false))])));
}

fn test_bool(name: &str) -> Value {
    Value::Record {
        fields: vec![field("name", text(name))],
        truth: Some(name.len() > 2),
    }
}

#[test]
fn conditional_scope_it_supports_conditional_scope_with_non_bool() {
    let template = "{{cond.name}}: {{#cond?}}Hello {{.name}}{{/cond}}";
    assert_eq!("Joe: Hello Joe", show(template, record(vec![field("cond", test_bool("Joe"))])));
    assert_eq!("No: ", show(template, record(vec![field("cond", test_bool("No"))])));
}

#[test]
fn test_it_supports_conditional_scope_with_non_bool() {
    let template = "{{cond.name}}: {{#cond?}}Hello {{.name}}{{/cond}}";
    assert_eq!("Joe: Hello Joe", show(template, record(vec![field("cond", test_bool("Joe"))])));
    assert_eq!("No: ", show(template, record(vec![field("cond", test_bool("No"))])));
}

#[test]
fn it_supports_conditional_scope_with_vec() {
    assert_eq!("yes", show("{{#a?}}yes{{/a}}", record(vec![field("a", list(vec![num(1)]))])));
    assert_eq!("", show("{{#a?}}yes{{/a}}", record(vec![field("a", list(vec![]))])));
}

#[test]
fn it_supports_conditional_scope_with_borrowed_vec() {
    assert_eq!("yes", show("{{#a?}}yes{{/a}}", record(vec![field("a", list(vec![num(1), num(2), num(3)]))])));
    assert_eq!("", show("{{#a?}}yes{{/a}}", record(vec![field("a", list(vec![]))])));
}

#[test]
fn it_supports_conditional_scope_with_slice() {
    assert_eq!("yes", show("{{#a?}}yes{{/a}}", record(vec![field("a", list(vec![num(1)]))])));
    assert_eq!("", show("{{#a?}}yes{{/a}}", record(vec![field("a", list(vec![]))])));
}

// Iteration

#[test]
fn iteration_it_can_iterate() {
    assert_eq!("123", show("{{#vec}}{{.}}{{/vec}}", record(vec![field("vec", list(vec![num(1), num(2), num(3)]))])));
}

#[test]
fn test_it_can_iterate() {
    assert_eq!("123", show("{{#vec}}{{.}}{{/vec}}", record(vec![field("vec", list(vec![num(1), num(2), num(3)]))])));
}

#[test]
fn iteration_it_can_iterate_option() {
    assert_eq!("(1)", show("{{#a}}({{.}}){{/a}}", record(vec![field("a", some(num(1)))])));
    assert_eq!("", show("{{#a}}({{.}}){{/a}}", record(vec![field("a", none())])));
}

#[test]
fn test_it_can_iterate_option() {
    assert_eq!("(1)", show("{{#a}}({{.}}){{/a}}", record(vec![field("a", some(num(1)))])));
    assert_eq!("", show("{{#a}}({{.}}){{/a}}", record(vec![field("a", none())])));
}

#[test]
fn iteration_it_can_iterate_borrowed_slice() {
    assert_eq!("123", show("{{#slice}}{{.}}{{/slice}}", record(vec![field("slice", list(vec![num(1), num(2), num(3)]))])));
}

#[test]
fn test_it_can_iterate_borrowed_slice() {
    assert_eq!("123", show("{{#slice}}{{.}}{{/slice}}", record(vec![field("slice", list(vec![num(1), num(2), num(3)]))])));
}

#[test]
fn it_can_iterate_function() {
    let data = record(vec![
        field("a", num(1)),
        field("b", num(2)),
        field("c", num(3)),
        method("as_vec", list(vec![num(1), num(2), num(3)])),
    ]);
    assert_eq!("123", show("{{#as_vec()}}{{.}}{{/as_vec()}}", data));
}

#[test]
fn it_can_iterate_dot() {
    let data = record(vec![field("opt", some(list(vec![num(1), num(2), num(3)])))]);
    assert_eq!("123", show("{{#opt}}{{#.}}{{.}}{{/.}}{{/opt}}", data));
}

// Negative iteration

#[test]
fn it_skips_some_option() {
    assert_eq!("[]", show("[{{^x}}it{{/x}}]", record(vec![field("x", some(num(42)))])));
}

#[test]
fn it_includes_none_option() {
    assert_eq!("[it]", show("[{{^x}}it{{/x}}]", record(vec![field("x", none())])));
}

#[test]
fn it_supports_borrowed_option() {
    assert_eq!("[it]", show("[{{^x}}it{{/x}}]", record(vec![field("x", none())])));
}

#[test]
fn it_supports_multiply_borrowed_option() {
    assert_eq!("[it]", show("[{{^x}}it{{/x}}]", record(vec![field("x", none())])));
}

#[test]
fn it_skips_ok_result() {
    let x = Value::Outcome(Ok(Box::new(num(42))));
    assert_eq!("[]", show("[{{^x}}{{.}}{{/x}}]", record(vec![field("x", x)])));
}

#[test]
fn it_yields_err_result() {
    let x = Value::Outcome(Err(Box::new(num(42))));
    assert_eq!("[42]", show("[{{^x}}{{.}}{{/x}}]", record(vec![field("x", x)])));
}

// Scoping

#[test]
fn scoping_it_can_access_nested_fields() {
    let data = record(vec![field("nested", record(vec![field("a", num(42))]))]);
    assert_eq!("42", show("{{nested.a}}", data));
}

#[test]
fn test_it_can_access_nested_fields() {
    let data = record(vec![field("nested", record(vec![field("a", num(42))]))]);
    assert_eq!("42", show("{{nested.a}}", data));
}

#[test]
fn scoping_it_can_scope_into_nested_values() {
    let data = record(vec![field("nested", record(vec![field("a", num(42))]))]);
    assert_eq!("42", show("{{#nested.}}{{.a}}{{/nested}}", data));
}

#[test]
fn test_it_can_scope_into_nested_values() {
    let data = record(vec![field("nested", record(vec![field("a", num(42))]))]);
    assert_eq!("42", show("{{#nested.}}{{.a}}{{/nested}}", data));
}

#[test]
fn it_can_scope_into_function_values() {
    let data = record(vec![field("a", num(42)), method("as_nested", record(vec![field("a", num(42))]))]);
    assert_eq!("42", show("{{#as_nested().}}{{.a}}{{/as_nested()}}", data));
}

// Resolution and capability errors

#[test]
fn too_many_leading_dots_is_an_error() {
    let data = record(vec![field("a", num(1))]);
    assert!(matches!(
        render_str("{{..a}}", &data),
        Err(RenderError::TooManyLeadingDots { leading_dots: 2, depth: 1 })
    ));
    assert!(matches!(
        render_str("{{#a.}}{{...a}}{{/a}}", &data),
        Err(RenderError::TooManyLeadingDots { leading_dots: 3, depth: 2 })
    ));
}

#[test]
fn outer_scopes_are_reachable_with_more_dots() {
    let data = record(vec![
        field("title", text("T")),
        field("items", list(vec![record(vec![field("n", num(1))]), record(vec![field("n", num(2))])])),
    ]);
    assert_eq!("T1;T2;", show("{{#items}}{{..title}}{{.n}};{{/items}}", data));
}

#[test]
fn missing_field_is_an_error() {
    let data = record(vec![field("a", num(1))]);
    match render_str("{{b}}", &data) {
        Err(RenderError::NoSuchField(s)) => assert_eq!("b", s),
        other => panic!("{:?}", other),
    }
    match render_str("{{a.b}}", &data) {
        Err(RenderError::NoSuchField(s)) => assert_eq!("b", s),
        other => panic!("{:?}", other),
    }
}

#[test]
fn calling_a_field_is_an_error() {
    let data = record(vec![field("a", num(1)), method("m", num(2))]);
    match render_str("{{a()}}", &data) {
        Err(RenderError::NotCallable(s)) => assert_eq!("a", s),
        other => panic!("{:?}", other),
    }
    match render_str("{{m}}", &data) {
        Err(RenderError::NotCalled(s)) => assert_eq!("m", s),
        other => panic!("{:?}", other),
    }
    assert_eq!("2", show("{{m()}}", record(vec![method("m", num(2))])));
}

#[test]
fn capabilities_are_checked() {
    let data = record(vec![field("n", num(1)), field("l", list(vec![])), field("u", Value::Unit)]);
    assert!(matches!(render_str("{{l}}", &data), Err(RenderError::NotDisplayable)));
    assert!(matches!(render_str("{{u}}", &data), Err(RenderError::NotDisplayable)));
    assert!(matches!(render_str("{{#n?}}x{{/n}}", &data), Err(RenderError::NoTruthiness)));
    assert!(matches!(render_str("{{#n}}x{{/n}}", &data), Err(RenderError::NotIterable)));
    assert!(matches!(render_str("{{^l}}x{{/l}}", &data), Err(RenderError::NotNegativeIterable)));
}

#[test]
fn a_name_without_segments_cannot_be_called() {
    let ast = Ast::Interpolation(Name { leading_dots: 1, segments: vec![], function_call: true });
    assert!(matches!(
        render_to_string(&ast, &num(1), &Partials::new()),
        Err(RenderError::NothingToCall)
    ));
}

#[test]
fn output_before_an_error_stays_written() {
    let ast = parse_str("ok {{missing}} never").unwrap();
    let mut out = String::from(">");
    let r = render(&ast, &record(vec![]), &Partials::new(), &mut out);
    assert!(r.is_err());
    assert_eq!(">ok ", out);
}

#[test]
fn scalars_have_text() {
    let data = record(vec![
        field("t", Value::Bool(true)),
        field("f", Value::Bool(false)),
        field("n", num(-9_223_372_036_854_775_808)),
        field("z", num(0)),
        field("p", num(1207)),
    ]);
    assert_eq!("true false -9223372036854775808 0 1207", show("{{t}} {{f}} {{n}} {{z}} {{p}}", data));
}

#[test]
fn records_can_carry_their_own_truthiness() {
    let data = record(vec![field("r", Value::Record { fields: vec![], truth: Some(false) })]);
    assert_eq!("no", show("{{#r?}}yes{{/r}}{{^r?}}no{{/r}}", data));
}
