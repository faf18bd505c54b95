use bart::parse_str;
use bart::parser::parse;
use bart::render::{render_to_string, Partials, RenderError};
use bart::scanner::sequence;
use bart::token::{simple_name, SectionType, Token};
use bart::value::{Field, Value};

fn field(name: &str, value: Value) -> Field {
    Field { name: name.to_string(), value, callable: false }
}

fn record(fields: Vec<Field>) -> Value {
    Value::Record { fields, truth: None }
}

fn show(template: &str, root: &Value) -> Result<String, RenderError> {
    render_to_string(&parse_str(template).unwrap(), root, &Partials::new())
}

#[test]
fn literal_templates_render_unchanged() {
    for t in ["", "plain", "a { b } c", "}} closing only", "{ {", "<&\"'>", "multi\nline ✓"] {
        assert_eq!(t, show(t, &record(vec![])).unwrap());
        assert_eq!(t, show(t, &Value::Int(3)).unwrap());
    }
}

#[test]
fn escaped_and_raw_interpolation_of_special_characters() {
    for (input, expected) in [
        ("<&\"'", "&lt;&amp;&quot;&apos;"),
        ("''", "&apos;&apos;"),
        ("a<<b", "a&lt;&lt;b"),
        ("&amp;", "&amp;amp;"),
        ("", ""),
    ] {
        let data = record(vec![field("s", Value::Text(input.to_string()))]);
        assert_eq!(expected, show("{{s}}", &data).unwrap());
        assert_eq!(input, show("{{{s}}}", &data).unwrap());
    }
}

#[test]
fn iteration_renders_once_per_element_in_order() {
    let empty = record(vec![field("v", Value::List(vec![]))]);
    assert_eq!("", show("{{#v}}x{{/v}}", &empty).unwrap());
    let items: Vec<Value> = (0..5).map(Value::Int).collect();
    let five = record(vec![field("v", Value::List(items))]);
    assert_eq!("xxxxx", show("{{#v}}x{{/v}}", &five).unwrap());
    assert_eq!("0,1,2,3,4,", show("{{#v}}{{.}},{{/v}}", &five).unwrap());
}

#[test]
fn negative_iteration_renders_once_for_absence() {
    let none = record(vec![field("x", Value::Maybe(None))]);
    let some = record(vec![field("x", Value::Maybe(Some(Box::new(Value::Int(1)))))]);
    let err = record(vec![field("x", Value::Outcome(Err(Box::new(Value::Text("bad".to_string())))))]);
    let ok = record(vec![field("x", Value::Outcome(Ok(Box::new(Value::Int(1)))))]);
    assert_eq!("once", show("{{^x}}once{{/x}}", &none).unwrap());
    assert_eq!("", show("{{^x}}once{{/x}}", &some).unwrap());
    assert_eq!("bad", show("{{^x}}{{.}}{{/x}}", &err).unwrap());
    assert_eq!("", show("{{^x}}{{.}}{{/x}}", &ok).unwrap());
}

#[test]
fn conditional_and_its_complement() {
    let yes = record(vec![field("a", Value::Bool(true))]);
    let no = record(vec![field("a", Value::Bool(false))]);
    assert_eq!("body", show("{{#a?}}body{{/a}}", &yes).unwrap());
    assert_eq!("", show("{{#a?}}body{{/a}}", &no).unwrap());
    assert_eq!("", show("{{^a?}}body{{/a}}", &yes).unwrap());
    assert_eq!("body", show("{{^a?}}body{{/a}}", &no).unwrap());
}

#[test]
fn mismatched_closer_fails_whatever_is_between() {
    for middle in ["", "text", "{{a}}", "{{#z}}{{/z}}", "{{{b}}}{{>p}}"] {
        let template = format!("{{{{#x}}}}{}{{{{/y}}}}", middle);
        assert!(parse_str(&template).is_err(), "{}", template);
    }
    let tokens = vec![
        Token::SectionOpener(SectionType::Iteration, simple_name("x")),
        Token::Literal("between".to_string()),
        Token::SectionCloser(simple_name("y")),
    ];
    assert!(parse(tokens).is_err());
    assert_eq!(4, sequence("{{#x}}a{{b}}{{/y}}").unwrap().len());
}

#[test]
fn hello_world_scenario() {
    let data = record(vec![field("name", Value::Text("World".to_string()))]);
    assert_eq!("Hello World", show("Hello {{name}}", &data).unwrap());
}

#[test]
fn vec_iteration_scenario() {
    let data = record(vec![field("vec", Value::List(vec![Value::Int(1), Value::Int(2), Value::Int(3)]))]);
    assert_eq!("123", show("{{#vec}}{{.}}{{/vec}}", &data).unwrap());
}

#[test]
fn nested_scope_scenario() {
    let data = record(vec![field("nested", record(vec![field("a", Value::Int(42))]))]);
    assert_eq!("42", show("{{#nested.}}{{.a}}{{/nested}}", &data).unwrap());
}

#[test]
fn negative_option_scenario() {
    let none = record(vec![field("x", Value::Maybe(None))]);
    let some = record(vec![field("x", Value::Maybe(Some(Box::new(Value::Int(42)))))]);
    assert_eq!("[it]", show("[{{^x}}it{{/x}}]", &none).unwrap());
    assert_eq!("[]", show("[{{^x}}it{{/x}}]", &some).unwrap());
}

#[test]
fn too_many_dots_scenario() {
    let data = record(vec![field("a", Value::Int(1))]);
    assert!(matches!(
        show("{{..a}}", &data),
        Err(RenderError::TooManyLeadingDots { leading_dots: 2, depth: 1 })
    ));
    assert!(matches!(
        show("{{#a?}}{{/a}}{{...}}", &record(vec![field("a", Value::Bool(true))])),
        Err(RenderError::TooManyLeadingDots { leading_dots: 3, depth: 1 })
    ));
}

#[test]
fn name_index_at_each_depth() {
    let n = simple_name("a");
    assert_eq!(0, n.resolve(1).unwrap());
    assert_eq!(0, n.resolve(4).unwrap());
    let up = bart::token::Name { leading_dots: 2, segments: vec![], function_call: false };
    assert_eq!(1, up.resolve(3).unwrap());
    assert_eq!(0, up.resolve(2).unwrap());
    assert!(matches!(up.resolve(1), Err(RenderError::TooManyLeadingDots { leading_dots: 2, depth: 1 })));
}

#[test]
fn resolves_top_level_names() {
    assert_eq!(0, simple_name("ape").resolve(3).unwrap());
}

#[test]
fn resolves_nested_names() {
    assert_eq!(2, bart::scanner::name(".ape").unwrap().1.resolve(3).unwrap());
}

#[test]
fn resolves_function_calls() {
    let n = bart::scanner::name("ape()").unwrap().1;
    assert!(n.function_call);
    assert_eq!(0, n.resolve(3).unwrap());
}
