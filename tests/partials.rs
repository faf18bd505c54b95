use bart::parse_str;
use bart::render::{render_to_string, Partials, RenderError};
use bart::value::{Field, Value};

fn field(name: &str, value: Value) -> Field {
    Field { name: name.to_string(), value, callable: false }
}

fn record(fields: Vec<Field>) -> Value {
    Value::Record { fields, truth: None }
}

fn with_partials(entries: &[(&str, &str)]) -> Partials {
    let mut partials = Partials::new();
    for (name, template) in entries {
        partials.add(name.to_string(), parse_str(template).unwrap());
    }
    partials
}

fn show(template: &str, root: Value, partials: &Partials) -> Result<String, RenderError> {
    render_to_string(&parse_str(template).unwrap(), &root, partials)
}

#[test]
fn partials_it_works() {
    let partials = with_partials(&[("partial.html", "Hello, {{name}}")]);
    let root = record(vec![field("name", Value::Text("World".to_string()))]);
    assert_eq!("(Hello, World)", show("({{>partial.html}})", root, &partials).unwrap());
}

#[test]
fn it_defaults_to_the_current_dynamic_scope() {
    let partials = with_partials(&[("partial.html", "Hello, {{name}}")]);
    let root = record(vec![field("a", record(vec![field("name", Value::Text("World".to_string()))]))]);
    assert_eq!("Hello, World", show("{{#a.}}{{>partial.html}}{{/a}}", root, &partials).unwrap());
}

#[test]
fn it_can_nest_within_iterator() {
    let partials = with_partials(&[("item.html", "({{.}})")]);
    let root = record(vec![field(
        "items",
        Value::List(vec![Value::Int(1), Value::Int(2), Value::Int(3)]),
    )]);
    assert_eq!("(1)\n(2)\n(3)\n", show("{{#items}}{{>item.html}}\n{{/items}}", root, &partials).unwrap());
}

#[test]
fn it_allows_named_root_scope() {
    let partials = with_partials(&[("person.html", "Hello, {{name}}")]);
    let root = record(vec![field("person", record(vec![field("name", Value::Text("World".to_string()))]))]);
    assert_eq!("(Hello, World)", show("({{>person.html person}})", root, &partials).unwrap());
}

#[test]
fn it_finds_partials_relative_to_crate_root() {
    let partials = with_partials(&[("/tests/templates/partials/partial.html", "Hello, {{.name}}")]);
    let root = record(vec![field("name", Value::Text("World".to_string()))]);
    assert_eq!(
        "(Hello, World)",
        show("({{>/tests/templates/partials/partial.html}})", root, &partials).unwrap()
    );
}

#[test]
fn partials_do_not_see_the_outer_scopes() {
    let partials = with_partials(&[("p", "{{..x}}")]);
    let root = record(vec![field("x", Value::Int(1)), field("a", record(vec![]))]);
    assert!(matches!(
        show("{{>p a}}", root, &partials),
        Err(RenderError::TooManyLeadingDots { leading_dots: 2, depth: 1 })
    ));
}

#[test]
fn missing_partial_is_an_error() {
    match show("{{>nowhere}}", record(vec![]), &Partials::new()) {
        Err(RenderError::PartialNotFound(name)) => assert_eq!("nowhere", name),
        other => panic!("{:?}", other),
    }
}

#[test]
fn circular_partials_fail_fast() {
    let partials = with_partials(&[("a", "A{{>b}}"), ("b", "B{{>a}}")]);
    match show("{{>a}}", record(vec![]), &partials) {
        Err(RenderError::CircularPartial(name)) => assert_eq!("a", name),
        other => panic!("{:?}", other),
    }
    let itself = with_partials(&[("self", "{{>self}}")]);
    assert!(matches!(show("{{>self}}", record(vec![]), &itself), Err(RenderError::CircularPartial(_))));
}

#[test]
fn a_partial_may_be_included_twice_in_a_row() {
    let partials = with_partials(&[("p", "x")]);
    assert_eq!("xx", show("{{>p}}{{>p}}", record(vec![]), &partials).unwrap());
}

#[test]
fn the_first_partial_of_a_name_is_used() {
    let partials = with_partials(&[("p", "first"), ("p", "second")]);
    assert_eq!("first", show("{{>p}}", record(vec![]), &partials).unwrap());
}
