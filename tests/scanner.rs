use bart::scanner::{
    bart_tag, consume, literal_text, name, segmented_name, sequence, Error,
};
use bart::token::{simple_name, Name, SectionType, Token};

fn name_of(leading_dots: u32, segments: &[&str], function_call: bool) -> Name {
    Name {
        leading_dots,
        segments: segments.iter().map(|s| s.to_string()).collect(),
        function_call,
    }
}

fn lit(s: &str) -> Token {
    Token::Literal(s.to_string())
}

#[test]
fn scanner_consume_matches() {
    assert_eq!(Ok("ape}}"), consume("{{ape}}", "{{"));
}

#[test]
fn scanner_consume_mismatches() {
    assert_eq!(Err(Error::Mismatch), consume("{{ape}}", "{a"));
}

#[test]
fn scanner_bart_tag_matches() {
    assert_eq!(
        Ok(("tail", Token::Interpolation(simple_name("ape")))),
        bart_tag("{{ape}}tail")
    );
}

#[test]
fn scanner_bart_tag_matches_name_with_underscore() {
    assert_eq!(
        Ok(("tail", Token::Interpolation(simple_name("ape_katt")))),
        bart_tag("{{ape_katt}}tail")
    );
}

#[test]
fn scanner_bart_tag_mismatches() {
    assert_eq!(Err(Error::Mismatch), bart_tag("head{{ape}}"));
}

#[test]
fn scanner_bart_tag_must_be_closed() {
    assert_eq!(Err(Error::Mismatch), bart_tag("{{ape"));
}

#[test]
fn bart_tag_matches_section_opener() {
    assert_eq!(
        Ok(("", Token::SectionOpener(SectionType::Iteration, simple_name("ape")))),
        bart_tag("{{#ape}}")
    );
}

#[test]
fn bart_tag_matches_iteration_section_opener() {
    assert_eq!(
        Ok(("", Token::SectionOpener(SectionType::Iteration, simple_name("ape")))),
        bart_tag("{{#ape}}")
    );
}

#[test]
fn bart_tag_matches_iteration_section_opener_dot() {
    assert_eq!(
        Ok(("", Token::SectionOpener(SectionType::Iteration, name(".").unwrap().1))),
        bart_tag("{{#.}}")
    );
}

#[test]
fn bart_tag_matches_negative_iteration_section_opener() {
    assert_eq!(
        Ok(("", Token::SectionOpener(SectionType::NegativeIteration, simple_name("ape")))),
        bart_tag("{{^ape}}")
    );
}

#[test]
fn bart_tag_matches_conditional_section_opener() {
    assert_eq!(
        Ok(("", Token::SectionOpener(SectionType::Conditional, simple_name("ape")))),
        bart_tag("{{#ape?}}")
    );
}

#[test]
fn bart_tag_matches_negative_conditional_section_opener() {
    assert_eq!(
        Ok(("", Token::SectionOpener(SectionType::NegativeConditional, simple_name("ape")))),
        bart_tag("{{^ape?}}")
    );
}

#[test]
fn bart_tag_matches_scope_section_opener() {
    assert_eq!(
        Ok(("", Token::SectionOpener(SectionType::Scope, simple_name("ape")))),
        bart_tag("{{#ape.}}")
    );
}

#[test]
fn scanner_bart_tag_matches_section_closer() {
    assert_eq!(
        Ok(("", Token::SectionCloser(simple_name("ape")))),
        bart_tag("{{/ape}}")
    );
}

#[test]
fn bart_tag_matches_partial_include() {
    assert_eq!(
        Ok(("", Token::PartialInclude("ape".to_string(), name_of(1, &[], false)))),
        bart_tag("{{>ape}}")
    );
}

#[test]
fn scanner_bart_tag_matches_unescaped_interpolation() {
    assert_eq!(
        Ok(("", Token::UnescapedInterpolation(simple_name("ape")))),
        bart_tag("{{{ape}}}")
    );
}

#[test]
fn scanner_error_on_invalid_tag() {
    let res = bart_tag("{{+ape}}");
    assert!(res.is_err());
}

#[test]
fn error_on_invalid_tag_2() {
    let res = bart_tag("{{ape-skrekk}}");
    assert!(res.is_err());
}

#[test]
fn scanner_literal_reads_until_tag() {
    assert_eq!(Ok(("{{ape}}", Some(lit("head")))), literal_text("head{{ape}}"));
}

#[test]
fn scanner_literal_reads_until_end() {
    assert_eq!(Ok(("", Some(lit("head{ape}")))), literal_text("head{ape}"));
}

#[test]
fn scanner_literal_returns_none_at_tag() {
    assert_eq!(Ok(("{{ape}}", None)), literal_text("{{ape}}"));
}

#[test]
fn scanner_literal_returns_none_at_end() {
    assert_eq!(Ok(("", None)), literal_text(""));
}

#[test]
fn scanner_template_with_tightly_packed_tags() {
    let parsed = sequence("{{a}}{{b}}{{c}}").unwrap();
    assert_eq!(
        vec![
            Token::Interpolation(simple_name("a")),
            Token::Interpolation(simple_name("b")),
            Token::Interpolation(simple_name("c")),
        ],
        parsed
    );
}

#[test]
fn scanner_template_with_mixed_content() {
    let parsed = sequence("Hello {{name}}! {{#list}}Welcome{{/list}}").unwrap();
    assert_eq!(
        vec![
            lit("Hello "),
            Token::Interpolation(simple_name("name")),
            lit("! "),
            Token::SectionOpener(SectionType::Iteration, simple_name("list")),
            lit("Welcome"),
            Token::SectionCloser(simple_name("list")),
        ],
        parsed
    );
}

#[test]
fn scanner_tags_with_leading_dots() {
    let parsed = sequence("{{.a}}{{..b}}{{...c}}").unwrap();
    assert_eq!(
        vec![
            Token::Interpolation(name_of(1, &["a"], false)),
            Token::Interpolation(name_of(2, &["b"], false)),
            Token::Interpolation(name_of(3, &["c"], false)),
        ],
        parsed
    );
}

#[test]
fn scanner_tags_with_segmented_names() {
    let parsed = sequence("{{a.b.c}}{{..b.c.d}}").unwrap();
    assert_eq!(
        vec![
            Token::Interpolation(name_of(0, &["a", "b", "c"], false)),
            Token::Interpolation(name_of(2, &["b", "c", "d"], false)),
        ],
        parsed
    );
}

#[test]
fn tags_with_segmentless_name() {
    let parsed = sequence("{{.}}{{..}}").unwrap();
    assert_eq!(
        vec![
            Token::Interpolation(name_of(1, &[], false)),
            Token::Interpolation(name_of(2, &[], false)),
        ],
        parsed
    );
}

#[test]
fn tags_with_segmentless_name_missing_dots() {
    match sequence("{{}}") {
        Ok(_) => panic!(),
        Err(_) => (),
    }
}

#[test]
fn simple_segmented_name_parses() {
    assert_eq!(Ok(vec!["ape".to_string()]), segmented_name("ape"));
}

#[test]
fn simple_segmented_name_with_segments_parses() {
    assert_eq!(
        Ok(vec!["ape".to_string(), "katt".to_string()]),
        segmented_name("ape.katt")
    );
}

#[test]
fn simple_segmented_name_denies_leading_dots() {
    assert!(segmented_name(".ape.katt").is_err());
}

#[test]
fn simple_segmented_name_denies_funny_syntax() {
    assert!(segmented_name("ape.ka tt").is_err());
}

#[test]
fn simple_name_parses() {
    assert_eq!(Ok(("", simple_name("ape"))), name("ape"));
}

#[test]
fn name_with_whitespace() {
    assert_eq!(Ok(("", simple_name("ape"))), name("  ape  "));
}

#[test]
fn name_with_leading_dots() {
    assert_eq!(Ok(("", name_of(1, &["ape"], false))), name(".ape"));
}

#[test]
fn name_with_multiple_segments() {
    assert_eq!(
        Ok(("", name_of(0, &["ape", "2", "skrekk"], false))),
        name("ape.2.skrekk")
    );
}

#[test]
fn name_without_any_segments() {
    assert_eq!(Ok(("", name_of(1, &[], false))), name("."));
}

#[test]
fn tuple_struct_name() {
    assert_eq!(Ok(("", simple_name("0"))), name("0"));
}

#[test]
fn function_call_name() {
    assert_eq!(Ok(("", name_of(0, &["fun"], true))), name("fun()"));
}

#[test]
fn function_call_name_with_whitespace() {
    assert_eq!(Ok(("", name_of(0, &["fun"], true))), name("fun () "));
}

// Further cases of the grammar.

#[test]
fn keywords_are_not_segments() {
    assert!(segmented_name("fn").is_err());
    assert!(segmented_name("a.self").is_err());
    assert_eq!(Ok(vec!["fns".to_string()]), segmented_name("fns"));
}

#[test]
fn numeric_segments_must_fit_in_u32() {
    assert_eq!(Ok(vec!["4294967295".to_string()]), segmented_name("4294967295"));
    assert!(segmented_name("4294967296").is_err());
    assert!(segmented_name("1a").is_err());
}

#[test]
fn empty_path_has_no_segments() {
    assert_eq!(Ok(Vec::<String>::new()), segmented_name(""));
    assert!(segmented_name("a..b").is_err());
}

#[test]
fn call_without_segment_is_rejected() {
    assert_eq!(Err(Error::Mismatch), name(".()"));
    assert_eq!(Err(Error::Mismatch), name("()"));
    assert_eq!(Err(Error::Mismatch), name(""));
}

#[test]
fn negative_scope_opener_is_rejected() {
    assert_eq!(Err(Error::Mismatch), bart_tag("{{^ape.}}"));
}

#[test]
fn double_dot_opener_is_a_scope_of_the_parent() {
    assert_eq!(
        Ok(("", Token::SectionOpener(SectionType::Scope, name_of(1, &[], false)))),
        bart_tag("{{#..}}")
    );
}

#[test]
fn partial_include_with_root() {
    assert_eq!(
        Ok(("x", Token::PartialInclude("p.html".to_string(), name_of(0, &["person"], false)))),
        bart_tag("{{> p.html person }}x")
    );
}

#[test]
fn unterminated_tag_reports_its_position() {
    assert_eq!(Err(Error::InvalidTag { position: 6 }), sequence("Hello {{name"));
    assert_eq!(Err(Error::InvalidTag { position: 3 }), sequence("ab {{a b}}"));
}

#[test]
fn unescaped_tag_needs_three_braces() {
    assert!(sequence("{{{a}}").is_err());
    assert_eq!(
        vec![Token::UnescapedInterpolation(simple_name("a")), lit("}")],
        sequence("{{{a}}}}").unwrap()
    );
}

#[test]
fn multibyte_literals_are_kept_whole() {
    assert_eq!(
        vec![lit("blåbær "), Token::Interpolation(simple_name("ø")), lit(" ✓")],
        sequence("blåbær {{ø}} ✓").unwrap()
    );
}

#[test]
fn empty_template_has_no_tokens() {
    assert_eq!(Vec::<Token>::new(), sequence("").unwrap());
}
