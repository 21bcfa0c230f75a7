use templater::TemplateSyntaxError;
use templater::strmap::StrMap;
use templater::template::{referenced_variables, render};

fn map_of(pairs: &[(&str, &str)]) -> StrMap {
    let mut m = StrMap::new();
    for (k, v) in pairs {
        m.insert(k.as_bytes().to_vec(), v.as_bytes().to_vec());
    }
    m
}

#[test]
fn test_referenced_variables_dedup() {
    let names = referenced_variables(b"{{a}} {{b}} {{a}}").unwrap();
    assert_eq!(names.len(), 2);
    assert_eq!(names[0].as_slice(), b"a");
    assert_eq!(names[1].as_slice(), b"b");
}

#[test]
fn test_referenced_variables_include_conditions() {
    let names = referenced_variables(b"{{#if flag}}{{x}}{{else}}{{y}}{{/if}}").unwrap();
    assert_eq!(names.len(), 3);
    assert_eq!(names[0].as_slice(), b"flag");
    assert_eq!(names[1].as_slice(), b"x");
    assert_eq!(names[2].as_slice(), b"y");
}

#[test]
fn test_render_plain_body_identity() {
    let body = b"no expressions here, just text\nwith } and { and }} too\n";
    let vars = map_of(&[("a", "1"), ("b", "2")]);
    let out = render(body, &vars).unwrap();
    assert_eq!(out.as_slice(), body.as_slice());
}

#[test]
fn test_render_substitutes_variables() {
    let vars = map_of(&[("name", "world"), ("greeting", "hello")]);
    let out = render(b"{{greeting}}, {{name}}!", &vars).unwrap();
    assert_eq!(out.as_slice(), b"hello, world!");
}

#[test]
fn test_render_missing_variable_is_empty() {
    let vars = StrMap::new();
    let out = render(b"[{{absent}}]", &vars).unwrap();
    assert_eq!(out.as_slice(), b"[]");
}

#[test]
fn test_round_trip_all_names_present() {
    let body = b"{{a}}-{{b}}";
    let names = referenced_variables(body).unwrap();
    let vars = map_of(&[("a", "1"), ("b", "2")]);
    for n in &names {
        assert!(vars.get(n.as_slice()).is_some());
    }
    let out = render(body, &vars).unwrap();
    assert_eq!(out.as_slice(), b"1-2");
}

#[test]
fn test_truthiness_false_literal() {
    let vars = map_of(&[("flag", "false")]);
    let out = render(b"{{#if flag}}A{{else}}B{{/if}}", &vars).unwrap();
    assert_eq!(out.as_slice(), b"B");
}

#[test]
fn test_truthiness_empty_value() {
    let vars = map_of(&[("flag", "")]);
    let out = render(b"{{#if flag}}A{{else}}B{{/if}}", &vars).unwrap();
    assert_eq!(out.as_slice(), b"B");
}

#[test]
fn test_truthiness_nonempty_value() {
    let vars = map_of(&[("flag", "x")]);
    let out = render(b"{{#if flag}}A{{else}}B{{/if}}", &vars).unwrap();
    assert_eq!(out.as_slice(), b"A");
}

#[test]
fn test_truthiness_absent_variable() {
    let vars = StrMap::new();
    let out = render(b"{{#if flag}}A{{else}}B{{/if}}", &vars).unwrap();
    assert_eq!(out.as_slice(), b"B");
}

#[test]
fn test_truthiness_false_uppercase() {
    let vars = map_of(&[("flag", "FALSE")]);
    let out = render(b"{{#if flag}}A{{else}}B{{/if}}", &vars).unwrap();
    assert_eq!(out.as_slice(), b"B");
}

#[test]
fn test_conditional_without_else() {
    let vars = map_of(&[("flag", "yes")]);
    let out = render(b"x{{#if flag}}A{{/if}}y", &vars).unwrap();
    assert_eq!(out.as_slice(), b"xAy");
    let none = StrMap::new();
    let out2 = render(b"x{{#if flag}}A{{/if}}y", &none).unwrap();
    assert_eq!(out2.as_slice(), b"xy");
}

#[test]
fn test_nested_conditionals() {
    let vars = map_of(&[("a", "true"), ("b", "false")]);
    let out = render(
        b"{{#if a}}X{{#if b}}Y{{/if}}Z{{else}}W{{/if}}",
        &vars,
    )
    .unwrap();
    assert_eq!(out.as_slice(), b"XZ");
}

#[test]
fn test_escaped_braces_render_literally() {
    let vars = map_of(&[("foo", "value")]);
    let out = render(b"\\{{ foo }}", &vars).unwrap();
    assert_eq!(out.as_slice(), b"{{ foo }}");
}

#[test]
fn test_unclosed_expression_error() {
    let vars = StrMap::new();
    assert_eq!(
        render(b"text {{name", &vars).unwrap_err(),
        TemplateSyntaxError::UnclosedExpression
    );
}

#[test]
fn test_empty_expression_error() {
    let vars = StrMap::new();
    assert_eq!(
        render(b"{{}}", &vars).unwrap_err(),
        TemplateSyntaxError::MalformedExpression
    );
    assert_eq!(
        render(b"{{   }}", &vars).unwrap_err(),
        TemplateSyntaxError::MalformedExpression
    );
}

#[test]
fn test_unbalanced_block_errors() {
    let vars = StrMap::new();
    assert_eq!(
        render(b"{{#if x}}A", &vars).unwrap_err(),
        TemplateSyntaxError::UnbalancedBlock
    );
    assert_eq!(
        render(b"A{{/if}}", &vars).unwrap_err(),
        TemplateSyntaxError::UnbalancedBlock
    );
    assert_eq!(
        render(b"A{{else}}B", &vars).unwrap_err(),
        TemplateSyntaxError::UnbalancedBlock
    );
}

#[test]
fn test_scanner_rejects_malformed_bodies() {
    assert!(referenced_variables(b"{{#if x}}A").is_err());
    assert!(referenced_variables(b"{{not a name}}").is_err());
    assert!(referenced_variables(b"{{bad").is_err());
}

#[test]
fn test_expression_names_are_trimmed() {
    let vars = map_of(&[("name", "v")]);
    let out = render(b"{{ name }}", &vars).unwrap();
    assert_eq!(out.as_slice(), b"v");
}
