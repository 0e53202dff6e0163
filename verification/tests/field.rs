use captain_crunch::error::GenError;
use captain_crunch::field::{parse, parse_format_strings, FieldSpec};

fn owned(items: &[&str]) -> Vec<String> {
    items.iter().map(|s| s.to_string()).collect()
}

#[test]
fn a_literal_field_is_tokenized() {
    let spec = FieldSpec::Literal("red|green|blue".to_string());
    assert_eq!(parse(&spec), Ok(owned(&["red", "green", "blue"])));
}

#[test]
fn a_literal_field_keeps_what_looks_like_a_pattern() {
    let spec = FieldSpec::Literal("[a-c]*".to_string());
    assert_eq!(parse(&spec), Ok(owned(&["[a-c]*"])));
}

#[test]
fn an_empty_literal_field_has_one_empty_candidate() {
    assert_eq!(parse(&FieldSpec::Literal(String::new())), Ok(owned(&[""])));
}

#[test]
fn a_pattern_field_is_expanded() {
    let spec = FieldSpec::Pattern("[0-2]x?".to_string());
    assert_eq!(parse(&spec), Ok(owned(&["0", "0x", "1", "1x", "2", "2x"])));
}

#[test]
fn a_pattern_field_fails_as_its_pattern_does() {
    assert_eq!(parse(&FieldSpec::Pattern("a+".to_string())), Err(GenError::UnboundedPattern));
    assert_eq!(parse(&FieldSpec::Pattern("(a".to_string())), Err(GenError::InvalidPattern));
    assert_eq!(parse(&FieldSpec::Pattern("a$".to_string())), Err(GenError::InvalidPattern));
}

#[test]
fn fields_are_parsed_in_order() {
    let parts = vec![
        FieldSpec::Literal("x|y".to_string()),
        FieldSpec::Pattern("[1-3]".to_string()),
        FieldSpec::Literal("!".to_string()),
    ];
    assert_eq!(
        parse_format_strings(&parts),
        Ok(vec![owned(&["x", "y"]), owned(&["1", "2", "3"]), owned(&["!"])])
    );
}

#[test]
fn no_fields_give_no_lists() {
    assert_eq!(parse_format_strings(&Vec::new()), Ok(Vec::new()));
}

#[test]
fn the_first_failing_field_decides_the_error() {
    let parts = vec![
        FieldSpec::Literal("x|y".to_string()),
        FieldSpec::Pattern("a*".to_string()),
        FieldSpec::Pattern("(b".to_string()),
    ];
    assert_eq!(parse_format_strings(&parts), Err(GenError::UnboundedPattern));
    let parts = vec![
        FieldSpec::Pattern("(b".to_string()),
        FieldSpec::Pattern("a*".to_string()),
    ];
    assert_eq!(parse_format_strings(&parts), Err(GenError::InvalidPattern));
}

#[test]
fn a_pattern_without_strings_gives_an_empty_list() {
    let parts = vec![FieldSpec::Literal("x".to_string()), FieldSpec::Pattern(String::new())];
    assert_eq!(parse_format_strings(&parts), Ok(vec![owned(&["x"]), Vec::new()]));
}
