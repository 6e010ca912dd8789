use slapper::parse::ParseError;
use slapper::parse::SubstitutingUrl;
use slapper::parse::SubstitutionError;
use std::str::FromStr;

#[test]
fn test_plain() {
    let subber = SubstitutingUrl::from_str("test/something/blah").unwrap();

    let result = subber.sub_by_name(&Vec::new()).unwrap();
    assert_eq!(result, "test/something/blah".to_owned());
}

#[test]
fn test_parse() {
    let subber = SubstitutingUrl::from_str("test/{val}/blah").unwrap();

    let test_values = vec![("val".to_owned(), "something".to_owned())];

    let result = subber.sub_by_name(&test_values).unwrap();
    assert_eq!(result, "test/something/blah".to_owned());
}

#[test]
fn test_multi_parse() {
    let subber = SubstitutingUrl::from_str("{v1}/{v2}{v3}").unwrap();

    let test_values = vec![
        ("v1".to_owned(), "la".to_owned()),
        ("v2".to_owned(), "de".to_owned()),
        ("v3".to_owned(), "dah".to_owned()),
    ];

    let result = subber.sub_by_name(&test_values).unwrap();
    assert_eq!(result, "la/dedah".to_owned());
}

#[test]
fn plain_pattern_passes_through_both_modes() {
    let subber = SubstitutingUrl::parse("plain/path.no-braces").unwrap();

    let named = vec![("unused".to_owned(), "value".to_owned())];
    assert_eq!(
        subber.sub_by_name(&named).unwrap(),
        "plain/path.no-braces".to_owned()
    );

    let positional = vec!["a".to_owned(), "b".to_owned()];
    assert_eq!(
        subber.sub_by_index(&positional).unwrap(),
        "plain/path.no-braces".to_owned()
    );
}

#[test]
fn sub_by_index_consumes_values_from_the_back() {
    let subber = SubstitutingUrl::parse("{v1}/{v2}{v3}").unwrap();

    let values = vec!["la".to_owned(), "de".to_owned(), "dah".to_owned()];
    // The last value fills the first variable, the middle the second, the
    // first the third: v1 = "dah", v2 = "de", v3 = "la".
    let result = subber.sub_by_index(&values).unwrap();
    assert_eq!(result, "dah/dela".to_owned());
}

#[test]
fn sub_by_index_never_consumes_surplus_front_values() {
    let subber = SubstitutingUrl::parse("{a}").unwrap();

    let values = vec!["ignored".to_owned(), "taken".to_owned()];
    let result = subber.sub_by_index(&values).unwrap();
    assert_eq!(result, "taken".to_owned());
}

#[test]
fn empty_tag_fails_with_empty_name() {
    let err = SubstitutingUrl::parse("{}").unwrap_err();
    assert!(matches!(err, ParseError::EmptyName));
}

#[test]
fn unclosed_tag_fails_as_unterminated() {
    let err = SubstitutingUrl::parse("a{b").unwrap_err();
    assert!(matches!(err, ParseError::UnterminatedVariableTag));
}

#[test]
fn missing_name_reports_name_and_position() {
    let subber = SubstitutingUrl::parse("{x}").unwrap();

    let err = subber.sub_by_name(&Vec::new()).unwrap_err();
    match err {
        SubstitutionError::MissingParameter {
            url,
            name,
            position,
        } => {
            assert_eq!(url, "{x}".to_owned());
            assert_eq!(name, "x".to_owned());
            assert_eq!(position, 0);
        }
        _ => panic!("expected MissingParameter"),
    }
}

#[test]
fn missing_name_counts_variable_ordinals() {
    let subber = SubstitutingUrl::parse("a{x}b{y}c").unwrap();

    let values = vec![("x".to_owned(), "1".to_owned())];
    let err = subber.sub_by_name(&values).unwrap_err();
    match err {
        SubstitutionError::MissingParameter {
            url,
            name,
            position,
        } => {
            assert_eq!(url, "a{x}b{y}c".to_owned());
            assert_eq!(name, "y".to_owned());
            assert_eq!(position, 1);
        }
        _ => panic!("expected MissingParameter"),
    }
}

#[test]
fn too_few_positional_values_fail_up_front() {
    let subber = SubstitutingUrl::parse("{a}/{b}").unwrap();

    let values = vec!["only-one".to_owned()];
    let err = subber.sub_by_index(&values).unwrap_err();
    match err {
        SubstitutionError::WrongNumberVariables { expected, found } => {
            assert_eq!(expected, 2);
            assert_eq!(found, 1);
        }
        _ => panic!("expected WrongNumberVariables"),
    }
}

#[test]
fn escaped_braces_render_literally() {
    let subber = SubstitutingUrl::parse(r"\{literal\}").unwrap();

    let result = subber.sub_by_name(&Vec::new()).unwrap();
    assert_eq!(result, "{literal}".to_owned());

    let positional: Vec<String> = Vec::new();
    assert_eq!(subber.sub_by_index(&positional).unwrap(), "{literal}".to_owned());
}

#[test]
fn escaped_backslash_then_variable() {
    let subber = SubstitutingUrl::parse(r"\\{a}").unwrap();

    let values = vec![("a".to_owned(), "x".to_owned())];
    let result = subber.sub_by_name(&values).unwrap();
    assert_eq!(result, "\\x".to_owned());
}

#[test]
fn trailing_backslash_stands_for_itself() {
    let subber = SubstitutingUrl::parse("a\\").unwrap();

    let result = subber.sub_by_name(&Vec::new()).unwrap();
    assert_eq!(result, "a\\".to_owned());
}

#[test]
fn variable_name_runs_to_first_closing_brace() {
    let subber = SubstitutingUrl::parse("{a{b}").unwrap();

    let values = vec![("a{b".to_owned(), "v".to_owned())];
    let result = subber.sub_by_name(&values).unwrap();
    assert_eq!(result, "v".to_owned());
}

#[test]
fn first_pair_with_a_name_wins() {
    let subber = SubstitutingUrl::parse("{k}").unwrap();

    let values = vec![
        ("k".to_owned(), "first".to_owned()),
        ("k".to_owned(), "second".to_owned()),
    ];
    let result = subber.sub_by_name(&values).unwrap();
    assert_eq!(result, "first".to_owned());
}

#[test]
fn repr_reserializes_the_pattern() {
    let subber = SubstitutingUrl::parse("test/{val}/blah").unwrap();
    assert_eq!(subber.to_repr(), "test/{val}/blah".to_owned());
}

#[test]
fn repr_reescapes_literal_braces() {
    let subber = SubstitutingUrl::parse(r"\{literal\}").unwrap();
    // Only `{` and `\` need a backslash; a literal `}` re-parses as itself.
    let repr = subber.to_repr();
    assert_eq!(repr, r"\{literal}".to_owned());

    // The canonical representation parses back to the same template.
    let again = SubstitutingUrl::parse(&repr).unwrap();
    assert_eq!(again.sub_by_name(&Vec::new()).unwrap(), "{literal}".to_owned());
}

#[test]
fn empty_pattern_renders_empty() {
    let subber = SubstitutingUrl::parse("").unwrap();
    assert_eq!(subber.sub_by_name(&Vec::new()).unwrap(), "".to_owned());
    assert_eq!(subber.to_repr(), "".to_owned());

    let positional: Vec<String> = Vec::new();
    assert_eq!(subber.sub_by_index(&positional).unwrap(), "".to_owned());
}
