use moqtail_core::parser::{compile, Error};

#[test]
fn empty_input_is_missing_selector() {
    assert_eq!(compile(""), Err(Error::MissingSelector));
}

#[test]
fn input_without_axis_is_rejected() {
    assert!(matches!(compile("foo/bar"), Err(Error::GrammarError(0, _))));
}

#[test]
fn trailing_slash_is_missing_segment() {
    assert_eq!(compile("/foo/bar/"), Err(Error::MissingSegment));
    assert_eq!(compile("/foo//"), Err(Error::MissingSegment));
}

#[test]
fn bad_segment_character_is_rejected() {
    assert!(compile("/fo$").is_err());
    assert_eq!(compile("/[x=1]"), Err(Error::InvalidSegment));
}

#[test]
fn json_field_without_keys_is_missing_field() {
    assert_eq!(compile("/foo[json$>1]"), Err(Error::MissingField));
    assert_eq!(compile("/foo[json$.>1]"), Err(Error::MissingField));
}

#[test]
fn predicate_without_field_is_missing_field() {
    assert_eq!(compile("/foo[=1]"), Err(Error::MissingField));
}

#[test]
fn predicate_without_operator_is_rejected() {
    assert_eq!(compile("/foo[bar"), Err(Error::MissingOperator));
    assert!(matches!(compile("/foo[bar!1]"), Err(Error::UnknownOperator(_))));
}

#[test]
fn predicate_without_value_is_missing_value() {
    assert_eq!(compile("/foo[bar=]"), Err(Error::MissingValue));
    assert_eq!(compile("/foo[bar="), Err(Error::MissingValue));
}

#[test]
fn malformed_values_are_invalid() {
    assert_eq!(compile("/foo[bar=-]"), Err(Error::InvalidValue));
    assert_eq!(compile("/foo[bar=yes]"), Err(Error::InvalidValue));
    assert_eq!(compile("/foo[bar=\"unclosed]"), Err(Error::InvalidValue));
}

#[test]
fn stage_errors() {
    assert_eq!(compile("/a |> "), Err(Error::MissingFunctionName));
    assert_eq!(compile("/a |> window"), Err(Error::MissingFunction));
    assert_eq!(compile("/a |> window()"), Err(Error::WindowRequiresDuration));
    assert_eq!(compile("/a |> window(5)"), Err(Error::WindowRequiresDuration));
    assert_eq!(compile("/a |> sum()"), Err(Error::SumRequiresField));
    assert_eq!(compile("/a |> avg()"), Err(Error::AvgRequiresField));
    assert!(matches!(compile("/a |> median(x)"), Err(Error::UnknownFunction(_))));
    assert!(matches!(
        compile("/a |> window(99999999999999999999s)"),
        Err(Error::NumberParseError(_))
    ));
}

#[test]
fn overflowing_literal_compares_as_infinite() {
    // a decimal beyond the double range behaves like infinity
    let big = format!("/msg[x<1{}]", "0".repeat(400));
    let sel = moqtail_core::parser::compile(&big).unwrap();
    let m = moqtail_core::matcher::Matcher::new(sel);
    let msg = moqtail_core::matcher::Message {
        topic: "".into(),
        headers: vec![("x".into(), "5".into())],
        payload: None,
    };
    assert!(m.matches(&msg));
}
