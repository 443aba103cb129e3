use moqtail_core::ast::{Field, Number, Operator, Value};
use moqtail_core::json::Json;
use moqtail_core::matcher::{Aggregate, Matcher, Message};
use moqtail_core::parser::compile;

fn make_msg(topic: &str) -> Message {
    Message {
        topic: topic.into(),
        headers: vec![],
        payload: None,
    }
}

fn num(x: f64) -> Value {
    Value::Number(Number::from_bits(x.to_bits()))
}

fn agg_value(a: &Aggregate) -> f64 {
    match a {
        Aggregate::Count(n) => *n as f64,
        Aggregate::Sum(vals) => vals.iter().map(|b| f64::from_bits(*b)).sum(),
        Aggregate::Avg(vals) => {
            let sum: f64 = vals.iter().map(|b| f64::from_bits(*b)).sum();
            sum / vals.len() as f64
        }
    }
}

#[test]
fn simple_match() {
    let sel = compile("/foo/bar").unwrap();
    let m = Matcher::new(sel);
    assert!(m.matches(&make_msg("foo/bar")));
    assert!(!m.matches(&make_msg("foo/baz")));
}

#[test]
fn plus_wildcard() {
    let sel = compile("/foo/+").unwrap();
    let m = Matcher::new(sel);
    assert!(m.matches(&make_msg("foo/bar")));
    assert!(m.matches(&make_msg("foo/baz")));
    assert!(!m.matches(&make_msg("foo")));
}

#[test]
fn hash_wildcard() {
    let sel = compile("/foo/#").unwrap();
    let m = Matcher::new(sel);
    assert!(m.matches(&make_msg("foo")));
    assert!(m.matches(&make_msg("foo/bar/baz")));
}

#[test]
fn descendant_axis() {
    let sel = compile("//sensor").unwrap();
    let m = Matcher::new(sel);
    assert!(m.matches(&make_msg("building/floor/sensor")));
    assert!(!m.matches(&make_msg("building/floor/actuator")));
}

#[test]
fn numbers_within_epsilon_are_equal() {
    let l = num(1.0);
    let r = num(1.0 + f64::EPSILON / 2.0);
    assert!(Matcher::compare_values(&l, &r, Operator::Eq));
}

#[test]
fn numbers_outside_epsilon_are_not_equal() {
    let l = num(1.0);
    let r = num(1.0 + f64::EPSILON * 2.0);
    assert!(!Matcher::compare_values(&l, &r, Operator::Eq));
}

#[test]
fn ordering_within_tolerance_is_equal() {
    let l = num(1.0);
    let r = num(1.0 + f64::EPSILON / 2.0);
    assert!(!Matcher::compare_values(&l, &r, Operator::Lt));
    assert!(Matcher::compare_values(&l, &r, Operator::Le));
    assert!(!Matcher::compare_values(&r, &l, Operator::Gt));
    assert!(Matcher::compare_values(&r, &l, Operator::Ge));
}

#[test]
fn ordering_outside_tolerance_respects_direction() {
    let l = num(1.0);
    let r = num(1.0 + f64::EPSILON * 2.0);
    assert!(Matcher::compare_values(&l, &r, Operator::Lt));
    assert!(Matcher::compare_values(&r, &l, Operator::Gt));
}

#[test]
fn nan_comparisons_are_always_false() {
    let nan = num(f64::NAN);
    let n = num(1.0);
    assert!(!Matcher::compare_values(&nan, &n, Operator::Eq));
    assert!(!Matcher::compare_values(&nan, &n, Operator::Lt));
    assert!(!Matcher::compare_values(&nan, &n, Operator::Gt));
}

#[test]
fn infinity_comparisons() {
    let inf = num(f64::INFINITY);
    let neg_inf = num(f64::NEG_INFINITY);
    let n = num(1.0);
    assert!(Matcher::compare_values(&inf, &inf, Operator::Eq));
    assert!(Matcher::compare_values(&neg_inf, &neg_inf, Operator::Eq));
    assert!(Matcher::compare_values(&inf, &n, Operator::Gt));
    assert!(Matcher::compare_values(&neg_inf, &n, Operator::Lt));
}

#[test]
fn predicate_on_json_field() {
    let sel = compile("/foo[json$.temp>30]").unwrap();
    let m = Matcher::new(sel);
    let msg = Message {
        topic: "foo".into(),
        headers: vec![],
        payload: Some(Json::Obj(vec![("temp".into(), Json::Num((35.0f64).to_bits()))])),
    };
    assert!(m.matches(&msg));

    let msg = Message {
        topic: "foo".into(),
        headers: vec![],
        payload: Some(Json::Obj(vec![("temp".into(), Json::Num((25.0f64).to_bits()))])),
    };
    assert!(!m.matches(&msg));
}

#[test]
fn extract_json_field() {
    let msg = Message {
        topic: "foo".into(),
        headers: vec![],
        payload: Some(Json::Obj(vec![("temp".into(), Json::Num((21.0f64).to_bits()))])),
    };
    let field = Field::Json(vec!["temp".into()]);
    assert_eq!(Matcher::extract_field(&field, &msg), Some((21.0f64).to_bits()));
}

fn header_msg(key: &str, value: &str) -> Message {
    Message {
        topic: "sensor".into(),
        headers: vec![(key.into(), value.into())],
        payload: None,
    }
}

#[test]
fn process_sum_without_window() {
    let sel = compile("/sensor |> sum(temp)").unwrap();
    let mut m = Matcher::new(sel);

    assert_eq!(m.process(&header_msg("temp", "10")).map(|a| agg_value(&a)), Some(10.0));
    assert_eq!(m.process(&header_msg("temp", "20")).map(|a| agg_value(&a)), Some(20.0));
}

#[test]
fn process_sum_with_window() {
    let sel = compile("/sensor |> window(2s) |> sum(temp)").unwrap();
    let mut m = Matcher::new(sel);

    assert_eq!(m.process(&header_msg("temp", "10")).map(|a| agg_value(&a)), Some(10.0));
    assert_eq!(m.process(&header_msg("temp", "20")).map(|a| agg_value(&a)), Some(30.0));
    assert_eq!(m.process(&header_msg("temp", "30")).map(|a| agg_value(&a)), Some(50.0));
}

#[test]
fn process_avg_without_window() {
    let sel = compile("/sensor |> avg(json$.value)").unwrap();
    let mut m = Matcher::new(sel);

    let msg1 = Message {
        topic: "sensor".into(),
        headers: vec![],
        payload: Some(Json::Obj(vec![("value".into(), Json::Num((10.0f64).to_bits()))])),
    };
    assert_eq!(m.process(&msg1).map(|a| agg_value(&a)), Some(10.0));

    let msg2 = Message {
        topic: "sensor".into(),
        headers: vec![],
        payload: Some(Json::Obj(vec![("value".into(), Json::Num((20.0f64).to_bits()))])),
    };
    assert_eq!(m.process(&msg2).map(|a| agg_value(&a)), Some(20.0));
}

#[test]
fn process_avg_with_window() {
    let sel = compile("/sensor |> window(2s) |> avg(json$.value)").unwrap();
    let mut m = Matcher::new(sel);

    let mk = |v: f64| Message {
        topic: "sensor".into(),
        headers: vec![],
        payload: Some(Json::Obj(vec![("value".into(), Json::Num(v.to_bits()))])),
    };
    assert_eq!(m.process(&mk(10.0)).map(|a| agg_value(&a)), Some(10.0));
    assert_eq!(m.process(&mk(20.0)).map(|a| agg_value(&a)), Some(15.0));
    assert_eq!(m.process(&mk(30.0)).map(|a| agg_value(&a)), Some(25.0));
}

#[test]
fn process_count_without_window() {
    let sel = compile("/sensor |> count()").unwrap();
    let mut m = Matcher::new(sel);

    assert_eq!(m.process(&make_msg("sensor")).map(|a| agg_value(&a)), Some(1.0));
    assert_eq!(m.process(&make_msg("sensor")).map(|a| agg_value(&a)), Some(1.0));
}

#[test]
fn process_count_with_window() {
    let sel = compile("/sensor |> window(2s) |> count()").unwrap();
    let mut m = Matcher::new(sel);

    assert_eq!(m.process(&make_msg("sensor")).map(|a| agg_value(&a)), Some(1.0));
    assert_eq!(m.process(&make_msg("sensor")).map(|a| agg_value(&a)), Some(2.0));
    assert_eq!(m.process(&make_msg("sensor")).map(|a| agg_value(&a)), Some(2.0));
}
