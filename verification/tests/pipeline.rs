use moqtail_core::json::Json;
use moqtail_core::matcher::{Aggregate, Matcher, Message};
use moqtail_core::parser::compile;

/// Folds an aggregate the way the host does: a count as a float, a sum of
/// the window's doubles, or their average.
fn agg_value(a: &Aggregate) -> f64 {
    match a {
        Aggregate::Count(n) => *n as f64,
        Aggregate::Sum(vals) => vals.iter().map(|b| f64::from_bits(*b)).sum(),
        Aggregate::Avg(vals) => {
            let sum: f64 = vals.iter().map(|b| f64::from_bits(*b)).sum();
            sum / vals.len() as f64
        }
    }
}

fn value_msg(v: f64) -> Message {
    Message {
        topic: "sensor".into(),
        headers: vec![],
        payload: Some(Json::Obj(vec![("value".into(), Json::Num(v.to_bits()))])),
    }
}

#[test]
fn avg_pipeline() {
    let sel = compile("/sensor |> window(60s) |> avg(json$.value)").unwrap();
    let mut m = Matcher::new(sel);

    assert_eq!(m.process(&value_msg(10.0)).map(|a| agg_value(&a)), Some(10.0));
    assert_eq!(m.process(&value_msg(20.0)).map(|a| agg_value(&a)), Some(15.0));
}

#[test]
fn sum_pipeline() {
    let sel = compile("/sensor |> window(60s) |> sum(json$.value)").unwrap();
    let mut m = Matcher::new(sel);

    assert_eq!(m.process(&value_msg(10.0)).map(|a| agg_value(&a)), Some(10.0));
    assert_eq!(m.process(&value_msg(20.0)).map(|a| agg_value(&a)), Some(30.0));
}

#[test]
fn count_pipeline() {
    let sel = compile("/sensor |> window(60s) |> count()").unwrap();
    let mut m = Matcher::new(sel);

    let msg1 = Message {
        topic: "sensor".into(),
        headers: vec![],
        payload: None,
    };
    assert_eq!(m.process(&msg1).map(|a| agg_value(&a)), Some(1.0));

    let msg2 = Message {
        topic: "sensor".into(),
        headers: vec![],
        payload: None,
    };
    assert_eq!(m.process(&msg2).map(|a| agg_value(&a)), Some(2.0));
}

#[test]
fn sum_missing_field() {
    let sel = compile("/sensor |> window(60s) |> sum(json$.value)").unwrap();
    let mut m = Matcher::new(sel);

    let msg = Message {
        topic: "sensor".into(),
        headers: vec![],
        payload: Some(Json::Obj(vec![("other".into(), Json::Num((10.0f64).to_bits()))])),
    };
    assert_eq!(m.process(&msg).map(|a| agg_value(&a)), None);
}

#[test]
fn failed_match_leaves_state_alone() {
    let sel = compile("/sensor |> window(2s) |> avg(json$.value)").unwrap();
    let mut m = Matcher::new(sel);
    assert_eq!(m.process(&value_msg(10.0)).map(|a| agg_value(&a)), Some(10.0));
    assert_eq!(m.process(&value_msg(20.0)).map(|a| agg_value(&a)), Some(15.0));

    let other = Message {
        topic: "actuator".into(),
        headers: vec![],
        payload: Some(Json::Obj(vec![("value".into(), Json::Num((99.0f64).to_bits()))])),
    };
    assert_eq!(m.process(&other).map(|a| agg_value(&a)), None);

    assert_eq!(m.process(&value_msg(30.0)).map(|a| agg_value(&a)), Some(25.0));
}
