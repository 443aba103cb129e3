use moqtail_core::json::Json;
use moqtail_core::matcher::{Matcher, Message};
use moqtail_core::parser::compile;

#[test]
fn header_predicate_match() {
    let sel = compile("/msg[qos<=1]").unwrap();
    let msg = Message {
        topic: "".into(),
        headers: vec![("qos".into(), "0".into())],
        payload: None,
    };
    let m = Matcher::new(sel);
    assert!(m.matches(&msg));
}

#[test]
fn json_predicate_match() {
    let sel = compile("/foo[json$.temp>30]").unwrap();
    let payload = Json::Obj(vec![("temp".into(), Json::Num((35.0f64).to_bits()))]);
    let msg = Message {
        topic: "foo".into(),
        headers: vec![],
        payload: Some(payload),
    };
    let m = Matcher::new(sel);
    assert!(m.matches(&msg));
}

#[test]
fn header_predicate_negative_fractional() {
    let sel = compile("/msg[temp<=-1.5]").unwrap();
    let msg = Message {
        topic: "".into(),
        headers: vec![("temp".into(), "-1.5".into())],
        payload: None,
    };
    let m = Matcher::new(sel);
    assert!(m.matches(&msg));
}

#[test]
fn json_predicate_fractional() {
    let sel = compile("/foo[json$.temp>=32.5]").unwrap();
    let payload = Json::Obj(vec![("temp".into(), Json::Num((33.1f64).to_bits()))]);
    let msg = Message {
        topic: "foo".into(),
        headers: vec![],
        payload: Some(payload),
    };
    let m = Matcher::new(sel);
    assert!(m.matches(&msg));
}

#[test]
fn json_predicate_missing_field() {
    assert!(compile(" /foo[json$>1]").is_err());
}

#[test]
fn string_predicate_on_header() {
    let sel = compile("/msg[ty=\"text\"]").unwrap();
    let m = Matcher::new(sel);
    let hit = Message {
        topic: "".into(),
        headers: vec![("ty".into(), "text".into())],
        payload: None,
    };
    let miss = Message {
        topic: "".into(),
        headers: vec![("ty".into(), "other".into())],
        payload: None,
    };
    assert!(m.matches(&hit));
    assert!(!m.matches(&miss));
}

#[test]
fn json_predicate_rejects_lower_value() {
    let sel = compile("/foo[json$.temp>30]").unwrap();
    let m = Matcher::new(sel);
    let payload = Json::Obj(vec![("temp".into(), Json::Num((25.0f64).to_bits()))]);
    let msg = Message {
        topic: "foo".into(),
        headers: vec![],
        payload: Some(payload),
    };
    assert!(!m.matches(&msg));
}
