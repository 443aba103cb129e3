use moqtail_core::matcher::{Matcher, Message};
use moqtail_core::parser::compile;

fn msg(topic: &str) -> Message {
    Message {
        topic: topic.into(),
        headers: vec![],
        payload: None,
    }
}

#[test]
fn hash_between_literals_consumes_any_run() {
    let m = Matcher::new(compile("/foo/#/bar").unwrap());
    assert!(m.matches(&msg("foo/bar")));
    assert!(m.matches(&msg("foo/x/bar")));
    assert!(m.matches(&msg("foo/x/y/z/bar")));
    assert!(!m.matches(&msg("foo")));
    assert!(!m.matches(&msg("foo/x")));
}

#[test]
fn message_segment_consumes_no_topic() {
    let m = Matcher::new(compile("/msg/foo").unwrap());
    assert!(m.matches(&msg("foo")));
    assert!(!m.matches(&msg("msg/foo")));
}

#[test]
fn descendant_message_matches_everywhere() {
    let m = Matcher::new(compile("//msg/#").unwrap());
    assert!(m.matches(&msg("")));
    assert!(m.matches(&msg("a/b/c")));
}

#[test]
fn boolean_predicate_on_header() {
    let m = Matcher::new(compile("/msg[on=true]").unwrap());
    let hit = Message {
        topic: "".into(),
        headers: vec![("on".into(), "true".into())],
        payload: None,
    };
    let numeric = Message {
        topic: "".into(),
        headers: vec![("on".into(), "1".into())],
        payload: None,
    };
    assert!(m.matches(&hit));
    assert!(!m.matches(&numeric));
}

#[test]
fn ordering_on_strings_never_holds() {
    let m = Matcher::new(compile("/msg[name<\"zz\"]").unwrap());
    let message = Message {
        topic: "".into(),
        headers: vec![("name".into(), "aa".into())],
        payload: None,
    };
    assert!(!m.matches(&message));
}

#[test]
fn conjunctive_predicates_must_all_hold() {
    let m = Matcher::new(compile("/msg[qos<=1][ty=\"text\"]").unwrap());
    let both = Message {
        topic: "".into(),
        headers: vec![("qos".into(), "0".into()), ("ty".into(), "text".into())],
        payload: None,
    };
    let one = Message {
        topic: "".into(),
        headers: vec![("qos".into(), "0".into()), ("ty".into(), "binary".into())],
        payload: None,
    };
    assert!(m.matches(&both));
    assert!(!m.matches(&one));
}
