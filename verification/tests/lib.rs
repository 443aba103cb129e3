use moqtail_core::{compile, hello};

#[test]
fn valid_selectors() {
    assert_eq!(compile("/foo/bar"), "compiled: /foo/bar");
    assert_eq!(compile("//sensor"), "compiled: //sensor");
    assert_eq!(compile("/+/#"), "compiled: /+/#");
}

#[test]
fn invalid_selectors() {
    assert_eq!(compile("foo/bar"), "compiled: foo/bar");
    assert_eq!(compile("/foo//"), "compiled: /foo//");
    assert_eq!(compile("/fo$"), "compiled: /fo$");
}

#[test]
fn greets() {
    assert_eq!(hello(), "Hello, MoQtail!");
}

#[test]
fn compile_returns_string() {
    let compiled = moqtail_core::parser::compile("/foo").map(|sel| sel.display());
    assert_eq!(compiled.unwrap(), "/foo");
}
