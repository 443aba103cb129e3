//! Core library for MoQtail: a topic-selector query engine for MQTT-style
//! pub/sub brokers.
//!
//! A selector such as `/foo/+[qos<=1] |> window(2s) |> avg(json$.value)` is
//! compiled into an AST (`ast::Selector`), wrapped in a `matcher::Matcher`,
//! and evaluated against incoming messages.  Numeric values are carried as
//! IEEE-754 double-precision bit patterns (`u64`), so that the comparison
//! semantics (tolerance, NaN, infinities) is stated and proved over the exact
//! dyadic values the bits denote.

use vstd::prelude::*;

pub mod ast;
pub mod json;
pub mod matcher;
pub mod num;
pub mod parser;

verus! {

/// Character-wise string equality; the views are equal exactly when the
/// result is true.
pub fn str_eq(a: &str, b: &str) -> (r: bool)
    ensures
        r == (a@ == b@),
{
    let la = a.unicode_len();
    let lb = b.unicode_len();
    if la != lb {
        return false;
    }
    let mut i: usize = 0;
    while i < la
        invariant
            i <= la,
            la == a@.len(),
            la == b@.len(),
            forall|k: int| 0 <= k < i ==> a@[k] == b@[k],
        decreases la - i,
    {
        if a.get_char(i) != b.get_char(i) {
            return false;
        }
        i = i + 1;
    }
    proof {
        assert(a@ =~= b@);
    }
    true
}

/// Greeting used by the language bindings to probe that the library is alive.
pub fn hello() -> (r: &'static str)
    ensures
        r@ == "Hello, MoQtail!"@,
{
    "Hello, MoQtail!"
}

/// Legacy entry point kept for the early bindings: tags a query string
/// without analysing it.  The real compiler is `parser::compile`.
pub fn compile(query: &str) -> (r: String)
    ensures
        r@ == "compiled: "@ + query@,
{
    let mut s = String::from_str("compiled: ");
    s.append(query);
    s
}

} // verus!
