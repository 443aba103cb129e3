//! The selector compiler: a recursive-descent parser for the query
//! language.  Each executable production returns exactly what its spec
//! counterpart (`sp_*`) describes, so `compile`'s result — selector or
//! error, with the error's kind and position — is pinned for every input.

use vstd::prelude::*;
use crate::ast::{
    Axis, Field, FieldV, NumV, Operator, PredV, Predicate, SegV, Segment, SelV, Selector, Stage,
    StageV, Step, StepV, Value, ValV, field_view, pred_view, seg_view, sel_view, stage_view,
    step_view, val_view,
};
use crate::num::{
    all_digits, digits_val, is_digit, spec_canonical_decimal, spec_decimal_bits, decimal_number,
    parse_u64_digits,
};
use crate::str_eq;

verus! {

/// A compilation error: one discriminated kind, carrying the source
/// position or the offending text where that helps the caller.
#[derive(Debug, PartialEq, Eq, Clone)]
pub enum Error {
    GrammarError(usize, String),
    MissingSelector,
    MissingAxis,
    MissingSegment,
    UnknownAxis(String),
    UnknownWildcard(String),
    InvalidSegment,
    MissingField,
    MissingOperator,
    UnknownOperator(String),
    MissingValue,
    InvalidValue,
    MissingFunction,
    MissingFunctionName,
    WindowRequiresDuration,
    SumRequiresField,
    AvgRequiresField,
    UnknownFunction(String),
    NumberParseError(String),
}

/// Ghost form of an error.
pub enum ErrV {
    GrammarError(int, Seq<char>),
    MissingSelector,
    MissingAxis,
    MissingSegment,
    UnknownAxis(Seq<char>),
    UnknownWildcard(Seq<char>),
    InvalidSegment,
    MissingField,
    MissingOperator,
    UnknownOperator(Seq<char>),
    MissingValue,
    InvalidValue,
    MissingFunction,
    MissingFunctionName,
    WindowRequiresDuration,
    SumRequiresField,
    AvgRequiresField,
    UnknownFunction(Seq<char>),
    NumberParseError(Seq<char>),
}

pub open spec fn err_view(e: Error) -> ErrV {
    match e {
        Error::GrammarError(p, x) => ErrV::GrammarError(p as int, x@),
        Error::MissingSelector => ErrV::MissingSelector,
        Error::MissingAxis => ErrV::MissingAxis,
        Error::MissingSegment => ErrV::MissingSegment,
        Error::UnknownAxis(t) => ErrV::UnknownAxis(t@),
        Error::UnknownWildcard(t) => ErrV::UnknownWildcard(t@),
        Error::InvalidSegment => ErrV::InvalidSegment,
        Error::MissingField => ErrV::MissingField,
        Error::MissingOperator => ErrV::MissingOperator,
        Error::UnknownOperator(t) => ErrV::UnknownOperator(t@),
        Error::MissingValue => ErrV::MissingValue,
        Error::InvalidValue => ErrV::InvalidValue,
        Error::MissingFunction => ErrV::MissingFunction,
        Error::MissingFunctionName => ErrV::MissingFunctionName,
        Error::WindowRequiresDuration => ErrV::WindowRequiresDuration,
        Error::SumRequiresField => ErrV::SumRequiresField,
        Error::AvgRequiresField => ErrV::AvgRequiresField,
        Error::UnknownFunction(t) => ErrV::UnknownFunction(t@),
        Error::NumberParseError(t) => ErrV::NumberParseError(t@),
    }
}

/// A word character: letter, digit or underscore.
pub open spec fn is_word_char(c: char) -> bool {
    is_digit(c) || (97 <= c as u32 <= 122) || (65 <= c as u32 <= 90) || c as u32 == 95
}

fn char_is_word(c: char) -> (r: bool)
    ensures
        r == is_word_char(c),
{
    let u = c as u32;
    (48 <= u && u <= 57) || (97 <= u && u <= 122) || (65 <= u && u <= 90) || u == 95
}

/// End of the word-character run starting at `i`.
pub open spec fn word_end(s: Seq<char>, i: int) -> int
    decreases s.len() - i,
{
    if i < 0 || i >= s.len() {
        s.len() as int
    } else if !is_word_char(s[i]) {
        i
    } else {
        word_end(s, i + 1)
    }
}

/// End of the digit run starting at `i`.
pub open spec fn digits_end(s: Seq<char>, i: int) -> int
    decreases s.len() - i,
{
    if i < 0 || i >= s.len() {
        s.len() as int
    } else if !is_digit(s[i]) {
        i
    } else {
        digits_end(s, i + 1)
    }
}

/// The position a list production continues from: the sub-production's end
/// where that moved forward, and one character onward otherwise (which
/// never happens for the productions here, but keeps progress evident).
pub open spec fn step_to(s: Seq<char>, i: int, j: int) -> int {
    if i < j && j <= s.len() {
        j
    } else {
        i + 1
    }
}

fn scan_word(s: &str, i: usize, n: usize) -> (j: usize)
    requires
        i <= n,
        n == s@.len(),
    ensures
        j as int == word_end(s@, i as int),
        i <= j <= n,
{
    let mut j = i;
    while j < n && char_is_word(s.get_char(j))
        invariant
            i <= j <= n,
            n == s@.len(),
            word_end(s@, i as int) == word_end(s@, j as int),
        decreases n - j,
    {
        j = j + 1;
    }
    j
}

fn scan_digits(s: &str, i: usize, n: usize) -> (j: usize)
    requires
        i <= n,
        n == s@.len(),
    ensures
        j as int == digits_end(s@, i as int),
        i <= j <= n,
        all_digits(s@.subrange(i as int, j as int)),
{
    let mut j = i;
    while j < n && char_is_digit_x(s.get_char(j))
        invariant
            i <= j <= n,
            n == s@.len(),
            digits_end(s@, i as int) == digits_end(s@, j as int),
            forall|k: int| i <= k < j ==> is_digit(s@[k]),
        decreases n - j,
    {
        j = j + 1;
    }
    proof {
        assert forall|k: int| 0 <= k < j - i implies is_digit(
            s@.subrange(i as int, j as int)[k],
        ) by {
            assert(s@.subrange(i as int, j as int)[k] == s@[i + k]);
        }
    }
    j
}

fn char_is_digit_x(c: char) -> (r: bool)
    ensures
        r == is_digit(c),
{
    let u = c as u32;
    48 <= u && u <= 57
}

/// Field production: a header name, or `json$` followed by `.key` parts.
pub open spec fn sp_json_parts(s: Seq<char>, i: int, acc: Seq<Seq<char>>) -> Result<
    (Seq<Seq<char>>, int),
    ErrV,
>
    decreases s.len() - i,
{
    if 0 <= i < s.len() && s[i] == '.' {
        let e = word_end(s, i + 1);
        if e == i + 1 {
            Err(ErrV::MissingField)
        } else {
            sp_json_parts(s, step_to(s, i, e), acc.push(s.subrange(i + 1, e)))
        }
    } else {
        Ok((acc, i))
    }
}

pub open spec fn sp_field(s: Seq<char>, i: int) -> Result<(FieldV, int), ErrV> {
    let e = word_end(s, i);
    if e == i {
        Err(ErrV::MissingField)
    } else if e < s.len() && s[e] == '$' {
        if s.subrange(i, e) == "json"@ {
            match sp_json_parts(s, e + 1, Seq::empty()) {
                Err(err) => Err(err),
                Ok((ps, j)) => if ps.len() == 0 {
                    Err(ErrV::MissingField)
                } else {
                    Ok((FieldV::Json(ps), j))
                },
            }
        } else {
            Err(ErrV::GrammarError(e, "operator"@))
        }
    } else {
        Ok((FieldV::Header(s.subrange(i, e)), e))
    }
}

proof fn lemma_json_parts_missing(s: Seq<char>, i: int, acc: Seq<Seq<char>>)
    requires
        0 <= i < s.len(),
        s[i] == '.',
        word_end(s, i + 1) == i + 1,
    ensures
        sp_json_parts(s, i, acc) == Err::<(Seq<Seq<char>>, int), ErrV>(ErrV::MissingField),
{
}

proof fn lemma_field_missing(s: Seq<char>, i: int)
    requires
        0 <= i <= s.len(),
        word_end(s, i) != i,
        word_end(s, i) < s.len(),
        s[word_end(s, i)] == '$',
        s.subrange(i, word_end(s, i)) == "json"@,
        sp_json_parts(s, word_end(s, i) + 1, Seq::empty()) == Err::<
            (Seq<Seq<char>>, int),
            ErrV,
        >(ErrV::MissingField),
    ensures
        sp_field(s, i) == Err::<(FieldV, int), ErrV>(ErrV::MissingField),
{
}

#[verifier::loop_isolation(false)]
fn parse_field(s: &str, i: usize, n: usize) -> (r: Result<(Field, usize), Error>)
    requires
        i <= n,
        n == s@.len(),
    ensures
        match r {
            Ok((f, j)) => sp_field(s@, i as int) == Ok::<_, ErrV>((field_view(f), j as int))
                && i < j <= n,
            Err(e) => sp_field(s@, i as int) == Err::<(FieldV, int), _>(err_view(e)),
        },
{
    let e = scan_word(s, i, n);
    if e == i {
        return Err(Error::MissingField);
    }
    if e < n && s.get_char(e) == '$' {
        if str_eq(s.substring_char(i, e), "json") {
            let mut parts: Vec<String> = Vec::new();
            let mut cur = e + 1;
            proof {
                assert(parts@.map_values(|p: String| p@) =~= Seq::<Seq<char>>::empty());
            }
            while cur < n && s.get_char(cur) == '.'
                invariant
                    e + 1 <= cur <= n,
                    n == s@.len(),
                    sp_json_parts(s@, (e + 1) as int, Seq::empty()) == sp_json_parts(
                        s@,
                        cur as int,
                        parts@.map_values(|p: String| p@),
                    ),
                decreases n - cur,
            {
                let k = scan_word(s, cur + 1, n);
                if k == cur + 1 {
                    proof {
                        lemma_json_parts_missing(
                            s@,
                            cur as int,
                            parts@.map_values(|p: String| p@),
                        );
                        assert(sp_json_parts(s@, (e + 1) as int, Seq::empty()) == Err::<
                            (Seq<Seq<char>>, int),
                            ErrV,
                        >(ErrV::MissingField));
                        lemma_field_missing(s@, i as int);
                    }
                    return Err(Error::MissingField);
                }
                let part = String::from_str(s.substring_char(cur + 1, k));
                proof {
                    let ghost old_parts = parts@.map_values(|p: String| p@);
                    assert((parts@.push(part)).map_values(|p: String| p@) =~= old_parts.push(
                        s@.subrange(cur + 1, k as int),
                    ));
                    assert(step_to(s@, cur as int, k as int) == k as int);
                }
                parts.push(part);
                cur = k;
            }
            proof {
                assert(sp_json_parts(s@, cur as int, parts@.map_values(|p: String| p@)) == Ok::<
                    _,
                    ErrV,
                >((parts@.map_values(|p: String| p@), cur as int)));
            }
            if parts.len() == 0 {
                return Err(Error::MissingField);
            }
            return Ok((Field::Json(parts), cur));
        } else {
            return Err(Error::GrammarError(e, String::from_str("operator")));
        }
    }
    let name = String::from_str(s.substring_char(i, e));
    Ok((Field::Header(name), e))
}

/// Operator production: `=`, `<=`, `>=`, `<`, `>`, two-character forms
/// taken before their one-character prefixes.
pub open spec fn sp_op(s: Seq<char>, i: int) -> Result<(Operator, int), ErrV> {
    if i >= s.len() {
        Err(ErrV::MissingOperator)
    } else if s[i] == '=' {
        Ok((Operator::Eq, i + 1))
    } else if s[i] == '<' {
        if i + 1 < s.len() && s[i + 1] == '=' {
            Ok((Operator::Le, i + 2))
        } else {
            Ok((Operator::Lt, i + 1))
        }
    } else if s[i] == '>' {
        if i + 1 < s.len() && s[i + 1] == '=' {
            Ok((Operator::Ge, i + 2))
        } else {
            Ok((Operator::Gt, i + 1))
        }
    } else {
        Err(ErrV::UnknownOperator(s.subrange(i, i + 1)))
    }
}

fn parse_op(s: &str, i: usize, n: usize) -> (r: Result<(Operator, usize), Error>)
    requires
        i <= n,
        n == s@.len(),
    ensures
        match r {
            Ok((op, j)) => sp_op(s@, i as int) == Ok::<_, ErrV>((op, j as int)) && i < j <= n,
            Err(e) => sp_op(s@, i as int) == Err::<(Operator, int), _>(err_view(e)),
        },
{
    if i >= n {
        return Err(Error::MissingOperator);
    }
    let c = s.get_char(i);
    if c == '=' {
        Ok((Operator::Eq, i + 1))
    } else if c == '<' {
        if i + 1 < n && s.get_char(i + 1) == '=' {
            Ok((Operator::Le, i + 2))
        } else {
            Ok((Operator::Lt, i + 1))
        }
    } else if c == '>' {
        if i + 1 < n && s.get_char(i + 1) == '=' {
            Ok((Operator::Ge, i + 2))
        } else {
            Ok((Operator::Gt, i + 1))
        }
    } else {
        proof {
            assert(s@.subrange(i as int, i + 1) =~= seq![s@[i as int]]);
        }
        Err(Error::UnknownOperator(String::from_str(s.substring_char(i, i + 1))))
    }
}

/// String literal body after the opening quote: `\"` and `\\` escapes,
/// no unescaped control characters, closed by `"`.
pub open spec fn sp_string_body(s: Seq<char>, i: int, acc: Seq<char>) -> Result<
    (Seq<char>, int),
    ErrV,
>
    decreases s.len() - i,
{
    if i < 0 || i >= s.len() {
        Err(ErrV::InvalidValue)
    } else if s[i] == '"' {
        Ok((acc, i + 1))
    } else if s[i] == '\\' {
        if i + 1 < s.len() && (s[i + 1] == '"' || s[i + 1] == '\\') {
            sp_string_body(s, i + 2, acc.push(s[i + 1]))
        } else {
            Err(ErrV::InvalidValue)
        }
    } else if (s[i] as u32) < 32 {
        Err(ErrV::InvalidValue)
    } else {
        sp_string_body(s, i + 1, acc.push(s[i]))
    }
}

#[verifier::loop_isolation(false)]
fn parse_string_body(s: &str, i: usize, n: usize) -> (r: Result<(String, usize), Error>)
    requires
        i <= n,
        n == s@.len(),
    ensures
        match r {
            Ok((t, j)) => sp_string_body(s@, i as int, Seq::empty()) == Ok::<_, ErrV>(
                (t@, j as int),
            ) && i < j <= n,
            Err(e) => sp_string_body(s@, i as int, Seq::empty()) == Err::<(Seq<char>, int), _>(
                err_view(e),
            ),
        },
{
    let mut acc = String::new();
    let mut cur = i;
    while cur < n
        invariant
            i <= cur <= n,
            n == s@.len(),
            sp_string_body(s@, i as int, Seq::empty()) == sp_string_body(
                s@,
                cur as int,
                acc@,
            ),
        decreases n - cur,
    {
        let c = s.get_char(cur);
        if c == '"' {
            return Ok((acc, cur + 1));
        } else if c == '\\' {
            if cur + 1 < n {
                let c2 = s.get_char(cur + 1);
                if c2 == '"' || c2 == '\\' {
                    let ghost prev = acc@;
                    acc.append(s.substring_char(cur + 1, cur + 2));
                    proof {
                        assert(s@.subrange(cur + 1, cur + 2) =~= seq![s@[cur + 1]]);
                        assert(acc@ =~= prev.push(s@[cur + 1]));
                    }
                    cur = cur + 2;
                } else {
                    return Err(Error::InvalidValue);
                }
            } else {
                return Err(Error::InvalidValue);
            }
        } else if (c as u32) < 32 {
            return Err(Error::InvalidValue);
        } else {
            let ghost prev = acc@;
            acc.append(s.substring_char(cur, cur + 1));
            proof {
                assert(s@.subrange(cur as int, cur + 1) =~= seq![s@[cur as int]]);
                assert(acc@ =~= prev.push(s@[cur as int]));
            }
            cur = cur + 1;
        }
    }
    Err(Error::InvalidValue)
}

/// Literal production: a quoted string, `true` / `false`, or a decimal
/// number with optional sign and fraction.
pub open spec fn sp_value(s: Seq<char>, i: int) -> Result<(ValV, int), ErrV> {
    if i >= s.len() {
        Err(ErrV::MissingValue)
    } else if s[i] == '"' {
        match sp_string_body(s, i + 1, Seq::empty()) {
            Err(err) => Err(err),
            Ok((t, j)) => Ok((ValV::Str(t), j)),
        }
    } else if s[i] == ']' {
        Err(ErrV::MissingValue)
    } else if is_digit(s[i]) || s[i] == '-' || s[i] == '+' {
        let start = if s[i] == '-' || s[i] == '+' {
            i + 1
        } else {
            i
        };
        let ds = digits_end(s, start);
        if ds == start {
            Err(ErrV::InvalidValue)
        } else {
            let e = if ds < s.len() && s[ds] == '.' && digits_end(s, ds + 1) > ds + 1 {
                digits_end(s, ds + 1)
            } else {
                ds
            };
            match spec_canonical_decimal(s.subrange(i, e)) {
                None => Err(ErrV::InvalidValue),
                Some(c) => Ok(
                    (ValV::Number(NumV { bits: spec_decimal_bits(c), text: c }), e),
                ),
            }
        }
    } else {
        let e = word_end(s, i);
        if s.subrange(i, e) == "true"@ {
            Ok((ValV::Bool(true), e))
        } else if s.subrange(i, e) == "false"@ {
            Ok((ValV::Bool(false), e))
        } else {
            Err(ErrV::InvalidValue)
        }
    }
}

fn parse_value(s: &str, i: usize, n: usize) -> (r: Result<(Value, usize), Error>)
    requires
        i <= n,
        n == s@.len(),
    ensures
        match r {
            Ok((v, j)) => sp_value(s@, i as int) == Ok::<_, ErrV>((val_view(v), j as int)) && i
                < j <= n,
            Err(e) => sp_value(s@, i as int) == Err::<(ValV, int), _>(err_view(e)),
        },
{
    if i >= n {
        return Err(Error::MissingValue);
    }
    let c = s.get_char(i);
    if c == '"' {
        match parse_string_body(s, i + 1, n) {
            Err(e) => Err(e),
            Ok((t, j)) => Ok((Value::Str(t), j)),
        }
    } else if c == ']' {
        Err(Error::MissingValue)
    } else if char_is_digit_x(c) || c == '-' || c == '+' {
        let start = if c == '-' || c == '+' {
            i + 1
        } else {
            i
        };
        let ds = scan_digits(s, start, n);
        if ds == start {
            return Err(Error::InvalidValue);
        }
        let e = if ds < n {
            if s.get_char(ds) == '.' {
                let d2 = scan_digits(s, ds + 1, n);
                if d2 > ds + 1 {
                    d2
                } else {
                    ds
                }
            } else {
                ds
            }
        } else {
            ds
        };
        match decimal_number(s, i, e) {
            None => Err(Error::InvalidValue),
            Some(num) => Ok((Value::Number(num), e)),
        }
    } else {
        let e = scan_word(s, i, n);
        proof {
            reveal_strlit("true");
            reveal_strlit("false");
        }
        if str_eq(s.substring_char(i, e), "true") {
            proof {
                assert(s@.subrange(i as int, e as int).len() == e - i);
            }
            Ok((Value::Bool(true), e))
        } else if str_eq(s.substring_char(i, e), "false") {
            proof {
                assert(s@.subrange(i as int, e as int).len() == e - i);
            }
            Ok((Value::Bool(false), e))
        } else {
            Err(Error::InvalidValue)
        }
    }
}

/// Predicate production: `[` field op literal `]`.
pub open spec fn sp_predicate(s: Seq<char>, i: int) -> Result<(PredV, int), ErrV> {
    match sp_field(s, i + 1) {
        Err(err) => Err(err),
        Ok((f, j)) => match sp_op(s, j) {
            Err(err) => Err(err),
            Ok((op, k)) => match sp_value(s, k) {
                Err(err) => Err(err),
                Ok((v, m)) => if m < s.len() && s[m] == ']' {
                    Ok((PredV { field: f, op, value: v }, m + 1))
                } else {
                    Err(ErrV::GrammarError(m, "]"@))
                },
            },
        },
    }
}

fn parse_predicate(s: &str, i: usize, n: usize) -> (r: Result<(Predicate, usize), Error>)
    requires
        i < n,
        n == s@.len(),
    ensures
        match r {
            Ok((p, j)) => sp_predicate(s@, i as int) == Ok::<_, ErrV>((pred_view(p), j as int))
                && i < j <= n,
            Err(e) => sp_predicate(s@, i as int) == Err::<(PredV, int), _>(err_view(e)),
        },
{
    let (field, j) = match parse_field(s, i + 1, n) {
        Err(e) => {
            return Err(e);
        },
        Ok(x) => x,
    };
    let (op, k) = match parse_op(s, j, n) {
        Err(e) => {
            return Err(e);
        },
        Ok(x) => x,
    };
    let (value, m) = match parse_value(s, k, n) {
        Err(e) => {
            return Err(e);
        },
        Ok(x) => x,
    };
    if m < n && s.get_char(m) == ']' {
        Ok((Predicate { field, op, value }, m + 1))
    } else {
        Err(Error::GrammarError(m, String::from_str("]")))
    }
}

/// Predicate list: as many `[...]` groups as stand here.
pub open spec fn sp_predicates(s: Seq<char>, i: int, acc: Seq<PredV>) -> Result<
    (Seq<PredV>, int),
    ErrV,
>
    decreases s.len() - i,
{
    if 0 <= i < s.len() && s[i] == '[' {
        match sp_predicate(s, i) {
            Err(err) => Err(err),
            Ok((p, j)) => sp_predicates(s, step_to(s, i, j), acc.push(p)),
        }
    } else {
        Ok((acc, i))
    }
}

/// Segment production: `+`, `#`, `msg`, or a literal identifier.
pub open spec fn sp_segment(s: Seq<char>, i: int) -> Result<(SegV, int), ErrV> {
    if i >= s.len() {
        Err(ErrV::MissingSegment)
    } else if s[i] == '+' {
        Ok((SegV::Plus, i + 1))
    } else if s[i] == '#' {
        Ok((SegV::Hash, i + 1))
    } else {
        let e = word_end(s, i);
        if e == i {
            Err(ErrV::InvalidSegment)
        } else if s.subrange(i, e) == "msg"@ {
            Ok((SegV::Message, e))
        } else {
            Ok((SegV::Literal(s.subrange(i, e)), e))
        }
    }
}

fn parse_segment(s: &str, i: usize, n: usize) -> (r: Result<(Segment, usize), Error>)
    requires
        i <= n,
        n == s@.len(),
    ensures
        match r {
            Ok((g, j)) => sp_segment(s@, i as int) == Ok::<_, ErrV>((seg_view(g), j as int))
                && i < j <= n,
            Err(e) => sp_segment(s@, i as int) == Err::<(SegV, int), _>(err_view(e)),
        },
{
    if i >= n {
        return Err(Error::MissingSegment);
    }
    let c = s.get_char(i);
    if c == '+' {
        Ok((Segment::Plus, i + 1))
    } else if c == '#' {
        Ok((Segment::Hash, i + 1))
    } else {
        let e = scan_word(s, i, n);
        if e == i {
            Err(Error::InvalidSegment)
        } else if str_eq(s.substring_char(i, e), "msg") {
            Ok((Segment::Message, e))
        } else {
            Ok((Segment::Literal(String::from_str(s.substring_char(i, e))), e))
        }
    }
}

/// Step production: `/` or `//`, a segment, then predicates.
pub open spec fn sp_step(s: Seq<char>, i: int) -> Result<(StepV, int), ErrV> {
    if !(0 <= i < s.len() && s[i] == '/') {
        Err(ErrV::GrammarError(i, "/"@))
    } else {
        let axis = if i + 1 < s.len() && s[i + 1] == '/' {
            Axis::Descendant
        } else {
            Axis::Child
        };
        let j = if i + 1 < s.len() && s[i + 1] == '/' {
            i + 2
        } else {
            i + 1
        };
        match sp_segment(s, j) {
            Err(err) => Err(err),
            Ok((seg, k)) => match sp_predicates(s, k, Seq::empty()) {
                Err(err) => Err(err),
                Ok((ps, m)) => Ok((StepV { axis, segment: seg, predicates: ps }, m)),
            },
        }
    }
}

#[verifier::loop_isolation(false)]
fn parse_step(s: &str, i: usize, n: usize) -> (r: Result<(Step, usize), Error>)
    requires
        i < n,
        n == s@.len(),
        s@[i as int] == '/',
    ensures
        match r {
            Ok((st, j)) => sp_step(s@, i as int) == Ok::<_, ErrV>((step_view(st), j as int))
                && i < j <= n,
            Err(e) => sp_step(s@, i as int) == Err::<(StepV, int), _>(err_view(e)),
        },
{
    let two = i + 1 < n && s.get_char(i + 1) == '/';
    let axis = if two {
        Axis::Descendant
    } else {
        Axis::Child
    };
    let j = if two {
        i + 2
    } else {
        i + 1
    };
    let (segment, k) = match parse_segment(s, j, n) {
        Err(e) => {
            return Err(e);
        },
        Ok(x) => x,
    };
    let mut predicates: Vec<Predicate> = Vec::new();
    let mut cur = k;
    proof {
        assert(predicates@.map_values(|p: Predicate| pred_view(p)) =~= Seq::<PredV>::empty());
    }
    while cur < n && s.get_char(cur) == '['
        invariant
            k <= cur <= n,
            n == s@.len(),
            sp_predicates(s@, k as int, Seq::empty()) == sp_predicates(
                s@,
                cur as int,
                predicates@.map_values(|p: Predicate| pred_view(p)),
            ),
        decreases n - cur,
    {
        let (p, j2) = match parse_predicate(s, cur, n) {
            Err(e) => {
                return Err(e);
            },
            Ok(x) => x,
        };
        proof {
            let ghost old_ps = predicates@.map_values(|p: Predicate| pred_view(p));
            assert((predicates@.push(p)).map_values(|q: Predicate| pred_view(q)) =~= old_ps.push(
                pred_view(p),
            ));
            assert(step_to(s@, cur as int, j2 as int) == j2 as int);
        }
        predicates.push(p);
        cur = j2;
    }
    Ok((Step { axis, segment, predicates }, cur))
}

/// Stage production: `window(Ns)`, `sum(field)`, `avg(field)`, `count()`.
pub open spec fn sp_stage(s: Seq<char>, i: int) -> Result<(StageV, int), ErrV> {
    let e = word_end(s, i);
    if e == i {
        Err(ErrV::MissingFunctionName)
    } else if !(e < s.len() && s[e] == '(') {
        Err(ErrV::MissingFunction)
    } else {
        let name = s.subrange(i, e);
        let j = e + 1;
        if name == "window"@ {
            let d = digits_end(s, j);
            if d == j {
                Err(ErrV::WindowRequiresDuration)
            } else if digits_val(s.subrange(j, d)) > u64::MAX {
                Err(ErrV::NumberParseError(s.subrange(j, d)))
            } else if !(d < s.len() && s[d] == 's') {
                Err(ErrV::WindowRequiresDuration)
            } else if !(d + 1 < s.len() && s[d + 1] == ')') {
                Err(ErrV::GrammarError(d + 1, ")"@))
            } else {
                Ok((StageV::Window(digits_val(s.subrange(j, d)) as u64), d + 2))
            }
        } else if name == "sum"@ || name == "avg"@ {
            match sp_field(s, j) {
                Err(ErrV::MissingField) => if name == "sum"@ {
                    Err(ErrV::SumRequiresField)
                } else {
                    Err(ErrV::AvgRequiresField)
                },
                Err(err) => Err(err),
                Ok((f, k)) => if k < s.len() && s[k] == ')' {
                    Ok(
                        (
                            if name == "sum"@ {
                                StageV::Sum(f)
                            } else {
                                StageV::Avg(f)
                            },
                            k + 1,
                        ),
                    )
                } else {
                    Err(ErrV::GrammarError(k, ")"@))
                },
            }
        } else if name == "count"@ {
            if j < s.len() && s[j] == ')' {
                Ok((StageV::Count, j + 1))
            } else {
                Err(ErrV::GrammarError(j, ")"@))
            }
        } else {
            Err(ErrV::UnknownFunction(name))
        }
    }
}

fn parse_stage(s: &str, i: usize, n: usize) -> (r: Result<(Stage, usize), Error>)
    requires
        i <= n,
        n == s@.len(),
    ensures
        match r {
            Ok((st, j)) => sp_stage(s@, i as int) == Ok::<_, ErrV>((stage_view(st), j as int))
                && i < j <= n,
            Err(e) => sp_stage(s@, i as int) == Err::<(StageV, int), _>(err_view(e)),
        },
{
    let e = scan_word(s, i, n);
    if e == i {
        return Err(Error::MissingFunctionName);
    }
    if !(e < n && s.get_char(e) == '(') {
        return Err(Error::MissingFunction);
    }
    let j = e + 1;
    let name = s.substring_char(i, e);
    if str_eq(name, "window") {
        let d = scan_digits(s, j, n);
        if d == j {
            return Err(Error::WindowRequiresDuration);
        }
        let v = match parse_u64_digits(s, j, d) {
            None => {
                return Err(Error::NumberParseError(String::from_str(s.substring_char(j, d))));
            },
            Some(v) => v,
        };
        if !(d < n && s.get_char(d) == 's') {
            return Err(Error::WindowRequiresDuration);
        }
        if !(d + 1 < n && s.get_char(d + 1) == ')') {
            return Err(Error::GrammarError(d + 1, String::from_str(")")));
        }
        Ok((Stage::Window(v), d + 2))
    } else if str_eq(name, "sum") || str_eq(name, "avg") {
        let is_sum = str_eq(name, "sum");
        match parse_field(s, j, n) {
            Err(Error::MissingField) => if is_sum {
                Err(Error::SumRequiresField)
            } else {
                Err(Error::AvgRequiresField)
            },
            Err(err) => Err(err),
            Ok((f, k)) => {
                if k < n && s.get_char(k) == ')' {
                    if is_sum {
                        Ok((Stage::Sum(f), k + 1))
                    } else {
                        Ok((Stage::Avg(f), k + 1))
                    }
                } else {
                    Err(Error::GrammarError(k, String::from_str(")")))
                }
            },
        }
    } else if str_eq(name, "count") {
        if j < n && s.get_char(j) == ')' {
            Ok((Stage::Count, j + 1))
        } else {
            Err(Error::GrammarError(j, String::from_str(")")))
        }
    } else {
        Err(Error::UnknownFunction(String::from_str(name)))
    }
}

/// Step list: one step per leading `/`.
pub open spec fn sp_steps(s: Seq<char>, i: int, acc: Seq<StepV>) -> Result<
    (Seq<StepV>, int),
    ErrV,
>
    decreases s.len() - i,
{
    if 0 <= i < s.len() && s[i] == '/' {
        match sp_step(s, i) {
            Err(err) => Err(err),
            Ok((st, j)) => sp_steps(s, step_to(s, i, j), acc.push(st)),
        }
    } else {
        Ok((acc, i))
    }
}

/// Stage list: each stage prefixed by the separator ` |> `.
pub open spec fn sp_stages(s: Seq<char>, i: int, acc: Seq<StageV>) -> Result<
    (Seq<StageV>, int),
    ErrV,
>
    decreases s.len() - i,
{
    if i >= s.len() {
        Ok((acc, i))
    } else if !(s.len() - i >= 4 && s[i] == ' ' && s[i + 1] == '|' && s[i + 2] == '>' && s[i + 3]
        == ' ') {
        Err(ErrV::GrammarError(i, " |> "@))
    } else {
        match sp_stage(s, i + 4) {
            Err(err) => Err(err),
            Ok((st, j)) => sp_stages(s, step_to(s, i, j), acc.push(st)),
        }
    }
}

/// What `compile` returns for every input: the selector of a well-formed
/// query, or the first error in source order.
pub open spec fn sp_compile(s: Seq<char>) -> Result<SelV, ErrV> {
    if s.len() == 0 {
        Err(ErrV::MissingSelector)
    } else {
        match sp_steps(s, 0, Seq::empty()) {
            Err(err) => Err(err),
            Ok((steps, i)) => if steps.len() == 0 {
                Err(ErrV::GrammarError(0, "/"@))
            } else {
                match sp_stages(s, i, Seq::empty()) {
                    Err(err) => Err(err),
                    Ok((stages, _j)) => Ok(SelV { steps, stages }),
                }
            },
        }
    }
}

/// Compiles a selector query.  The result — AST or first error — is the
/// one `sp_compile` gives for the input text.
#[verifier::loop_isolation(false)]
pub fn compile(input: &str) -> (r: Result<Selector, Error>)
    ensures
        match r {
            Ok(sel) => sp_compile(input@) == Ok::<_, ErrV>(sel_view(sel)),
            Err(e) => sp_compile(input@) == Err::<SelV, _>(err_view(e)),
        },
{
    let n = input.unicode_len();
    if n == 0 {
        return Err(Error::MissingSelector);
    }
    let mut steps: Vec<Step> = Vec::new();
    let mut cur: usize = 0;
    proof {
        assert(steps@.map_values(|st: Step| step_view(st)) =~= Seq::<StepV>::empty());
    }
    while cur < n && input.get_char(cur) == '/'
        invariant
            cur <= n,
            n == input@.len(),
            sp_steps(input@, 0, Seq::empty()) == sp_steps(
                input@,
                cur as int,
                steps@.map_values(|st: Step| step_view(st)),
            ),
        decreases n - cur,
    {
        let (st, j) = match parse_step(input, cur, n) {
            Err(e) => {
                return Err(e);
            },
            Ok(x) => x,
        };
        proof {
            let ghost old_sts = steps@.map_values(|q: Step| step_view(q));
            assert((steps@.push(st)).map_values(|q: Step| step_view(q)) =~= old_sts.push(
                step_view(st),
            ));
            assert(step_to(input@, cur as int, j as int) == j as int);
        }
        steps.push(st);
        cur = j;
    }
    if steps.len() == 0 {
        return Err(Error::GrammarError(0, String::from_str("/")));
    }
    let ghost steps_pos = cur as int;
    let mut stages: Vec<Stage> = Vec::new();
    proof {
        assert(stages@.map_values(|st: Stage| stage_view(st)) =~= Seq::<StageV>::empty());
    }
    while cur < n
        invariant
            cur <= n,
            n == input@.len(),
            sp_stages(input@, steps_pos, Seq::empty()) == sp_stages(
                input@,
                cur as int,
                stages@.map_values(|st: Stage| stage_view(st)),
            ),
        decreases n - cur,
    {
        if !(n - cur >= 4 && input.get_char(cur) == ' ' && input.get_char(cur + 1) == '|'
            && input.get_char(cur + 2) == '>' && input.get_char(cur + 3) == ' ') {
            return Err(Error::GrammarError(cur, String::from_str(" |> ")));
        }
        let (st, j) = match parse_stage(input, cur + 4, n) {
            Err(e) => {
                return Err(e);
            },
            Ok(x) => x,
        };
        proof {
            let ghost old_sts = stages@.map_values(|q: Stage| stage_view(q));
            assert((stages@.push(st)).map_values(|q: Stage| stage_view(q)) =~= old_sts.push(
                stage_view(st),
            ));
            assert(step_to(input@, cur as int, j as int) == j as int);
        }
        stages.push(st);
        cur = j;
    }
    Ok(Selector { steps, stages })
}

} // verus!
