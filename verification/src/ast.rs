//! Abstract syntax of the selector language: steps over topic segments,
//! attribute predicates, and the trailing pipeline of stages.

use vstd::prelude::*;

verus! {

/// Relation between a step and the current topic cursor.
#[derive(Debug, PartialEq, Eq)]
pub enum Axis {
    /// Matches at exactly the current topic position.
    Child,
    /// May skip zero or more topic segments before matching.
    Descendant,
}

/// One component of a selector step.
#[derive(Debug, PartialEq, Eq)]
pub enum Segment {
    /// Exact string match against one topic segment.
    Literal(String),
    /// Matches exactly one arbitrary topic segment.
    Plus,
    /// Matches zero or more topic segments.
    Hash,
    /// Virtual segment: consumes no topic input, used to attach predicates.
    Message,
}

/// Left-hand side of a predicate: where the compared value is read from.
#[derive(Debug, PartialEq, Eq, Clone)]
pub enum Field {
    /// A key into the per-message header map.
    Header(String),
    /// A non-empty path of object keys into the JSON payload.
    Json(Vec<String>),
}

/// Comparison operator of a predicate.
#[derive(Debug, PartialEq, Eq, Clone, Copy)]
pub enum Operator {
    Eq,
    Lt,
    Gt,
    Le,
    Ge,
}

/// A numeric literal: the IEEE-754 bit pattern of its double-precision
/// value, together with the canonical decimal text it was written as.
/// The text drives display; the bits drive comparison.
#[derive(Debug, PartialEq, Clone)]
pub struct Number {
    pub bits: u64,
    pub text: String,
}

impl Number {
    /// A number carrying only a bit pattern, with no decimal text.
    /// Used for values that never reach the display form.
    pub fn from_bits(bits: u64) -> (r: Number)
        ensures
            r.bits == bits,
            r.text@ == Seq::<char>::empty(),
    {
        Number { bits, text: String::new() }
    }
}

/// Right-hand side of a predicate.
#[derive(Debug, PartialEq, Clone)]
pub enum Value {
    Number(Number),
    Bool(bool),
    Str(String),
}

/// An attribute constraint attached to a step.
#[derive(Debug, PartialEq)]
pub struct Predicate {
    pub field: Field,
    pub op: Operator,
    pub value: Value,
}

/// A selector step: axis, segment, and conjunctive predicates.
#[derive(Debug, PartialEq)]
pub struct Step {
    pub axis: Axis,
    pub segment: Segment,
    pub predicates: Vec<Predicate>,
}

/// A pipeline stage: either sets the window capacity for the aggregators
/// after it, or is itself a stateful aggregator.
#[derive(Debug, PartialEq, Eq, Clone)]
pub enum Stage {
    Window(u64),
    Sum(Field),
    Avg(Field),
    Count,
}

/// A compiled selector: a non-empty list of steps and a pipeline.
#[derive(Debug, PartialEq)]
pub struct Selector {
    pub steps: Vec<Step>,
    pub stages: Vec<Stage>,
}


/// Decimal digit character of `d`.
pub open spec fn digit_char(d: int) -> char {
    if d == 0 { '0' }
    else if d == 1 { '1' }
    else if d == 2 { '2' }
    else if d == 3 { '3' }
    else if d == 4 { '4' }
    else if d == 5 { '5' }
    else if d == 6 { '6' }
    else if d == 7 { '7' }
    else if d == 8 { '8' }
    else { '9' }
}

/// Decimal spelling of a non-negative integer.
pub open spec fn spec_digits(n: int) -> Seq<char>
    decreases n,
{
    if n < 10 {
        seq![digit_char(n)]
    } else {
        spec_digits(n / 10) + seq![digit_char(n % 10)]
    }
}

fn digit_str(d: u64) -> (r: &'static str)
    requires
        d < 10,
    ensures
        r@ == seq![digit_char(d as int)],
{
    proof {
        reveal_strlit("0");
        reveal_strlit("1");
        reveal_strlit("2");
        reveal_strlit("3");
        reveal_strlit("4");
        reveal_strlit("5");
        reveal_strlit("6");
        reveal_strlit("7");
        reveal_strlit("8");
        reveal_strlit("9");
    }
    if d == 0 { "0" }
    else if d == 1 { "1" }
    else if d == 2 { "2" }
    else if d == 3 { "3" }
    else if d == 4 { "4" }
    else if d == 5 { "5" }
    else if d == 6 { "6" }
    else if d == 7 { "7" }
    else if d == 8 { "8" }
    else { "9" }
}

/// Decimal spelling of a `u64`.
pub fn u64_to_string(n: u64) -> (r: String)
    ensures
        r@ == spec_digits(n as int),
    decreases n,
{
    if n < 10 {
        String::from_str(digit_str(n))
    } else {
        let mut s = u64_to_string(n / 10);
        s.append(digit_str(n % 10));
        s
    }
}

/// One character of a string literal in displayed form: quotes and
/// backslashes take an escaping backslash, everything else stands as is.
pub open spec fn spec_escape_char(c: char) -> Seq<char> {
    if c == '"' {
        "\\\""@
    } else if c == '\\' {
        "\\\\"@
    } else {
        seq![c]
    }
}

/// A string literal's content in displayed form.
pub open spec fn spec_escape(s: Seq<char>) -> Seq<char>
    decreases s.len(),
{
    if s.len() == 0 {
        Seq::<char>::empty()
    } else {
        spec_escape(s.drop_last()) + spec_escape_char(s.last())
    }
}

fn append_escaped(out: &mut String, v: &str)
    ensures
        final(out)@ == old(out)@ + spec_escape(v@),
{
    let n = v.unicode_len();
    let mut i: usize = 0;
    proof {
        assert(v@.take(0) =~= Seq::<char>::empty());
        assert(out@ + spec_escape(v@.take(0)) =~= out@);
    }
    let ghost start = out@;
    while i < n
        invariant
            i <= n,
            n == v@.len(),
            out@ == start + spec_escape(v@.take(i as int)),
        decreases n - i,
    {
        let c = v.get_char(i);
        proof {
            assert(v@.take(i + 1).drop_last() =~= v@.take(i as int));
            assert(v@.take(i + 1).last() == v@[i as int]);
        }
        if c == '"' {
            out.append("\\\"");
        } else if c == '\\' {
            out.append("\\\\");
        } else {
            out.append(v.substring_char(i, i + 1));
            proof {
                assert(v@.subrange(i as int, i + 1) =~= seq![v@[i as int]]);
            }
        }
        i = i + 1;
    }
    proof {
        assert(v@.take(n as int) =~= v@);
    }
}

/// Displayed form of a field: the header name itself, or the JSON path
/// written `json$.a.b`.
pub open spec fn spec_json_path_tail(ps: Seq<String>) -> Seq<char>
    decreases ps.len(),
{
    if ps.len() == 0 {
        Seq::<char>::empty()
    } else {
        spec_json_path_tail(ps.drop_last()) + "."@ + ps.last()@
    }
}

pub open spec fn spec_display_field(f: Field) -> Seq<char> {
    match f {
        Field::Header(s) => s@,
        Field::Json(ps) => "json$"@ + spec_json_path_tail(ps@),
    }
}

/// Renders a field as it stands in selector text.
pub fn display_field(fld: &Field) -> (r: String)
    ensures
        r@ == spec_display_field(*fld),
{
    match fld {
        Field::Header(s) => s.clone(),
        Field::Json(ps) => {
            let mut out = String::from_str("json$");
            let mut i: usize = 0;
            proof {
                assert(spec_json_path_tail(ps@.take(0)) =~= Seq::<char>::empty());
                assert(out@ + spec_json_path_tail(ps@.take(0)) =~= out@);
            }
            let ghost start = out@;
            while i < ps.len()
                invariant
                    i <= ps@.len(),
                    out@ == start + spec_json_path_tail(ps@.take(i as int)),
                decreases ps@.len() - i,
            {
                proof {
                    assert(ps@.take(i + 1).drop_last() =~= ps@.take(i as int));
                    assert(ps@.take(i + 1).last() == ps@[i as int]);
                }
                out.append(".");
                out.append(ps[i].as_str());
                i = i + 1;
            }
            proof {
                assert(ps@.take(ps@.len() as int) =~= ps@);
            }
            out
        },
    }
}

pub open spec fn spec_display_op(op: Operator) -> Seq<char> {
    match op {
        Operator::Eq => "="@,
        Operator::Lt => "<"@,
        Operator::Gt => ">"@,
        Operator::Le => "<="@,
        Operator::Ge => ">="@,
    }
}

/// Renders an operator as it stands in selector text.
pub fn display_op(op: Operator) -> (r: &'static str)
    ensures
        r@ == spec_display_op(op),
{
    match op {
        Operator::Eq => "=",
        Operator::Lt => "<",
        Operator::Gt => ">",
        Operator::Le => "<=",
        Operator::Ge => ">=",
    }
}

pub open spec fn spec_display_value(v: Value) -> Seq<char> {
    match v {
        Value::Number(n) => n.text@,
        Value::Bool(b) => if b {
            "true"@
        } else {
            "false"@
        },
        Value::Str(s) => "\""@ + spec_escape(s@) + "\""@,
    }
}

fn display_value_into(out: &mut String, val: &Value)
    ensures
        final(out)@ == old(out)@ + spec_display_value(*val),
{
    match val {
        Value::Number(n) => out.append(n.text.as_str()),
        Value::Bool(b) => {
            if *b {
                out.append("true");
            } else {
                out.append("false");
            }
        },
        Value::Str(s) => {
            out.append("\"");
            append_escaped(out, s.as_str());
            out.append("\"");
        },
    }
}

pub open spec fn spec_display_predicate(p: Predicate) -> Seq<char> {
    "["@ + spec_display_field(p.field) + spec_display_op(p.op) + spec_display_value(p.value)
        + "]"@
}

pub open spec fn spec_display_predicates(ps: Seq<Predicate>) -> Seq<char>
    decreases ps.len(),
{
    if ps.len() == 0 {
        Seq::<char>::empty()
    } else {
        spec_display_predicates(ps.drop_last()) + spec_display_predicate(ps.last())
    }
}

pub open spec fn spec_display_step(st: Step) -> Seq<char> {
    (match st.axis {
        Axis::Child => "/"@,
        Axis::Descendant => "//"@,
    }) + (match st.segment {
        Segment::Literal(s) => s@,
        Segment::Plus => "+"@,
        Segment::Hash => "#"@,
        Segment::Message => "msg"@,
    }) + spec_display_predicates(st.predicates@)
}

pub open spec fn spec_display_steps(ss: Seq<Step>) -> Seq<char>
    decreases ss.len(),
{
    if ss.len() == 0 {
        Seq::<char>::empty()
    } else {
        spec_display_steps(ss.drop_last()) + spec_display_step(ss.last())
    }
}

pub open spec fn spec_display_stage(st: Stage) -> Seq<char> {
    " |> "@ + (match st {
        Stage::Window(n) => "window("@ + spec_digits(n as int) + "s)"@,
        Stage::Sum(f) => "sum("@ + spec_display_field(f) + ")"@,
        Stage::Avg(f) => "avg("@ + spec_display_field(f) + ")"@,
        Stage::Count => "count()"@,
    })
}

pub open spec fn spec_display_stages(ss: Seq<Stage>) -> Seq<char>
    decreases ss.len(),
{
    if ss.len() == 0 {
        Seq::<char>::empty()
    } else {
        spec_display_stages(ss.drop_last()) + spec_display_stage(ss.last())
    }
}

/// Canonical textual form of a selector: it parses back to an equal AST.
pub open spec fn spec_display_selector(sel: Selector) -> Seq<char> {
    spec_display_steps(sel.steps@) + spec_display_stages(sel.stages@)
}

fn display_predicate_into(out: &mut String, p: &Predicate)
    ensures
        final(out)@ == old(out)@ + spec_display_predicate(*p),
{
    out.append("[");
    let f = display_field(&p.field);
    out.append(f.as_str());
    out.append(display_op(p.op));
    display_value_into(out, &p.value);
    out.append("]");
}

fn display_step_into(out: &mut String, st: &Step)
    ensures
        final(out)@ == old(out)@ + spec_display_step(*st),
{
    match &st.axis {
        Axis::Child => out.append("/"),
        Axis::Descendant => out.append("//"),
    }
    match &st.segment {
        Segment::Literal(s) => out.append(s.as_str()),
        Segment::Plus => out.append("+"),
        Segment::Hash => out.append("#"),
        Segment::Message => out.append("msg"),
    }
    let mut i: usize = 0;
    let ghost start = out@;
    proof {
        assert(spec_display_predicates(st.predicates@.take(0)) =~= Seq::<char>::empty());
        assert(start + spec_display_predicates(st.predicates@.take(0)) =~= start);
    }
    while i < st.predicates.len()
        invariant
            i <= st.predicates@.len(),
            out@ == start + spec_display_predicates(st.predicates@.take(i as int)),
        decreases st.predicates@.len() - i,
    {
        proof {
            assert(st.predicates@.take(i + 1).drop_last() =~= st.predicates@.take(i as int));
            assert(st.predicates@.take(i + 1).last() == st.predicates@[i as int]);
        }
        display_predicate_into(out, &st.predicates[i]);
        i = i + 1;
    }
    proof {
        assert(st.predicates@.take(st.predicates@.len() as int) =~= st.predicates@);
    }
}

fn display_stage_into(out: &mut String, st: &Stage)
    ensures
        final(out)@ == old(out)@ + spec_display_stage(*st),
{
    out.append(" |> ");
    match st {
        Stage::Window(n) => {
            out.append("window(");
            let d = u64_to_string(*n);
            out.append(d.as_str());
            out.append("s)");
        },
        Stage::Sum(f) => {
            out.append("sum(");
            let s = display_field(f);
            out.append(s.as_str());
            out.append(")");
        },
        Stage::Avg(f) => {
            out.append("avg(");
            let s = display_field(f);
            out.append(s.as_str());
            out.append(")");
        },
        Stage::Count => {
            out.append("count()");
        },
    }
}

impl Selector {
    /// The canonical textual form: rendering then compiling yields an
    /// equal selector.
    pub fn display(&self) -> (r: String)
        ensures
            r@ == spec_display_selector(*self),
    {
        let mut out = String::new();
        let mut i: usize = 0;
        proof {
            assert(spec_display_steps(self.steps@.take(0)) =~= Seq::<char>::empty());
            assert(out@ + spec_display_steps(self.steps@.take(0)) =~= out@);
        }
        while i < self.steps.len()
            invariant
                i <= self.steps@.len(),
                out@ == spec_display_steps(self.steps@.take(i as int)),
            decreases self.steps@.len() - i,
        {
            proof {
                assert(self.steps@.take(i + 1).drop_last() =~= self.steps@.take(i as int));
                assert(self.steps@.take(i + 1).last() == self.steps@[i as int]);
            }
            display_step_into(&mut out, &self.steps[i]);
            i = i + 1;
        }
        proof {
            assert(self.steps@.take(self.steps@.len() as int) =~= self.steps@);
        }
        let mut j: usize = 0;
        let ghost mid = out@;
        proof {
            assert(spec_display_stages(self.stages@.take(0)) =~= Seq::<char>::empty());
            assert(mid + spec_display_stages(self.stages@.take(0)) =~= mid);
        }
        while j < self.stages.len()
            invariant
                j <= self.stages@.len(),
                out@ == mid + spec_display_stages(self.stages@.take(j as int)),
            decreases self.stages@.len() - j,
        {
            proof {
                assert(self.stages@.take(j + 1).drop_last() =~= self.stages@.take(j as int));
                assert(self.stages@.take(j + 1).last() == self.stages@[j as int]);
            }
            display_stage_into(&mut out, &self.stages[j]);
            j = j + 1;
        }
        proof {
            assert(self.stages@.take(self.stages@.len() as int) =~= self.stages@);
        }
        out
    }
}


/// Ghost form of a number literal.
pub struct NumV {
    pub bits: u64,
    pub text: Seq<char>,
}

/// Ghost form of a segment.
pub enum SegV {
    Literal(Seq<char>),
    Plus,
    Hash,
    Message,
}

/// Ghost form of a field.
pub enum FieldV {
    Header(Seq<char>),
    Json(Seq<Seq<char>>),
}

/// Ghost form of a literal value.
pub enum ValV {
    Number(NumV),
    Bool(bool),
    Str(Seq<char>),
}

/// Ghost form of a predicate.
pub struct PredV {
    pub field: FieldV,
    pub op: Operator,
    pub value: ValV,
}

/// Ghost form of a step.
pub struct StepV {
    pub axis: Axis,
    pub segment: SegV,
    pub predicates: Seq<PredV>,
}

/// Ghost form of a stage.
pub enum StageV {
    Window(u64),
    Sum(FieldV),
    Avg(FieldV),
    Count,
}

/// Ghost form of a selector.
pub struct SelV {
    pub steps: Seq<StepV>,
    pub stages: Seq<StageV>,
}

pub open spec fn num_view(n: Number) -> NumV {
    NumV { bits: n.bits, text: n.text@ }
}

pub open spec fn seg_view(s: Segment) -> SegV {
    match s {
        Segment::Literal(t) => SegV::Literal(t@),
        Segment::Plus => SegV::Plus,
        Segment::Hash => SegV::Hash,
        Segment::Message => SegV::Message,
    }
}

pub open spec fn field_view(f: Field) -> FieldV {
    match f {
        Field::Header(t) => FieldV::Header(t@),
        Field::Json(ps) => FieldV::Json(ps@.map_values(|p: String| p@)),
    }
}

pub open spec fn val_view(v: Value) -> ValV {
    match v {
        Value::Number(n) => ValV::Number(num_view(n)),
        Value::Bool(b) => ValV::Bool(b),
        Value::Str(s) => ValV::Str(s@),
    }
}

pub open spec fn pred_view(p: Predicate) -> PredV {
    PredV { field: field_view(p.field), op: p.op, value: val_view(p.value) }
}

pub open spec fn step_view(st: Step) -> StepV {
    StepV {
        axis: st.axis,
        segment: seg_view(st.segment),
        predicates: st.predicates@.map_values(|p: Predicate| pred_view(p)),
    }
}

pub open spec fn stage_view(st: Stage) -> StageV {
    match st {
        Stage::Window(n) => StageV::Window(n),
        Stage::Sum(f) => StageV::Sum(field_view(f)),
        Stage::Avg(f) => StageV::Avg(field_view(f)),
        Stage::Count => StageV::Count,
    }
}

pub open spec fn sel_view(sel: Selector) -> SelV {
    SelV {
        steps: sel.steps@.map_values(|st: Step| step_view(st)),
        stages: sel.stages@.map_values(|st: Stage| stage_view(st)),
    }
}

} // verus!
