//! The matcher engine: a backtracking path automaton over topic segments,
//! predicate evaluation against headers and JSON payload, and the stateful
//! stage pipeline.

use vstd::prelude::*;
use vstd::arithmetic::power::{pow, lemma_pow0, lemma_pow1, lemma_pow_adds, lemma_pow_positive};
use crate::ast::{Axis, Field, Operator, Predicate, Segment, Selector, Stage, Step};
use crate::ast::Value;
use crate::json::{Json, json_lookup, spec_json_lookup};
use crate::num::{compare_bits, decimal_number, spec_canonical_decimal, spec_compare,
    spec_decimal_bits};
use crate::str_eq;

verus! {

/// A message under evaluation: its topic, its headers, and an optional
/// JSON payload handed over in plain form.
pub struct Message {
    pub topic: String,
    pub headers: Vec<(String, String)>,
    pub payload: Option<Json>,
}

/// Splitting a topic on `/`, character by character: `cur` is the segment
/// being read, `acc` the segments already read.
pub open spec fn split_acc(t: Seq<char>, i: int, cur: Seq<char>, acc: Seq<Seq<char>>) -> Seq<
    Seq<char>,
>
    decreases t.len() - i,
{
    if i < 0 || i >= t.len() {
        acc.push(cur)
    } else if t[i] == '/' {
        split_acc(t, i + 1, Seq::empty(), acc.push(cur))
    } else {
        split_acc(t, i + 1, cur.push(t[i]), acc)
    }
}

/// The topic's segment list: empty for the empty topic.
pub open spec fn spec_split_topic(t: Seq<char>) -> Seq<Seq<char>> {
    if t.len() == 0 {
        Seq::empty()
    } else {
        split_acc(t, 0, Seq::empty(), Seq::empty())
    }
}

/// Splits a topic string on `/` into its segments.
#[verifier::loop_isolation(false)]
pub fn split_topic(t: &str) -> (r: Vec<String>)
    ensures
        r@.map_values(|s: String| s@) == spec_split_topic(t@),
{
    let n = t.unicode_len();
    let mut segs: Vec<String> = Vec::new();
    if n == 0 {
        proof {
            assert(segs@.map_values(|s: String| s@) =~= spec_split_topic(t@));
        }
        return segs;
    }
    let mut start: usize = 0;
    let mut i: usize = 0;
    proof {
        assert(segs@.map_values(|s: String| s@) =~= Seq::<Seq<char>>::empty());
        assert(t@.subrange(0, 0) =~= Seq::<char>::empty());
    }
    while i < n
        invariant
            start <= i <= n,
            n == t@.len(),
            split_acc(t@, 0, Seq::empty(), Seq::empty()) == split_acc(
                t@,
                i as int,
                t@.subrange(start as int, i as int),
                segs@.map_values(|s: String| s@),
            ),
        decreases n - i,
    {
        if t.get_char(i) == '/' {
            let seg = String::from_str(t.substring_char(start, i));
            proof {
                let ghost old_m = segs@.map_values(|s: String| s@);
                assert((segs@.push(seg)).map_values(|s: String| s@) =~= old_m.push(
                    t@.subrange(start as int, i as int),
                ));
                assert(t@.subrange((i + 1) as int, (i + 1) as int) =~= Seq::<char>::empty());
            }
            segs.push(seg);
            start = i + 1;
        } else {
            proof {
                assert(t@.subrange(start as int, (i + 1) as int) =~= t@.subrange(
                    start as int,
                    i as int,
                ).push(t@[i as int]));
            }
        }
        i = i + 1;
    }
    let seg = String::from_str(t.substring_char(start, n));
    proof {
        let ghost old_m = segs@.map_values(|s: String| s@);
        assert((segs@.push(seg)).map_values(|s: String| s@) =~= old_m.push(
            t@.subrange(start as int, n as int),
        ));
    }
    segs.push(seg);
    segs
}

/// First value bound to `name` among the headers.
pub open spec fn spec_header_get(hs: Seq<(String, String)>, name: Seq<char>) -> Option<
    Seq<char>,
>
    decreases hs.len(),
{
    if hs.len() == 0 {
        None
    } else if hs[0].0@ == name {
        Some(hs[0].1@)
    } else {
        spec_header_get(hs.skip(1), name)
    }
}

fn header_get<'a>(hs: &'a Vec<(String, String)>, name: &str) -> (r: Option<&'a String>)
    ensures
        match r {
            Some(v) => spec_header_get(hs@, name@) == Some(v@),
            None => spec_header_get(hs@, name@) is None,
        },
{
    let mut i: usize = 0;
    proof {
        assert(hs@.skip(0) =~= hs@);
    }
    while i < hs.len()
        invariant
            i <= hs@.len(),
            spec_header_get(hs@, name@) == spec_header_get(hs@.skip(i as int), name@),
        decreases hs@.len() - i,
    {
        proof {
            assert(hs@.skip(i as int)[0] == hs@[i as int]);
            assert(hs@.skip(i as int).skip(1) =~= hs@.skip(i + 1));
        }
        if str_eq(hs[i].0.as_str(), name) {
            return Some(&hs[i].1);
        }
        i = i + 1;
    }
    proof {
        assert(hs@.skip(hs@.len() as int).len() == 0);
    }
    None
}

/// A header value read as a number: the double-precision bits of its
/// decimal spelling, when it has one.
pub open spec fn spec_header_num(hv: Seq<char>) -> Option<u64> {
    match spec_canonical_decimal(hv) {
        Some(c) => Some(spec_decimal_bits(c)),
        None => None,
    }
}

fn header_num(hv: &str) -> (r: Option<u64>)
    ensures
        r == spec_header_num(hv@),
{
    proof {
        assert(hv@.subrange(0, hv@.len() as int) =~= hv@);
    }
    match decimal_number(hv, 0, hv.unicode_len()) {
        Some(num) => Some(num.bits),
        None => None,
    }
}

/// The typed value a predicate's field denotes in a message, if any:
/// numbers as bits, booleans, or plain strings.
pub enum LeftV {
    Num(u64),
    Bool(bool),
    Str(Seq<char>),
}

/// Extraction rule for predicates.  A header value is read as a number if
/// it spells a decimal, as a boolean if it is exactly `true` or `false`,
/// and as a string otherwise.  A JSON value must resolve through the path
/// to a boolean, number or string; anything else fails.
pub open spec fn spec_left(field: Field, msg: Message) -> Option<LeftV> {
    match field {
        Field::Header(name) => match spec_header_get(msg.headers@, name@) {
            None => None,
            Some(hv) => Some(
                match spec_header_num(hv) {
                    Some(b) => LeftV::Num(b),
                    None => if hv == "true"@ {
                        LeftV::Bool(true)
                    } else if hv == "false"@ {
                        LeftV::Bool(false)
                    } else {
                        LeftV::Str(hv)
                    },
                },
            ),
        },
        Field::Json(path) => match msg.payload {
            None => None,
            Some(j) => match spec_json_lookup(j, path@, 0) {
                None => None,
                Some(Json::Bool(b)) => Some(LeftV::Bool(b)),
                Some(Json::Num(bits)) => Some(LeftV::Num(bits)),
                Some(Json::Str(s)) => Some(LeftV::Str(s@)),
                Some(_) => None,
            },
        },
    }
}

/// Predicate semantics: extraction must succeed and the comparison holds.
/// Numbers compare under the tolerance semantics; booleans and strings
/// only under equality; mismatched kinds never hold.
pub open spec fn spec_pred_holds(p: Predicate, msg: Message) -> bool {
    match spec_left(p.field, msg) {
        None => false,
        Some(LeftV::Num(lb)) => match p.value {
            Value::Number(n) => spec_compare(lb, n.bits, p.op),
            _ => false,
        },
        Some(LeftV::Bool(b)) => match p.value {
            Value::Bool(rb) => p.op is Eq && b == rb,
            _ => false,
        },
        Some(LeftV::Str(s)) => match p.value {
            Value::Str(rs) => p.op is Eq && s == rs@,
            _ => false,
        },
    }
}

pub open spec fn spec_preds_hold(ps: Seq<Predicate>, msg: Message) -> bool {
    forall|k: int| 0 <= k < ps.len() ==> spec_pred_holds(ps[k], msg)
}

fn pred_match(p: &Predicate, msg: &Message) -> (r: bool)
    ensures
        r == spec_pred_holds(*p, *msg),
{
    match &p.field {
        Field::Header(name) => match header_get(&msg.headers, name.as_str()) {
            None => false,
            Some(hv) => {
                match header_num(hv.as_str()) {
                    Some(lb) => match &p.value {
                        Value::Number(n) => compare_bits(lb, n.bits, p.op),
                        _ => false,
                    },
                    None => {
                        if str_eq(hv.as_str(), "true") || str_eq(hv.as_str(), "false") {
                            let b = str_eq(hv.as_str(), "true");
                            match &p.value {
                                Value::Bool(rb) => matches!(p.op, Operator::Eq) && b == *rb,
                                _ => false,
                            }
                        } else {
                            match &p.value {
                                Value::Str(rs) => matches!(p.op, Operator::Eq) && str_eq(
                                    hv.as_str(),
                                    rs.as_str(),
                                ),
                                _ => false,
                            }
                        }
                    },
                }
            },
        },
        Field::Json(path) => match &msg.payload {
            None => false,
            Some(j) => match json_lookup(j, path) {
                None => false,
                Some(Json::Bool(b)) => match &p.value {
                    Value::Bool(rb) => matches!(p.op, Operator::Eq) && *b == *rb,
                    _ => false,
                },
                Some(Json::Num(bits)) => match &p.value {
                    Value::Number(n) => compare_bits(*bits, n.bits, p.op),
                    _ => false,
                },
                Some(Json::Str(s)) => match &p.value {
                    Value::Str(rs) => matches!(p.op, Operator::Eq) && str_eq(
                        s.as_str(),
                        rs.as_str(),
                    ),
                    _ => false,
                },
                Some(_) => false,
            },
        },
    }
}

#[verifier::loop_isolation(false)]
fn preds_match(ps: &Vec<Predicate>, msg: &Message) -> (r: bool)
    ensures
        r == spec_preds_hold(ps@, *msg),
{
    let mut k: usize = 0;
    while k < ps.len()
        invariant
            k <= ps@.len(),
            forall|m: int| 0 <= m < k ==> spec_pred_holds(ps@[m], *msg),
        decreases ps@.len() - k,
    {
        if !pred_match(&ps[k], msg) {
            return false;
        }
        k = k + 1;
    }
    true
}

/// Path-matching semantics over `(step index, topic index)` states, as a
/// recursive acceptance relation.  A state accepts when both the steps and
/// the topic are exhausted; a step first requires its predicates to hold
/// of the message, then consumes topic segments according to its axis and
/// segment.
pub open spec fn spec_match_at(
    steps: Seq<Step>,
    topic: Seq<Seq<char>>,
    msg: Message,
    si: int,
    ti: int,
) -> bool
    decreases steps.len() - si, 4int, 0int,
{
    if si >= steps.len() {
        ti == topic.len()
    } else {
        spec_preds_hold(steps[si].predicates@, msg) && match steps[si].axis {
            Axis::Child => spec_seg_match(steps, topic, msg, si, ti),
            Axis::Descendant => spec_desc_from(steps, topic, msg, si, ti),
        }
    }
}

/// The descendant axis: the segment may start at `lo` or any position
/// after it.
pub open spec fn spec_desc_from(
    steps: Seq<Step>,
    topic: Seq<Seq<char>>,
    msg: Message,
    si: int,
    lo: int,
) -> bool
    decreases steps.len() - si, 3int, topic.len() - lo + 1,
{
    if si < 0 || si >= steps.len() || lo < 0 || lo > topic.len() {
        false
    } else {
        spec_seg_match(steps, topic, msg, si, lo) || spec_desc_from(steps, topic, msg, si, lo + 1)
    }
}

/// How one segment consumes topic input at position `pos`.
pub open spec fn spec_seg_match(
    steps: Seq<Step>,
    topic: Seq<Seq<char>>,
    msg: Message,
    si: int,
    pos: int,
) -> bool
    decreases steps.len() - si, 2int, 0int,
{
    if si < 0 || si >= steps.len() {
        false
    } else {
        match steps[si].segment {
            Segment::Literal(lit) => pos < topic.len() && topic[pos] == lit@ && spec_match_at(
                steps,
                topic,
                msg,
                si + 1,
                pos + 1,
            ),
            Segment::Plus => pos < topic.len() && spec_match_at(steps, topic, msg, si + 1, pos + 1),
            Segment::Hash => spec_match_from(steps, topic, msg, si + 1, pos),
            Segment::Message => spec_match_at(steps, topic, msg, si + 1, pos),
        }
    }
}

/// Zero or more segments consumed: the continuation may resume at `lo` or
/// any position after it.
pub open spec fn spec_match_from(
    steps: Seq<Step>,
    topic: Seq<Seq<char>>,
    msg: Message,
    sn: int,
    lo: int,
) -> bool
    decreases steps.len() - sn, 5int, topic.len() - lo + 1,
{
    if lo < 0 || lo > topic.len() {
        false
    } else {
        spec_match_at(steps, topic, msg, sn, lo) || spec_match_from(steps, topic, msg, sn, lo + 1)
    }
}

/// Whether the message's topic and attributes satisfy the selector.
pub open spec fn spec_matches(sel: Selector, msg: Message) -> bool {
    spec_match_at(sel.steps@, spec_split_topic(msg.topic@), msg, 0, 0)
}


/// The views of the topic segments.
pub open spec fn topic_views(topic: Seq<String>) -> Seq<Seq<char>> {
    topic.map_values(|s: String| s@)
}

/// The acceptance relation at one worklist entry.
pub open spec fn holds1(
    steps: Seq<Step>,
    tv: Seq<Seq<char>>,
    msg: Message,
    e: (usize, usize),
) -> bool {
    spec_match_at(steps, tv, msg, e.0 as int, e.1 as int)
}

/// Some entry of the worklist accepts.
pub open spec fn any_holds(
    steps: Seq<Step>,
    tv: Seq<Seq<char>>,
    msg: Message,
    stack: Seq<(usize, usize)>,
) -> bool {
    exists|k: int| 0 <= k < stack.len() && #[trigger] holds1(steps, tv, msg, stack[k])
}

/// Worklist entries stay within the index bounds.
pub open spec fn stack_ok(stack: Seq<(usize, usize)>, s_len: int, t_len: int) -> bool {
    forall|k: int| 0 <= k < stack.len() ==> (#[trigger] stack[k]).0 <= s_len && stack[k].1 <= t_len
}

/// Weight of one entry: `B^(S - step index)`; entries with a larger step
/// index are cheaper, and each pop pays for all its pushes.
pub open spec fn pot1(e: (usize, usize), s_len: int, b: int) -> int {
    if e.0 <= s_len {
        pow(b, (s_len - e.0) as nat)
    } else {
        0
    }
}

/// Total weight of the worklist.
pub open spec fn pot(stack: Seq<(usize, usize)>, s_len: int, b: int) -> int
    decreases stack.len(),
{
    if stack.len() == 0 {
        0
    } else {
        pot(stack.drop_last(), s_len, b) + pot1(stack.last(), s_len, b)
    }
}

/// The branching base of the worklist weight: more than the number of
/// entries any one pop can push.
pub open spec fn pot_base(t_len: int) -> int {
    (t_len + 2) * (t_len + 2)
}

proof fn lemma_pot_nonneg(stack: Seq<(usize, usize)>, s_len: int, b: int)
    requires
        b >= 1,
    ensures
        pot(stack, s_len, b) >= 0,
    decreases stack.len(),
{
    if stack.len() > 0 {
        lemma_pot_nonneg(stack.drop_last(), s_len, b);
        if stack.last().0 <= s_len {
            lemma_pow_positive(b, (s_len - stack.last().0 as int) as nat);
        }
    }
}

proof fn lemma_pot_push(stack: Seq<(usize, usize)>, x: (usize, usize), s_len: int, b: int)
    ensures
        pot(stack.push(x), s_len, b) == pot(stack, s_len, b) + pot1(x, s_len, b),
{
    assert(stack.push(x).drop_last() =~= stack);
    assert(stack.push(x).last() == x);
}

proof fn lemma_any_push(
    steps: Seq<Step>,
    tv: Seq<Seq<char>>,
    msg: Message,
    stack: Seq<(usize, usize)>,
    x: (usize, usize),
)
    ensures
        any_holds(steps, tv, msg, stack.push(x)) == (any_holds(steps, tv, msg, stack) || holds1(
            steps,
            tv,
            msg,
            x,
        )),
{
    let p = stack.push(x);
    if any_holds(steps, tv, msg, stack) {
        let k = choose|k: int| 0 <= k < stack.len() && #[trigger] holds1(steps, tv, msg, stack[k]);
        assert(p[k] == stack[k]);
        assert(holds1(steps, tv, msg, p[k]));
    }
    if holds1(steps, tv, msg, x) {
        assert(p[stack.len() as int] == x);
        assert(holds1(steps, tv, msg, p[stack.len() as int]));
    }
    if any_holds(steps, tv, msg, p) {
        let k = choose|k: int| 0 <= k < p.len() && #[trigger] holds1(steps, tv, msg, p[k]);
        if k < stack.len() {
            assert(stack[k] == p[k]);
            assert(holds1(steps, tv, msg, stack[k]));
        } else {
            assert(p[k] == x);
        }
    }
}

/// After a pop of weight `B^(S-si)`, pushing at most `(T+1)^2` entries of
/// weight `B^(S-si-1)` leaves the total strictly smaller.
proof fn lemma_pot_step(
    before: Seq<(usize, usize)>,
    after: Seq<(usize, usize)>,
    s_len: int,
    t_len: int,
    b: int,
    si: int,
    count: int,
)
    requires
        0 <= si < s_len,
        t_len >= 0,
        b == pot_base(t_len),
        0 <= count <= t_len + 1,
        pot(after, s_len, b) <= pot(before, s_len, b) + count * ((t_len + 1) * pow(
            b,
            (s_len - si - 1) as nat,
        )),
    ensures
        pot(after, s_len, b) < pot(before, s_len, b) + pow(b, (s_len - si) as nat),
{
    let w1 = pow(b, (s_len - si - 1) as nat);
    assert(b >= 4) by (nonlinear_arith)
        requires
            b == (t_len + 2) * (t_len + 2),
            t_len >= 0,
    ;
    lemma_pow_positive(b, (s_len - si - 1) as nat);
    assert(pow(b, (s_len - si) as nat) == b * w1) by {
        assert((s_len - si) as nat == 1 + (s_len - si - 1) as nat);
        lemma_pow_adds(b, 1, (s_len - si - 1) as nat);
        lemma_pow1(b);
    }
    assert(count * ((t_len + 1) * w1) <= (t_len + 1) * ((t_len + 1) * w1)) by (nonlinear_arith)
        requires
            w1 > 0,
            0 <= count <= t_len + 1,
    ;
    assert((t_len + 1) * ((t_len + 1) * w1) < b * w1) by (nonlinear_arith)
        requires
            w1 > 0,
            b == (t_len + 2) * (t_len + 2),
            t_len >= 0,
    ;
}

/// Pushes the successor entries of matching `steps[si]`'s segment at topic
/// position `pos`: afterwards some entry accepts exactly when one did
/// before or the segment match relation holds at `pos`.
#[verifier::loop_isolation(false)]
fn push_seg(
    stack: &mut Vec<(usize, usize)>,
    steps: &Vec<Step>,
    topic: &Vec<String>,
    msg: &Message,
    si: usize,
    pos: usize,
)
    requires
        si < steps@.len(),
        pos <= topic@.len(),
        stack_ok(old(stack)@, steps@.len() as int, topic@.len() as int),
    ensures
        any_holds(steps@, topic_views(topic@), *msg, final(stack)@) == (any_holds(
            steps@,
            topic_views(topic@),
            *msg,
            old(stack)@,
        ) || spec_seg_match(steps@, topic_views(topic@), *msg, si as int, pos as int)),
        stack_ok(final(stack)@, steps@.len() as int, topic@.len() as int),
        pot(final(stack)@, steps@.len() as int, pot_base(topic@.len() as int)) <= pot(
            old(stack)@,
            steps@.len() as int,
            pot_base(topic@.len() as int),
        ) + (topic@.len() + 1) * pow(
            pot_base(topic@.len() as int),
            (steps@.len() - si - 1) as nat,
        ),
{
    let s_count = steps.len();
    let t_count = topic.len();
    let ghost tv = topic_views(topic@);
    let ghost s_len = steps@.len() as int;
    let ghost b = pot_base(topic@.len() as int);
    let ghost w1 = pow(b, (s_len - si - 1) as nat);
    proof {
        assert(b >= 4) by (nonlinear_arith)
            requires
                b == (topic@.len() as int + 2) * (topic@.len() as int + 2),
                topic@.len() >= 0,
        ;
        lemma_pow_positive(b, (s_len - si - 1) as nat);
        assert(tv.len() == topic@.len());
        assert(w1 <= (topic@.len() + 1) * w1 && 0 <= (topic@.len() + 1) * w1)
            by (nonlinear_arith)
            requires
                w1 > 0,
                topic@.len() >= 0,
        ;
    }
    match &steps[si].segment {
        Segment::Literal(lit) => {
            if pos < t_count && str_eq(lit.as_str(), topic[pos].as_str()) {
                proof {
                    lemma_any_push(
                        steps@,
                        tv,
                        *msg,
                        stack@,
                        ((si + 1) as usize, (pos + 1) as usize),
                    );
                    lemma_pot_push(stack@, ((si + 1) as usize, (pos + 1) as usize), s_len, b);
                    assert(tv[pos as int] == topic@[pos as int]@);
                }
                stack.push((si + 1, pos + 1));
            } else {
                proof {
                    if pos < t_count {
                        assert(tv[pos as int] == topic@[pos as int]@);
                    }
                    assert(!spec_seg_match(steps@, tv, *msg, si as int, pos as int));
                }
            }
        },
        Segment::Plus => {
            if pos < t_count {
                proof {
                    lemma_any_push(
                        steps@,
                        tv,
                        *msg,
                        stack@,
                        ((si + 1) as usize, (pos + 1) as usize),
                    );
                    lemma_pot_push(stack@, ((si + 1) as usize, (pos + 1) as usize), s_len, b);
                }
                stack.push((si + 1, pos + 1));
            }
        },
        Segment::Hash => {
            let mut j = pos;
            let ghost start_any = any_holds(steps@, tv, *msg, stack@);
            let ghost start_pot = pot(stack@, s_len, b);
            while j < t_count
                invariant
                    pos <= j <= topic@.len(),
                    t_count == topic@.len(),
                    (any_holds(steps@, tv, *msg, stack@) || spec_match_from(
                        steps@,
                        tv,
                        *msg,
                        si + 1,
                        j as int,
                    )) == (start_any || spec_match_from(steps@, tv, *msg, si + 1, pos as int)),
                    stack_ok(stack@, s_len, topic@.len() as int),
                    pot(stack@, s_len, b) <= start_pot + (j - pos) * w1,
                decreases topic@.len() - j,
            {
                proof {
                    lemma_any_push(steps@, tv, *msg, stack@, ((si + 1) as usize, j as usize));
                    lemma_pot_push(stack@, ((si + 1) as usize, j as usize), s_len, b);
                    assert((j + 1 - pos) * w1 == (j - pos) * w1 + w1) by (nonlinear_arith);
                }
                stack.push((si + 1, j));
                j = j + 1;
            }
            proof {
                lemma_any_push(steps@, tv, *msg, stack@, ((si + 1) as usize, j as usize));
                lemma_pot_push(stack@, ((si + 1) as usize, j as usize), s_len, b);
                assert((j + 1 - pos) * w1 == (j - pos) * w1 + w1) by (nonlinear_arith);
            }
            stack.push((si + 1, j));
            proof {
                assert(!spec_match_from(steps@, tv, *msg, si + 1, t_count + 1));
                assert((j + 1 - pos) * w1 <= (topic@.len() + 1) * w1) by (nonlinear_arith)
                    requires
                        w1 > 0,
                        j + 1 - pos <= topic@.len() + 1,
                ;
            }
        },
        Segment::Message => {
            proof {
                lemma_any_push(steps@, tv, *msg, stack@, ((si + 1) as usize, pos as usize));
                lemma_pot_push(stack@, ((si + 1) as usize, pos as usize), s_len, b);
            }
            stack.push((si + 1, pos));
        },
    }
}

/// Runs the backtracking search with an explicit work stack: whether the
/// step list matches the topic, per the recursive acceptance relation.
#[verifier::loop_isolation(false)]
fn match_steps(steps: &Vec<Step>, topic: &Vec<String>, msg: &Message) -> (r: bool)
    ensures
        r == spec_match_at(steps@, topic_views(topic@), *msg, 0, 0),
{
    let s_count = steps.len();
    let s_count = steps.len();
    let t_count = topic.len();
    let ghost tv = topic_views(topic@);
    let ghost s_len = steps@.len() as int;
    let ghost t_len = topic@.len() as int;
    let ghost b = pot_base(t_len);
    proof {
        assert(b >= 4) by (nonlinear_arith)
            requires
                b == (t_len + 2) * (t_len + 2),
                t_len >= 0,
        ;
        assert(tv.len() == topic@.len());
    }
    let mut stack: Vec<(usize, usize)> = Vec::new();
    proof {
        assert(!any_holds(steps@, tv, *msg, stack@));
        lemma_any_push(steps@, tv, *msg, stack@, (0, 0));
        lemma_pot_push(stack@, (0, 0), s_len, b);
        lemma_pot_nonneg(stack@.push((0, 0)), s_len, b);
    }
    stack.push((0, 0));
    while stack.len() != 0
        invariant
            spec_match_at(steps@, tv, *msg, 0, 0) == any_holds(steps@, tv, *msg, stack@),
            stack_ok(stack@, s_len, t_len),
            pot(stack@, s_len, b) >= 0,
        decreases pot(stack@, s_len, b),
    {
        let ghost stack0 = stack@;
        let e = stack.pop().unwrap();
        let (si, ti) = e;
        proof {
            assert(stack0 =~= stack@.push(e));
            lemma_any_push(steps@, tv, *msg, stack@, e);
            lemma_pot_push(stack@, e, s_len, b);
            lemma_pot_nonneg(stack@, s_len, b);
            lemma_pow_positive(b, (s_len - si as int) as nat);
        }
        if si == s_count {
            if ti == t_count {
                proof {
                    assert(holds1(steps@, tv, *msg, e));
                }
                return true;
            }
            proof {
                assert(!holds1(steps@, tv, *msg, e));
            }
            continue;
        }
        let st = &steps[si];
        if !preds_match(&st.predicates, msg) {
            proof {
                assert(!holds1(steps@, tv, *msg, e));
            }
            continue;
        }
        let ghost before = stack@;
        let ghost w1 = pow(b, (s_len - si - 1) as nat);
        match &st.axis {
            Axis::Child => {
                push_seg(&mut stack, steps, topic, msg, si, ti);
                proof {
                    assert(holds1(steps@, tv, *msg, e) == spec_seg_match(
                        steps@,
                        tv,
                        *msg,
                        si as int,
                        ti as int,
                    ));
                    assert(pot(stack@, s_len, b) <= pot(before, s_len, b) + 1 * ((t_len + 1)
                        * w1)) by (nonlinear_arith)
                        requires
                            pot(stack@, s_len, b) <= pot(before, s_len, b) + (t_len + 1) * w1,
                    ;
                    lemma_pot_step(before, stack@, s_len, t_len, b, si as int, 1);
                    lemma_pot_nonneg(stack@, s_len, b);
                }
            },
            Axis::Descendant => {
                let mut k = ti;
                let ghost any0 = any_holds(steps@, tv, *msg, stack@);
                let ghost pot0 = pot(stack@, s_len, b);
                while k < t_count
                    invariant
                        ti <= k <= t_len,
                        (any_holds(steps@, tv, *msg, stack@) || spec_desc_from(
                            steps@,
                            tv,
                            *msg,
                            si as int,
                            k as int,
                        )) == (any0 || spec_desc_from(steps@, tv, *msg, si as int, ti as int)),
                        stack_ok(stack@, s_len, t_len),
                        pot(stack@, s_len, b) <= pot0 + (k - ti) * ((t_len + 1) * w1),
                    decreases t_len - k,
                {
                    let ghost before_inner = stack@;
                    push_seg(&mut stack, steps, topic, msg, si, k);
                    proof {
                        assert((k + 1 - ti) * ((t_len + 1) * w1) == (k - ti) * ((t_len + 1) * w1)
                            + ((t_len + 1) * w1)) by (nonlinear_arith);
                    }
                    k = k + 1;
                }
                let ghost before_last = stack@;
                push_seg(&mut stack, steps, topic, msg, si, k);
                proof {
                    assert((k + 1 - ti) * ((t_len + 1) * w1) == (k - ti) * ((t_len + 1) * w1) + (
                    (t_len + 1) * w1)) by (nonlinear_arith);
                    assert(!spec_desc_from(steps@, tv, *msg, si as int, t_len + 1));
                    assert(holds1(steps@, tv, *msg, e) == spec_desc_from(
                        steps@,
                        tv,
                        *msg,
                        si as int,
                        ti as int,
                    ));
                    lemma_pot_step(before, stack@, s_len, t_len, b, si as int, k + 1 - ti);
                    lemma_pot_nonneg(stack@, s_len, b);
                }
            },
        }
    }
    proof {
        assert(!any_holds(steps@, tv, *msg, stack@));
    }
    false
}


/// Mutable state of one aggregator: a window of values (for sum and
/// average) or a saturating counter.
pub enum StageState {
    Win { cap: u64, vals: Vec<u64> },
    Ctr { cap: u64, cnt: u64 },
}

/// Ghost form of an aggregator state.
pub enum StateV {
    Win { cap: u64, vals: Seq<u64> },
    Ctr { cap: u64, cnt: u64 },
}

pub open spec fn state_view(s: StageState) -> StateV {
    match s {
        StageState::Win { cap, vals } => StateV::Win { cap, vals: vals@ },
        StageState::Ctr { cap, cnt } => StateV::Ctr { cap, cnt },
    }
}

/// Descriptor of one aggregator: its kind, its field where it has one,
/// and the window capacity in force where it stands in the pipeline.
pub enum AggSpec {
    Sum(Field, u64),
    Avg(Field, u64),
    Count(u64),
}

/// The aggregators of a stage list, from position `i` on, given the
/// window capacity in force (`1` before any `window` stage).
pub open spec fn agg_specs(stages: Seq<Stage>, i: int, cap: u64) -> Seq<AggSpec>
    decreases stages.len() - i,
{
    if i < 0 || i >= stages.len() {
        Seq::empty()
    } else {
        match stages[i] {
            Stage::Window(n) => agg_specs(stages, i + 1, n),
            Stage::Sum(f) => seq![AggSpec::Sum(f, cap)] + agg_specs(stages, i + 1, cap),
            Stage::Avg(f) => seq![AggSpec::Avg(f, cap)] + agg_specs(stages, i + 1, cap),
            Stage::Count => seq![AggSpec::Count(cap)] + agg_specs(stages, i + 1, cap),
        }
    }
}

/// The state cell fits its descriptor and respects the capacity bound.
pub open spec fn state_matches(sp: AggSpec, st: StateV) -> bool {
    match sp {
        AggSpec::Sum(_, c) => match st {
            StateV::Win { cap, vals } => cap == c && vals.len() <= c,
            _ => false,
        },
        AggSpec::Avg(_, c) => match st {
            StateV::Win { cap, vals } => cap == c && vals.len() <= c,
            _ => false,
        },
        AggSpec::Count(c) => match st {
            StateV::Ctr { cap, cnt } => cap == c && cnt <= c,
            _ => false,
        },
    }
}

pub open spec fn states_wf(specs: Seq<AggSpec>, states: Seq<StateV>) -> bool {
    &&& states.len() == specs.len()
    &&& forall|k: int| 0 <= k < specs.len() ==> state_matches(#[trigger] specs[k], states[k])
}

/// The state an aggregator starts from.
pub open spec fn empty_state(sp: AggSpec) -> StateV {
    match sp {
        AggSpec::Sum(_, c) => StateV::Win { cap: c, vals: Seq::empty() },
        AggSpec::Avg(_, c) => StateV::Win { cap: c, vals: Seq::empty() },
        AggSpec::Count(c) => StateV::Ctr { cap: c, cnt: 0 },
    }
}

/// Extraction rule for aggregation: only a numeric value counts.  A
/// header must spell a decimal; a JSON path must reach a number.
pub open spec fn spec_extract_num(field: Field, msg: Message) -> Option<u64> {
    match field {
        Field::Header(name) => match spec_header_get(msg.headers@, name@) {
            None => None,
            Some(hv) => spec_header_num(hv),
        },
        Field::Json(path) => match msg.payload {
            None => None,
            Some(j) => match spec_json_lookup(j, path@, 0) {
                Some(Json::Num(bits)) => Some(bits),
                _ => None,
            },
        },
    }
}

pub open spec fn stage_extract_ok(st: Stage, msg: Message) -> bool {
    match st {
        Stage::Sum(f) => spec_extract_num(f, msg) is Some,
        Stage::Avg(f) => spec_extract_num(f, msg) is Some,
        _ => true,
    }
}

/// Every aggregator of the pipeline can extract its value from the
/// message.
pub open spec fn all_extractable(stages: Seq<Stage>, msg: Message) -> bool {
    forall|i: int| 0 <= i < stages.len() ==> stage_extract_ok(#[trigger] stages[i], msg)
}

/// A window takes the new value at its tail and evicts its head when the
/// capacity is exceeded.
pub open spec fn win_push(vals: Seq<u64>, cap: u64, v: u64) -> Seq<u64> {
    let w = vals.push(v);
    if w.len() > cap {
        w.skip(1)
    } else {
        w
    }
}

/// One aggregator's state after a matched message.
pub open spec fn upd_state(sp: AggSpec, st: StateV, msg: Message) -> StateV {
    match sp {
        AggSpec::Sum(f, c) => match st {
            StateV::Win { cap, vals } => StateV::Win {
                cap,
                vals: win_push(vals, cap, spec_extract_num(f, msg)->0),
            },
            _ => st,
        },
        AggSpec::Avg(f, c) => match st {
            StateV::Win { cap, vals } => StateV::Win {
                cap,
                vals: win_push(vals, cap, spec_extract_num(f, msg)->0),
            },
            _ => st,
        },
        AggSpec::Count(c) => match st {
            StateV::Ctr { cap, cnt } => StateV::Ctr {
                cap,
                cnt: if cnt < cap {
                    (cnt + 1) as u64
                } else {
                    cnt
                },
            },
            _ => st,
        },
    }
}

/// What `process` hands back when the pipeline produced something: the
/// saturated count, or the updated window whose values the host folds
/// with double-precision arithmetic (a sum, or a sum over the length).
#[derive(Debug, PartialEq)]
pub enum Aggregate {
    Count(u64),
    Sum(Vec<u64>),
    Avg(Vec<u64>),
}

/// Ghost form of an aggregate output.
pub enum AggOutV {
    Count(u64),
    Sum(Seq<u64>),
    Avg(Seq<u64>),
}

pub open spec fn agg_view(a: Aggregate) -> AggOutV {
    match a {
        Aggregate::Count(n) => AggOutV::Count(n),
        Aggregate::Sum(v) => AggOutV::Sum(v@),
        Aggregate::Avg(v) => AggOutV::Avg(v@),
    }
}

/// The output of one aggregator, read off its updated state.
pub open spec fn out_of(sp: AggSpec, st: StateV) -> AggOutV {
    match sp {
        AggSpec::Sum(_, _) => match st {
            StateV::Win { cap, vals } => AggOutV::Sum(vals),
            _ => AggOutV::Count(0),
        },
        AggSpec::Avg(_, _) => match st {
            StateV::Win { cap, vals } => AggOutV::Avg(vals),
            _ => AggOutV::Count(0),
        },
        AggSpec::Count(_) => match st {
            StateV::Ctr { cap, cnt } => AggOutV::Count(cnt),
            _ => AggOutV::Count(0),
        },
    }
}

/// All aggregator states after a matched message.
pub open spec fn spec_new_states(
    specs: Seq<AggSpec>,
    states: Seq<StateV>,
    msg: Message,
) -> Seq<StateV> {
    Seq::new(states.len(), |k: int| upd_state(specs[k], states[k], msg))
}

/// The pipeline's numeric result: the last aggregator's output, if any.
pub open spec fn spec_output(
    specs: Seq<AggSpec>,
    states: Seq<StateV>,
    msg: Message,
) -> Option<AggOutV> {
    if specs.len() == 0 {
        None
    } else {
        let k = specs.len() - 1;
        Some(out_of(specs[k], upd_state(specs[k], states[k], msg)))
    }
}

fn vec_copy(v: &Vec<u64>) -> (r: Vec<u64>)
    ensures
        r@ == v@,
{
    let mut r: Vec<u64> = Vec::new();
    let mut i: usize = 0;
    while i < v.len()
        invariant
            i <= v@.len(),
            r@ == v@.take(i as int),
        decreases v@.len() - i,
    {
        proof {
            assert(v@.take(i + 1) =~= v@.take(i as int).push(v@[i as int]));
        }
        r.push(v[i]);
        i = i + 1;
    }
    proof {
        assert(v@.take(v@.len() as int) =~= v@);
    }
    r
}

/// A matcher: the compiled selector and one state cell per aggregator.
pub struct Matcher {
    selector: Selector,
    states: Vec<StageState>,
}

impl Matcher {
    /// The selector this matcher runs.
    pub closed spec fn spec_selector(&self) -> Selector {
        self.selector
    }

    /// The aggregator states, in pipeline order.
    pub closed spec fn spec_states(&self) -> Seq<StateV> {
        self.states@.map_values(|s: StageState| state_view(s))
    }

    /// The aggregator descriptors of this matcher's pipeline.
    pub open spec fn spec_specs(&self) -> Seq<AggSpec> {
        agg_specs(self.spec_selector().stages@, 0, 1)
    }

    #[verifier::type_invariant]
    spec fn wf(&self) -> bool {
        states_wf(agg_specs(self.selector.stages@, 0, 1), self.spec_states())
    }

    /// Builds a matcher: one window per `sum`/`avg`, one counter per
    /// `count`, each sized by the window capacity in force, all empty.
    #[verifier::loop_isolation(false)]
    pub fn new(selector: Selector) -> (r: Matcher)
        ensures
            r.spec_selector() == selector,
            r.spec_states() == Seq::new(
                agg_specs(selector.stages@, 0, 1).len(),
                |k: int| empty_state(agg_specs(selector.stages@, 0, 1)[k]),
            ),
    {
        let ghost sp = agg_specs(selector.stages@, 0, 1);
        let mut cap: u64 = 1;
        let mut states: Vec<StageState> = Vec::new();
        let mut i: usize = 0;
        proof {
            assert(sp.skip(0) =~= sp);
        }
        while i < selector.stages.len()
            invariant
                i <= selector.stages@.len(),
                states@.len() <= sp.len(),
                sp.skip(states@.len() as int) == agg_specs(selector.stages@, i as int, cap),
                forall|m: int|
                    0 <= m < states@.len() ==> state_view(#[trigger] states@[m]) == empty_state(
                        sp[m],
                    ),
            decreases selector.stages@.len() - i,
        {
            let ghost k = states@.len() as int;
            match &selector.stages[i] {
                Stage::Window(n) => {
                    cap = *n;
                },
                Stage::Sum(_) => {
                    proof {
                        assert(sp.skip(k)[0] == sp[k]);
                        assert(sp.skip(k).skip(1) =~= sp.skip(k + 1));
                    }
                    states.push(StageState::Win { cap, vals: Vec::new() });
                },
                Stage::Avg(_) => {
                    proof {
                        assert(sp.skip(k)[0] == sp[k]);
                        assert(sp.skip(k).skip(1) =~= sp.skip(k + 1));
                    }
                    states.push(StageState::Win { cap, vals: Vec::new() });
                },
                Stage::Count => {
                    proof {
                        assert(sp.skip(k)[0] == sp[k]);
                        assert(sp.skip(k).skip(1) =~= sp.skip(k + 1));
                    }
                    states.push(StageState::Ctr { cap, cnt: 0 });
                },
            }
            i = i + 1;
        }
        proof {
            assert(sp.skip(states@.len() as int).len() == 0);
            assert(states@.len() == sp.len());
        }
        let r = Matcher { selector, states };
        proof {
            assert(r.spec_states() =~= Seq::new(
                sp.len(),
                |k: int| empty_state(sp[k]),
            ));
        }
        r
    }

    /// Whether the message satisfies the selector.
    pub fn matches(&self, msg: &Message) -> (r: bool)
        ensures
            r == spec_matches(self.spec_selector(), *msg),
    {
        let segs = split_topic(msg.topic.as_str());
        match_steps(&self.selector.steps, &segs, msg)
    }

    /// Reads the numeric value an aggregator's field denotes in the
    /// message, as double-precision bits.
    pub fn extract_field(field: &Field, msg: &Message) -> (r: Option<u64>)
        ensures
            r == spec_extract_num(*field, *msg),
    {
        match field {
            Field::Header(name) => match header_get(&msg.headers, name.as_str()) {
                None => None,
                Some(hv) => header_num(hv.as_str()),
            },
            Field::Json(path) => match &msg.payload {
                None => None,
                Some(j) => match json_lookup(j, path) {
                    Some(Json::Num(bits)) => Some(*bits),
                    _ => None,
                },
            },
        }
    }

    /// Compares two literal values under the engine's semantics.
    pub fn compare_values(left: &Value, right: &Value, op: Operator) -> (r: bool)
        ensures
            r == spec_compare_values(*left, *right, op),
    {
        match (left, right) {
            (Value::Number(a), Value::Number(b)) => compare_bits(a.bits, b.bits, op),
            (Value::Bool(a), Value::Bool(b)) => matches!(op, Operator::Eq) && *a == *b,
            (Value::Str(a), Value::Str(b)) => matches!(op, Operator::Eq) && str_eq(
                a.as_str(),
                b.as_str(),
            ),
            _ => false,
        }
    }

    /// Feeds a matched message through the pipeline.  A non-matching
    /// message, and one whose aggregation value cannot be extracted,
    /// leaves every state untouched and yields nothing; otherwise every
    /// window and counter advances and the last aggregator's output comes
    /// back.
    #[verifier::loop_isolation(false)]
    pub fn process(&mut self, msg: &Message) -> (r: Option<Aggregate>)
        ensures
            final(self).spec_selector() == old(self).spec_selector(),
            !spec_matches(old(self).spec_selector(), *msg) ==> r is None && final(self).spec_states() == old(self).spec_states(),
            spec_matches(old(self).spec_selector(), *msg) && !all_extractable(
                old(self).spec_selector().stages@,
                *msg,
            ) ==> r is None && final(self).spec_states() == old(self).spec_states(),
            spec_matches(old(self).spec_selector(), *msg) && all_extractable(
                old(self).spec_selector().stages@,
                *msg,
            ) ==> {
                &&& final(self).spec_states() == spec_new_states(
                    old(self).spec_specs(),
                    old(self).spec_states(),
                    *msg,
                )
                &&& (r is None <==> old(self).spec_specs().len() == 0)
                &&& (r is Some ==> Some(agg_view(r->0)) == spec_output(
                    old(self).spec_specs(),
                    old(self).spec_states(),
                    *msg,
                ))
            },
    {
        proof {
            use_type_invariant(&*self);
        }
        if !self.matches(msg) {
            return None;
        }
        let ghost stages_v = self.selector.stages@;
        let ghost sp = agg_specs(stages_v, 0, 1);
        let ghost old_states = self.spec_states();
        // every aggregator must be able to extract its value first:
        // otherwise no state moves at all
        let mut i: usize = 0;
        while i < self.selector.stages.len()
            invariant
                i <= stages_v.len(),
                forall|m: int| 0 <= m < i ==> stage_extract_ok(#[trigger] stages_v[m], *msg),
            decreases stages_v.len() - i,
        {
            let ok = match &self.selector.stages[i] {
                Stage::Sum(f) => Self::extract_field(f, msg).is_some(),
                Stage::Avg(f) => Self::extract_field(f, msg).is_some(),
                _ => true,
            };
            if !ok {
                proof {
                    assert(!stage_extract_ok(stages_v[i as int], *msg));
                }
                return None;
            }
            i = i + 1;
        }
        // apply the stages in order
        let mut new_states: Vec<StageState> = Vec::new();
        let mut out: Option<Aggregate> = None;
        let mut cap: u64 = 1;
        let mut k: usize = 0;
        let mut j: usize = 0;
        let total = self.states.len();
        proof {
            assert(sp.skip(0) =~= sp);
        }
        while j < self.selector.stages.len()
            invariant
                j <= stages_v.len(),
                k == new_states@.len(),
                k <= sp.len(),
                total == self.states@.len(),
                sp.len() == self.states@.len(),
                old_states == self.spec_states(),
                sp.skip(k as int) == agg_specs(stages_v, j as int, cap),
                forall|m: int|
                    0 <= m < k ==> state_view(#[trigger] new_states@[m]) == upd_state(
                        sp[m],
                        old_states[m],
                        *msg,
                    ),
                if k == 0 {
                    out is None
                } else {
                    out is Some && agg_view(out->0) == out_of(
                        sp[k - 1],
                        upd_state(sp[k - 1], old_states[k - 1], *msg),
                    )
                },
            decreases stages_v.len() - j,
        {
            let ghost kk = k as int;
            match &self.selector.stages[j] {
                Stage::Window(n) => {
                    cap = *n;
                },
                Stage::Sum(f) => {
                    proof {
                        assert(sp.skip(kk)[0] == sp[kk]);
                        assert(sp.skip(kk).skip(1) =~= sp.skip(kk + 1));
                        assert(stage_extract_ok(stages_v[j as int], *msg));
                        assert(state_matches(sp[kk], old_states[kk]));
                    }
                    let v = match Self::extract_field(f, msg) {
                        Some(v) => v,
                        None => {
                            proof {
                                assert(false);
                            }
                            0
                        },
                    };
                    let nv = match &self.states[k] {
                        StageState::Win { cap: c, vals } => {
                            let mut nv: Vec<u64> = Vec::new();
                            let over = vals.len() as u64 >= *c;
                            if over && vals.len() == 0 {
                                // a zero-capacity window stays empty
                                proof {
                                    assert(state_view(self.states@[kk]) == old_states[kk]);
                                    assert(nv@ =~= win_push(vals@, *c, v));
                                }
                            } else {
                                let start: usize = if over {
                                    1
                                } else {
                                    0
                                };
                                let mut idx = start;
                                proof {
                                    assert(vals@.subrange(start as int, start as int)
                                        =~= Seq::<u64>::empty());
                                }
                                while idx < vals.len()
                                    invariant
                                        start <= idx <= vals@.len(),
                                        nv@ == vals@.subrange(start as int, idx as int),
                                    decreases vals@.len() - idx,
                                {
                                    proof {
                                        assert(vals@.subrange(start as int, idx + 1)
                                            =~= vals@.subrange(
                                            start as int,
                                            idx as int,
                                        ).push(vals@[idx as int]));
                                    }
                                    nv.push(vals[idx]);
                                    idx = idx + 1;
                                }
                                nv.push(v);
                                proof {
                                    assert(state_view(self.states@[kk]) == old_states[kk]);
                                    assert(nv@ =~= win_push(vals@, *c, v));
                                }
                            }
                            nv
                        },
                        StageState::Ctr { .. } => {
                            proof {
                                assert(state_view(self.states@[kk]) == old_states[kk]);
                                assert(false);
                            }
                            Vec::new()
                        },
                    };
                    out = Some(Aggregate::Sum(vec_copy(&nv)));
                    let c2 = match &self.states[k] {
                        StageState::Win { cap: c, .. } => *c,
                        _ => 0,
                    };
                    new_states.push(StageState::Win { cap: c2, vals: nv });
                    k = k + 1;
                },
                Stage::Avg(f) => {
                    proof {
                        assert(sp.skip(kk)[0] == sp[kk]);
                        assert(sp.skip(kk).skip(1) =~= sp.skip(kk + 1));
                        assert(stage_extract_ok(stages_v[j as int], *msg));
                        assert(state_matches(sp[kk], old_states[kk]));
                    }
                    let v = match Self::extract_field(f, msg) {
                        Some(v) => v,
                        None => {
                            proof {
                                assert(false);
                            }
                            0
                        },
                    };
                    let nv = match &self.states[k] {
                        StageState::Win { cap: c, vals } => {
                            let mut nv: Vec<u64> = Vec::new();
                            let over = vals.len() as u64 >= *c;
                            if over && vals.len() == 0 {
                                // a zero-capacity window stays empty
                                proof {
                                    assert(state_view(self.states@[kk]) == old_states[kk]);
                                    assert(nv@ =~= win_push(vals@, *c, v));
                                }
                            } else {
                                let start: usize = if over {
                                    1
                                } else {
                                    0
                                };
                                let mut idx = start;
                                proof {
                                    assert(vals@.subrange(start as int, start as int)
                                        =~= Seq::<u64>::empty());
                                }
                                while idx < vals.len()
                                    invariant
                                        start <= idx <= vals@.len(),
                                        nv@ == vals@.subrange(start as int, idx as int),
                                    decreases vals@.len() - idx,
                                {
                                    proof {
                                        assert(vals@.subrange(start as int, idx + 1)
                                            =~= vals@.subrange(
                                            start as int,
                                            idx as int,
                                        ).push(vals@[idx as int]));
                                    }
                                    nv.push(vals[idx]);
                                    idx = idx + 1;
                                }
                                nv.push(v);
                                proof {
                                    assert(state_view(self.states@[kk]) == old_states[kk]);
                                    assert(nv@ =~= win_push(vals@, *c, v));
                                }
                            }
                            nv
                        },
                        StageState::Ctr { .. } => {
                            proof {
                                assert(state_view(self.states@[kk]) == old_states[kk]);
                                assert(false);
                            }
                            Vec::new()
                        },
                    };
                    out = Some(Aggregate::Avg(vec_copy(&nv)));
                    let c2 = match &self.states[k] {
                        StageState::Win { cap: c, .. } => *c,
                        _ => 0,
                    };
                    new_states.push(StageState::Win { cap: c2, vals: nv });
                    k = k + 1;
                },
                Stage::Count => {
                    proof {
                        assert(sp.skip(kk)[0] == sp[kk]);
                        assert(sp.skip(kk).skip(1) =~= sp.skip(kk + 1));
                        assert(state_matches(sp[kk], old_states[kk]));
                    }
                    let nc = match &self.states[k] {
                        StageState::Ctr { cap: c, cnt } => {
                            proof {
                                assert(state_view(self.states@[kk]) == old_states[kk]);
                            }
                            if *cnt < *c {
                                *cnt + 1
                            } else {
                                *cnt
                            }
                        },
                        StageState::Win { .. } => {
                            proof {
                                assert(state_view(self.states@[kk]) == old_states[kk]);
                                assert(false);
                            }
                            0
                        },
                    };
                    let c2 = match &self.states[k] {
                        StageState::Ctr { cap: c, .. } => *c,
                        _ => 0,
                    };
                    out = Some(Aggregate::Count(nc));
                    new_states.push(StageState::Ctr { cap: c2, cnt: nc });
                    k = k + 1;
                },
            }
            j = j + 1;
        }
        proof {
            assert(sp.skip(k as int).len() == 0);
            assert(k == sp.len());
        }
        self.states = new_states;
        proof {
            assert(self.spec_states() =~= spec_new_states(sp, old_states, *msg));
            assert forall|m: int| 0 <= m < sp.len() implies state_matches(
                #[trigger] sp[m],
                self.spec_states()[m],
            ) by {
                assert(state_matches(sp[m], old_states[m]));
            }
        }
        out
    }
}

/// Literal comparison semantics, as the predicate evaluator applies it to
/// two explicit values.
pub open spec fn spec_compare_values(l: Value, r: Value, op: Operator) -> bool {
    match (l, r) {
        (Value::Number(a), Value::Number(b)) => spec_compare(a.bits, b.bits, op),
        (Value::Bool(a), Value::Bool(b)) => op is Eq && a == b,
        (Value::Str(a), Value::Str(b)) => op is Eq && a@ == b@,
        _ => false,
    }
}

} // verus!
