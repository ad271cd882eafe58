//! Edges of the workflow graph and the conditions that gate them.
use crate::json::{
    Member, Value, json_text, lemma_same_members_pointwise, lemma_same_values_pointwise, same_member,
    same_value,
};
use crate::text::{chars_of, lex_lt, same_text, text_less};
use vstd::prelude::*;

verus! {

/// A keyboard modifier a link may ask for.
#[derive(Clone, Copy, Debug, PartialEq, Eq, Structural)]
pub enum Modifier {
    Ctrl,
    Alt,
    Shift,
    Meta,
}

/// A directed edge from one node to another. The link is followed only where its condition,
/// if any, holds of the value leaving `from`.
pub struct Link {
    pub from: u128,
    pub to: u128,
    pub condition: Option<Condition>,
    pub modifiers: Option<Vec<Modifier>>,
}

/// A boolean expression over the value leaving a node.
pub enum Condition {
    And(AndCondition),
    Or(OrCondition),
    Value(ValueCondition),
}

/// Holds when every one of the conditions holds.
pub struct AndCondition {
    pub conditions: Vec<Condition>,
}

/// Holds when at least one of the conditions holds.
pub struct OrCondition {
    pub conditions: Vec<Condition>,
}

/// A test of the value against a literal.
pub enum ValueCondition {
    Eq(Value),
    Gt(Value),
    Ge(Value),
    Lt(Value),
    Le(Value),
    Match(Value),
    Between(Value),
    In(Value),
    Includes(Value),
    NonNull,
    Nullable,
}

/// Whether the regular expression `pattern` matches somewhere in `text`; false where the
/// pattern does not compile.
pub uninterp spec fn regex_accepts(pattern: Seq<char>, text: Seq<char>) -> bool;

/// Relies on `regex::Regex::new` and `Regex::is_match`: whether the pattern matches
/// somewhere in the text, and false when the pattern is not a valid regular expression.
#[verifier::external_body]
fn regex_is_match(pattern: &str, text: &str) -> (r: bool)
    ensures
        r == regex_accepts(pattern@, text@),
{
    match regex::Regex::new(pattern) {
        Ok(re) => re.is_match(text),
        Err(_) => false,
    }
}

/// How two values compare: -1, 0 or 1 for two numbers (by size) or two strings (in
/// `lex_lt` order), and nothing for any other pair.
pub open spec fn order(a: Value, b: Value) -> Option<int> {
    if a is Number && b is Number {
        let (x, y) = (a->Number_0 as int, b->Number_0 as int);
        Some(
            if x < y {
                -1
            } else if x == y {
                0
            } else {
                1
            },
        )
    } else if a is Str && b is Str {
        let (x, y) = (a->Str_0@, b->Str_0@);
        Some(
            if x == y {
                0
            } else if lex_lt(x, y) {
                -1
            } else {
                1
            },
        )
    } else {
        None
    }
}

/// `needle` occurs in `hay` as a contiguous run.
pub open spec fn is_substring(needle: Seq<char>, hay: Seq<char>) -> bool {
    exists|i: int| 0 <= i <= hay.len() - needle.len() && #[trigger] hay.subrange(i, i + needle.len()) == needle
}

/// The text a regular expression is tested against: a string's own characters, the JSON
/// text of any other value.
pub open spec fn match_text(v: Value) -> Seq<char> {
    match v {
        Value::Str(s) => s@,
        _ => json_text(v),
    }
}

/// Some element of `xs` is `same_value` as `v`.
pub open spec fn has_element(xs: Seq<Value>, v: Value) -> bool {
    exists|i: int| 0 <= i < xs.len() && #[trigger] same_value(xs[i], v)
}

/// Whether a value test holds of `v`.
pub open spec fn value_holds(c: ValueCondition, v: Value) -> bool {
    match c {
        ValueCondition::Eq(lit) => same_value(v, lit),
        ValueCondition::Gt(lit) => order(v, lit) == Some(1int),
        ValueCondition::Ge(lit) => order(v, lit) == Some(1int) || order(v, lit) == Some(0int),
        ValueCondition::Lt(lit) => order(v, lit) == Some(-1int),
        ValueCondition::Le(lit) => order(v, lit) == Some(-1int) || order(v, lit) == Some(0int),
        ValueCondition::Match(lit) => lit is Str && regex_accepts(lit->Str_0@, match_text(v)),
        ValueCondition::Between(lit) => lit is Array && lit->Array_0@.len() >= 2 && {
            let (lo, hi) = (lit->Array_0@[0], lit->Array_0@[1]);
            (order(v, lo) == Some(1int) || order(v, lo) == Some(0int)) && (order(v, hi) == Some(
                -1int,
            ) || order(v, hi) == Some(0int))
        },
        ValueCondition::In(lit) => lit is Array && has_element(lit->Array_0@, v),
        ValueCondition::Includes(lit) => if v is Str {
            lit is Str && is_substring(lit->Str_0@, v->Str_0@)
        } else if v is Array {
            has_element(v->Array_0@, lit)
        } else {
            false
        },
        ValueCondition::NonNull => !(v is Null),
        ValueCondition::Nullable => v is Null,
    }
}

/// Whether a condition holds of `v`.
pub open spec fn holds(c: Condition, v: Value) -> bool
    decreases c, 1nat,
{
    match c {
        Condition::And(a) => all_hold(a.conditions@, v),
        Condition::Or(o) => any_holds(o.conditions@, v),
        Condition::Value(t) => value_holds(t, v),
    }
}

/// Every condition of `cs` holds of `v`.
pub open spec fn all_hold(cs: Seq<Condition>, v: Value) -> bool
    decreases cs, 0nat,
{
    cs.len() == 0 || (holds(cs[0], v) && all_hold(cs.drop_first(), v))
}

/// Some condition of `cs` holds of `v`.
pub open spec fn any_holds(cs: Seq<Condition>, v: Value) -> bool
    decreases cs, 0nat,
{
    cs.len() > 0 && (holds(cs[0], v) || any_holds(cs.drop_first(), v))
}

proof fn lemma_all_hold(cs: Seq<Condition>, v: Value)
    ensures
        all_hold(cs, v) <==> forall|i: int| 0 <= i < cs.len() ==> #[trigger] holds(cs[i], v),
    decreases cs.len(),
{
    if cs.len() > 0 {
        lemma_all_hold(cs.drop_first(), v);
        if forall|i: int| 0 <= i < cs.len() ==> #[trigger] holds(cs[i], v) {
            assert forall|i: int| 0 <= i < cs.drop_first().len() implies #[trigger] holds(
                cs.drop_first()[i],
                v,
            ) by {
                assert(holds(cs[i + 1], v));
            }
            assert(holds(cs[0], v));
        }
        if all_hold(cs, v) {
            assert forall|i: int| 0 <= i < cs.len() implies #[trigger] holds(cs[i], v) by {
                if i > 0 {
                    assert(holds(cs.drop_first()[i - 1], v));
                }
            }
        }
    }
}

proof fn lemma_any_holds(cs: Seq<Condition>, v: Value)
    ensures
        any_holds(cs, v) <==> exists|i: int| 0 <= i < cs.len() && #[trigger] holds(cs[i], v),
    decreases cs.len(),
{
    if cs.len() > 0 {
        lemma_any_holds(cs.drop_first(), v);
        if exists|i: int| 0 <= i < cs.len() && #[trigger] holds(cs[i], v) {
            let i = choose|i: int| 0 <= i < cs.len() && #[trigger] holds(cs[i], v);
            if i > 0 {
                assert(holds(cs.drop_first()[i - 1], v));
            }
        }
        if any_holds(cs, v) && !holds(cs[0], v) {
            let i = choose|i: int| 0 <= i < cs.drop_first().len() && #[trigger] holds(cs.drop_first()[i], v);
            assert(holds(cs[i + 1], v));
        }
    }
}

/// Whether two values are `same_value`.
pub fn values_equal(a: &Value, b: &Value) -> (r: bool)
    ensures
        r == same_value(*a, *b),
    decreases a,
{
    match a {
        Value::Null => matches!(b, Value::Null),
        Value::Bool(x) => match b {
            Value::Bool(y) => *x == *y,
            _ => false,
        },
        Value::Number(x) => match b {
            Value::Number(y) => *x == *y,
            _ => false,
        },
        Value::Str(x) => match b {
            Value::Str(y) => same_text(x.as_str(), y.as_str()),
            _ => false,
        },
        Value::Array(xs) => match b {
            Value::Array(ys) => {
                if xs.len() != ys.len() {
                    proof {
                        lemma_same_values_pointwise(xs@, ys@);
                    }
                    return false;
                }
                let mut i: usize = 0;
                while i < xs.len()
                    invariant
                        *a == Value::Array(*xs),
                        *b == Value::Array(*ys),
                        decreases_to!(*a => *xs),
                        xs@.len() == ys@.len(),
                        i <= xs@.len(),
                        forall|j: int| 0 <= j < i ==> #[trigger] same_value(xs@[j], ys@[j]),
                    decreases xs@.len() - i,
                {
                    proof {
                        assert(decreases_to!(*xs => xs[i as int]));
                    }
                    if !values_equal(&xs[i], &ys[i]) {
                        proof {
                            lemma_same_values_pointwise(xs@, ys@);
                            assert(!same_value(xs@[i as int], ys@[i as int]));
                        }
                        return false;
                    }
                    i = i + 1;
                }
                proof {
                    lemma_same_values_pointwise(xs@, ys@);
                }
                true
            },
            _ => false,
        },
        Value::Object(xs) => match b {
            Value::Object(ys) => {
                if xs.len() != ys.len() {
                    proof {
                        lemma_same_members_pointwise(xs@, ys@);
                    }
                    return false;
                }
                let mut i: usize = 0;
                while i < xs.len()
                    invariant
                        *a == Value::Object(*xs),
                        *b == Value::Object(*ys),
                        decreases_to!(*a => *xs),
                        xs@.len() == ys@.len(),
                        i <= xs@.len(),
                        forall|j: int| 0 <= j < i ==> #[trigger] same_member(xs@[j], ys@[j]),
                    decreases xs@.len() - i,
                {
                    proof {
                        assert(decreases_to!(*xs => xs[i as int]));
                        assert(decreases_to!(xs[i as int] => xs[i as int].value));
                    }
                    let (m, n) = (&xs[i], &ys[i]);
                    if !same_text(m.key.as_str(), n.key.as_str()) || !values_equal(&m.value, &n.value) {
                        proof {
                            lemma_same_members_pointwise(xs@, ys@);
                            assert(!same_member(xs@[i as int], ys@[i as int]));
                        }
                        return false;
                    }
                    i = i + 1;
                }
                proof {
                    lemma_same_members_pointwise(xs@, ys@);
                }
                true
            },
            _ => false,
        },
    }
}

/// How two values compare, as `order` describes.
pub fn compare(a: &Value, b: &Value) -> (r: Option<i8>)
    ensures
        r is None <==> order(*a, *b) is None,
        r is Some ==> order(*a, *b) == Some(r->Some_0 as int),
{
    match (a, b) {
        (Value::Number(x), Value::Number(y)) => Some(
            if *x < *y {
                -1
            } else if *x == *y {
                0
            } else {
                1
            },
        ),
        (Value::Str(x), Value::Str(y)) => {
            let (cx, cy) = (chars_of(x.as_str()), chars_of(y.as_str()));
            if same_text(x.as_str(), y.as_str()) {
                Some(0)
            } else if text_less(&cx, &cy) {
                Some(-1)
            } else {
                Some(1)
            }
        },
        _ => None,
    }
}

fn has_element_exec(xs: &Vec<Value>, v: &Value) -> (r: bool)
    ensures
        r == has_element(xs@, *v),
{
    let mut i: usize = 0;
    while i < xs.len()
        invariant
            i <= xs@.len(),
            forall|j: int| 0 <= j < i ==> !#[trigger] same_value(xs@[j], *v),
        decreases xs@.len() - i,
    {
        if values_equal(&xs[i], v) {
            return true;
        }
        i = i + 1;
    }
    false
}

fn substring_exec(needle: &str, hay: &str) -> (r: bool)
    ensures
        r == is_substring(needle@, hay@),
{
    let n = chars_of(needle);
    let h = chars_of(hay);
    if n.len() > h.len() {
        return false;
    }
    let mut i: usize = 0;
    while i <= h.len() - n.len()
        invariant
            n@ == needle@,
            h@ == hay@,
            n@.len() <= h@.len(),
            i <= h@.len() - n@.len() + 1,
            forall|k: int| 0 <= k < i ==> #[trigger] h@.subrange(k, k + n@.len()) != n@,
        decreases h@.len() - n@.len() + 1 - i,
    {
        let mut j: usize = 0;
        let mut differs = false;
        while j < n.len() && !differs
            invariant
                n@ == needle@,
                h@ == hay@,
                i + n@.len() <= h@.len(),
                h@.len() <= usize::MAX,
                j <= n@.len(),
                differs ==> j < n@.len() && h@[i + j] != n@[j as int],
                forall|k: int| 0 <= k < j ==> h@[i + k] == n@[k],
            decreases n@.len() - j, if differs { 0int } else { 1int },
        {
            if h[i + j] == n[j] {
                j = j + 1;
            } else {
                differs = true;
            }
        }
        if j == n.len() {
            assert(h@.subrange(i as int, i + n@.len()) =~= n@);
            return true;
        }
        assert(h@.subrange(i as int, i + n@.len())[j as int] != n@[j as int]);
        i = i + 1;
    }
    false
}

/// Whether a value test holds of `v`.
pub fn test_value(c: &ValueCondition, v: &Value) -> (r: bool)
    ensures
        r == value_holds(*c, *v),
{
    match c {
        ValueCondition::Eq(lit) => values_equal(v, lit),
        ValueCondition::Gt(lit) => matches!(compare(v, lit), Some(1)),
        ValueCondition::Ge(lit) => matches!(compare(v, lit), Some(1) | Some(0)),
        ValueCondition::Lt(lit) => matches!(compare(v, lit), Some(-1)),
        ValueCondition::Le(lit) => matches!(compare(v, lit), Some(-1) | Some(0)),
        ValueCondition::Match(lit) => match lit {
            Value::Str(p) => match v {
                Value::Str(s) => regex_is_match(p.as_str(), s.as_str()),
                _ => {
                    let text = v.to_json_string();
                    regex_is_match(p.as_str(), text.as_str())
                },
            },
            _ => false,
        },
        ValueCondition::Between(lit) => match lit {
            Value::Array(bounds) => {
                if bounds.len() < 2 {
                    false
                } else {
                    matches!(compare(v, &bounds[0]), Some(1) | Some(0)) && matches!(
                        compare(v, &bounds[1]),
                        Some(-1) | Some(0)
                    )
                }
            },
            _ => false,
        },
        ValueCondition::In(lit) => match lit {
            Value::Array(xs) => has_element_exec(xs, v),
            _ => false,
        },
        ValueCondition::Includes(lit) => match v {
            Value::Str(s) => match lit {
                Value::Str(t) => substring_exec(t.as_str(), s.as_str()),
                _ => false,
            },
            Value::Array(xs) => has_element_exec(xs, lit),
            _ => false,
        },
        ValueCondition::NonNull => !matches!(v, Value::Null),
        ValueCondition::Nullable => matches!(v, Value::Null),
    }
}

/// Whether a condition holds of `v`; `And` and `Or` stop at the first child that decides.
pub fn evaluate(c: &Condition, v: &Value) -> (r: bool)
    ensures
        r == holds(*c, *v),
    decreases c,
{
    match c {
        Condition::Value(t) => test_value(t, v),
        Condition::And(a) => {
            let cs = &a.conditions;
            let mut i: usize = 0;
            while i < cs.len()
                invariant
                    *c == Condition::And(*a),
                    *cs == a.conditions,
                    decreases_to!(*c => *cs),
                    i <= cs@.len(),
                    forall|j: int| 0 <= j < i ==> #[trigger] holds(cs@[j], *v),
                decreases cs@.len() - i,
            {
                proof {
                    assert(decreases_to!(*cs => cs[i as int]));
                }
                if !evaluate(&cs[i], v) {
                    proof {
                        lemma_all_hold(cs@, *v);
                        assert(!holds(cs@[i as int], *v));
                    }
                    return false;
                }
                i = i + 1;
            }
            proof {
                lemma_all_hold(cs@, *v);
            }
            true
        },
        Condition::Or(o) => {
            let cs = &o.conditions;
            let mut i: usize = 0;
            while i < cs.len()
                invariant
                    *c == Condition::Or(*o),
                    *cs == o.conditions,
                    decreases_to!(*c => *cs),
                    i <= cs@.len(),
                    forall|j: int| 0 <= j < i ==> !#[trigger] holds(cs@[j], *v),
                decreases cs@.len() - i,
            {
                proof {
                    assert(decreases_to!(*cs => cs[i as int]));
                }
                if evaluate(&cs[i], v) {
                    proof {
                        lemma_any_holds(cs@, *v);
                        assert(holds(cs@[i as int], *v));
                    }
                    return true;
                }
                i = i + 1;
            }
            proof {
                lemma_any_holds(cs@, *v);
            }
            false
        },
    }
}

/// Whether the link is followed for the value `v`: it has no condition, or its condition holds.
pub open spec fn link_open(l: Link, v: Value) -> bool {
    match l.condition {
        None => true,
        Some(c) => holds(c, v),
    }
}

impl Link {
    /// Whether the link is followed for the value `v`.
    pub fn is_open(&self, v: &Value) -> (r: bool)
        ensures
            r == link_open(*self, *v),
    {
        match &self.condition {
            None => true,
            Some(c) => evaluate(c, v),
        }
    }
}

} // verus!
