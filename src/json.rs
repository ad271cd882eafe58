//! A structured, JSON-like value: the datum that flows along the graph.
use crate::text::string_of;
use vstd::prelude::*;

verus! {

/// A JSON-like value. Numbers are integers.
#[derive(Debug)]
pub enum Value {
    Null,
    Bool(bool),
    Number(i64),
    Str(String),
    Array(Vec<Value>),
    Object(Vec<Member>),
}

/// One key/value entry of an object, in document order.
#[derive(Debug)]
pub struct Member {
    pub key: String,
    pub value: Value,
}

/// Structural equality of two values, with strings compared by their characters.
pub open spec fn same_value(a: Value, b: Value) -> bool
    decreases a, 1nat,
{
    match a {
        Value::Null => b is Null,
        Value::Bool(x) => b is Bool && b->Bool_0 == x,
        Value::Number(x) => b is Number && b->Number_0 == x,
        Value::Str(x) => b is Str && b->Str_0@ == x@,
        Value::Array(xs) => b is Array && same_values(xs@, b->Array_0@),
        Value::Object(xs) => b is Object && same_members(xs@, b->Object_0@),
    }
}

/// Element-wise `same_value` of two sequences of values.
pub open spec fn same_values(xs: Seq<Value>, ys: Seq<Value>) -> bool
    decreases xs, 0nat,
{
    xs.len() == ys.len() && (xs.len() == 0 || (same_value(xs[0], ys[0]) && same_values(
        xs.drop_first(),
        ys.drop_first(),
    )))
}

/// Element-wise equality of keys and `same_value` of values of two member sequences.
pub open spec fn same_members(xs: Seq<Member>, ys: Seq<Member>) -> bool
    decreases xs, 0nat,
{
    xs.len() == ys.len() && (xs.len() == 0 || (xs[0].key@ == ys[0].key@ && same_value(
        xs[0].value,
        ys[0].value,
    ) && same_members(xs.drop_first(), ys.drop_first())))
}

/// `same_values` holds exactly when the sequences agree position by position.
pub proof fn lemma_same_values_pointwise(xs: Seq<Value>, ys: Seq<Value>)
    ensures
        same_values(xs, ys) <==> (xs.len() == ys.len() && forall|i: int|
            0 <= i < xs.len() ==> #[trigger] same_value(xs[i], ys[i])),
    decreases xs.len(),
{
    if xs.len() > 0 && xs.len() == ys.len() {
        let (tx, ty) = (xs.drop_first(), ys.drop_first());
        lemma_same_values_pointwise(tx, ty);
        if same_values(xs, ys) {
            assert forall|i: int| 0 <= i < xs.len() implies #[trigger] same_value(xs[i], ys[i]) by {
                if i > 0 {
                    assert(same_value(tx[i - 1], ty[i - 1]));
                }
            }
        }
        if forall|i: int| 0 <= i < xs.len() ==> #[trigger] same_value(xs[i], ys[i]) {
            assert forall|i: int| 0 <= i < tx.len() implies #[trigger] same_value(tx[i], ty[i]) by {
                assert(same_value(xs[i + 1], ys[i + 1]));
            }
            assert(same_value(xs[0], ys[0]));
        }
    }
}

/// Equal keys and `same_value` values.
pub open spec fn same_member(a: Member, b: Member) -> bool {
    a.key@ == b.key@ && same_value(a.value, b.value)
}

/// `same_members` holds exactly when the sequences agree position by position.
pub proof fn lemma_same_members_pointwise(xs: Seq<Member>, ys: Seq<Member>)
    ensures
        same_members(xs, ys) <==> (xs.len() == ys.len() && forall|i: int|
            0 <= i < xs.len() ==> #[trigger] same_member(xs[i], ys[i])),
    decreases xs.len(),
{
    if xs.len() > 0 && xs.len() == ys.len() {
        let (tx, ty) = (xs.drop_first(), ys.drop_first());
        lemma_same_members_pointwise(tx, ty);
        if same_members(xs, ys) {
            assert forall|i: int| 0 <= i < xs.len() implies #[trigger] same_member(xs[i], ys[i]) by {
                if i > 0 {
                    assert(same_member(tx[i - 1], ty[i - 1]));
                }
            }
        }
        if forall|i: int| 0 <= i < xs.len() ==> #[trigger] same_member(xs[i], ys[i]) {
            assert forall|i: int| 0 <= i < tx.len() implies #[trigger] same_member(tx[i], ty[i]) by {
                assert(same_member(xs[i + 1], ys[i + 1]));
            }
            assert(same_member(xs[0], ys[0]));
        }
    }
}

impl Value {
    pub open spec fn is_null(&self) -> bool {
        self is Null
    }

    /// The characters of a string value, and the empty sequence for any other value.
    pub open spec fn query_text(&self) -> Seq<char> {
        match self {
            Value::Str(s) => s@,
            _ => Seq::empty(),
        }
    }

    /// A string value holding the given text.
    pub fn from_str(s: &str) -> (r: Value)
        ensures
            r is Str,
            r->Str_0@ == s@,
    {
        Value::Str(String::from_str(s))
    }

    /// The string inside a string value.
    pub fn as_str(&self) -> (r: Option<&str>)
        ensures
            self is Str ==> r is Some && r->Some_0@ == self->Str_0@,
            !(self is Str) ==> r is None,
    {
        match self {
            Value::Str(s) => Some(s.as_str()),
            _ => None,
        }
    }

    /// A copy of the value, equal to it.
    pub fn duplicate(&self) -> (r: Value)
        ensures
            same_value(r, *self),
        decreases self,
    {
        match self {
            Value::Null => Value::Null,
            Value::Bool(b) => Value::Bool(*b),
            Value::Number(n) => Value::Number(*n),
            Value::Str(s) => {
                let r = Value::Str(s.clone());
                assert(same_value(r, *self));
                r
            },
            Value::Array(items) => {
                let mut out: Vec<Value> = Vec::new();
                let mut i: usize = 0;
                while i < items.len()
                    invariant
                        *self == Value::Array(*items),
                        decreases_to!(*self => *items),
                        i <= items@.len(),
                        out@.len() == i,
                        forall|j: int| 0 <= j < i ==> #[trigger] same_value(out@[j], items@[j]),
                    decreases items@.len() - i,
                {
                    proof {
                        assert(decreases_to!(*items => items[i as int]));
                    }
                    let v = items[i].duplicate();
                    out.push(v);
                    i = i + 1;
                }
                assert(out@.len() == items@.len());
                proof {
                    lemma_same_values_pointwise(out@, items@);
                }
                let r = Value::Array(out);
                r
            },
            Value::Object(members) => {
                let mut out: Vec<Member> = Vec::new();
                let mut i: usize = 0;
                while i < members.len()
                    invariant
                        *self == Value::Object(*members),
                        decreases_to!(*self => *members),
                        i <= members@.len(),
                        out@.len() == i,
                        out@.len() == i,
                        forall|j: int| 0 <= j < i ==> #[trigger] same_member(out@[j], members@[j]),
                    decreases members@.len() - i,
                {
                    proof {
                        assert(decreases_to!(*members => members[i as int]));
                        assert(decreases_to!(members[i as int] => members[i as int].value));
                    }
                    let m = &members[i];
                    let v = m.value.duplicate();
                    out.push(Member { key: m.key.clone(), value: v });
                    i = i + 1;
                    assert(same_member(out@[i - 1], members@[i - 1]));
                }
                proof {
                    lemma_same_members_pointwise(out@, members@);
                }
                let r = Value::Object(out);
                r
            },
        }
    }
}

impl Clone for Value {
    fn clone(&self) -> (r: Value)
        ensures
            same_value(r, *self),
    {
        self.duplicate()
    }
}

impl Clone for Member {
    fn clone(&self) -> (r: Member)
        ensures
            r.key@ == self.key@,
            same_value(r.value, self.value),
    {
        Member { key: self.key.clone(), value: self.value.duplicate() }
    }
}

/// The lower-case hexadecimal digit of `d`.
pub open spec fn hex_digit(d: nat) -> char {
    if d < 10 {
        ((d + 48) as u8) as char
    } else {
        ((d + 87) as u8) as char
    }
}

/// The decimal digit of `d`.
pub open spec fn decimal_digit(d: nat) -> char {
    ((d % 10 + 48) as u8) as char
}

/// Decimal digits of a natural number, most significant first.
pub open spec fn decimal(n: nat) -> Seq<char>
    decreases n,
{
    if n < 10 {
        seq![decimal_digit(n)]
    } else {
        decimal(n / 10).push(decimal_digit(n % 10))
    }
}

/// Decimal text of an integer, with a leading minus sign when negative.
pub open spec fn number_text(n: int) -> Seq<char> {
    if n < 0 {
        seq!['-'] + decimal((-n) as nat)
    } else {
        decimal(n as nat)
    }
}

/// How one character of a string is written between the quotes of a JSON string.
pub open spec fn escape_char(c: char) -> Seq<char> {
    if c == '"' {
        seq!['\\', '"']
    } else if c == '\\' {
        seq!['\\', '\\']
    } else if c == '\n' {
        seq!['\\', 'n']
    } else if c == '\r' {
        seq!['\\', 'r']
    } else if c == '\t' {
        seq!['\\', 't']
    } else if c == '\x08' {
        seq!['\\', 'b']
    } else if c == '\x0c' {
        seq!['\\', 'f']
    } else if (c as u32) < 0x20 {
        seq!['\\', 'u', '0', '0', hex_digit((c as u32 / 16) as nat), hex_digit((c as u32 % 16) as nat)]
    } else {
        seq![c]
    }
}

/// A string's characters written between the quotes of a JSON string.
pub open spec fn escape(s: Seq<char>) -> Seq<char>
    decreases s.len(),
{
    if s.len() == 0 {
        Seq::empty()
    } else {
        escape(s.drop_last()) + escape_char(s.last())
    }
}

/// Compact JSON text of a value: no spaces, members in order.
pub open spec fn json_text(v: Value) -> Seq<char>
    decreases v, 1nat,
{
    match v {
        Value::Null => seq!['n', 'u', 'l', 'l'],
        Value::Bool(b) => if b {
            seq!['t', 'r', 'u', 'e']
        } else {
            seq!['f', 'a', 'l', 's', 'e']
        },
        Value::Number(n) => number_text(n as int),
        Value::Str(s) => seq!['"'] + escape(s@) + seq!['"'],
        Value::Array(xs) => seq!['['] + values_text(xs@) + seq![']'],
        Value::Object(ms) => seq!['{'] + members_text(ms@) + seq!['}'],
    }
}

/// JSON texts of values, separated by commas.
pub open spec fn values_text(xs: Seq<Value>) -> Seq<char>
    decreases xs, 0nat,
{
    if xs.len() == 0 {
        Seq::empty()
    } else if xs.len() == 1 {
        json_text(xs[0])
    } else {
        values_text(xs.drop_last()) + seq![','] + json_text(xs[xs.len() - 1])
    }
}

/// JSON text of one object member: the quoted key, a colon, the value.
pub open spec fn member_text(m: Member) -> Seq<char>
    decreases m, 0nat,
{
    seq!['"'] + escape(m.key@) + seq!['"', ':'] + json_text(m.value)
}

/// JSON texts of members, separated by commas.
pub open spec fn members_text(ms: Seq<Member>) -> Seq<char>
    decreases ms, 1nat,
{
    if ms.len() == 0 {
        Seq::empty()
    } else if ms.len() == 1 {
        member_text(ms[0])
    } else {
        members_text(ms.drop_last()) + seq![','] + member_text(ms[ms.len() - 1])
    }
}

/// Appends the decimal digits of `n` to `out`.
pub fn push_decimal(out: &mut Vec<char>, n: u64)
    ensures
        final(out)@ == old(out)@ + decimal(n as nat),
    decreases n,
{
    if n >= 10 {
        push_decimal(out, n / 10);
    }
    let d = (n % 10) as u8;
    out.push((d + 48) as char);
    proof {
        assert(decimal_digit(n as nat) == decimal_digit((n % 10) as nat));
        if n < 10 {
            assert(decimal(n as nat) =~= seq![decimal_digit(n as nat)]);
        }
    }
}

fn push_hex(out: &mut Vec<char>, d: u32)
    requires
        d < 16,
    ensures
        final(out)@ == old(out)@.push(hex_digit(d as nat)),
{
    if d < 10 {
        out.push(((d as u8) + 48) as char);
    } else {
        out.push(((d as u8) + 87) as char);
    }
}

fn push_escaped_char(out: &mut Vec<char>, c: char)
    ensures
        final(out)@ == old(out)@ + escape_char(c),
{
    let ghost start = out@;
    if c == '"' {
        out.push('\\');
        out.push('"');
    } else if c == '\\' {
        out.push('\\');
        out.push('\\');
    } else if c == '\n' {
        out.push('\\');
        out.push('n');
    } else if c == '\r' {
        out.push('\\');
        out.push('r');
    } else if c == '\t' {
        out.push('\\');
        out.push('t');
    } else if c == '\x08' {
        out.push('\\');
        out.push('b');
    } else if c == '\x0c' {
        out.push('\\');
        out.push('f');
    } else if (c as u32) < 0x20 {
        out.push('\\');
        out.push('u');
        out.push('0');
        out.push('0');
        push_hex(out, c as u32 / 16);
        push_hex(out, c as u32 % 16);
    } else {
        out.push(c);
    }
    assert(out@ =~= start + escape_char(c));
}

pub fn push_escaped(out: &mut Vec<char>, s: &str)
    ensures
        final(out)@ == old(out)@ + escape(s@),
{
    let chars = crate::text::chars_of(s);
    let ghost start = out@;
    let mut i: usize = 0;
    while i < chars.len()
        invariant
            chars@ == s@,
            i <= chars@.len(),
            out@ == start + escape(s@.subrange(0, i as int)),
        decreases chars@.len() - i,
    {
        push_escaped_char(out, chars[i]);
        proof {
            assert(s@.subrange(0, i + 1).drop_last() =~= s@.subrange(0, i as int));
        }
        i = i + 1;
        assert(out@ =~= start + escape(s@.subrange(0, i as int)));
    }
    assert(s@.subrange(0, i as int) =~= s@);
}

/// Appends the JSON text of the members, separated by commas, to `out`.
pub fn push_members(out: &mut Vec<char>, members: &Vec<Member>)
    ensures
        final(out)@ == old(out)@ + members_text(members@),
    decreases members, 1nat,
{
    let ghost mid = out@;
    let mut i: usize = 0;
    while i < members.len()
        invariant
            i <= members@.len(),
            out@ == mid + members_text(members@.subrange(0, i as int)),
        decreases members@.len() - i,
    {
        proof {
            assert(decreases_to!(*members => members[i as int]));
            assert(decreases_to!(members[i as int] => members[i as int].value));
        }
        if i > 0 {
            out.push(',');
        }
        let ghost before = out@;
        let m = &members[i];
        out.push('"');
        push_escaped(out, m.key.as_str());
        out.push('"');
        out.push(':');
        push_json(out, &m.value);
        assert(out@ =~= before + member_text(*m));
        proof {
            let sub = members@.subrange(0, i + 1);
            assert(sub.drop_last() =~= members@.subrange(0, i as int));
            assert(sub[sub.len() - 1] == members@[i as int]);
        }
        i = i + 1;
        assert(out@ =~= mid + members_text(members@.subrange(0, i as int)));
    }
    assert(members@.subrange(0, i as int) =~= members@);
}

/// Appends the JSON text of `v` to `out`.
pub fn push_json(out: &mut Vec<char>, v: &Value)
    ensures
        final(out)@ == old(out)@ + json_text(*v),
    decreases v, 0nat,
{
    let ghost start = out@;
    match v {
        Value::Null => {
            out.push('n');
            out.push('u');
            out.push('l');
            out.push('l');
        },
        Value::Bool(b) => {
            if *b {
                out.push('t');
                out.push('r');
                out.push('u');
                out.push('e');
            } else {
                out.push('f');
                out.push('a');
                out.push('l');
                out.push('s');
                out.push('e');
            }
        },
        Value::Number(n) => {
            if *n < 0 {
                out.push('-');
                let m: u64 = (0i128 - (*n as i128)) as u64;
                push_decimal(out, m);
            } else {
                push_decimal(out, *n as u64);
            }
        },
        Value::Str(s) => {
            out.push('"');
            push_escaped(out, s.as_str());
            out.push('"');
        },
        Value::Array(items) => {
            out.push('[');
            let ghost mid = out@;
            let mut i: usize = 0;
            while i < items.len()
                invariant
                    *v == Value::Array(*items),
                    decreases_to!(*v => *items),
                    i <= items@.len(),
                    out@ == mid + values_text(items@.subrange(0, i as int)),
                decreases items@.len() - i,
            {
                proof {
                    assert(decreases_to!(*items => items[i as int]));
                }
                if i > 0 {
                    out.push(',');
                }
                push_json(out, &items[i]);
                proof {
                    let sub = items@.subrange(0, i + 1);
                    assert(sub.drop_last() =~= items@.subrange(0, i as int));
                    assert(sub[sub.len() - 1] == items@[i as int]);
                }
                i = i + 1;
                assert(out@ =~= mid + values_text(items@.subrange(0, i as int)));
            }
            assert(items@.subrange(0, i as int) =~= items@);
            out.push(']');
        },
        Value::Object(members) => {
            out.push('{');
            proof {
                assert(decreases_to!(*v => *members));
            }
            push_members(out, members);
            out.push('}');
        },
    }
    assert(out@ =~= start + json_text(*v));
}

impl Value {
    /// The compact JSON text of the value.
    pub fn to_json_string(&self) -> (r: String)
        ensures
            r@ == json_text(*self),
    {
        let mut out: Vec<char> = Vec::new();
        push_json(&mut out, self);
        assert(out@ =~= json_text(*self));
        string_of(&out)
    }
}

} // verus!
