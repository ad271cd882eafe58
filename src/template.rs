//! Rendering of `{{name}}` templates against the current params and built-in values.
use crate::json::{Member, Value, escape, members_text, push_escaped, push_members};
use crate::params::Params;
use crate::text::string_of;
use vstd::prelude::*;

verus! {

/// Output of the handlebars engine, without HTML escaping, for a template and the JSON
/// text of the data it is rendered against; the empty string where rendering fails.
pub uninterp spec fn handlebars_output(template: Seq<char>, data: Seq<char>) -> Seq<char>;

/// Whether the text holds `{{`, the opening of a handlebars expression.
pub open spec fn has_braces(t: Seq<char>) -> bool {
    exists|i: int| 0 <= i < t.len() - 1 && t[i] == '{' && #[trigger] t[i + 1] == '{'
}

/// Renders a template with the handlebars engine, HTML escaping switched off, against the
/// JSON text `data`, which `serde_json::from_str` reads. A failed render gives the empty
/// string. Text without `{{` is copied through unchanged (the grammar reads it as raw text).
#[verifier::external_body]
fn handlebars_render(template: &str, data: &str) -> (r: String)
    ensures
        r@ == handlebars_output(template@, data@),
        !has_braces(template@) ==> r@ == template@,
{
    let data: serde_json::Value = serde_json::from_str(data).unwrap_or_default();
    let mut reg = handlebars::Handlebars::new();
    reg.register_escape_fn(handlebars::no_escape);
    reg.render_template(template, &data).unwrap_or_default()
}

/// Relies on `uuid::Uuid::new_v4` and its hyphenated text form, 36 characters long.
#[verifier::external_body]
pub fn generate_uuid() -> (r: String)
    ensures
        r@.len() == 36,
{
    uuid::Uuid::new_v4().to_string()
}

/// Local wall-clock time, already written out as the template helpers show it.
pub struct Clock {
    /// `%Y-%m-%d`
    pub date: String,
    pub year: String,
    pub month: String,
    pub day: String,
    /// ISO weekday, Monday is 1.
    pub weekday: String,
    /// The Monday of the current week, `%Y-%m-%d`.
    pub weekstart: String,
    /// The Sunday of the current week, `%Y-%m-%d`.
    pub weekend: String,
    /// `%H-%M-%S`
    pub time: String,
    pub hour: String,
    pub minute: String,
    pub second: String,
    /// Seconds since the Unix epoch.
    pub timestamp: String,
}

/// What the built-in template names stand for at one moment: the clock, the clipboard's
/// text, and a fresh identifier.
pub struct Env {
    pub clock: Clock,
    pub clipboard: String,
    pub uuid: String,
}

impl Env {
    /// An environment at the given time and clipboard text, with a freshly drawn identifier.
    pub fn new(clock: Clock, clipboard: String) -> (r: Env)
        ensures
            r.clock == clock,
            r.clipboard == clipboard,
            r.uuid@.len() == 36,
    {
        Env { clock, clipboard, uuid: generate_uuid() }
    }
}

/// JSON text of one member whose value is a string.
pub open spec fn entry_text(key: Seq<char>, val: Seq<char>) -> Seq<char> {
    seq!['"'] + escape(key) + seq!['"', ':', '"'] + escape(val) + seq!['"']
}

/// JSON members for the query and the date built-ins.
pub open spec fn date_text(env: Env, query: Seq<char>) -> Seq<char> {
    let c = env.clock;
    entry_text("query"@, query) + seq![','] + entry_text("date"@, c.date@) + seq![','] + entry_text(
        "year"@,
        c.year@,
    ) + seq![','] + entry_text("month"@, c.month@) + seq![','] + entry_text("day"@, c.day@)
}

/// JSON members for the week and time-of-day built-ins.
pub open spec fn week_text(env: Env) -> Seq<char> {
    let c = env.clock;
    entry_text("weekday"@, c.weekday@) + seq![','] + entry_text("weekstart"@, c.weekstart@) + seq![
        ',',
    ] + entry_text("weekend"@, c.weekend@) + seq![','] + entry_text("time"@, c.time@) + seq![',']
        + entry_text("hour"@, c.hour@)
}

/// JSON members for the remaining clock built-ins, the clipboard and the identifier.
pub open spec fn rest_text(env: Env) -> Seq<char> {
    let c = env.clock;
    entry_text("minute"@, c.minute@) + seq![','] + entry_text("second"@, c.second@) + seq![','] + entry_text(
        "timestamp"@,
        c.timestamp@,
    ) + seq![','] + entry_text("clipboard"@, env.clipboard@) + seq![','] + entry_text(
        "uuid"@,
        env.uuid@,
    )
}

/// JSON members for all built-in names, `query` first.
pub open spec fn builtins_text(env: Env, query: Seq<char>) -> Seq<char> {
    date_text(env, query) + seq![','] + week_text(env) + seq![','] + rest_text(env)
}

/// The data a template is rendered against, as JSON text: every variable of `context`, then
/// the built-in names, which win over a variable of the same name.
#[verifier::opaque]
pub open spec fn render_data(context: Seq<Member>, value: Value, env: Env) -> Seq<char> {
    seq!['{'] + members_text(context) + (if context.len() > 0 {
        seq![',']
    } else {
        Seq::empty()
    }) + builtins_text(env, value.query_text()) + seq!['}']
}

fn push_entry(out: &mut Vec<char>, key: &str, val: &str)
    ensures
        final(out)@ == old(out)@ + entry_text(key@, val@),
{
    let ghost start = out@;
    out.push('"');
    push_escaped(out, key);
    out.push('"');
    out.push(':');
    out.push('"');
    push_escaped(out, val);
    out.push('"');
    assert(out@ =~= start + entry_text(key@, val@));
}

fn push_date(out: &mut Vec<char>, env: &Env, query: &str)
    ensures
        final(out)@ == old(out)@ + date_text(*env, query@),
{
    let ghost start = out@;
    let c = &env.clock;
    push_entry(out, "query", query);
    out.push(',');
    push_entry(out, "date", c.date.as_str());
    out.push(',');
    push_entry(out, "year", c.year.as_str());
    out.push(',');
    push_entry(out, "month", c.month.as_str());
    out.push(',');
    push_entry(out, "day", c.day.as_str());
    assert(out@ =~= start + date_text(*env, query@));
}

fn push_week(out: &mut Vec<char>, env: &Env)
    ensures
        final(out)@ == old(out)@ + week_text(*env),
{
    let ghost start = out@;
    let c = &env.clock;
    push_entry(out, "weekday", c.weekday.as_str());
    out.push(',');
    push_entry(out, "weekstart", c.weekstart.as_str());
    out.push(',');
    push_entry(out, "weekend", c.weekend.as_str());
    out.push(',');
    push_entry(out, "time", c.time.as_str());
    out.push(',');
    push_entry(out, "hour", c.hour.as_str());
    assert(out@ =~= start + week_text(*env));
}

fn push_rest(out: &mut Vec<char>, env: &Env)
    ensures
        final(out)@ == old(out)@ + rest_text(*env),
{
    let ghost start = out@;
    let c = &env.clock;
    push_entry(out, "minute", c.minute.as_str());
    out.push(',');
    push_entry(out, "second", c.second.as_str());
    out.push(',');
    push_entry(out, "timestamp", c.timestamp.as_str());
    out.push(',');
    push_entry(out, "clipboard", env.clipboard.as_str());
    out.push(',');
    push_entry(out, "uuid", env.uuid.as_str());
    assert(out@ =~= start + rest_text(*env));
}

/// The JSON text that `render_data` describes.
pub fn data_text(params: &Params, env: &Env) -> (r: String)
    ensures
        r@ == render_data(params.context@, params.value, *env),
{
    proof {
        reveal(render_data);
    }
    let mut out: Vec<char> = Vec::new();
    out.push('{');
    push_members(&mut out, &params.context);
    if params.context.len() > 0 {
        out.push(',');
    }
    let ghost mid = out@;
    let query = match params.value.as_str() {
        Some(s) => s,
        None => "",
    };
    proof {
        reveal_strlit("");
    }
    push_date(&mut out, env, query);
    out.push(',');
    push_week(&mut out, env);
    out.push(',');
    push_rest(&mut out, env);
    assert(out@ =~= mid + builtins_text(*env, params.value.query_text()));
    out.push('}');
    assert(out@ =~= render_data(params.context@, params.value, *env));
    string_of(&out)
}

/// Rendering is repeatable: two renderings of one template against the same params and
/// environment give the same text.
pub proof fn lemma_render_repeatable(template: Seq<char>, params: Params, env: Env, r1: Seq<char>, r2: Seq<char>)
    requires
        r1 == rendered(template, params, env),
        r2 == rendered(template, params, env),
    ensures
        r1 == r2,
{
}

/// What `template` renders to against `params` and `env`.
pub open spec fn rendered(template: Seq<char>, params: Params, env: Env) -> Seq<char> {
    handlebars_output(template, render_data(params.context@, params.value, env))
}

/// Renders `template` against the variables of `params`, its value as `query` when that is a
/// string, and the built-in names of `env`. Rendering never fails; text without `{{` comes
/// back unchanged.
pub fn render_template(template: &str, params: &Params, env: &Env) -> (r: String)
    ensures
        r@ == rendered(template@, *params, *env),
        !has_braces(template@) ==> r@ == template@,
{
    let data = data_text(params, env);
    handlebars_render(template, data.as_str())
}

/// `r` is `v` with every string inside it rendered against `data`; numbers, booleans and
/// null stay as they are.
pub open spec fn renders_to(v: Value, r: Value, data: Seq<char>) -> bool
    decreases v, 1nat,
{
    match v {
        Value::Str(s) => r is Str && r->Str_0@ == handlebars_output(s@, data) && (!has_braces(s@)
            ==> r->Str_0@ == s@),
        Value::Array(xs) => r is Array && renders_values(xs@, r->Array_0@, data),
        Value::Object(ms) => r is Object && renders_members(ms@, r->Object_0@, data),
        _ => r == v,
    }
}

/// Element-wise `renders_to`.
pub open spec fn renders_values(xs: Seq<Value>, ys: Seq<Value>, data: Seq<char>) -> bool
    decreases xs, 0nat,
{
    xs.len() == ys.len() && (xs.len() == 0 || (renders_to(xs[0], ys[0], data) && renders_values(
        xs.drop_first(),
        ys.drop_first(),
        data,
    )))
}

/// Element-wise: the same keys, and values related by `renders_to`.
pub open spec fn renders_members(xs: Seq<Member>, ys: Seq<Member>, data: Seq<char>) -> bool
    decreases xs, 0nat,
{
    xs.len() == ys.len() && (xs.len() == 0 || (xs[0].key@ == ys[0].key@ && renders_to(
        xs[0].value,
        ys[0].value,
        data,
    ) && renders_members(xs.drop_first(), ys.drop_first(), data)))
}

/// The same key, and values related by `renders_to`.
pub open spec fn member_renders(a: Member, b: Member, data: Seq<char>) -> bool {
    a.key@ == b.key@ && renders_to(a.value, b.value, data)
}

proof fn lemma_renders_values(xs: Seq<Value>, ys: Seq<Value>, data: Seq<char>)
    ensures
        renders_values(xs, ys, data) <==> (xs.len() == ys.len() && forall|i: int|
            0 <= i < xs.len() ==> #[trigger] renders_to(xs[i], ys[i], data)),
    decreases xs.len(),
{
    if xs.len() > 0 && xs.len() == ys.len() {
        let (tx, ty) = (xs.drop_first(), ys.drop_first());
        lemma_renders_values(tx, ty, data);
        if renders_values(xs, ys, data) {
            assert forall|i: int| 0 <= i < xs.len() implies #[trigger] renders_to(xs[i], ys[i], data) by {
                if i > 0 {
                    assert(renders_to(tx[i - 1], ty[i - 1], data));
                }
            }
        }
        if forall|i: int| 0 <= i < xs.len() ==> #[trigger] renders_to(xs[i], ys[i], data) {
            assert forall|i: int| 0 <= i < tx.len() implies #[trigger] renders_to(tx[i], ty[i], data) by {
                assert(renders_to(xs[i + 1], ys[i + 1], data));
            }
            assert(renders_to(xs[0], ys[0], data));
        }
    }
}

proof fn lemma_renders_members(xs: Seq<Member>, ys: Seq<Member>, data: Seq<char>)
    ensures
        renders_members(xs, ys, data) <==> (xs.len() == ys.len() && forall|i: int|
            0 <= i < xs.len() ==> #[trigger] member_renders(xs[i], ys[i], data)),
    decreases xs.len(),
{
    if xs.len() > 0 && xs.len() == ys.len() {
        let (tx, ty) = (xs.drop_first(), ys.drop_first());
        lemma_renders_members(tx, ty, data);
        if renders_members(xs, ys, data) {
            assert forall|i: int| 0 <= i < xs.len() implies #[trigger] member_renders(xs[i], ys[i], data) by {
                if i > 0 {
                    assert(member_renders(tx[i - 1], ty[i - 1], data));
                }
            }
        }
        if forall|i: int| 0 <= i < xs.len() ==> #[trigger] member_renders(xs[i], ys[i], data) {
            assert forall|i: int| 0 <= i < tx.len() implies #[trigger] member_renders(tx[i], ty[i], data) by {
                assert(member_renders(xs[i + 1], ys[i + 1], data));
            }
            assert(member_renders(xs[0], ys[0], data));
        }
    }
}

/// Renders every string inside `v` against the JSON text `data`.
pub fn render_leaves(v: &Value, data: &str) -> (r: Value)
    ensures
        renders_to(*v, r, data@),
    decreases v,
{
    match v {
        Value::Null => Value::Null,
        Value::Bool(b) => Value::Bool(*b),
        Value::Number(n) => Value::Number(*n),
        Value::Str(s) => Value::Str(handlebars_render(s.as_str(), data)),
        Value::Array(items) => {
            let mut out: Vec<Value> = Vec::new();
            let mut i: usize = 0;
            while i < items.len()
                invariant
                    *v == Value::Array(*items),
                    decreases_to!(*v => *items),
                    i <= items@.len(),
                    out@.len() == i,
                    forall|j: int| 0 <= j < i ==> #[trigger] renders_to(items@[j], out@[j], data@),
                decreases items@.len() - i,
            {
                proof {
                    assert(decreases_to!(*items => items[i as int]));
                }
                let r = render_leaves(&items[i], data);
                out.push(r);
                i = i + 1;
            }
            proof {
                lemma_renders_values(items@, out@, data@);
            }
            Value::Array(out)
        },
        Value::Object(members) => {
            let mut out: Vec<Member> = Vec::new();
            let mut i: usize = 0;
            while i < members.len()
                invariant
                    *v == Value::Object(*members),
                    decreases_to!(*v => *members),
                    i <= members@.len(),
                    out@.len() == i,
                    forall|j: int| 0 <= j < i ==> #[trigger] member_renders(members@[j], out@[j], data@),
                decreases members@.len() - i,
            {
                proof {
                    assert(decreases_to!(*members => members[i as int]));
                    assert(decreases_to!(members[i as int] => members[i as int].value));
                }
                let m = &members[i];
                let r = render_leaves(&m.value, data);
                out.push(Member { key: m.key.clone(), value: r });
                assert(member_renders(members@[i as int], out@[i as int], data@));
                i = i + 1;
            }
            proof {
                lemma_renders_members(members@, out@, data@);
            }
            Value::Object(out)
        },
    }
}

impl Params {
    /// Renders `template` against these params, as `render_template` does.
    pub fn render_template(&self, template: &str, env: &Env) -> (r: String)
        ensures
            r@ == rendered(template@, *self, *env),
            !has_braces(template@) ==> r@ == template@,
    {
        render_template(template, self, env)
    }

    /// `value` with every string inside it rendered against these params.
    pub fn render_value(&self, value: &Value, env: &Env) -> (r: Value)
        ensures
            renders_to(*value, r, render_data(self.context@, self.value, *env)),
    {
        let data = data_text(self, env);
        render_leaves(value, data.as_str())
    }
}

} // verus!
