//! The kinds of graph nodes, and what executing each one does.
use crate::error::Error;
use crate::json::{Member, Value, json_text};
use crate::params::{Params, lookup};
use crate::prompt::{ListOption, ListOptionMark, Prompt};
use crate::template::{Env, data_text, has_braces, handlebars_output, render_data, render_leaves, rendered, renders_to};
use crate::text::{fuzzy_query, is_subsequence, lower_of, pinyin_of};
use crate::trigger::Trigger;
use vstd::prelude::*;

verus! {

/// When a list filter wants a search text.
#[derive(Clone, Copy, Debug, PartialEq, Eq, Structural)]
pub enum NeedArgs {
    /// Without a search text, only a hint asking for one is shown.
    Always,
    /// Without a search text, every option is shown.
    Optional,
    /// The options are always filtered, by an empty text too.
    Never,
}

impl NeedArgs {
    /// The policy a list filter has when its definition names none.
    pub fn default() -> (r: NeedArgs)
        ensures
            r == NeedArgs::Never,
    {
        NeedArgs::Never
    }

    pub fn is_always(&self) -> (r: bool)
        ensures
            r == (*self == NeedArgs::Always),
    {
        matches!(self, NeedArgs::Always)
    }

    pub fn is_optional(&self) -> (r: bool)
        ensures
            r == (*self == NeedArgs::Optional),
    {
        matches!(self, NeedArgs::Optional)
    }

    pub fn is_never(&self) -> (r: bool)
        ensures
            r == (*self == NeedArgs::Never),
    {
        matches!(self, NeedArgs::Never)
    }
}

/// Offers a list of options, filtered by the incoming string value.
pub struct ListFilter {
    pub title: Option<String>,
    pub options: Vec<ListOption>,
    pub need_args: NeedArgs,
}

/// Writes rendered text to the clipboard and passes it on as the value.
pub struct Clipboard {
    pub content: String,
}

/// Raises a desktop notification.
pub struct Notify {
    pub summary: String,
    pub body: String,
}

/// Opens a rendered URL with the system's default handler.
pub struct OpenUrl {
    pub url: String,
}

/// The HTTP method of a request.
#[derive(Clone, Copy, Debug, PartialEq, Eq, Structural)]
pub enum RequestMethod {
    Get,
    Post,
    Put,
    Delete,
    Patch,
}

impl RequestMethod {
    pub fn default() -> (r: RequestMethod)
        ensures
            r == RequestMethod::Get,
    {
        RequestMethod::Get
    }
}

/// How a request body is encoded.
#[derive(Clone, Copy, Debug, PartialEq, Eq, Structural)]
pub enum RequestContentType {
    Form,
    Json,
}

impl RequestContentType {
    pub fn default() -> (r: RequestContentType)
        ensures
            r == RequestContentType::Json,
    {
        RequestContentType::Json
    }
}

/// One HTTP header.
pub struct Header {
    pub name: String,
    pub value: String,
}

/// Seconds a request may take when its definition names no limit.
pub const DEFAULT_TIMEOUT: u64 = 60;

/// The limit, in seconds, on a request's duration that a definition without one gets.
pub fn _default_timeout() -> (r: u64)
    ensures
        r == 60,
{
    DEFAULT_TIMEOUT
}

/// Sends an HTTP request and passes the parsed response on as the value.
pub struct Request {
    pub url: String,
    pub method: RequestMethod,
    pub content_type: RequestContentType,
    pub body: Value,
    pub headers: Vec<Header>,
    pub timeout: u64,
}

/// Sets named variables of the params to rendered values.
pub struct SetVars {
    pub vars: Vec<Member>,
}

/// A unit of work in the graph.
pub enum Node {
    Trigger(Trigger),
    ListFilter(ListFilter),
    Clipboard(Clipboard),
    Notify(Notify),
    OpenUrl(OpenUrl),
    Request(Request),
    SetVars(SetVars),
}

/// Outside work a node needs done before its result is known.
pub enum Effect {
    SetClipboard { content: String },
    Notify { summary: String, body: String },
    OpenUrl { url: String },
    Http { method: RequestMethod, url: String, headers: Vec<Header>, body: String, timeout: u64 },
}

/// How outside work turned out.
pub enum Outcome {
    /// Done, with nothing to report.
    Done,
    /// Done, with the parsed body of an HTTP response.
    Response(Value),
    /// Failed, for the reason given.
    Failed(String),
}

/// What executing a node gives.
pub enum Step {
    /// The node is done; these are its resulting params.
    Done(Params),
    /// The node needs this outside work done; the params are to be finished with its outcome.
    Effect(Effect, Params),
    /// The node failed.
    Failed(Error),
}

// ---------------------------------------------------------------------------------------
// List filter
// ---------------------------------------------------------------------------------------

/// `target` matches `title` ignoring case, directly or through the Latin spelling of the
/// title's Chinese characters.
pub open spec fn fuzzy_matches(title: Seq<char>, target: Seq<char>) -> bool {
    is_subsequence(lower_of(target), lower_of(title)) || is_subsequence(
        lower_of(target),
        pinyin_of(lower_of(title)),
    )
}

/// The options whose titles `search` matches, in order.
pub open spec fn matching(options: Seq<ListOption>, search: Seq<char>) -> Seq<ListOption>
    decreases options.len(),
{
    if options.len() == 0 {
        Seq::empty()
    } else {
        let rest = matching(options.drop_last(), search);
        if fuzzy_matches(options.last().title@, search) {
            rest.push(options.last())
        } else {
            rest
        }
    }
}

/// `b` is `a` with its title, value and description rendered against `data`.
pub open spec fn option_renders(a: ListOption, b: ListOption, data: Seq<char>) -> bool {
    &&& b.title@ == handlebars_output(a.title@, data)
    &&& !has_braces(a.title@) ==> b.title@ == a.title@
    &&& renders_to(a.value, b.value, data)
    &&& a.description is None <==> b.description is None
    &&& a.description is Some ==> b.description->Some_0@ == handlebars_output(
        a.description->Some_0@,
        data,
    )
    &&& a.description is Some && !has_braces(a.description->Some_0@) ==> b.description->Some_0@
        == a.description->Some_0@
    &&& b.mark == a.mark
}

/// Each option of `out` is the option of `src` at the same place, rendered.
pub open spec fn options_render(src: Seq<ListOption>, out: Seq<ListOption>, data: Seq<char>) -> bool {
    src.len() == out.len() && forall|i: int|
        0 <= i < src.len() ==> #[trigger] option_renders(src[i], out[i], data)
}

/// The placeholder shown when a search text is required and missing.
pub open spec fn is_hint(o: ListOption) -> bool {
    &&& o.title@ == "Please input keyword"@
    &&& o.value is Null
    &&& o.description is None
    &&& o.mark == Some(ListOptionMark::Hint)
}

/// The options a list filter offers for `search`, before rendering; `None` stands for the hint.
pub open spec fn offered(f: ListFilter, search: Seq<char>) -> Option<Seq<ListOption>> {
    match f.need_args {
        NeedArgs::Never => Some(matching(f.options@, search)),
        NeedArgs::Optional => if search.len() == 0 {
            Some(f.options@)
        } else {
            Some(matching(f.options@, search))
        },
        NeedArgs::Always => if search.len() == 0 {
            None
        } else {
            Some(matching(f.options@, search))
        },
    }
}

/// The prompt text of a list filter: its title, or nothing.
pub open spec fn filter_text(f: ListFilter) -> Seq<char> {
    match f.title {
        Some(t) => t@,
        None => Seq::empty(),
    }
}

/// `options` are what list filter `f` shows for `search`, rendered against `data`.
pub open spec fn shown(f: ListFilter, search: Seq<char>, data: Seq<char>, options: Seq<ListOption>) -> bool {
    match offered(f, search) {
        Some(src) => options_render(src, options, data),
        None => options.len() == 1 && is_hint(options[0]),
    }
}

/// `p` is the prompt list filter `f` leaves for `search`, rendered against `data`: a fuzzy
/// select for `Never`, a select otherwise, with the first option preselected.
pub open spec fn filter_prompt(f: ListFilter, search: Seq<char>, data: Seq<char>, p: Prompt) -> bool {
    match p {
        Prompt::Select { text, options, default } => f.need_args != NeedArgs::Never && text@
            == filter_text(f) && default == Some(0usize) && shown(f, search, data, options@),
        Prompt::FuzzySelect { text, options, default } => f.need_args == NeedArgs::Never && text@
            == filter_text(f) && default == Some(0usize) && shown(f, search, data, options@),
        _ => false,
    }
}

impl ListOption {
    /// The option with its title, value and description rendered against `params`.
    pub fn render(&self, params: &Params, env: &Env) -> (r: ListOption)
        ensures
            option_renders(*self, r, render_data(params.context@, params.value, *env)),
    {
        let title = params.render_template(self.title.as_str(), env);
        let value = params.render_value(&self.value, env);
        let description = match &self.description {
            Some(d) => Some(params.render_template(d.as_str(), env)),
            None => None,
        };
        ListOption { title, value, description, mark: self.mark }
    }
}

impl ListFilter {
    fn render_all(&self, params: &Params, env: &Env) -> (r: Vec<ListOption>)
        ensures
            options_render(self.options@, r@, render_data(params.context@, params.value, *env)),
    {
        let ghost data = render_data(params.context@, params.value, *env);
        let mut out: Vec<ListOption> = Vec::new();
        let mut i: usize = 0;
        while i < self.options.len()
            invariant
                data == render_data(params.context@, params.value, *env),
                i <= self.options@.len(),
                out@.len() == i,
                forall|k: int| 0 <= k < i ==> #[trigger] option_renders(self.options@[k], out@[k], data),
            decreases self.options@.len() - i,
        {
            out.push(self.options[i].render(params, env));
            i = i + 1;
        }
        out
    }

    fn render_matching(&self, search: &str, params: &Params, env: &Env) -> (r: Vec<ListOption>)
        ensures
            options_render(
                matching(self.options@, search@),
                r@,
                render_data(params.context@, params.value, *env),
            ),
    {
        let ghost data = render_data(params.context@, params.value, *env);
        let ghost src = self.options@;
        let mut out: Vec<ListOption> = Vec::new();
        let mut i: usize = 0;
        while i < self.options.len()
            invariant
                data == render_data(params.context@, params.value, *env),
                src == self.options@,
                i <= src.len(),
                options_render(matching(src.take(i as int), search@), out@, data),
            decreases src.len() - i,
        {
            let option = &self.options[i];
            let ghost before = out@;
            let ghost prev = matching(src.take(i as int), search@);
            if fuzzy_query(option.title.as_str(), search) {
                out.push(option.render(params, env));
            }
            proof {
                let t = src.take(i + 1);
                assert(t.drop_last() =~= src.take(i as int));
                assert(t.last() == src[i as int]);
                let chosen = matching(t, search@);
                assert forall|k: int| 0 <= k < chosen.len() implies #[trigger] option_renders(
                    chosen[k],
                    out@[k],
                    data,
                ) by {
                    if k < before.len() {
                        assert(option_renders(prev[k], before[k], data));
                    }
                }
            }
            i = i + 1;
        }
        assert(src.take(i as int) =~= src);
        out
    }

    /// Leaves a prompt listing the options for the incoming search text (the value, when it
    /// is a string), rendered against the incoming params.
    pub fn execute(&self, params: Params, env: &Env) -> (r: Params)
        ensures
            r.value == params.value,
            r.context == params.context,
            r.prompt is Some,
            filter_prompt(
                *self,
                params.value.query_text(),
                render_data(params.context@, params.value, *env),
                r.prompt->Some_0,
            ),
    {
        let mut params = params;
        let search = match params.value.as_str() {
            Some(s) => s,
            None => "",
        };
        proof {
            reveal_strlit("");
        }
        let empty = search.unicode_len() == 0;
        let options = match self.need_args {
            NeedArgs::Never => self.render_matching(search, &params, env),
            NeedArgs::Optional => {
                if empty {
                    self.render_all(&params, env)
                } else {
                    self.render_matching(search, &params, env)
                }
            },
            NeedArgs::Always => {
                if empty {
                    let hint = ListOption {
                        title: String::from_str("Please input keyword"),
                        value: Value::Null,
                        description: None,
                        mark: Some(ListOptionMark::Hint),
                    };
                    vec![hint]
                } else {
                    self.render_matching(search, &params, env)
                }
            },
        };
        let ghost data = render_data(params.context@, params.value, *env);
        assert(search@ == params.value.query_text());
        assert(shown(*self, search@, data, options@));
        let text = match &self.title {
            Some(t) => t.clone(),
            None => String::new(),
        };
        assert(text@ == filter_text(*self));
        let prompt = match self.need_args {
            NeedArgs::Never => Prompt::FuzzySelect { text, options, default: Some(0) },
            _ => Prompt::Select { text, options, default: Some(0) },
        };
        params.set_prompt(prompt);
        params
    }
}

// ---------------------------------------------------------------------------------------
// The other nodes
// ---------------------------------------------------------------------------------------

/// Whether `s` parses as an absolute URL.
pub uninterp spec fn url_parses(s: Seq<char>) -> bool;

/// Relies on `url::Url::parse`: whether the text is an absolute URL it accepts.
#[verifier::external_body]
fn parse_url(s: &str) -> (r: bool)
    ensures
        r == url_parses(s@),
{
    url::Url::parse(s).is_ok()
}

/// `b` is header `a` with its value rendered against `data`.
pub open spec fn header_renders(a: Header, b: Header, data: Seq<char>) -> bool {
    b.name@ == a.name@ && b.value@ == handlebars_output(a.value@, data)
}

/// Index of the last entry of `vars` named `k`, or -1.
pub open spec fn last_with(vars: Seq<Member>, k: Seq<char>) -> int
    decreases vars.len(),
{
    if vars.len() == 0 {
        -1
    } else if vars.last().key@ == k {
        vars.len() - 1
    } else {
        last_with(vars.drop_last(), k)
    }
}

proof fn lemma_last_with(vars: Seq<Member>, k: Seq<char>)
    ensures
        -1 <= last_with(vars, k) < vars.len(),
        last_with(vars, k) >= 0 ==> vars[last_with(vars, k)].key@ == k,
    decreases vars.len(),
{
    if vars.len() > 0 && vars.last().key@ != k {
        lemma_last_with(vars.drop_last(), k);
    }
}

/// `new` is the context `old` after setting each variable of `vars` in turn to its value
/// rendered against `data`: a name set more than once keeps the last value.
pub open spec fn vars_applied(old: Seq<Member>, vars: Seq<Member>, new: Seq<Member>, data: Seq<char>) -> bool {
    forall|k: Seq<char>|
        #![trigger lookup(new, k)]
        if last_with(vars, k) >= 0 {
            lookup(new, k) is Some && renders_to(vars[last_with(vars, k)].value, lookup(new, k)->Some_0, data)
        } else {
            lookup(new, k) == lookup(old, k)
        }
}

/// What executing node `n` on `params` in environment `env` gives.
pub open spec fn executes(n: Node, params: Params, env: Env, r: Step) -> bool {
    let data = render_data(params.context@, params.value, env);
    match n {
        Node::Trigger(_) => r == Step::Done(params),
        Node::ListFilter(f) => r is Done && {
            let p = r->Done_0;
            &&& p.value == params.value
            &&& p.context == params.context
            &&& p.prompt is Some
            &&& filter_prompt(f, params.value.query_text(), data, p.prompt->Some_0)
        },
        Node::Clipboard(c) => r is Effect && r->Effect_1 == params && match r->Effect_0 {
            Effect::SetClipboard { content } => content@ == rendered(c.content@, params, env),
            _ => false,
        },
        Node::Notify(x) => r is Effect && r->Effect_1 == params && match r->Effect_0 {
            Effect::Notify { summary, body } => summary@ == rendered(x.summary@, params, env) && body@
                == rendered(x.body@, params, env),
            _ => false,
        },
        Node::OpenUrl(o) => r is Effect && r->Effect_1 == params && match r->Effect_0 {
            Effect::OpenUrl { url } => url@ == rendered(o.url@, params, env),
            _ => false,
        },
        Node::Request(q) => {
            let url = rendered(q.url@, params, env);
            if url_parses(url) {
                r is Effect && r->Effect_1 == params && match r->Effect_0 {
                    Effect::Http { method, url: u, headers, body, timeout } => {
                        &&& method == q.method
                        &&& u@ == url
                        &&& timeout == q.timeout
                        &&& headers@.len() == q.headers@.len()
                        &&& forall|i: int|
                            0 <= i < headers@.len() ==> #[trigger] header_renders(
                                q.headers@[i],
                                headers@[i],
                                data,
                            )
                        &&& exists|rb: Value| renders_to(q.body, rb, data) && body@ == json_text(rb)
                    },
                    _ => false,
                }
            } else {
                r is Failed && r->Failed_0 is InvalidUrl && r->Failed_0->InvalidUrl_url@ == url
            }
        },
        Node::SetVars(sv) => r is Done && {
            let p = r->Done_0;
            &&& p.value == params.value
            &&& p.prompt == params.prompt
            &&& vars_applied(params.context@, sv.vars@, p.context@, data)
        },
    }
}

/// What finishing a node's outside work gives: the failure reported; the clipboard text or
/// the response body as the new value; the params unchanged otherwise. An HTTP request that
/// reports no response body fails.
pub open spec fn finishes(effect: Effect, params: Params, outcome: Outcome, r: Result<Params, Error>) -> bool {
    match outcome {
        Outcome::Failed(m) => r == Err::<Params, Error>(Error::Effect { message: m }),
        _ => match effect {
            Effect::SetClipboard { content } => r is Ok && r->Ok_0.value is Str && r->Ok_0.value->Str_0@
                == content@ && r->Ok_0.context == params.context && r->Ok_0.prompt == params.prompt,
            Effect::Http { .. } => match outcome {
                Outcome::Response(v) => r is Ok && r->Ok_0.value == v && r->Ok_0.context
                    == params.context && r->Ok_0.prompt == params.prompt,
                _ => r is Err && r->Err_0 is Effect,
            },
            _ => r == Ok::<Params, Error>(params),
        },
    }
}

impl Effect {
    /// Applies the outcome of this outside work to the params of the node that asked for it.
    pub fn finish(&self, params: Params, outcome: Outcome) -> (r: Result<Params, Error>)
        ensures
            finishes(*self, params, outcome, r),
    {
        let mut params = params;
        match outcome {
            Outcome::Failed(message) => Err(Error::Effect { message }),
            Outcome::Done => match self {
                Effect::SetClipboard { content } => {
                    params.set_value_str(content.clone());
                    Ok(params)
                },
                Effect::Http { .. } => Err(
                    Error::Effect { message: String::from_str("the response has no body") },
                ),
                _ => Ok(params),
            },
            Outcome::Response(v) => match self {
                Effect::SetClipboard { content } => {
                    params.set_value_str(content.clone());
                    Ok(params)
                },
                Effect::Http { .. } => {
                    params.set_value(v);
                    Ok(params)
                },
                _ => Ok(params),
            },
        }
    }
}

impl SetVars {
    /// Sets each variable, in order, to its value rendered against the incoming params.
    pub fn execute(&self, params: Params, env: &Env) -> (r: Params)
        ensures
            r.value == params.value,
            r.prompt == params.prompt,
            vars_applied(
                params.context@,
                self.vars@,
                r.context@,
                render_data(params.context@, params.value, *env),
            ),
    {
        let ghost old_ctx = params.context@;
        let ghost old_value = params.value;
        let ghost old_prompt = params.prompt;
        let data = data_text(&params, env);
        let mut params = params;
        let ghost vars = self.vars@;
        let mut i: usize = 0;
        while i < self.vars.len()
            invariant
                vars == self.vars@,
                i <= vars.len(),
                params.value == old_value,
                params.prompt == old_prompt,
                data@ == render_data(old_ctx, old_value, *env),
                vars_applied(old_ctx, vars.take(i as int), params.context@, data@),
            decreases vars.len() - i,
        {
            let ghost before = params.context@;
            let var = &self.vars[i];
            let value = render_leaves(&var.value, data.as_str());
            params.set_var(var.key.as_str(), value);
            proof {
                let t = vars.take(i + 1);
                assert(t.drop_last() =~= vars.take(i as int));
                assert(t.last() == vars[i as int]);
                assert forall|k: Seq<char>| #![trigger lookup(params.context@, k)]
                    if last_with(t, k) >= 0 {
                        lookup(params.context@, k) is Some && renders_to(t[last_with(t, k)].value, lookup(params.context@, k)->Some_0, data@)
                    } else {
                        lookup(params.context@, k) == lookup(old_ctx, k)
                    } by {
                    lemma_last_with(vars.take(i as int), k);
                    if k != vars[i as int].key@ {
                        assert(lookup(params.context@, k) == lookup(before, k));
                        if last_with(t, k) >= 0 {
                            assert(t[last_with(t, k)] == vars.take(i as int)[last_with(t, k)]);
                        }
                    }
                }
            }
            i = i + 1;
        }
        assert(vars.take(i as int) =~= vars);
        params
    }
}

impl Node {
    /// Executes the node on `params`. Nodes that only compute are done at once; the others
    /// name the outside work they need, to be finished with `Effect::finish`.
    pub fn execute(&self, params: Params, env: &Env) -> (r: Step)
        ensures
            executes(*self, params, *env, r),
    {
        match self {
            Node::Trigger(_) => Step::Done(params),
            Node::ListFilter(f) => Step::Done(f.execute(params, env)),
            Node::Clipboard(c) => {
                let content = params.render_template(c.content.as_str(), env);
                Step::Effect(Effect::SetClipboard { content }, params)
            },
            Node::Notify(x) => {
                let summary = params.render_template(x.summary.as_str(), env);
                let body = params.render_template(x.body.as_str(), env);
                Step::Effect(Effect::Notify { summary, body }, params)
            },
            Node::OpenUrl(o) => {
                let url = params.render_template(o.url.as_str(), env);
                Step::Effect(Effect::OpenUrl { url }, params)
            },
            Node::Request(q) => q.execute(params, env),
            Node::SetVars(sv) => Step::Done(sv.execute(params, env)),
        }
    }
}

impl Request {
    /// Renders the URL, headers and body; a URL that does not parse fails the node.
    pub fn execute(&self, params: Params, env: &Env) -> (r: Step)
        ensures
            executes(Node::Request(*self), params, *env, r),
    {
        let url = params.render_template(self.url.as_str(), env);
        if !parse_url(url.as_str()) {
            return Step::Failed(Error::InvalidUrl { url });
        }
        let ghost data = render_data(params.context@, params.value, *env);
        let mut headers: Vec<Header> = Vec::new();
        let mut i: usize = 0;
        while i < self.headers.len()
            invariant
                data == render_data(params.context@, params.value, *env),
                i <= self.headers@.len(),
                headers@.len() == i,
                forall|k: int| 0 <= k < i ==> #[trigger] header_renders(self.headers@[k], headers@[k], data),
            decreases self.headers@.len() - i,
        {
            let h = &self.headers[i];
            let value = params.render_template(h.value.as_str(), env);
            headers.push(Header { name: h.name.clone(), value });
            assert(header_renders(self.headers@[i as int], headers@[i as int], data));
            i = i + 1;
        }
        let rb = params.render_value(&self.body, env);
        let body = rb.to_json_string();
        let effect = Effect::Http { method: self.method, url, headers, body, timeout: self.timeout };
        Step::Effect(effect, params)
    }
}

} // verus!
