use geekbar::error::Error;
use geekbar::executor::{Executor, Work, WorkNode};
use geekbar::json::{Member, Value};
use geekbar::link::{AndCondition, Condition, Link, OrCondition, ValueCondition};
use geekbar::node::{
    Clipboard, Effect, Header, ListFilter, NeedArgs, Node, Outcome, Request, RequestContentType,
    RequestMethod, SetVars, Step,
};
use geekbar::params::Params;
use geekbar::prompt::{ListOption, ListOptionMark, Prompt};
use geekbar::template::{Clock, Env};
use geekbar::trigger::Trigger;
use geekbar::workflow::{Workflow, WorkflowConfig, WorkflowNode};

fn s(x: &str) -> String {
    x.to_string()
}

fn env() -> Env {
    let clock = Clock {
        date: s("2024-05-06"),
        year: s("2024"),
        month: s("05"),
        day: s("06"),
        weekday: s("1"),
        weekstart: s("2024-05-06"),
        weekend: s("2024-05-12"),
        time: s("10-20-30"),
        hour: s("10"),
        minute: s("20"),
        second: s("30"),
        timestamp: s("1714990830"),
    };
    Env::new(clock, s("copied"))
}

fn keyword(k: &str) -> Node {
    Node::Trigger(Trigger::Keyword { keyword: s(k), title: s("") })
}

fn link(from: u128, to: u128) -> Link {
    Link { from, to, condition: None, modifiers: None }
}

fn option(title: &str, value: &str) -> ListOption {
    ListOption { title: s(title), value: Value::Str(s(value)), description: None, mark: None }
}

fn hello_workflow(id: u128) -> Workflow {
    let config = WorkflowConfig {
        id,
        title: s("hello"),
        nodes: vec![
            WorkflowNode { id: 1, node: keyword("hello") },
            WorkflowNode {
                id: 2,
                node: Node::ListFilter(ListFilter {
                    title: None,
                    options: vec![option("World", "w")],
                    need_args: NeedArgs::Never,
                }),
            },
        ],
        links: vec![link(1, 2)],
    };
    Workflow::from_config(config).ok().unwrap()
}

fn str_value(v: &Value) -> &str {
    match v {
        Value::Str(x) => x.as_str(),
        _ => panic!("not a string"),
    }
}

#[test]
fn shortcut_key_ignores_order() {
    let a = Trigger::Shortcut { keys: vec![s("shift"), s("a")], title: s("") };
    let b = Trigger::Shortcut { keys: vec![s("a"), s("shift")], title: s("") };
    assert_eq!(a.id(), "shift+a");
    assert_eq!(b.id(), "shift+a");
}

#[test]
fn shortcut_key_longer_names_first_then_alphabetical() {
    let t = Trigger::Shortcut { keys: vec![s("ctrl"), s("shift"), s("k")], title: s("") };
    assert_eq!(t.id(), "shift+ctrl+k");
    let u = Trigger::Shortcut { keys: vec![s("b"), s("alt"), s("a"), s("cmd")], title: s("") };
    assert_eq!(u.id(), "alt+cmd+a+b");
    let e = Trigger::Shortcut { keys: vec![s("a"), s("é")], title: s("") };
    assert_eq!(e.id(), "é+a");
    let k = Trigger::Keyword { keyword: s("gh"), title: s("GitHub") };
    assert_eq!(k.id(), "gh");
    assert_eq!(k.title(), "GitHub");
}

#[test]
fn includes_str_is_an_ordered_fuzzy_match() {
    assert!(geekbar::text::includes_str("hello world", "hwd"));
    assert!(geekbar::text::includes_str("abc", ""));
    assert!(!geekbar::text::includes_str("abc", "ca"));
    assert!(!geekbar::text::includes_str("", "a"));
    assert!(geekbar::text::includes_str("abc", "abc"));
}

#[test]
fn fuzzy_query_ignores_case_and_reads_pinyin() {
    assert!(geekbar::text::fuzzy_query("GitHub", "gh"));
    assert!(geekbar::text::fuzzy_query("你好", "nihao"));
    assert!(!geekbar::text::fuzzy_query("GitHub", "x"));
    assert_eq!(geekbar::text::zh_to_pinyin("你好"), "nihao");
}

#[test]
fn json_text_is_compact_and_escaped() {
    let v = Value::Object(vec![
        Member { key: s("a"), value: Value::Array(vec![Value::Number(-12), Value::Bool(true), Value::Null]) },
        Member { key: s("b\"c"), value: Value::Str(s("x\ny\u{1}")) },
    ]);
    assert_eq!(v.to_json_string(), "{\"a\":[-12,true,null],\"b\\\"c\":\"x\\ny\\u0001\"}");
    assert_eq!(Value::Number(i64::MIN).to_json_string(), "-9223372036854775808");
    assert_eq!(Value::Number(0).to_json_string(), "0");
}

#[test]
fn template_without_placeholders_is_unchanged() {
    let p = Params::new(Value::Str(s("42")));
    let e = env();
    assert_eq!(p.render_template("plain text {not a placeholder}", &e), "plain text {not a placeholder}");
    assert_eq!(p.render_template("", &e), "");
}

#[test]
fn template_renders_query_variables_and_builtins() {
    let mut p = Params::new(Value::Str(s("42")));
    p.set_var("name", Value::Str(s("geek")));
    let e = env();
    assert_eq!(p.render_template("http://x/{{query}}", &e), "http://x/42");
    assert_eq!(p.render_template("{{name}}-{{date}}-{{clipboard}}-{{missing}}", &e), "geek-2024-05-06-copied-");
    let first = p.render_template("{{name}} {{year}}", &e);
    let second = p.render_template("{{name}} {{year}}", &e);
    assert_eq!(first, second);
    assert_eq!(p.render_template("{{uuid}}", &e).len(), 36);
    let q = Params::new(Value::Number(5));
    assert_eq!(q.render_template("[{{query}}]", &e), "[]");
}

#[test]
fn render_value_renders_string_leaves_only() {
    let p = Params::new(Value::Str(s("q")));
    let e = env();
    let v = Value::Array(vec![Value::Str(s("{{query}}!")), Value::Number(3), Value::Null]);
    match p.render_value(&v, &e) {
        Value::Array(items) => {
            assert_eq!(str_value(&items[0]), "q!");
            assert!(matches!(items[1], Value::Number(3)));
            assert!(matches!(items[2], Value::Null));
        }
        _ => panic!("expected an array"),
    }
}

#[test]
fn params_variables_replace_and_keep_order() {
    let mut p = Params::default();
    p.set_var("a", Value::Number(1));
    p.set_var("b", Value::Number(2));
    p.set_var("a", Value::Number(3));
    assert!(matches!(p.get_var("a"), Some(Value::Number(3))));
    assert!(matches!(p.get_var("b"), Some(Value::Number(2))));
    assert!(p.get_var("c").is_none());
    assert_eq!(p.get_vars().len(), 2);
    p.set_value_str(s("v"));
    assert_eq!(str_value(p.get_value()), "v");
    p.set_prompt(Prompt::Password { text: s("pw") });
    assert!(p.take_prompt().is_some());
    assert!(p.take_prompt().is_none());
}

#[test]
fn conditions_compare_match_and_combine() {
    let v = Value::Number(5);
    let gt = Condition::Value(ValueCondition::Gt(Value::Number(3)));
    let lt = Condition::Value(ValueCondition::Lt(Value::Number(3)));
    assert!(geekbar::link::evaluate(&gt, &v));
    assert!(!geekbar::link::evaluate(&lt, &v));
    let between = ValueCondition::Between(Value::Array(vec![Value::Number(1), Value::Number(5)]));
    assert!(geekbar::link::test_value(&between, &v));
    assert!(!geekbar::link::test_value(&ValueCondition::Gt(Value::Str(s("a"))), &v));
    let and = Condition::And(AndCondition { conditions: vec![gt, Condition::Value(ValueCondition::NonNull)] });
    assert!(geekbar::link::evaluate(&and, &v));
    let or = Condition::Or(OrCondition { conditions: vec![lt, Condition::Value(ValueCondition::Nullable)] });
    assert!(!geekbar::link::evaluate(&or, &v));
    let text = Value::Str(s("hello world"));
    assert!(geekbar::link::test_value(&ValueCondition::Match(Value::Str(s("^hel+o"))), &text));
    assert!(!geekbar::link::test_value(&ValueCondition::Match(Value::Str(s("("))), &text));
    assert!(geekbar::link::test_value(&ValueCondition::Includes(Value::Str(s("o w"))), &text));
    assert!(!geekbar::link::test_value(&ValueCondition::Includes(Value::Str(s("ow"))), &text));
    assert!(geekbar::link::test_value(&ValueCondition::Ge(Value::Str(s("hello"))), &text));
    let set = Value::Array(vec![Value::Number(1), Value::Number(5)]);
    assert!(geekbar::link::test_value(&ValueCondition::In(set), &v));
    assert!(geekbar::link::test_value(&ValueCondition::Match(Value::Str(s("^5$"))), &v));
}

#[test]
fn duplicate_node_ids_keep_the_later_node() {
    let config = WorkflowConfig {
        id: 9,
        title: s("dup"),
        nodes: vec![WorkflowNode { id: 1, node: keyword("a") }, WorkflowNode { id: 1, node: keyword("b") }],
        links: vec![],
    };
    let w = Workflow::from_config(config).ok().unwrap();
    match &w.get_node(1).unwrap().node {
        Node::Trigger(Trigger::Keyword { keyword, .. }) => assert_eq!(keyword, "b"),
        _ => panic!("expected the later trigger"),
    }
    assert_eq!(w.entry("a"), Some(1));
    assert_eq!(w.entry("b"), Some(1));
}

#[test]
fn definition_with_dangling_link_is_refused() {
    let config = WorkflowConfig {
        id: 9,
        title: s("dangling"),
        nodes: vec![WorkflowNode { id: 1, node: keyword("a") }],
        links: vec![link(1, 7)],
    };
    assert!(matches!(Workflow::from_config(config), Err(Error::DanglingLink { to: 7 })));
}

#[test]
fn trigger_index_keeps_last_trigger_of_a_key() {
    let config = WorkflowConfig {
        id: 3,
        title: s("t"),
        nodes: vec![
            WorkflowNode { id: 1, node: keyword("k") },
            WorkflowNode { id: 2, node: keyword("k") },
            WorkflowNode { id: 3, node: keyword("other") },
        ],
        links: vec![],
    };
    let w = Workflow::from_config(config).ok().unwrap();
    assert_eq!(w.entry("k"), Some(2));
    assert_eq!(w.entry("other"), Some(3));
    assert!(w.has_trigger("other"));
    assert!(!w.has_trigger("none"));
    assert_eq!(w.get_keywords().len(), 3);
    assert!(w.get_node(3).is_some());
    assert!(w.get_node(4).is_none());
}

#[test]
fn unknown_trigger_returns_false_and_changes_nothing() {
    let mut ex = Executor::default();
    ex.add_workflow(hello_workflow(10));
    let e = env();
    assert!(!ex.has_trigger("nope"));
    assert!(matches!(ex.trigger("nope", None, &e), Ok(false)));
    assert_eq!(ex.slots.len(), 1);
    assert_eq!(ex.queue.len(), 0);
    assert_eq!(ex.outbox.len(), 0);
    assert_eq!(ex.slots[0].as_ref().unwrap().running, 0);
}

#[test]
fn hello_list_filter_scenario() {
    let mut ex = Executor::default();
    let pid = ex.add_workflow(hello_workflow(10));
    let e = env();
    assert!(ex.has_trigger("hello"));
    assert!(matches!(ex.trigger("hello", None, &e), Ok(true)));
    let works = ex.take_works();
    assert_eq!(works.len(), 1);
    assert_eq!(works[0].node_id(), 1);
    assert_eq!(works[0].workflow_pid(), pid);
    assert_eq!(works[0].workflow_id(), 10);
    assert!(works[0].params.prompt.is_none());
    let first = works.into_iter().next().unwrap();
    assert!(ex.receive_work(first, None, &e).is_ok());
    let works = ex.take_works();
    assert_eq!(works.len(), 1);
    assert_eq!(works[0].node_id(), 2);
    match &works[0].params.prompt {
        Some(Prompt::FuzzySelect { options, default, .. }) => {
            assert_eq!(options.len(), 1);
            assert_eq!(options[0].title, "World");
            assert_eq!(str_value(&options[0].value), "w");
            assert_eq!(*default, Some(0));
        }
        _ => panic!("expected a fuzzy select"),
    }
    let second = works.into_iter().next().unwrap();
    assert!(ex.receive_work(second, Some(Value::Str(s("w"))), &e).is_ok());
    assert_eq!(ex.take_works().len(), 0);
    assert_eq!(ex.slots[pid].as_ref().unwrap().running, 0);
}

#[test]
fn list_filter_policies() {
    let e = env();
    let filter = |need_args: NeedArgs| ListFilter {
        title: Some(s("Pick")),
        options: vec![option("GitHub", "gh"), option("Google", "gg")],
        need_args,
    };
    let p = filter(NeedArgs::Always).execute(Params::new(Value::Str(s(""))), &e);
    match p.prompt {
        Some(Prompt::Select { options, text, .. }) => {
            assert_eq!(text, "Pick");
            assert_eq!(options.len(), 1);
            assert_eq!(options[0].title, "Please input keyword");
            assert_eq!(options[0].mark, Some(ListOptionMark::Hint));
        }
        _ => panic!("expected a select"),
    }
    let p = filter(NeedArgs::Always).execute(Params::new(Value::Str(s("hub"))), &e);
    assert!(matches!(p.prompt, Some(Prompt::Select { ref options, .. }) if options.len() == 1 && options[0].title == "GitHub"));
    let p = filter(NeedArgs::Optional).execute(Params::new(Value::Str(s(""))), &e);
    assert!(matches!(p.prompt, Some(Prompt::Select { ref options, .. }) if options.len() == 2));
    let p = filter(NeedArgs::Optional).execute(Params::new(Value::Str(s("hub"))), &e);
    assert!(matches!(p.prompt, Some(Prompt::Select { ref options, .. }) if options.len() == 1 && options[0].title == "GitHub"));
    let p = filter(NeedArgs::Never).execute(Params::new(Value::Str(s("g"))), &e);
    assert!(matches!(p.prompt, Some(Prompt::FuzzySelect { ref options, .. }) if options.len() == 2));
    assert!(NeedArgs::default().is_never());
    assert!(NeedArgs::Always.is_always());
    assert!(NeedArgs::Optional.is_optional());
}

#[test]
fn register_then_remove_collects_at_once() {
    let mut ex = Executor::default();
    let pid = ex.add_workflow(hello_workflow(10));
    assert!(ex.slots[pid].as_ref().unwrap().active);
    ex.remove_workflow(10);
    assert!(ex.slots[pid].is_none());
    assert!(!ex.has_trigger("hello"));
}

#[test]
fn reregistering_supersedes_and_drains() {
    let mut ex = Executor::default();
    let e = env();
    let old = ex.add_workflow(hello_workflow(10));
    assert!(matches!(ex.trigger("hello", None, &e), Ok(true)));
    let works = ex.take_works();
    let new = ex.add_workflow(hello_workflow(10));
    assert_ne!(old, new);
    assert!(!ex.slots[old].as_ref().unwrap().active);
    assert_eq!(ex.find_route("hello").unwrap().workflow_pid, new);
    let w = works.into_iter().next().unwrap();
    assert!(ex.resume(w, None).is_ok());
    assert!(ex.drain(&e).is_ok());
    let works = ex.take_works();
    assert_eq!(works.len(), 1);
    let w = works.into_iter().next().unwrap();
    assert!(ex.receive_work(w, None, &e).is_ok());
    assert!(ex.slots[old].is_none());
}

#[test]
fn fan_out_gives_independent_copies() {
    let config = WorkflowConfig {
        id: 20,
        title: s("fan"),
        nodes: vec![
            WorkflowNode { id: 1, node: keyword("fan") },
            WorkflowNode { id: 2, node: keyword("left") },
            WorkflowNode { id: 3, node: keyword("right") },
        ],
        links: vec![link(1, 2), link(1, 3)],
    };
    let mut ex = Executor::default();
    ex.add_workflow(Workflow::from_config(config).ok().unwrap());
    let e = env();
    assert!(matches!(ex.trigger("fan", Some(Value::Str(s("x"))), &e), Ok(true)));
    let mut works = ex.take_works();
    let mut root = works.remove(0);
    root.params.set_var("k", Value::Number(1));
    assert!(ex.resume(root, None).is_ok());
    assert_eq!(ex.queue.len(), 2);
    assert_eq!(ex.queue[0].node_id(), 2);
    assert_eq!(ex.queue[1].node_id(), 3);
    ex.queue[0].params.set_var("k", Value::Number(2));
    assert!(matches!(ex.queue[1].params.get_var("k"), Some(Value::Number(1))));
    assert_eq!(str_value(ex.queue[1].params.get_value()), "x");
    assert!(ex.drain(&e).is_ok());
    assert_eq!(ex.take_works().len(), 2);
}

#[test]
fn conditional_links_follow_the_value() {
    let config = WorkflowConfig {
        id: 21,
        title: s("cond"),
        nodes: vec![
            WorkflowNode { id: 1, node: keyword("c") },
            WorkflowNode { id: 2, node: keyword("big") },
            WorkflowNode { id: 3, node: keyword("small") },
        ],
        links: vec![
            Link { from: 1, to: 2, condition: Some(Condition::Value(ValueCondition::Gt(Value::Number(10)))), modifiers: None },
            Link { from: 1, to: 3, condition: Some(Condition::Value(ValueCondition::Le(Value::Number(10)))), modifiers: None },
        ],
    };
    let w = Workflow::from_config(config).ok().unwrap();
    assert_eq!(w.next_nodes(1, &Params::new(Value::Number(11))), vec![2]);
    assert_eq!(w.next_nodes(1, &Params::new(Value::Number(3))), vec![3]);
    assert!(w.next_nodes(2, &Params::new(Value::Null)).is_empty());
}

#[test]
fn request_renders_url_and_waits_for_response() {
    let node = Node::Request(Request {
        url: s("http://x/{{query}}"),
        method: RequestMethod::Get,
        content_type: RequestContentType::Json,
        body: Value::Object(vec![Member { key: s("q"), value: Value::Str(s("{{query}}")) }]),
        headers: vec![Header { name: s("X-Q"), value: s("{{query}}") }],
        timeout: geekbar::node::_default_timeout(),
    });
    let e = env();
    match node.execute(Params::new(Value::Str(s("42"))), &e) {
        Step::Effect(effect, params) => {
            match &effect {
                Effect::Http { url, body, headers, timeout, method } => {
                    assert_eq!(url, "http://x/42");
                    assert_eq!(body, "{\"q\":\"42\"}");
                    assert_eq!(headers[0].value, "42");
                    assert_eq!(*timeout, 60);
                    assert_eq!(*method, RequestMethod::Get);
                }
                _ => panic!("expected an HTTP effect"),
            }
            let done = effect.finish(params, Outcome::Response(Value::Number(7))).ok().unwrap();
            assert!(matches!(done.value, Value::Number(7)));
        }
        _ => panic!("expected an effect"),
    }
    assert_eq!(RequestMethod::default(), RequestMethod::Get);
    assert_eq!(RequestContentType::default(), RequestContentType::Json);
}

#[test]
fn request_with_bad_url_fails() {
    let node = Node::Request(Request {
        url: s("not a url {{query}}"),
        method: RequestMethod::Post,
        content_type: RequestContentType::Json,
        body: Value::Null,
        headers: vec![],
        timeout: 60,
    });
    match node.execute(Params::new(Value::Str(s("q"))), &env()) {
        Step::Failed(Error::InvalidUrl { url }) => assert_eq!(url, "not a url q"),
        _ => panic!("expected an invalid URL"),
    }
}

#[test]
fn clipboard_effect_sets_value_and_failures_abort() {
    let config = WorkflowConfig {
        id: 30,
        title: s("clip"),
        nodes: vec![
            WorkflowNode { id: 1, node: keyword("clip") },
            WorkflowNode { id: 2, node: Node::Clipboard(Clipboard { content: s("<{{query}}>") }) },
        ],
        links: vec![link(1, 2)],
    };
    let mut ex = Executor::default();
    ex.add_workflow(Workflow::from_config(config).ok().unwrap());
    let e = env();
    assert!(matches!(ex.trigger("clip", Some(Value::Str(s("a"))), &e), Ok(true)));
    let root = ex.take_works().remove(0);
    assert!(ex.receive_work(root, None, &e).is_ok());
    match ex.pending_effect() {
        Some(Effect::SetClipboard { content }) => assert_eq!(content, "<a>"),
        _ => panic!("expected a clipboard effect"),
    }
    assert!(ex.complete_effect(Outcome::Done, &e).is_ok());
    let works = ex.take_works();
    assert_eq!(works.len(), 1);
    assert_eq!(str_value(&works[0].params.value), "<a>");

    assert!(matches!(ex.trigger("clip", Some(Value::Str(s("b"))), &e), Ok(true)));
    let root = ex.take_works().remove(0);
    assert!(ex.receive_work(root, None, &e).is_ok());
    match ex.complete_effect(Outcome::Failed(s("no clipboard")), &e) {
        Err(Error::Effect { message }) => assert_eq!(message, "no clipboard"),
        _ => panic!("expected the effect's failure"),
    }
    assert!(ex.pending_effect().is_none());
    assert_eq!(ex.queue.len(), 0);
}

#[test]
fn set_vars_merges_rendered_values() {
    let node = Node::SetVars(SetVars {
        vars: vec![
            Member { key: s("greeting"), value: Value::Str(s("hi {{query}}")) },
            Member { key: s("n"), value: Value::Number(4) },
        ],
    });
    match node.execute(Params::new(Value::Str(s("bob"))), &env()) {
        Step::Done(p) => {
            assert_eq!(str_value(p.get_var("greeting").unwrap()), "hi bob");
            assert!(matches!(p.get_var("n"), Some(Value::Number(4))));
            assert_eq!(str_value(p.get_value()), "bob");
        }
        _ => panic!("expected the node to be done"),
    }
}

#[test]
fn resuming_unknown_work_is_an_error() {
    let mut ex = Executor::default();
    let work = Work {
        work_node: WorkNode { workflow_pid: 3, workflow_id: 1, node_id: 1 },
        params: Params::default(),
    };
    assert!(matches!(ex.resume(work, None), Err(Error::UnknownInstance { pid: 3 })));
    ex.add_workflow(hello_workflow(10));
    let work = Work {
        work_node: WorkNode { workflow_pid: 0, workflow_id: 10, node_id: 99 },
        params: Params::default(),
    };
    assert!(matches!(ex.resume(work, None), Err(Error::UnknownNode { node: 99 })));
}

#[test]
fn resolve_value_answers_the_prompt() {
    let mut work = Work {
        work_node: WorkNode { workflow_pid: 0, workflow_id: 1, node_id: 1 },
        params: Params::default(),
    };
    work.params.set_prompt(Prompt::Confirm { text: s("sure?"), default: Some(true) });
    work.resolve_value(Value::Bool(true));
    assert!(work.params.prompt.is_none());
    assert!(matches!(work.params.value, Value::Bool(true)));
}

#[test]
fn execute_workflow_compiles_registers_and_triggers() {
    let mut ex = Executor::default();
    let config = WorkflowConfig {
        id: 40,
        title: s("x"),
        nodes: vec![WorkflowNode { id: 1, node: keyword("go") }],
        links: vec![],
    };
    assert!(matches!(ex.execute_workflow(config, "go", None, &env()), Ok(true)));
    assert_eq!(ex.take_works().len(), 1);
    let empty = WorkflowConfig::new_empty("fresh");
    assert_eq!(empty.title, "fresh");
    assert!(empty.nodes.is_empty());
    assert!(matches!(Error::new(s("m")), Error::Message { .. }));
}

#[test]
fn builder_and_name_checks() {
    let b = geekbar::workflow::WorkflowBuilder::default();
    assert!(b.json.is_none());
    let b = b.json(s("{}"));
    assert_eq!(b.json.as_deref(), Some("{}"));
    let names = vec![s("a"), s("b")];
    assert!(geekbar::workflow::Workflows::check_name_exist(&names, "b"));
    assert!(!geekbar::workflow::Workflows::check_name_exist(&names, "c"));
}

fn local(year: i32, month: u32, day: u32, weekday: u32) -> geekbar::clock::LocalTime {
    geekbar::clock::LocalTime {
        year,
        month,
        day,
        weekday,
        hour: 7,
        minute: 5,
        second: 9,
        timestamp: 1715150709,
    }
}

#[test]
fn clock_writes_dates_and_week_bounds() {
    let c = Clock::at(&local(2024, 5, 8, 3));
    assert_eq!(c.date, "2024-05-08");
    assert_eq!(c.year, "2024");
    assert_eq!(c.month, "05");
    assert_eq!(c.day, "08");
    assert_eq!(c.weekday, "3");
    assert_eq!(c.weekstart, "2024-05-06");
    assert_eq!(c.weekend, "2024-05-12");
    assert_eq!(c.time, "07-05-09");
    assert_eq!(c.hour, "07");
    assert_eq!(c.minute, "05");
    assert_eq!(c.second, "09");
    assert_eq!(c.timestamp, "1715150709");
}

#[test]
fn clock_week_crosses_months_and_odd_years() {
    let c = Clock::at(&local(2024, 3, 1, 5));
    assert_eq!(c.weekstart, "2024-02-26");
    assert_eq!(c.weekend, "2024-03-03");
    assert_eq!(Clock::at(&local(7, 1, 1, 1)).year, "0007");
    assert_eq!(Clock::at(&local(12345, 1, 1, 1)).year, "+12345");
    assert_eq!(Clock::at(&local(-5, 1, 1, 1)).year, "-0005");
    assert_eq!(Clock::now().date.len(), 10);
}

#[test]
fn full_in_flight_count_refuses_new_work() {
    let mut ex = Executor::default();
    let pid = ex.add_workflow(hello_workflow(10));
    ex.slots[pid].as_mut().unwrap().running = u64::MAX;
    assert!(matches!(ex.trigger("hello", None, &env()), Err(Error::TooManyWorks { pid: 0 })));
    assert_eq!(ex.queue.len(), 0);
}

fn failing_workflow(id: u128) -> Workflow {
    let config = WorkflowConfig {
        id,
        title: s("fail"),
        nodes: vec![
            WorkflowNode { id: 1, node: keyword("fail") },
            WorkflowNode {
                id: 2,
                node: Node::Request(Request {
                    url: s("not a url"),
                    method: RequestMethod::Get,
                    content_type: RequestContentType::Json,
                    body: Value::Null,
                    headers: vec![],
                    timeout: 60,
                }),
            },
            WorkflowNode { id: 3, node: keyword("never") },
        ],
        links: vec![link(1, 2), link(1, 3)],
    };
    Workflow::from_config(config).ok().unwrap()
}

#[test]
fn failed_node_releases_counts_of_dropped_works() {
    let mut ex = Executor::default();
    let pid = ex.add_workflow(failing_workflow(50));
    let e = env();
    assert!(matches!(ex.trigger("fail", None, &e), Ok(true)));
    assert_eq!(ex.slots[pid].as_ref().unwrap().running, 1);
    let root = ex.take_works().remove(0);
    assert!(matches!(ex.receive_work(root, None, &e), Err(Error::InvalidUrl { .. })));
    assert_eq!(ex.queue.len(), 0);
    assert_eq!(ex.take_works().len(), 0);
    assert_eq!(ex.slots[pid].as_ref().unwrap().running, 0);
}

#[test]
fn failed_node_lets_a_removed_instance_be_collected() {
    let mut ex = Executor::default();
    let pid = ex.add_workflow(failing_workflow(51));
    let e = env();
    assert!(matches!(ex.trigger("fail", None, &e), Ok(true)));
    let root = ex.take_works().remove(0);
    ex.remove_workflow(51);
    assert!(!ex.slots[pid].as_ref().unwrap().active);
    assert!(ex.receive_work(root, None, &e).is_err());
    assert!(ex.slots[pid].is_none());
}
