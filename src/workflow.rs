//! The compiled, immutable workflow graph.
use crate::error::Error;
use crate::link::{Link, link_open};
use crate::node::Node;
use crate::params::Params;
use crate::text::same_text;
use crate::trigger::{Trigger, lemma_shortcut_key_order_free, trigger_key, views};
use crate::json::Value;
use vstd::prelude::*;

verus! {

/// A node of a workflow, under its identifier.
pub struct WorkflowNode {
    pub id: u128,
    pub node: Node,
}

/// A workflow definition as it is stored: nodes and links in declaration order.
pub struct WorkflowConfig {
    pub id: u128,
    pub title: String,
    pub nodes: Vec<WorkflowNode>,
    pub links: Vec<Link>,
}

/// Relies on `uuid::Uuid::new_v4`, read as a 128-bit number: a random identifier.
#[verifier::external_body]
fn fresh_id() -> (r: u128) {
    uuid::Uuid::new_v4().as_u128()
}

impl WorkflowConfig {
    /// A definition with a fresh random identifier, the given title, and nothing in it.
    pub fn new_empty(name: &str) -> (r: WorkflowConfig)
        ensures
            r.title@ == name@,
            r.nodes@.len() == 0,
            r.links@.len() == 0,
    {
        WorkflowConfig {
            id: fresh_id(),
            title: String::from_str(name),
            nodes: Vec::new(),
            links: Vec::new(),
        }
    }
}

/// A trigger key and the node it routes to.
pub struct Entry {
    pub key: String,
    pub node: u128,
}

/// The node of the first entry of `entries` under `key`.
pub open spec fn entry_lookup(entries: Seq<Entry>, key: Seq<char>) -> Option<u128>
    decreases entries.len(),
{
    if entries.len() == 0 {
        None
    } else if entries[0].key@ == key {
        Some(entries[0].node)
    } else {
        entry_lookup(entries.drop_first(), key)
    }
}

/// Node `n` is a trigger whose routing key is `key`.
pub open spec fn routes(n: WorkflowNode, key: Seq<char>) -> bool {
    n.node is Trigger && trigger_key(n.node->Trigger_0, key)
}

/// Index of the last node of `nodes` that routes `key`, or -1.
pub open spec fn last_route(nodes: Seq<WorkflowNode>, key: Seq<char>) -> int
    decreases nodes.len(),
{
    if nodes.len() == 0 {
        -1
    } else if routes(nodes.last(), key) {
        nodes.len() - 1
    } else {
        last_route(nodes.drop_last(), key)
    }
}

proof fn lemma_last_route(nodes: Seq<WorkflowNode>, key: Seq<char>)
    ensures
        -1 <= last_route(nodes, key) < nodes.len(),
        last_route(nodes, key) >= 0 ==> routes(nodes[last_route(nodes, key)], key),
    decreases nodes.len(),
{
    if nodes.len() > 0 && !routes(nodes.last(), key) {
        lemma_last_route(nodes.drop_last(), key);
    }
}

/// The entry node for `key` among `nodes`: the last trigger whose routing key it is.
pub open spec fn entry_node(nodes: Seq<WorkflowNode>, key: Seq<char>) -> Option<u128> {
    if last_route(nodes, key) >= 0 {
        Some(nodes[last_route(nodes, key)].id)
    } else {
        None
    }
}

/// The node an entry of a well-formed workflow names is one of its nodes.
pub proof fn lemma_entry_node_exists(w: Workflow, key: Seq<char>)
    requires
        w.wf(),
        entry_lookup(w.entries@, key) is Some,
    ensures
        has_node(w.nodes@, entry_lookup(w.entries@, key)->Some_0),
{
    assert(entry_lookup(w.entries@, key) == entry_node(w.nodes@, key));
    lemma_last_route(w.nodes@, key);
    let i = last_route(w.nodes@, key);
    assert(w.nodes@[i].id == entry_lookup(w.entries@, key)->Some_0);
}

/// Index of the last node of `nodes` with identifier `id`, or -1.
pub open spec fn node_index(nodes: Seq<WorkflowNode>, id: u128) -> int
    decreases nodes.len(),
{
    if nodes.len() == 0 {
        -1
    } else if nodes.last().id == id {
        nodes.len() - 1
    } else {
        node_index(nodes.drop_last(), id)
    }
}

proof fn lemma_node_index(nodes: Seq<WorkflowNode>, id: u128)
    ensures
        -1 <= node_index(nodes, id) < nodes.len(),
        node_index(nodes, id) >= 0 <==> has_node(nodes, id),
        node_index(nodes, id) >= 0 ==> nodes[node_index(nodes, id)].id == id,
    decreases nodes.len(),
{
    if nodes.len() > 0 {
        lemma_node_index(nodes.drop_last(), id);
        if nodes.last().id != id {
            if has_node(nodes, id) {
                let i = choose|i: int| 0 <= i < nodes.len() && #[trigger] nodes[i].id == id;
                assert(nodes.drop_last()[i].id == id);
            }
            if has_node(nodes.drop_last(), id) {
                let i = choose|i: int| 0 <= i < nodes.drop_last().len() && #[trigger] nodes.drop_last()[i].id == id;
                assert(nodes[i].id == id);
            }
        } else {
            assert(nodes[nodes.len() - 1].id == id);
        }
    }
}

/// Some node has identifier `id`.
pub open spec fn has_node(nodes: Seq<WorkflowNode>, id: u128) -> bool {
    exists|i: int| 0 <= i < nodes.len() && #[trigger] nodes[i].id == id
}

/// Every link leads to a node of the definition.
pub open spec fn links_closed(nodes: Seq<WorkflowNode>, links: Seq<Link>) -> bool {
    forall|i: int| 0 <= i < links.len() ==> has_node(nodes, #[trigger] links[i].to)
}

/// Targets of the links leaving `from` that are open for `v`, in declaration order.
pub open spec fn successors(links: Seq<Link>, from: u128, v: Value) -> Seq<u128>
    decreases links.len(),
{
    if links.len() == 0 {
        Seq::empty()
    } else {
        let rest = successors(links.drop_last(), from, v);
        let l = links.last();
        if l.from == from && link_open(l, v) {
            rest.push(l.to)
        } else {
            rest
        }
    }
}

/// The keyword triggers among `nodes`, in order.
pub open spec fn keyword_triggers(nodes: Seq<WorkflowNode>) -> Seq<Trigger>
    decreases nodes.len(),
{
    if nodes.len() == 0 {
        Seq::empty()
    } else {
        let rest = keyword_triggers(nodes.drop_last());
        let n = nodes.last().node;
        if n is Trigger && n->Trigger_0 is Keyword {
            rest.push(n->Trigger_0)
        } else {
            rest
        }
    }
}

/// A compiled workflow: its nodes, its links, and the index from trigger keys to entry nodes.
pub struct Workflow {
    pub id: u128,
    pub title: String,
    pub nodes: Vec<WorkflowNode>,
    pub links: Vec<Link>,
    pub entries: Vec<Entry>,
}

proof fn lemma_trigger_key_functional(t: Trigger, k1: Seq<char>, k2: Seq<char>)
    requires
        trigger_key(t, k1),
        trigger_key(t, k2),
    ensures
        k1 == k2,
{
    if let Trigger::Shortcut { keys, .. } = t {
        lemma_shortcut_key_order_free(views(keys@), views(keys@), k1, k2);
    }
}

proof fn lemma_entry_lookup_set(entries: Seq<Entry>, i: int, e: Entry, k: Seq<char>)
    requires
        0 <= i <= entries.len(),
        i < entries.len() ==> entries[i].key@ == e.key@,
        forall|j: int| 0 <= j < i ==> entries[j].key@ != e.key@,
    ensures
        entry_lookup(if i < entries.len() { entries.update(i, e) } else { entries.push(e) }, k)
            == if k == e.key@ {
            Some(e.node)
        } else {
            entry_lookup(entries, k)
        },
    decreases entries.len(),
{
    let u = if i < entries.len() { entries.update(i, e) } else { entries.push(e) };
    if entries.len() == 0 {
        assert(u.drop_first() =~= Seq::<Entry>::empty());
        assert(entry_lookup(Seq::<Entry>::empty(), k) is None);
    } else if i == 0 {
        assert(u.drop_first() =~= entries.drop_first());
    } else {
        let t = entries.drop_first();
        if i < entries.len() {
            assert(u.drop_first() =~= t.update(i - 1, e));
        } else {
            assert(u.drop_first() =~= t.push(e));
        }
        lemma_entry_lookup_set(t, i - 1, e, k);
    }
}

fn set_entry(entries: &mut Vec<Entry>, key: String, node: u128)
    ensures
        forall|k: Seq<char>|
            #![trigger entry_lookup(final(entries)@, k)]
            entry_lookup(final(entries)@, k) == if k == key@ {
                Some(node)
            } else {
                entry_lookup(old(entries)@, k)
            },
{
    let ghost es = entries@;
    let mut i: usize = 0;
    let mut found = false;
    while i < entries.len() && !found
        invariant
            entries@ == es,
            i <= es.len(),
            found ==> i < es.len() && es[i as int].key@ == key@,
            forall|j: int| 0 <= j < i ==> es[j].key@ != key@,
        decreases es.len() - i, if found { 0int } else { 1int },
    {
        if same_text(entries[i].key.as_str(), key.as_str()) {
            found = true;
        } else {
            i = i + 1;
        }
    }
    let e = Entry { key, node };
    let ghost ge = e;
    if found {
        entries.set(i, e);
    } else {
        entries.push(e);
    }
    proof {
        assert forall|k: Seq<char>| #![trigger entry_lookup(entries@, k)]
            entry_lookup(entries@, k) == if k == ge.key@ { Some(node) } else { entry_lookup(es, k) } by {
            lemma_entry_lookup_set(es, i as int, ge, k);
        }
    }
}

impl Workflow {
    /// The graph is well formed: links closed, and the entry index
    /// routing each key to the last trigger with that key.
    pub open spec fn wf(&self) -> bool {
        &&& links_closed(self.nodes@, self.links@)
        &&& forall|k: Seq<char>| #[trigger] entry_lookup(self.entries@, k) == entry_node(self.nodes@, k)
    }

    /// Compiles a definition. Refused when a link leads to a node that is not there. Where two
    /// nodes share an identifier, the later one is the node under that identifier.
    pub fn from_config(config: WorkflowConfig) -> (r: Result<Workflow, Error>)
        ensures
            links_closed(config.nodes@, config.links@) <==> r is Ok,
            r is Err ==> r->Err_0 is DanglingLink,
            r is Err && r->Err_0 is DanglingLink ==> !has_node(config.nodes@, r->Err_0->DanglingLink_to),
            r is Ok ==> {
                let w = r->Ok_0;
                &&& w.wf()
                &&& w.id == config.id
                &&& w.title == config.title
                &&& w.nodes == config.nodes
                &&& w.links == config.links
            },
    {
        let ghost cn = config.nodes@;
        let ghost cl = config.links@;
        let nodes = config.nodes;
        let links = config.links;
        let mut l: usize = 0;
        while l < links.len()
            invariant
                nodes@ == cn,
                cn == config.nodes@,
                cl == config.links@,
                links@ == cl,
                l <= links@.len(),
                forall|a: int| 0 <= a < l ==> has_node(nodes@, #[trigger] links@[a].to),
            decreases links@.len() - l,
        {
            let to = links[l].to;
            let mut k: usize = 0;
            while k < nodes.len() && nodes[k].id != to
                invariant
                    nodes@ == cn,
                    cn == config.nodes@,
                    cl == config.links@,
                    links@ == cl,
                    k <= nodes@.len(),
                    forall|b: int| 0 <= b < k ==> #[trigger] nodes@[b].id != to,
                decreases nodes@.len() - k,
            {
                k = k + 1;
            }
            if k == nodes.len() {
                proof {
                    assert(!has_node(nodes@, to));
                    assert(!links_closed(nodes@, links@)) by {
                        assert(links@[l as int].to == to);
                    }
                }
                return Err(Error::DanglingLink { to });
            }
            l = l + 1;
        }
        let mut entries: Vec<Entry> = Vec::new();
        let mut n: usize = 0;
        while n < nodes.len()
            invariant
                nodes@ == cn,
                cn == config.nodes@,
                cl == config.links@,
                links@ == cl,
                n <= nodes@.len(),
                forall|k: Seq<char>|
                    #[trigger] entry_lookup(entries@, k) == entry_node(nodes@.take(n as int), k),
            decreases nodes@.len() - n,
        {
            let ghost before = entries@;
            if let Node::Trigger(t) = &nodes[n].node {
                let key = t.id();
                let ghost gk = key@;
                set_entry(&mut entries, key, nodes[n].id);
                proof {
                    let s = nodes@.take(n + 1);
                    assert(s.drop_last() =~= nodes@.take(n as int));
                    assert(s.last() == nodes@[n as int]);
                    assert forall|k: Seq<char>| #[trigger] entry_lookup(entries@, k) == entry_node(s, k) by {
                        lemma_last_route(nodes@.take(n as int), k);
                        if k != gk && routes(nodes@[n as int], k) {
                            lemma_trigger_key_functional(*t, k, gk);
                        }
                        if k != gk && last_route(s, k) >= 0 {
                            assert(s[last_route(s, k)] == nodes@.take(n as int)[last_route(s, k)]);
                        }
                    }
                }
            } else {
                proof {
                    let s = nodes@.take(n + 1);
                    assert(s.drop_last() =~= nodes@.take(n as int));
                    assert(s.last() == nodes@[n as int]);
                    assert forall|k: Seq<char>| #[trigger] entry_lookup(entries@, k) == entry_node(s, k) by {
                        lemma_last_route(nodes@.take(n as int), k);
                        if last_route(s, k) >= 0 {
                            assert(s[last_route(s, k)] == nodes@.take(n as int)[last_route(s, k)]);
                        }
                    }
                }
            }
            n = n + 1;
        }
        assert(nodes@.take(n as int) =~= nodes@);
        Ok(Workflow { id: config.id, title: config.title, nodes, links, entries })
    }

    /// Whether some trigger routes `key`.
    pub fn has_trigger(&self, key: &str) -> (r: bool)
        requires
            self.wf(),
        ensures
            r == (entry_node(self.nodes@, key@) is Some),
    {
        self.entry(key).is_some()
    }

    /// The entry node for `key`.
    pub fn entry(&self, key: &str) -> (r: Option<u128>)
        ensures
            r == entry_lookup(self.entries@, key@),
    {
        let mut i: usize = 0;
        assert(self.entries@.skip(0) =~= self.entries@);
        while i < self.entries.len()
            invariant
                i <= self.entries@.len(),
                entry_lookup(self.entries@.skip(i as int), key@) == entry_lookup(self.entries@, key@),
            decreases self.entries@.len() - i,
        {
            proof {
                assert(self.entries@.skip(i as int).drop_first() =~= self.entries@.skip(i + 1));
            }
            if same_text(self.entries[i].key.as_str(), key) {
                return Some(self.entries[i].node);
            }
            i = i + 1;
        }
        None
    }

    /// The trigger index: each routing key with its entry node.
    pub fn get_triggers(&self) -> (r: &Vec<Entry>)
        ensures
            r == &self.entries,
    {
        &self.entries
    }

    /// The keyword triggers, in declaration order.
    pub fn get_keywords(&self) -> (r: Vec<&Trigger>)
        ensures
            r@.len() == keyword_triggers(self.nodes@).len(),
            forall|i: int| 0 <= i < r@.len() ==> *(#[trigger] r@[i]) == keyword_triggers(self.nodes@)[i],
    {
        let mut out: Vec<&Trigger> = Vec::new();
        let mut i: usize = 0;
        while i < self.nodes.len()
            invariant
                i <= self.nodes@.len(),
                out@.len() == keyword_triggers(self.nodes@.take(i as int)).len(),
                forall|k: int| 0 <= k < out@.len() ==> *(#[trigger] out@[k]) == keyword_triggers(self.nodes@.take(i as int))[k],
            decreases self.nodes@.len() - i,
        {
            proof {
                let t = self.nodes@.take(i + 1);
                assert(t.drop_last() =~= self.nodes@.take(i as int));
                assert(t.last() == self.nodes@[i as int]);
            }
            if let Node::Trigger(t) = &self.nodes[i].node {
                if let Trigger::Keyword { .. } = t {
                    out.push(t);
                }
            }
            i = i + 1;
        }
        assert(self.nodes@.take(i as int) =~= self.nodes@);
        out
    }

    /// The node under identifier `id`: the last node declared with it.
    pub fn get_node(&self, id: u128) -> (r: Option<&WorkflowNode>)
        ensures
            r is Some <==> has_node(self.nodes@, id),
            r is Some ==> *r->Some_0 == self.nodes@[node_index(self.nodes@, id)],
    {
        proof {
            lemma_node_index(self.nodes@, id);
        }
        let mut i: usize = self.nodes.len();
        assert(self.nodes@.take(i as int) =~= self.nodes@);
        while i > 0
            invariant
                i <= self.nodes@.len(),
                node_index(self.nodes@.take(i as int), id) == node_index(self.nodes@, id),
            decreases i,
        {
            let ghost t = self.nodes@.take(i as int);
            i = i - 1;
            proof {
                assert(t.drop_last() =~= self.nodes@.take(i as int));
                assert(t.last() == self.nodes@[i as int]);
            }
            if self.nodes[i].id == id {
                return Some(&self.nodes[i]);
            }
        }
        None
    }

    /// Identifiers of the nodes that follow `id` for these params: the targets of the links
    /// leaving `id` whose condition holds of the value, in declaration order.
    pub fn next_nodes(&self, id: u128, params: &Params) -> (r: Vec<u128>)
        ensures
            r@ == successors(self.links@, id, params.value),
    {
        let mut out: Vec<u128> = Vec::new();
        let mut i: usize = 0;
        while i < self.links.len()
            invariant
                i <= self.links@.len(),
                out@ == successors(self.links@.take(i as int), id, params.value),
            decreases self.links@.len() - i,
        {
            let link = &self.links[i];
            if link.from == id && link.is_open(&params.value) {
                out.push(link.to);
            }
            proof {
                let t = self.links@.take(i + 1);
                assert(t.drop_last() =~= self.links@.take(i as int));
                assert(t.last() == self.links@[i as int]);
            }
            i = i + 1;
        }
        assert(self.links@.take(i as int) =~= self.links@);
        out
    }
}

/// Collects the JSON text of a workflow definition; reading the text into a `WorkflowConfig`
/// is the driver's part.
pub struct WorkflowBuilder {
    pub json: Option<String>,
}

impl WorkflowBuilder {
    /// A builder with no definition yet.
    pub fn default() -> (r: WorkflowBuilder)
        ensures
            r.json is None,
    {
        WorkflowBuilder { json: None }
    }

    /// The builder holding `json` as its definition.
    pub fn json(self, json: String) -> (r: WorkflowBuilder)
        ensures
            r.json == Some(json),
    {
        WorkflowBuilder { json: Some(json) }
    }
}

/// The workflows a front end keeps, by name.
pub struct Workflows;

impl Workflows {
    /// Whether `name` is among the names already taken.
    pub fn check_name_exist(names: &Vec<String>, name: &str) -> (r: bool)
        ensures
            r == exists|i: int| 0 <= i < names@.len() && #[trigger] names@[i]@ == name@,
    {
        let mut i: usize = 0;
        while i < names.len()
            invariant
                i <= names@.len(),
                forall|j: int| 0 <= j < i ==> #[trigger] names@[j]@ != name@,
            decreases names@.len() - i,
        {
            if same_text(names[i].as_str(), name) {
                return true;
            }
            i = i + 1;
        }
        false
    }
}

} // verus!
