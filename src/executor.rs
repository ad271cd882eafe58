//! The executor: live workflow instances, the internal work queue, and the suspend/resume
//! protocol with the driver.
use crate::error::Error;
use crate::json::{Value, same_members, same_value};
use crate::link::Link;
use crate::node::{Effect, Node, Outcome, Step, executes, finishes};
use crate::params::Params;
use crate::template::Env;
use crate::workflow::{Workflow, WorkflowConfig, entry_lookup, has_node, links_closed, node_index, successors};
use vstd::prelude::*;

verus! {

/// Where a work item stands: an instance (by its pid), the stable workflow identity, a node.
#[derive(Clone, Copy, Debug, PartialEq, Eq, Structural)]
pub struct WorkNode {
    pub workflow_pid: usize,
    pub workflow_id: u128,
    pub node_id: u128,
}

/// One pending hop of the graph: a node of an instance and the params it runs on or ran on.
pub struct Work {
    pub work_node: WorkNode,
    pub params: Params,
}

impl Work {
    pub fn workflow_id(&self) -> (r: u128)
        ensures
            r == self.work_node.workflow_id,
    {
        self.work_node.workflow_id
    }

    pub fn workflow_pid(&self) -> (r: usize)
        ensures
            r == self.work_node.workflow_pid,
    {
        self.work_node.workflow_pid
    }

    pub fn node_id(&self) -> (r: u128)
        ensures
            r == self.work_node.node_id,
    {
        self.work_node.node_id
    }

    /// Answers the pending prompt with `value`: the prompt is cleared and `value` becomes the
    /// value of the params.
    pub fn resolve_value(&mut self, value: Value)
        ensures
            final(self).work_node == old(self).work_node,
            final(self).params.value == value,
            final(self).params.context == old(self).params.context,
            final(self).params.prompt is None,
    {
        self.params.take_prompt();
        self.params.set_value(value);
    }
}

/// One registration of a workflow. An active instance is routable by its triggers; an
/// inactive one is draining: it stays until no work of it is in flight.
pub struct Instance {
    pub workflow: Workflow,
    /// Works of this instance in flight: queued, waiting on outside work, or with the driver.
    pub running: u64,
    pub active: bool,
}

/// A node waiting for the outcome of the outside work it asked for.
pub struct Pending {
    pub work_node: WorkNode,
    pub effect: Effect,
    pub params: Params,
}

/// The executor. The pid of an instance is its slot; a collected instance leaves an empty slot.
pub struct Executor {
    pub slots: Vec<Option<Instance>>,
    pub queue: Vec<Work>,
    pub outbox: Vec<Work>,
    pub pending: Option<Pending>,
}

/// Number of works of `q` that belong to instance `pid`.
pub open spec fn count_pid(q: Seq<Work>, pid: int) -> nat
    decreases q.len(),
{
    if q.len() == 0 {
        0
    } else {
        count_pid(q.drop_last(), pid) + if q.last().work_node.workflow_pid as int == pid {
            1nat
        } else {
            0nat
        }
    }
}

proof fn lemma_count_front(q: Seq<Work>, pid: int)
    requires
        q.len() > 0,
    ensures
        count_pid(q, pid) == count_pid(q.drop_first(), pid) + if q[0].work_node.workflow_pid as int
            == pid {
            1nat
        } else {
            0nat
        },
    decreases q.len(),
{
    if q.len() > 1 {
        lemma_count_front(q.drop_last(), pid);
        assert(q.drop_last().drop_first() =~= q.drop_first().drop_last());
        assert(q.drop_first().last() == q.last());
        assert(q.drop_last()[0] == q[0]);
    } else {
        assert(q.drop_first().len() == 0);
        assert(q.drop_last().len() == 0);
        assert(q.last() == q[0]);
        assert(count_pid(q.drop_first(), pid) == 0);
        assert(count_pid(q.drop_last(), pid) == 0);
    }
}

proof fn lemma_count_zero(q: Seq<Work>, pid: int)
    requires
        count_pid(q, pid) == 0,
    ensures
        forall|i: int| 0 <= i < q.len() ==> (#[trigger] q[i]).work_node.workflow_pid as int != pid,
    decreases q.len(),
{
    if q.len() > 0 {
        lemma_count_zero(q.drop_last(), pid);
        assert forall|i: int| 0 <= i < q.len() implies (#[trigger] q[i]).work_node.workflow_pid as int != pid by {
            if i < q.len() - 1 {
                assert(q[i] == q.drop_last()[i]);
            }
        }
    }
}

/// Works waiting on outside work that belong to instance `pid`: none or one.
pub open spec fn pending_count(p: Option<Pending>, pid: int) -> nat {
    match p {
        Some(x) => if x.work_node.workflow_pid as int == pid {
            1
        } else {
            0
        },
        None => 0,
    }
}

/// `wn` names a node of a live instance of the workflow it claims.
pub open spec fn live(slots: Seq<Option<Instance>>, wn: WorkNode) -> bool {
    &&& wn.workflow_pid < slots.len()
    &&& slots[wn.workflow_pid as int] is Some
    &&& slots[wn.workflow_pid as int]->Some_0.workflow.id == wn.workflow_id
    &&& has_node(slots[wn.workflow_pid as int]->Some_0.workflow.nodes@, wn.node_id)
}

/// Where `key` routes: the entry node in the most recently registered active instance that
/// has an entry for it.
pub open spec fn route(slots: Seq<Option<Instance>>, key: Seq<char>) -> Option<WorkNode>
    decreases slots.len(),
{
    if slots.len() == 0 {
        None
    } else {
        let s = slots.last();
        if s is Some && s->Some_0.active && entry_lookup(s->Some_0.workflow.entries@, key) is Some {
            Some(
                WorkNode {
                    workflow_pid: (slots.len() - 1) as usize,
                    workflow_id: s->Some_0.workflow.id,
                    node_id: entry_lookup(s->Some_0.workflow.entries@, key)->Some_0,
                },
            )
        } else {
            route(slots.drop_last(), key)
        }
    }
}

/// A slot after the workflow `id` is retired: its active instance becomes draining, or is
/// collected at once when no work of it is in flight.
pub open spec fn retire(s: Option<Instance>, id: u128) -> Option<Instance> {
    match s {
        Some(inst) => if inst.active && inst.workflow.id == id {
            if inst.running == 0 {
                None
            } else {
                Some(Instance { workflow: inst.workflow, running: inst.running, active: false })
            }
        } else {
            s
        },
        None => s,
    }
}

/// Every slot after retiring workflow `id`.
pub open spec fn retire_all(slots: Seq<Option<Instance>>, id: u128) -> Seq<Option<Instance>> {
    slots.map_values(|s: Option<Instance>| retire(s, id))
}

/// Invariant of slot `p`: a well-formed workflow, a draining instance has work in flight,
/// and the count covers the queued and waiting works of the instance.
pub open spec fn slot_ok(slots: Seq<Option<Instance>>, queue: Seq<Work>, pending: Option<Pending>, p: int) -> bool {
    let s = slots[p];
    s is Some ==> {
        let inst = s->Some_0;
        &&& inst.workflow.wf()
        &&& (!inst.active ==> inst.running > 0)
        &&& inst.running >= count_pid(queue, p) + pending_count(pending, p)
    }
}

impl Executor {

    pub open spec fn wf(&self) -> bool {
        &&& forall|p: int| 0 <= p < self.slots@.len() ==> #[trigger] slot_ok(self.slots@, self.queue@, self.pending, p)
        &&& forall|p: int, q: int|
            0 <= p < q < self.slots@.len() && (#[trigger] self.slots@[p]) is Some && (#[trigger] self.slots@[q]) is Some
                && self.slots@[p]->Some_0.active && self.slots@[q]->Some_0.active
                ==> self.slots@[p]->Some_0.workflow.id != self.slots@[q]->Some_0.workflow.id
        &&& forall|i: int| 0 <= i < self.queue@.len() ==> live(self.slots@, (#[trigger] self.queue@[i]).work_node)
        &&& self.pending is Some ==> live(self.slots@, self.pending->Some_0.work_node)
    }

    /// Nothing is left to run: the queue is empty, or a node waits on outside work.
    pub open spec fn settled(&self) -> bool {
        self.pending is Some || self.queue@.len() == 0
    }

    /// An executor with no instances and no work.
    pub fn default() -> (r: Executor)
        ensures
            r.wf(),
            r.slots@.len() == 0,
            r.queue@.len() == 0,
            r.outbox@.len() == 0,
            r.pending is None,
    {
        Executor { slots: Vec::new(), queue: Vec::new(), outbox: Vec::new(), pending: None }
    }
}

/// The node a live work names: the last node of its instance's workflow under that identifier.
pub open spec fn node_at(slots: Seq<Option<Instance>>, wn: WorkNode) -> Node {
    let nodes = slots[wn.workflow_pid as int]->Some_0.workflow.nodes@;
    nodes[node_index(nodes, wn.node_id)].node
}

/// A slot after `k` of its works in flight are dropped: a draining instance left with none
/// is collected.
pub open spec fn lowered(s: Option<Instance>, k: nat) -> Option<Instance> {
    match s {
        Some(i) => if !i.active && i.running == k {
            None
        } else {
            Some(Instance { workflow: i.workflow, running: (i.running - k) as u64, active: i.active })
        },
        None => None,
    }
}

/// Every slot after the works of `q`, and one more work of instance `extra`, are dropped.
pub open spec fn drop_works(slots: Seq<Option<Instance>>, q: Seq<Work>, extra: int) -> Seq<Option<Instance>> {
    Seq::new(
        slots.len(),
        |p: int| lowered(slots[p], count_pid(q, p) + if p == extra { 1nat } else { 0nat }),
    )
}

/// How a run of the queue that took the first `k` works ended: the first `k` works finished
/// and went to the outbox in queue order; then either the queue was empty, or work `k` waits
/// on outside work, or work `k` failed, the rest of the queue was dropped and the counts of
/// the dropped works (with the failed one) were released.
pub open spec fn drained_at(old: Executor, env: Env, new: Executor, r: Result<(), Error>, k: int) -> bool {
    let q = old.queue@;
    let n0 = old.outbox@.len() as int;
    &&& 0 <= k <= q.len()
    &&& new.outbox@.len() == n0 + k
    &&& new.outbox@.subrange(0, n0) == old.outbox@
    &&& forall|i: int|
        0 <= i < k ==> (#[trigger] new.outbox@[n0 + i]).work_node == q[i].work_node && executes(
            node_at(old.slots@, q[i].work_node),
            q[i].params,
            env,
            Step::Done(new.outbox@[n0 + i].params),
        )
    &&& if k == q.len() {
        &&& r is Ok
        &&& new.pending is None
        &&& new.queue@.len() == 0
        &&& new.slots == old.slots
    } else {
        let w = q[k];
        let n = node_at(old.slots@, w.work_node);
        ||| {
            &&& r is Ok
            &&& new.pending is Some
            &&& new.pending->Some_0.work_node == w.work_node
            &&& executes(n, w.params, env, Step::Effect(new.pending->Some_0.effect, new.pending->Some_0.params))
            &&& new.queue@ == q.skip(k + 1)
            &&& new.slots == old.slots
        }
        ||| {
            &&& r is Err
            &&& executes(n, w.params, env, Step::Failed(r->Err_0))
            &&& new.pending is None
            &&& new.queue@.len() == 0
            &&& new.slots@ == drop_works(old.slots@, q.skip(k + 1), w.work_node.workflow_pid as int)
        }
    }
}

/// `new` and `r` are what running the queue of `old` gives. Nothing runs while a node waits
/// on outside work.
pub open spec fn drained(old: Executor, env: Env, new: Executor, r: Result<(), Error>) -> bool {
    if old.pending is Some {
        new == old && r is Ok
    } else {
        exists|k: int| #[trigger] drained_at(old, env, new, r, k)
    }
}

/// Number of works of `q` that belong to instance `pid`.
fn count_in(q: &Vec<Work>, pid: usize) -> (r: usize)
    ensures
        r == count_pid(q@, pid as int),
{
    let mut n: usize = 0;
    let mut i: usize = 0;
    while i < q.len()
        invariant
            i <= q@.len(),
            n == count_pid(q@.take(i as int), pid as int),
            n <= i,
        decreases q@.len() - i,
    {
        proof {
            let t = q@.take(i + 1);
            assert(t.drop_last() =~= q@.take(i as int));
            assert(t.last() == q@[i as int]);
        }
        if q[i].work_node.workflow_pid == pid {
            n = n + 1;
        }
        i = i + 1;
    }
    assert(q@.take(i as int) =~= q@);
    n
}

impl Executor {
    /// Drops every queued work and one more work of instance `extra`, releasing their counts;
    /// a draining instance left with no work in flight is collected.
    fn release(&mut self, extra: usize)
        requires
            old(self).pending is None,
            forall|p: int| 0 <= p < old(self).slots@.len() && (#[trigger] old(self).slots@[p]) is Some ==> {
                let i = old(self).slots@[p]->Some_0;
                &&& i.workflow.wf()
                &&& (!i.active ==> i.running > 0)
                &&& i.running >= count_pid(old(self).queue@, p) + if p == extra as int { 1nat } else { 0nat }
            },
            forall|p: int, q: int|
                0 <= p < q < old(self).slots@.len() && (#[trigger] old(self).slots@[p]) is Some && (#[trigger] old(self).slots@[q]) is Some
                    && old(self).slots@[p]->Some_0.active && old(self).slots@[q]->Some_0.active
                    ==> old(self).slots@[p]->Some_0.workflow.id != old(self).slots@[q]->Some_0.workflow.id,
        ensures
            final(self).wf(),
            final(self).slots@ == drop_works(old(self).slots@, old(self).queue@, extra as int),
            final(self).queue@.len() == 0,
            final(self).pending is None,
            final(self).outbox == old(self).outbox,
    {
        let mut q: Vec<Work> = Vec::new();
        std::mem::swap(&mut q, &mut self.queue);
        let ghost s0 = self.slots@;
        let mut p: usize = 0;
        while p < self.slots.len()
            invariant
                self.slots@.len() == s0.len(),
                s0 == old(self).slots@,
                q@ == old(self).queue@,
                self.queue@.len() == 0,
                self.pending is None,
                self.outbox == old(self).outbox,
                p <= s0.len(),
                forall|j: int| 0 <= j < p ==> self.slots@[j] == lowered(s0[j], count_pid(q@, j) + if j == extra as int { 1nat } else { 0nat }),
                forall|j: int| p <= j < s0.len() ==> self.slots@[j] == s0[j],
                forall|j: int| 0 <= j < s0.len() && (#[trigger] s0[j]) is Some ==> {
                    let i = s0[j]->Some_0;
                    &&& i.workflow.wf()
                    &&& (!i.active ==> i.running > 0)
                    &&& i.running >= count_pid(q@, j) + if j == extra as int { 1nat } else { 0nat }
                },
            decreases s0.len() - p,
        {
            let k: u128 = count_in(&q, p) as u128 + if p == extra { 1u128 } else { 0u128 };
            let info = match &self.slots[p] {
                Some(inst) => Some((inst.running, inst.active)),
                None => None,
            };
            match info {
                Some((running, active)) => {
                    assert(s0[p as int] is Some);
                    let left = (running as u128 - k) as u64;
                    if !active && left == 0 {
                        self.slots.set(p, None);
                    } else {
                        self.set_slot_running(p, left);
                    }
                },
                None => {},
            }
            p = p + 1;
        }
        proof {
            assert(self.slots@ =~= drop_works(s0, q@, extra as int));
            assert forall|j: int| 0 <= j < self.slots@.len() implies #[trigger] slot_ok(self.slots@, self.queue@, self.pending, j) by {
                assert(count_pid(self.queue@, j) == 0);
                if s0[j] is Some {
                }
            }
            assert forall|a: int, b: int|
                0 <= a < b < self.slots@.len() && (#[trigger] self.slots@[a]) is Some && (#[trigger] self.slots@[b]) is Some
                    && self.slots@[a]->Some_0.active && self.slots@[b]->Some_0.active
                implies self.slots@[a]->Some_0.workflow.id != self.slots@[b]->Some_0.workflow.id by {
                assert(s0[a] is Some && s0[b] is Some);
            }
        }
    }

    /// Runs queued works in order until the queue is empty, a node waits on outside work, or a
    /// node fails. Each node that finishes hands its work to the driver through the outbox. A
    /// failure drops the works still queued, releases their counts and that of the failed
    /// work, and is returned.
    pub fn drain(&mut self, env: &Env) -> (r: Result<(), Error>)
        requires
            old(self).wf(),
        ensures
            final(self).wf(),
            drained(*old(self), *env, *final(self), r),
    {
        if self.pending.is_some() {
            return Ok(());
        }
        let ghost s0 = *self;
        let ghost q0 = self.queue@;
        let ghost n0 = self.outbox@.len() as int;
        let ghost mut k: int = 0;
        while self.queue.len() > 0
            invariant
                self.wf(),
                self.slots == s0.slots,
                self.pending is None,
                s0.pending is None,
                s0 == *old(self),
                q0 == s0.queue@,
                n0 == s0.outbox@.len(),
                0 <= k <= q0.len(),
                self.queue@ == q0.skip(k),
                self.outbox@.len() == n0 + k,
                self.outbox@.subrange(0, n0) == s0.outbox@,
                forall|i: int|
                    0 <= i < k ==> (#[trigger] self.outbox@[n0 + i]).work_node == q0[i].work_node && executes(
                        node_at(s0.slots@, q0[i].work_node),
                        q0[i].params,
                        *env,
                        Step::Done(self.outbox@[n0 + i].params),
                    ),
            decreases self.queue@.len(),
        {
            let ghost before = *self;
            let work = self.queue.remove(0);
            proof {
                assert(self.queue@ =~= before.queue@.drop_first());
                assert(work == q0[k]);
                assert(q0.skip(k + 1) =~= before.queue@.drop_first());
                assert forall|p: int| 0 <= p < self.slots@.len() implies #[trigger] slot_ok(self.slots@, self.queue@, self.pending, p) by {
                    lemma_count_front(before.queue@, p);
                    assert(slot_ok(before.slots@, before.queue@, before.pending, p));
                }
                assert forall|i: int| 0 <= i < self.queue@.len() implies live(
                    self.slots@,
                    (#[trigger] self.queue@[i]).work_node,
                ) by {
                    assert(self.queue@[i] == before.queue@[i + 1]);
                }
                assert(live(self.slots@, before.queue@[0].work_node));
            }
            let Work { work_node, params } = work;
            let pid = work_node.workflow_pid;
            let step = match &self.slots[pid] {
                Some(inst) => match inst.workflow.get_node(work_node.node_id) {
                    Some(n) => n.node.execute(params, env),
                    None => Step::Failed(Error::UnknownNode { node: work_node.node_id }),
                },
                None => Step::Failed(Error::UnknownInstance { pid: pid as u64 }),
            };
            proof {
                assert(executes(node_at(s0.slots@, work_node), q0[k].params, *env, step));
            }
            match step {
                Step::Done(p) => {
                    self.outbox.push(Work { work_node, params: p });
                    proof {
                        assert(self.outbox@.subrange(0, n0) =~= s0.outbox@);
                        assert(self.outbox@[n0 + k].work_node == q0[k].work_node);
                        k = k + 1;
                    }
                },
                Step::Effect(e, p) => {
                    self.pending = Some(Pending { work_node, effect: e, params: p });
                    proof {
                        assert forall|p: int| 0 <= p < self.slots@.len() implies #[trigger] slot_ok(self.slots@, self.queue@, self.pending, p) by {
                            lemma_count_front(before.queue@, p);
                            assert(slot_ok(before.slots@, before.queue@, before.pending, p));
                        }
                        assert(drained_at(s0, *env, *self, Ok(()), k));
                    }
                    return Ok(());
                },
                Step::Failed(err) => {
                    proof {
                        assert forall|p: int| 0 <= p < self.slots@.len() && (#[trigger] self.slots@[p]) is Some implies {
                            let i = self.slots@[p]->Some_0;
                            &&& i.workflow.wf()
                            &&& (!i.active ==> i.running > 0)
                            &&& i.running >= count_pid(self.queue@, p) + if p == pid as int { 1nat } else { 0nat }
                        } by {
                            lemma_count_front(before.queue@, p);
                            assert(slot_ok(before.slots@, before.queue@, before.pending, p));
                        }
                    }
                    self.release(pid);
                    let ghost r: Result<(), Error> = Err(err);
                    proof {
                        assert(drained_at(s0, *env, *self, r, k));
                    }
                    return Err(err);
                },
            }
        }
        proof {
            assert(drained_at(s0, *env, *self, Ok(()), k));
        }
        Ok(())
    }

    /// The outside work a node waits on, if any.
    pub fn pending_effect(&self) -> (r: Option<&Effect>)
        ensures
            r is Some <==> self.pending is Some,
            r is Some ==> *r->Some_0 == self.pending->Some_0.effect,
    {
        match &self.pending {
            Some(p) => Some(&p.effect),
            None => None,
        }
    }

    /// Finishes the node that waits on outside work with the outcome of that work: a failure
    /// drops the queue, releases the counts of the dropped works and of the failed one, and
    /// is returned; otherwise the finished work goes to the outbox and the queue runs on.
    /// With nothing waiting, the queue just runs.
    pub fn complete_effect(&mut self, outcome: Outcome, env: &Env) -> (r: Result<(), Error>)
        requires
            old(self).wf(),
        ensures
            final(self).wf(),
            old(self).pending is None ==> drained(*old(self), *env, *final(self), r),
            old(self).pending is Some ==> {
                let p = old(self).pending->Some_0;
                exists|f: Result<Params, Error>|
                    #[trigger] finishes(p.effect, p.params, outcome, f) && (f is Err ==> {
                        &&& r == Err::<(), Error>(f->Err_0)
                        &&& final(self).queue@.len() == 0
                        &&& final(self).pending is None
                        &&& final(self).outbox == old(self).outbox
                        &&& final(self).slots@ == drop_works(
                            old(self).slots@,
                            old(self).queue@,
                            p.work_node.workflow_pid as int,
                        )
                    }) && (f is Ok ==> exists|mid: Executor|
                        {
                            &&& mid.slots == old(self).slots
                            &&& mid.queue == old(self).queue
                            &&& mid.pending is None
                            &&& mid.outbox@ == old(self).outbox@.push(
                                (Work { work_node: p.work_node, params: f->Ok_0 }),
                            )
                            &&& #[trigger] drained(mid, *env, *final(self), r)
                        })
            },
    {
        let ghost before = *self;
        match self.pending.take() {
            None => self.drain(env),
            Some(p) => {
                let Pending { work_node, effect, params } = p;
                let f = effect.finish(params, outcome);
                let ghost gf = f;
                match f {
                    Ok(params) => {
                        self.outbox.push(Work { work_node, params });
                        let ghost mid = *self;
                        proof {
                            assert forall|q: int| 0 <= q < self.slots@.len() implies #[trigger] slot_ok(self.slots@, self.queue@, self.pending, q) by {
                                assert(slot_ok(before.slots@, before.queue@, before.pending, q));
                            }
                        }
                        let r = self.drain(env);
                        proof {
                            assert(mid.outbox@ == before.outbox@.push((Work { work_node, params: gf->Ok_0 })));
                            assert(finishes(effect, before.pending->Some_0.params, outcome, gf));
                        }
                        r
                    },
                    Err(e) => {
                        proof {
                            assert forall|q: int| 0 <= q < self.slots@.len() && (#[trigger] self.slots@[q]) is Some implies {
                                let i = self.slots@[q]->Some_0;
                                &&& i.workflow.wf()
                                &&& (!i.active ==> i.running > 0)
                                &&& i.running >= count_pid(self.queue@, q) + if q == work_node.workflow_pid as int { 1nat } else { 0nat }
                            } by {
                                assert(slot_ok(before.slots@, before.queue@, before.pending, q));
                            }
                        }
                        self.release(work_node.workflow_pid);
                        proof {
                            assert(finishes(effect, before.pending->Some_0.params, outcome, gf));
                        }
                        Err(e)
                    },
                }
            },
        }
    }

    /// Takes the works handed to the driver, in the order they were handed over.
    pub fn take_works(&mut self) -> (r: Vec<Work>)
        ensures
            r@ == old(self).outbox@,
            final(self).outbox@.len() == 0,
            final(self).slots == old(self).slots,
            final(self).queue == old(self).queue,
            final(self).pending == old(self).pending,
    {
        let mut out: Vec<Work> = Vec::new();
        std::mem::swap(&mut out, &mut self.outbox);
        out
    }
}

proof fn lemma_count_absent(q: Seq<Work>, pid: int)
    requires
        forall|i: int| 0 <= i < q.len() ==> (#[trigger] q[i]).work_node.workflow_pid as int != pid,
    ensures
        count_pid(q, pid) == 0,
    decreases q.len(),
{
    if q.len() > 0 {
        assert forall|i: int| 0 <= i < q.drop_last().len() implies (#[trigger] q.drop_last()[i]).work_node.workflow_pid as int != pid by {
            assert(q.drop_last()[i] == q[i]);
        }
        lemma_count_absent(q.drop_last(), pid);
    }
}

proof fn lemma_successors_closed(links: Seq<Link>, from: u128, v: Value)
    ensures
        forall|k: int| 0 <= k < successors(links, from, v).len() ==> exists|i: int|
            0 <= i < links.len() && links[i].to == #[trigger] successors(links, from, v)[k],
    decreases links.len(),
{
    if links.len() > 0 {
        lemma_successors_closed(links.drop_last(), from, v);
        let rest = successors(links.drop_last(), from, v);
        assert forall|k: int| 0 <= k < successors(links, from, v).len() implies exists|i: int|
            0 <= i < links.len() && links[i].to == #[trigger] successors(links, from, v)[k] by {
            if k < rest.len() {
                let i = choose|i: int| 0 <= i < links.drop_last().len() && links.drop_last()[i].to == #[trigger] rest[k];
                assert(links[i] == links.drop_last()[i]);
            } else {
                assert(links[links.len() - 1].to == successors(links, from, v)[k]);
            }
        }
    }
}

/// The value a resumed work goes on with: the driver's answer, or the value it had.
pub open spec fn resumed_value(work: Work, value: Option<Value>) -> Value {
    match value {
        Some(v) => v,
        None => work.params.value,
    }
}

/// The value a trigger starts with: its input, or null.
pub open spec fn input_value(input: Option<Value>) -> Value {
    match input {
        Some(v) => v,
        None => Value::Null,
    }
}

/// The slots with one more work in flight for instance `pid`.
pub open spec fn bumped(slots: Seq<Option<Instance>>, pid: int) -> Seq<Option<Instance>> {
    let inst = slots[pid]->Some_0;
    slots.update(
        pid,
        Some(Instance { workflow: inst.workflow, running: (inst.running + 1) as u64, active: inst.active }),
    )
}

/// `new` and `r` are what triggering `key` with `input` gives from `old`: nothing happens on a
/// routing miss; a full count refuses; otherwise the root work (the entry node, on params
/// holding the input with no variables and no prompt) is counted and queued, and the queue runs.
pub open spec fn triggered(
    old: Executor,
    key: Seq<char>,
    input: Option<Value>,
    env: Env,
    new: Executor,
    r: Result<bool, Error>,
) -> bool {
    match route(old.slots@, key) {
        None => r == Ok::<bool, Error>(false) && new == old,
        Some(wn) => if old.slots@[wn.workflow_pid as int]->Some_0.running == u64::MAX {
            r == Err::<bool, Error>(Error::TooManyWorks { pid: wn.workflow_pid as u64 }) && new == old
        } else {
            exists|mid: Executor, dr: Result<(), Error>|
                {
                    let root = mid.queue@.last();
                    &&& mid.queue@.len() == old.queue@.len() + 1
                    &&& mid.queue@.drop_last() == old.queue@
                    &&& root.work_node == wn
                    &&& root.params.value == input_value(input)
                    &&& root.params.context@.len() == 0
                    &&& root.params.prompt is None
                    &&& mid.slots@ == bumped(old.slots@, wn.workflow_pid as int)
                    &&& mid.outbox == old.outbox
                    &&& mid.pending == old.pending
                    &&& #[trigger] drained(mid, env, new, dr)
                    &&& r == match dr {
                        Ok(_) => Ok::<bool, Error>(true),
                        Err(e) => Err::<bool, Error>(e),
                    }
                }
        },
    }
}

/// An instance after one of its works is resumed with `n` successors, `held` of its works
/// being queued or waiting on outside work: the successors are counted, and the resumed work
/// is no longer, unless the count holds nothing beyond `held` (a work resumed twice); a
/// draining instance left at zero is collected.
pub open spec fn after_resume(inst: Instance, n: nat, held: nat) -> Option<Instance> {
    let running = inst.running + n - if inst.running > held {
        1int
    } else {
        0int
    };
    if !inst.active && running == 0 {
        None
    } else {
        Some(Instance { workflow: inst.workflow, running: running as u64, active: inst.active })
    }
}

/// `new` is `old` after resuming `work` with `value`: one queued work per successor of the
/// node, in link order, each on a copy of the resumed params with the prompt cleared.
pub open spec fn resumed(old: Executor, work: Work, value: Option<Value>, new: Executor) -> bool {
    let pid = work.work_node.workflow_pid as int;
    let inst = old.slots@[pid]->Some_0;
    let v = resumed_value(work, value);
    let succ = successors(inst.workflow.links@, work.work_node.node_id, v);
    let n = old.queue@.len();
    &&& new.queue@.len() == n + succ.len()
    &&& new.queue@.subrange(0, n as int) == old.queue@
    &&& new.slots@ == old.slots@.update(
        pid,
        after_resume(inst, succ.len(), count_pid(old.queue@, pid) + pending_count(old.pending, pid)),
    )
    &&& new.outbox == old.outbox
    &&& new.pending == old.pending
    &&& forall|k: int|
        0 <= k < succ.len() ==> {
            let w = #[trigger] new.queue@[n + k];
            &&& w.work_node == WorkNode {
                workflow_pid: work.work_node.workflow_pid,
                workflow_id: work.work_node.workflow_id,
                node_id: succ[k],
            }
            &&& same_value(w.params.value, v)
            &&& same_members(w.params.context@, work.params.context@)
            &&& w.params.prompt is None
        }
}

/// Resuming `work` with `value` would take the instance's count past its limit.
pub open spec fn overflows(e: Executor, work: Work, value: Option<Value>) -> bool {
    let inst = e.slots@[work.work_node.workflow_pid as int]->Some_0;
    inst.running + successors(inst.workflow.links@, work.work_node.node_id, resumed_value(work, value)).len()
        > u64::MAX
}

/// `new` is `old` after registering `w`: an active instance of the same workflow identity is
/// retired, and `w` gets a new slot, active, with no work in flight.
pub open spec fn added(old: Executor, w: Workflow, new: Executor) -> bool {
    &&& new.slots@ == retire_all(old.slots@, w.id).push(Some(Instance { workflow: w, running: 0, active: true }))
    &&& new.queue == old.queue
    &&& new.outbox == old.outbox
    &&& new.pending == old.pending
}

/// The instance a work names is live and holds the work's node.
pub open spec fn resumable(e: Executor, work: Work) -> bool {
    live(e.slots@, work.work_node)
}

impl Executor {
    fn set_slot_running(&mut self, pid: usize, running: u64)
        requires
            pid < old(self).slots@.len(),
            old(self).slots@[pid as int] is Some,
        ensures
            final(self).slots@ == old(self).slots@.update(
                pid as int,
                Some(
                    Instance {
                        workflow: old(self).slots@[pid as int]->Some_0.workflow,
                        running,
                        active: old(self).slots@[pid as int]->Some_0.active,
                    },
                ),
            ),
            final(self).queue == old(self).queue,
            final(self).outbox == old(self).outbox,
            final(self).pending == old(self).pending,
    {
        let mut s: Option<Instance> = None;
        std::mem::swap(&mut s, &mut self.slots[pid]);
        match s {
            Some(inst) => {
                let Instance { workflow, running: _, active } = inst;
                self.slots.set(pid, Some(Instance { workflow, running, active }));
            },
            None => {},
        }
    }

    fn retire_slot(&mut self, i: usize, id: u128)
        requires
            old(self).wf(),
            i < old(self).slots@.len(),
        ensures
            final(self).wf(),
            final(self).slots@ == old(self).slots@.update(i as int, retire(old(self).slots@[i as int], id)),
            final(self).queue == old(self).queue,
            final(self).outbox == old(self).outbox,
            final(self).pending == old(self).pending,
    {
        let ghost before = *self;
        let mut s: Option<Instance> = None;
        std::mem::swap(&mut s, &mut self.slots[i]);
        let t = match s {
            Some(inst) => {
                if inst.active && inst.workflow.id == id {
                    if inst.running == 0 {
                        None
                    } else {
                        let Instance { workflow, running, active: _ } = inst;
                        Some(Instance { workflow, running, active: false })
                    }
                } else {
                    Some(inst)
                }
            },
            None => None,
        };
        self.slots.set(i, t);
        proof {
            assert(self.slots@ =~= before.slots@.update(i as int, retire(before.slots@[i as int], id)));
            assert(slot_ok(before.slots@, before.queue@, before.pending, i as int));
            if before.slots@[i as int] is Some && self.slots@[i as int] is None {
                lemma_count_zero(self.queue@, i as int);
            }
            assert forall|p: int| 0 <= p < self.slots@.len() implies #[trigger] slot_ok(self.slots@, self.queue@, self.pending, p) by {
                assert(slot_ok(before.slots@, before.queue@, before.pending, p));
            }
            assert forall|k: int| 0 <= k < self.queue@.len() implies live(self.slots@, (#[trigger] self.queue@[k]).work_node) by {
                assert(live(before.slots@, before.queue@[k].work_node));
            }
        }
    }

    fn retire_workflow(&mut self, id: u128)
        requires
            old(self).wf(),
        ensures
            final(self).wf(),
            final(self).slots@ == retire_all(old(self).slots@, id),
            final(self).queue == old(self).queue,
            final(self).outbox == old(self).outbox,
            final(self).pending == old(self).pending,
    {
        let ghost s0 = self.slots@;
        let mut i: usize = 0;
        while i < self.slots.len()
            invariant
                self.wf(),
                self.slots@.len() == s0.len(),
                i <= s0.len(),
                forall|j: int| 0 <= j < i ==> self.slots@[j] == retire(s0[j], id),
                forall|j: int| i <= j < s0.len() ==> self.slots@[j] == s0[j],
                self.queue == old(self).queue,
                self.outbox == old(self).outbox,
                self.pending == old(self).pending,
            decreases s0.len() - i,
        {
            self.retire_slot(i, id);
            i = i + 1;
        }
        assert(self.slots@ =~= retire_all(s0, id));
    }

    /// Registers a workflow under a fresh pid, which it returns. An active instance of the same
    /// workflow identity is retired first: it drains, or is collected at once when idle.
    pub fn add_workflow(&mut self, workflow: Workflow) -> (pid: usize)
        requires
            old(self).wf(),
            workflow.wf(),
        ensures
            final(self).wf(),
            pid == old(self).slots@.len(),
            added(*old(self), workflow, *final(self)),
    {
        self.retire_workflow(workflow.id);
        let ghost mid = *self;
        let ghost id = workflow.id;
        let pid = self.slots.len();
        self.slots.push(Some(Instance { workflow, running: 0, active: true }));
        proof {
            assert forall|k: int| 0 <= k < self.queue@.len() implies (#[trigger] self.queue@[k]).work_node.workflow_pid as int != pid as int by {
                assert(live(mid.slots@, mid.queue@[k].work_node));
            }
            lemma_count_absent(self.queue@, pid as int);
            assert forall|p: int| 0 <= p < self.slots@.len() implies #[trigger] slot_ok(self.slots@, self.queue@, self.pending, p) by {
                if p < pid {
                    assert(slot_ok(mid.slots@, mid.queue@, mid.pending, p));
                }
            }
            assert forall|k: int| 0 <= k < self.queue@.len() implies live(self.slots@, (#[trigger] self.queue@[k]).work_node) by {
                assert(live(mid.slots@, mid.queue@[k].work_node));
            }
            assert forall|p: int, q: int|
                0 <= p < q < self.slots@.len() && (#[trigger] self.slots@[p]) is Some && (#[trigger] self.slots@[q]) is Some
                    && self.slots@[p]->Some_0.active && self.slots@[q]->Some_0.active
                implies self.slots@[p]->Some_0.workflow.id != self.slots@[q]->Some_0.workflow.id by {
                if q == pid {
                    assert(self.slots@[p] == retire(old(self).slots@[p], id));
                } else {
                    assert(mid.slots@[p] == self.slots@[p] && mid.slots@[q] == self.slots@[q]);
                }
            }
        }
        pid
    }

    /// Registers each workflow in turn.
    pub fn add_workflows(&mut self, workflows: Vec<Workflow>)
        requires
            old(self).wf(),
            forall|i: int| 0 <= i < workflows@.len() ==> (#[trigger] workflows@[i]).wf(),
        ensures
            final(self).wf(),
            final(self).slots@.len() == old(self).slots@.len() + workflows@.len(),
            final(self).queue == old(self).queue,
            final(self).outbox == old(self).outbox,
            final(self).pending == old(self).pending,
    {
        let mut workflows = workflows;
        let ghost n = workflows@.len();
        let ghost start = self.slots@.len();
        while workflows.len() > 0
            invariant
                self.wf(),
                forall|i: int| 0 <= i < workflows@.len() ==> (#[trigger] workflows@[i]).wf(),
                self.slots@.len() + workflows@.len() == start + n,
                self.queue == old(self).queue,
                self.outbox == old(self).outbox,
                self.pending == old(self).pending,
            decreases workflows@.len(),
        {
            let ghost ws = workflows@;
            let w = workflows.remove(0);
            proof {
                assert(w == ws[0]);
                assert forall|i: int| 0 <= i < workflows@.len() implies (#[trigger] workflows@[i]).wf() by {
                    assert(workflows@[i] == ws[i + 1]);
                }
            }
            self.add_workflow(w);
        }
    }

    /// Unroutes the active instance of workflow `workflow_id`: it drains, and is collected once
    /// no work of it is in flight (at once when none is).
    pub fn remove_workflow(&mut self, workflow_id: u128)
        requires
            old(self).wf(),
        ensures
            final(self).wf(),
            final(self).slots@ == retire_all(old(self).slots@, workflow_id),
            final(self).queue == old(self).queue,
            final(self).outbox == old(self).outbox,
            final(self).pending == old(self).pending,
    {
        self.retire_workflow(workflow_id);
    }

    /// Where `key` routes, as `route` describes.
    pub fn find_route(&self, key: &str) -> (r: Option<WorkNode>)
        ensures
            r == route(self.slots@, key@),
    {
        let mut i: usize = self.slots.len();
        assert(self.slots@.take(i as int) =~= self.slots@);
        while i > 0
            invariant
                i <= self.slots@.len(),
                route(self.slots@.take(i as int), key@) == route(self.slots@, key@),
            decreases i,
        {
            let ghost t = self.slots@.take(i as int);
            i = i - 1;
            proof {
                assert(t.drop_last() =~= self.slots@.take(i as int));
                assert(t.last() == self.slots@[i as int]);
            }
            match &self.slots[i] {
                Some(inst) => {
                    if inst.active {
                        match inst.workflow.entry(key) {
                            Some(node_id) => {
                                return Some(
                                    WorkNode {
                                        workflow_pid: i,
                                        workflow_id: inst.workflow.id,
                                        node_id,
                                    },
                                );
                            },
                            None => {},
                        }
                    }
                },
                None => {},
            }
        }
        None
    }

    /// Whether some active instance has a trigger for `key`.
    pub fn has_trigger(&self, key: &str) -> (r: bool)
        ensures
            r == route(self.slots@, key@) is Some,
    {
        self.find_route(key).is_some()
    }

    /// Starts the workflow that `key` routes to with `input` (null when absent) as the value,
    /// and runs the queue. Returns `false`, changing nothing, when no active instance has a
    /// trigger for `key`.
    pub fn trigger(&mut self, key: &str, input: Option<Value>, env: &Env) -> (r: Result<bool, Error>)
        requires
            old(self).wf(),
        ensures
            final(self).wf(),
            triggered(*old(self), key@, input, *env, *final(self), r),
            ({
                let q = route(old(self).slots@, key@);
                q is Some && old(self).pending is None && old(self).queue@.len() == 0
                    && old(self).slots@[q->Some_0.workflow_pid as int]->Some_0.running < u64::MAX
                    && node_at(old(self).slots@, q->Some_0) is Trigger ==> {
                    let n0 = old(self).outbox@.len() as int;
                    let w = final(self).outbox@[n0];
                    &&& r == Ok::<bool, Error>(true)
                    &&& final(self).queue@.len() == 0
                    &&& final(self).pending is None
                    &&& final(self).slots@ == bumped(old(self).slots@, q->Some_0.workflow_pid as int)
                    &&& final(self).outbox@.len() == n0 + 1
                    &&& final(self).outbox@.subrange(0, n0) == old(self).outbox@
                    &&& w.work_node == q->Some_0
                    &&& w.params.value == input_value(input)
                    &&& w.params.context@.len() == 0
                    &&& w.params.prompt is None
                }
            }),
    {
        let wn = match self.find_route(key) {
            None => return Ok(false),
            Some(wn) => wn,
        };
        let pid = wn.workflow_pid;
        proof {
            assert forall|p: int| 0 <= p < self.slots@.len() && (#[trigger] self.slots@[p]) is Some implies self.slots@[p]->Some_0.workflow.wf() by {
                assert(slot_ok(self.slots@, self.queue@, self.pending, p));
            }
            assert(self.slots@.len() == self.slots.len());
            lemma_route_live(self.slots@, key@);
        }
        let running = match &self.slots[pid] {
            Some(inst) => inst.running,
            None => 0,
        };
        if running == u64::MAX {
            return Err(Error::TooManyWorks { pid: pid as u64 });
        }
        let ghost before = *self;
        self.set_slot_running(pid, running + 1);
        let value = match input {
            Some(v) => v,
            None => Value::Null,
        };
        self.queue.push(Work { work_node: wn, params: Params::new(value) });
        proof {
            assert forall|p: int| 0 <= p < self.slots@.len() implies #[trigger] slot_ok(self.slots@, self.queue@, self.pending, p) by {
                assert(slot_ok(before.slots@, before.queue@, before.pending, p));
                assert(self.queue@.drop_last() =~= before.queue@);
            }
            assert forall|k: int| 0 <= k < self.queue@.len() implies live(self.slots@, (#[trigger] self.queue@[k]).work_node) by {
                if k < before.queue@.len() {
                    assert(live(before.slots@, before.queue@[k].work_node));
                }
            }
            assert forall|p: int, q: int|
                0 <= p < q < self.slots@.len() && (#[trigger] self.slots@[p]) is Some && (#[trigger] self.slots@[q]) is Some
                    && self.slots@[p]->Some_0.active && self.slots@[q]->Some_0.active
                implies self.slots@[p]->Some_0.workflow.id != self.slots@[q]->Some_0.workflow.id by {
                assert(before.slots@[p]->Some_0.active == self.slots@[p]->Some_0.active);
                assert(before.slots@[q]->Some_0.active == self.slots@[q]->Some_0.active);
            }
        }
        let ghost mid = *self;
        let ghost root = self.queue@.last();
        let dr = self.drain(env);
        proof {
            assert(mid.slots@ =~= bumped(before.slots@, pid as int));
            assert(mid.queue@.drop_last() == before.queue@);
            if before.pending is None && before.queue@.len() == 0 && node_at(before.slots@, wn) is Trigger {
                let k = choose|k: int| #[trigger] drained_at(mid, *env, *self, dr, k);
                assert(node_at(mid.slots@, wn) == node_at(before.slots@, wn));
                assert(mid.queue@[0] == root);
                if k == 0 {
                    assert(executes(node_at(mid.slots@, wn), root.params, *env, Step::Done(root.params)));
                }
                assert(k == 1);
                assert(self.outbox@[before.outbox@.len() as int + 0].work_node == root.work_node);
            }
        }
        match dr {
            Ok(()) => Ok(true),
            Err(e) => Err(e),
        }
    }
}

impl Executor {
    /// Takes back a work the driver received, with the driver's answer to its prompt if there
    /// was one: the prompt is cleared, the answer becomes the value, and one work per successor
    /// of the node is queued on a copy of the params. The instance's in-flight count drops by
    /// the resumed work; a draining instance that reaches zero is collected.
    pub fn resume(&mut self, work: Work, value: Option<Value>) -> (r: Result<(), Error>)
        requires
            old(self).wf(),
        ensures
            final(self).wf(),
            final(self).outbox == old(self).outbox,
            final(self).pending == old(self).pending,
            !resumable(*old(self), work) <==> (r is Err && (r->Err_0 is UnknownInstance
                || r->Err_0 is UnknownNode)),
            resumable(*old(self), work) ==> ((r is Err && r->Err_0 is TooManyWorks) <==> overflows(
                *old(self),
                work,
                value,
            )),
            r is Err ==> *final(self) == *old(self) && (r->Err_0 is UnknownInstance
                || r->Err_0 is UnknownNode || r->Err_0 is TooManyWorks),
            r is Ok ==> resumed(*old(self), work, value, *final(self)),
    {
        let pid = work.work_node.workflow_pid;
        if pid >= self.slots.len() {
            return Err(Error::UnknownInstance { pid: pid as u64 });
        }
        let inst = match &self.slots[pid] {
            Some(inst) => inst,
            None => {
                return Err(Error::UnknownInstance { pid: pid as u64 });
            },
        };
        if inst.workflow.id != work.work_node.workflow_id {
            return Err(Error::UnknownInstance { pid: pid as u64 });
        }
        if inst.workflow.get_node(work.work_node.node_id).is_none() {
            return Err(Error::UnknownNode { node: work.work_node.node_id });
        }
        let ghost w0 = work;
        let Work { work_node, params } = work;
        let mut params = params;
        params.take_prompt();
        match value {
            Some(v) => params.set_value(v),
            None => {},
        }
        let next = inst.workflow.next_nodes(work_node.node_id, &params);
        let running = inst.running;
        let active = inst.active;
        proof {
            lemma_successors_closed(inst.workflow.links@, work_node.node_id, params.value);
            assert(slot_ok(self.slots@, self.queue@, self.pending, pid as int));
        }
        if (next.len() as u128) + (running as u128) > (u64::MAX as u128) {
            return Err(Error::TooManyWorks { pid: pid as u64 });
        }
        let queued = count_in(&self.queue, pid);
        let waiting: usize = match &self.pending {
            Some(p) => if p.work_node.workflow_pid == pid {
                1
            } else {
                0
            },
            None => 0,
        };
        let ghost before = *self;
        let ghost n0 = self.queue@.len();
        let mut k: usize = 0;
        while k < next.len()
            invariant
                k <= next@.len(),
                self.slots == before.slots,
                self.pending == before.pending,
                self.outbox == before.outbox,
                self.queue@.len() == n0 + k,
                self.queue@.subrange(0, n0 as int) == before.queue@,
                n0 == before.queue@.len(),
                work_node == w0.work_node,
                pid == work_node.workflow_pid,
                live(before.slots@, work_node),
                forall|j: int| 0 <= j < next@.len() ==> has_node(before.slots@[pid as int]->Some_0.workflow.nodes@, #[trigger] next@[j]),
                forall|p: int| #[trigger] count_pid(self.queue@, p) == count_pid(before.queue@, p) + if p == pid as int { k as nat } else { 0nat },
                forall|i: int| 0 <= i < self.queue@.len() ==> live(self.slots@, (#[trigger] self.queue@[i]).work_node),
                forall|j: int|
                    0 <= j < k ==> {
                        let w = #[trigger] self.queue@[n0 + j];
                        &&& w.work_node == WorkNode {
                            workflow_pid: work_node.workflow_pid,
                            workflow_id: work_node.workflow_id,
                            node_id: next@[j],
                        }
                        &&& same_value(w.params.value, params.value)
                        &&& same_members(w.params.context@, params.context@)
                        &&& w.params.prompt is None
                    },
            decreases next@.len() - k,
        {
            let ghost q1 = self.queue@;
            let wn = WorkNode {
                workflow_pid: work_node.workflow_pid,
                workflow_id: work_node.workflow_id,
                node_id: next[k],
            };
            self.queue.push(Work { work_node: wn, params: params.fork() });
            proof {
                assert(self.queue@.drop_last() == q1);
                assert(self.queue@.last().work_node == wn);
                assert(self.queue@.subrange(0, n0 as int) =~= before.queue@);
                assert(has_node(before.slots@[pid as int]->Some_0.workflow.nodes@, next@[k as int]));
                assert(live(self.slots@, wn));
                assert forall|p: int| #[trigger] count_pid(self.queue@, p) == count_pid(q1, p) + if p == pid as int { 1nat } else { 0nat } by {
                    assert(self.queue@.drop_last() == q1);
                }
            }
            k = k + 1;
        }
        let total: u64 = running + (next.len() as u64);
        let new_running: u64 = if (running as u128) > (queued as u128) + (waiting as u128) {
            total - 1
        } else {
            total
        };
        let ghost mid = *self;
        if !active && new_running == 0 {
            self.slots.set(pid, None);
            proof {
                assert(count_pid(mid.queue@, pid as int) == 0);
                lemma_count_zero(mid.queue@, pid as int);
            }
        } else {
            self.set_slot_running(pid, new_running);
        }
        proof {
            assert forall|p: int| 0 <= p < self.slots@.len() implies #[trigger] slot_ok(self.slots@, self.queue@, self.pending, p) by {
                assert(slot_ok(before.slots@, before.queue@, before.pending, p));
                assert(count_pid(mid.queue@, p) == count_pid(before.queue@, p) + if p == pid as int { next@.len() as nat } else { 0nat });
            }
            assert(self.slots@ =~= old(self).slots@.update(
                pid as int,
                after_resume(old(self).slots@[pid as int]->Some_0, next@.len(), count_pid(old(self).queue@, pid as int) + pending_count(old(self).pending, pid as int)),
            ));
            assert forall|i: int| 0 <= i < self.queue@.len() implies live(self.slots@, (#[trigger] self.queue@[i]).work_node) by {
                assert(live(mid.slots@, mid.queue@[i].work_node));
            }
            if self.pending is Some {
                assert(live(before.slots@, before.pending->Some_0.work_node));
            }
            assert forall|p: int, q: int|
                0 <= p < q < self.slots@.len() && (#[trigger] self.slots@[p]) is Some && (#[trigger] self.slots@[q]) is Some
                    && self.slots@[p]->Some_0.active && self.slots@[q]->Some_0.active
                implies self.slots@[p]->Some_0.workflow.id != self.slots@[q]->Some_0.workflow.id by {
                assert(before.slots@[p] is Some && before.slots@[q] is Some);
            }
            assert(next@ == successors(
                old(self).slots@[pid as int]->Some_0.workflow.links@,
                w0.work_node.node_id,
                resumed_value(w0, value),
            ));
        }
        Ok(())
    }
}

impl Executor {
    /// Resumes a work the driver received, then runs the queue.
    pub fn receive_work(&mut self, work: Work, value: Option<Value>, env: &Env) -> (r: Result<(), Error>)
        requires
            old(self).wf(),
        ensures
            final(self).wf(),
            !resumable(*old(self), work) ==> r is Err && (r->Err_0 is UnknownInstance
                || r->Err_0 is UnknownNode) && *final(self) == *old(self),
            resumable(*old(self), work) && overflows(*old(self), work, value) ==> r is Err
                && r->Err_0 is TooManyWorks && *final(self) == *old(self),
            resumable(*old(self), work) && !overflows(*old(self), work, value) ==> exists|mid: Executor|
                resumed(*old(self), work, value, mid) && #[trigger] drained(mid, *env, *final(self), r),
    {
        match self.resume(work, value) {
            Ok(()) => {
                let ghost mid = *self;
                let r = self.drain(env);
                proof {
                    assert(drained(mid, *env, *self, r));
                }
                r
            },
            Err(e) => Err(e),
        }
    }

    /// Compiles a definition, registers it, and triggers `key` with `input`. A definition with
    /// a link to a missing node is refused and nothing changes.
    pub fn execute_workflow(
        &mut self,
        config: WorkflowConfig,
        key: &str,
        input: Option<Value>,
        env: &Env,
    ) -> (r: Result<bool, Error>)
        requires
            old(self).wf(),
        ensures
            final(self).wf(),
            !links_closed(config.nodes@, config.links@) ==> r is Err && r->Err_0 is DanglingLink
                && *final(self) == *old(self),
            links_closed(config.nodes@, config.links@) ==> exists|w: Workflow, mid: Executor|
                {
                    &&& w.wf()
                    &&& w.id == config.id
                    &&& w.title == config.title
                    &&& w.nodes == config.nodes
                    &&& w.links == config.links
                    &&& #[trigger] added(*old(self), w, mid)
                    &&& #[trigger] triggered(mid, key@, input, *env, *final(self), r)
                },
    {
        let workflow = match Workflow::from_config(config) {
            Ok(w) => w,
            Err(e) => return Err(e),
        };
        let ghost w = workflow;
        self.add_workflow(workflow);
        let ghost mid = *self;
        let r = self.trigger(key, input, env);
        proof {
            assert(added(*old(self), w, mid));
            assert(triggered(mid, key@, input, *env, *self, r));
        }
        r
    }
}

/// Targets of all links leaving `from`, in declaration order, whatever their conditions.
pub open spec fn outgoing(links: Seq<Link>, from: u128) -> Seq<u128>
    decreases links.len(),
{
    if links.len() == 0 {
        Seq::empty()
    } else {
        let rest = outgoing(links.drop_last(), from);
        if links.last().from == from {
            rest.push(links.last().to)
        } else {
            rest
        }
    }
}

/// Links without a condition are always followed: when no link leaving `from` has one, the
/// successors of `from` are all its outgoing targets, for every value.
pub proof fn lemma_unconditional_links(links: Seq<Link>, from: u128, v: Value)
    requires
        forall|i: int| 0 <= i < links.len() && (#[trigger] links[i]).from == from ==> links[i].condition is None,
    ensures
        successors(links, from, v) == outgoing(links, from),
    decreases links.len(),
{
    if links.len() > 0 {
        assert forall|i: int| 0 <= i < links.drop_last().len() && (#[trigger] links.drop_last()[i]).from == from implies links.drop_last()[i].condition is None by {
            assert(links.drop_last()[i] == links[i]);
        }
        lemma_unconditional_links(links.drop_last(), from, v);
        assert(links.last() == links[links.len() - 1]);
    }
}

/// Fan-out: resuming a node with exactly two outgoing links, neither with a condition, queues
/// exactly two works, one per target in link order, each on its own copy of the resumed value
/// and variables with no prompt.
pub proof fn lemma_fan_out(e0: Executor, work: Work, value: Option<Value>, e1: Executor)
    requires
        resumable(e0, work),
        resumed(e0, work, value, e1),
        ({
            let links = e0.slots@[work.work_node.workflow_pid as int]->Some_0.workflow.links@;
            &&& outgoing(links, work.work_node.node_id).len() == 2
            &&& forall|i: int|
                0 <= i < links.len() && (#[trigger] links[i]).from == work.work_node.node_id
                    ==> links[i].condition is None
        }),
    ensures
        ({
            let links = e0.slots@[work.work_node.workflow_pid as int]->Some_0.workflow.links@;
            let targets = outgoing(links, work.work_node.node_id);
            let n = e0.queue@.len();
            let v = resumed_value(work, value);
            &&& e1.queue@.len() == n + 2
            &&& forall|k: int|
                0 <= k < 2 ==> {
                    let w = #[trigger] e1.queue@[n + k];
                    &&& w.work_node.node_id == targets[k]
                    &&& w.work_node.workflow_pid == work.work_node.workflow_pid
                    &&& same_value(w.params.value, v)
                    &&& same_members(w.params.context@, work.params.context@)
                    &&& w.params.prompt is None
                }
        }),
{
    let links = e0.slots@[work.work_node.workflow_pid as int]->Some_0.workflow.links@;
    lemma_unconditional_links(links, work.work_node.node_id, resumed_value(work, value));
}

/// Fan-out through the driver: resuming a work whose node has exactly two outgoing links,
/// neither with a condition, and whose targets are trigger nodes (which pass their params on),
/// when nothing else is queued or waiting, succeeds and hands exactly two works to the driver,
/// one per target in link order, each with its own copy of the resumed value and variables.
pub proof fn lemma_receive_fan_out(e0: Executor, work: Work, value: Option<Value>, mid: Executor, env: Env, e1: Executor, r: Result<(), Error>)
    requires
        resumable(e0, work),
        e0.queue@.len() == 0,
        e0.pending is None,
        resumed(e0, work, value, mid),
        drained(mid, env, e1, r),
        ({
            let links = e0.slots@[work.work_node.workflow_pid as int]->Some_0.workflow.links@;
            let targets = outgoing(links, work.work_node.node_id);
            &&& targets.len() == 2
            &&& forall|i: int|
                0 <= i < links.len() && (#[trigger] links[i]).from == work.work_node.node_id
                    ==> links[i].condition is None
            &&& forall|k: int| 0 <= k < 2 ==> #[trigger] node_at(e0.slots@, WorkNode {
                workflow_pid: work.work_node.workflow_pid,
                workflow_id: work.work_node.workflow_id,
                node_id: targets[k],
            }) is Trigger
        }),
    ensures
        r is Ok,
        e1.queue@.len() == 0,
        e1.pending is None,
        ({
            let links = e0.slots@[work.work_node.workflow_pid as int]->Some_0.workflow.links@;
            let targets = outgoing(links, work.work_node.node_id);
            let n0 = e0.outbox@.len() as int;
            let v = resumed_value(work, value);
            &&& e1.outbox@.len() == n0 + 2
            &&& e1.outbox@.subrange(0, n0) == e0.outbox@
            &&& forall|k: int|
                0 <= k < 2 ==> {
                    let w = #[trigger] e1.outbox@[n0 + k];
                    &&& w.work_node == WorkNode {
                        workflow_pid: work.work_node.workflow_pid,
                        workflow_id: work.work_node.workflow_id,
                        node_id: targets[k],
                    }
                    &&& same_value(w.params.value, v)
                    &&& same_members(w.params.context@, work.params.context@)
                    &&& w.params.prompt is None
                }
        }),
{
    let pid = work.work_node.workflow_pid as int;
    let links = e0.slots@[pid]->Some_0.workflow.links@;
    lemma_unconditional_links(links, work.work_node.node_id, resumed_value(work, value));
    let k = choose|k: int| #[trigger] drained_at(mid, env, e1, r, k);
    let q = mid.queue@;
    assert(mid.slots@[pid] is Some);
    assert(mid.slots@[pid]->Some_0.workflow == e0.slots@[pid]->Some_0.workflow);
    assert forall|i: int| 0 <= i < 2 implies #[trigger] node_at(mid.slots@, q[i].work_node) is Trigger by {
        assert(q[i] == mid.queue@[0 + i]);
        assert(node_at(mid.slots@, q[i].work_node) == node_at(e0.slots@, q[i].work_node));
    }
    if k < 2 {
        let w = q[k];
        assert(node_at(mid.slots@, w.work_node) is Trigger);
    }
    assert(k == 2);
    assert forall|i: int| 0 <= i < 2 implies e1.outbox@[e0.outbox@.len() as int + i].params == q[i].params by {
        assert(executes(node_at(mid.slots@, q[i].work_node), q[i].params, env, Step::Done(e1.outbox@[e0.outbox@.len() as int + i].params)));
    }
    let succ = successors(links, work.work_node.node_id, resumed_value(work, value));
    assert(succ == outgoing(links, work.work_node.node_id));
    assert forall|i: int| 0 <= i < 2 implies {
        let w = #[trigger] e1.outbox@[e0.outbox@.len() as int + i];
        &&& w.work_node == (WorkNode {
            workflow_pid: work.work_node.workflow_pid,
            workflow_id: work.work_node.workflow_id,
            node_id: succ[i],
        })
        &&& same_value(w.params.value, resumed_value(work, value))
        &&& same_members(w.params.context@, work.params.context@)
        &&& w.params.prompt is None
    } by {
        assert(mid.queue@[e0.queue@.len() + i] == q[i]);
        assert(e1.outbox@[e0.outbox@.len() as int + i].work_node == q[i].work_node);
    }
}

/// The last hop: resuming the only work in flight of an active instance, when no link of its
/// node is followed and nothing is queued or waiting, succeeds, hands nothing to the driver,
/// and leaves the instance with no work in flight.
pub proof fn lemma_receive_last_hop(e0: Executor, work: Work, value: Option<Value>, mid: Executor, env: Env, e1: Executor, r: Result<(), Error>)
    requires
        resumable(e0, work),
        e0.queue@.len() == 0,
        e0.pending is None,
        e0.slots@[work.work_node.workflow_pid as int]->Some_0.active,
        e0.slots@[work.work_node.workflow_pid as int]->Some_0.running == 1,
        successors(
            e0.slots@[work.work_node.workflow_pid as int]->Some_0.workflow.links@,
            work.work_node.node_id,
            resumed_value(work, value),
        ).len() == 0,
        resumed(e0, work, value, mid),
        drained(mid, env, e1, r),
    ensures
        r is Ok,
        e1.outbox@ == e0.outbox@,
        e1.queue@.len() == 0,
        e1.slots@[work.work_node.workflow_pid as int] is Some,
        e1.slots@[work.work_node.workflow_pid as int]->Some_0.running == 0,
{
    let k = choose|k: int| #[trigger] drained_at(mid, env, e1, r, k);
    assert(mid.queue@.len() == 0);
    assert(e1.outbox@ =~= e0.outbox@);
}

/// Registering a workflow makes an active instance with no work in flight; removing the
/// workflow before anything is triggered collects that instance at once.
pub proof fn lemma_register_then_remove(
    e0: Executor,
    w: Workflow,
    pid: usize,
    e1: Executor,
    e2: Executor,
)
    requires
        pid == e0.slots@.len(),
        e1.slots@ == retire_all(e0.slots@, w.id).push(
            Some(Instance { workflow: w, running: 0, active: true }),
        ),
        e2.slots@ == retire_all(e1.slots@, w.id),
    ensures
        e1.slots@[pid as int] is Some,
        e1.slots@[pid as int]->Some_0.active,
        e1.slots@[pid as int]->Some_0.running == 0,
        e2.slots@[pid as int] is None,
{
    assert(e1.slots@[pid as int] == Some(Instance { workflow: w, running: 0, active: true }));
    assert(e2.slots@[pid as int] == retire(e1.slots@[pid as int], w.id));
}

proof fn lemma_route_live(slots: Seq<Option<Instance>>, key: Seq<char>)
    requires
        slots.len() <= usize::MAX,
        forall|p: int| 0 <= p < slots.len() && (#[trigger] slots[p]) is Some ==> slots[p]->Some_0.workflow.wf(),
    ensures
        route(slots, key) is Some ==> live(slots, route(slots, key)->Some_0),
    decreases slots.len(),
{
    if slots.len() > 0 {
        let s = slots.last();
        if s is Some && s->Some_0.active && entry_lookup(s->Some_0.workflow.entries@, key) is Some {
            assert(slots[slots.len() - 1] is Some);
            assert((slots.len() - 1) as usize as int == slots.len() - 1);
            crate::workflow::lemma_entry_node_exists(s->Some_0.workflow, key);
        } else {
            assert forall|p: int| 0 <= p < slots.drop_last().len() && (#[trigger] slots.drop_last()[p]) is Some implies slots.drop_last()[p]->Some_0.workflow.wf() by {
                assert(slots.drop_last()[p] == slots[p]);
            }
            lemma_route_live(slots.drop_last(), key);
        }
    }
}

} // verus!
