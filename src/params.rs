//! The value threaded along the graph, its named variables, and the pending prompt.
use crate::json::{Member, Value, same_members, same_value, lemma_same_members_pointwise, same_member};
use crate::prompt::Prompt;
use crate::text::same_text;
use vstd::prelude::*;

verus! {

/// The value of the first entry of `ctx` whose key is `key`.
pub open spec fn lookup(ctx: Seq<Member>, key: Seq<char>) -> Option<Value>
    decreases ctx.len(),
{
    if ctx.len() == 0 {
        None
    } else if ctx[0].key@ == key {
        Some(ctx[0].value)
    } else {
        lookup(ctx.drop_first(), key)
    }
}

/// Index of the first entry of `ctx` whose key is `key`, or `ctx.len()` when there is none.
pub open spec fn first_index(ctx: Seq<Member>, key: Seq<char>) -> int
    decreases ctx.len(),
{
    if ctx.len() == 0 {
        0
    } else if ctx[0].key@ == key {
        0
    } else {
        1 + first_index(ctx.drop_first(), key)
    }
}

proof fn lemma_first_index(ctx: Seq<Member>, key: Seq<char>)
    ensures
        0 <= first_index(ctx, key) <= ctx.len(),
        forall|j: int| 0 <= j < first_index(ctx, key) ==> ctx[j].key@ != key,
        first_index(ctx, key) < ctx.len() ==> ctx[first_index(ctx, key)].key@ == key,
        first_index(ctx, key) < ctx.len() ==> lookup(ctx, key) == Some(ctx[first_index(ctx, key)].value),
        first_index(ctx, key) == ctx.len() ==> lookup(ctx, key) is None,
    decreases ctx.len(),
{
    if ctx.len() > 0 && ctx[0].key@ != key {
        lemma_first_index(ctx.drop_first(), key);
        assert forall|j: int| 0 <= j < first_index(ctx, key) implies ctx[j].key@ != key by {
            if j > 0 {
                assert(ctx[j] == ctx.drop_first()[j - 1]);
            }
        }
    }
}

proof fn lemma_lookup_update(ctx: Seq<Member>, i: int, m: Member, k: Seq<char>)
    requires
        0 <= i < ctx.len(),
        ctx[i].key@ == m.key@,
        forall|j: int| 0 <= j < i ==> ctx[j].key@ != m.key@,
    ensures
        lookup(ctx.update(i, m), k) == if k == m.key@ {
            Some(m.value)
        } else {
            lookup(ctx, k)
        },
    decreases ctx.len(),
{
    let u = ctx.update(i, m);
    if i == 0 {
        assert(u.drop_first() =~= ctx.drop_first());
        assert(u[0] == m);
    } else {
        assert(u[0] == ctx[0]);
        assert(u.drop_first() =~= ctx.drop_first().update(i - 1, m));
        lemma_lookup_update(ctx.drop_first(), i - 1, m, k);
    }
}

proof fn lemma_lookup_push(ctx: Seq<Member>, m: Member, k: Seq<char>)
    ensures
        lookup(ctx.push(m), k) == if lookup(ctx, k) is Some {
            lookup(ctx, k)
        } else if k == m.key@ {
            Some(m.value)
        } else {
            None
        },
    decreases ctx.len(),
{
    if ctx.len() > 0 {
        assert(ctx.push(m)[0] == ctx[0]);
        assert(ctx.push(m).drop_first() =~= ctx.drop_first().push(m));
        lemma_lookup_push(ctx.drop_first(), m, k);
        if ctx[0].key@ != k {
            assert(lookup(ctx.push(m), k) == lookup(ctx.drop_first().push(m), k));
            assert(lookup(ctx, k) == lookup(ctx.drop_first(), k));
        }
    } else {
        assert(ctx.push(m)[0] == m);
        assert(ctx.push(m).drop_first() =~= Seq::<Member>::empty());
        assert(lookup(Seq::<Member>::empty(), k) is None);
    }
}

/// What flows along an edge of the graph: a value, named variables, and the prompt a node
/// left for the driver to answer.
pub struct Params {
    pub value: Value,
    pub context: Vec<Member>,
    pub prompt: Option<Prompt>,
}

impl Params {
    /// Params holding `value`, with no variables and no prompt.
    pub fn new(value: Value) -> (r: Params)
        ensures
            r.value == value,
            r.context@.len() == 0,
            r.prompt is None,
    {
        Params { value, context: Vec::new(), prompt: None }
    }

    /// Params holding null, with no variables and no prompt.
    pub fn default() -> (r: Params)
        ensures
            r.value is Null,
            r.context@.len() == 0,
            r.prompt is None,
    {
        Params::new(Value::Null)
    }

    /// Sets the variable `key` to `value`, replacing an earlier value of it.
    pub fn set_var(&mut self, key: &str, value: Value)
        ensures
            lookup(final(self).context@, key@) == Some(value),
            forall|k: Seq<char>| k != key@ ==> lookup(final(self).context@, k) == lookup(old(self).context@, k),
            final(self).value == old(self).value,
            final(self).prompt == old(self).prompt,
    {
        let ghost ctx = self.context@;
        let mut i: usize = 0;
        let mut found = false;
        while i < self.context.len() && !found
            invariant
                self.context@ == ctx,
                i <= ctx.len(),
                found ==> i < ctx.len() && ctx[i as int].key@ == key@,
                forall|j: int| 0 <= j < i ==> ctx[j].key@ != key@,
            decreases ctx.len() - i, if found { 0int } else { 1int },
        {
            if same_text(self.context[i].key.as_str(), key) {
                found = true;
            } else {
                i = i + 1;
            }
        }
        let m = Member { key: String::from_str(key), value };
        let ghost gm = m;
        if found {
            self.context.set(i, m);
            proof {
                assert forall|k: Seq<char>| #![auto] lookup(self.context@, k) == if k == key@ {
                    Some(gm.value)
                } else {
                    lookup(ctx, k)
                } by {
                    lemma_lookup_update(ctx, i as int, gm, k);
                }
            }
        } else {
            self.context.push(m);
            proof {
                assert forall|k: Seq<char>| #![auto] lookup(self.context@, k) == if k == key@ {
                    Some(gm.value)
                } else {
                    lookup(ctx, k)
                } by {
                    lemma_lookup_push(ctx, gm, k);
                    if k == key@ {
                        lemma_first_index(ctx, key@);
                        assert(lookup(ctx, k) is None);
                    }
                }
            }
        }
    }

    /// The value of the variable `key`.
    pub fn get_var(&self, key: &str) -> (r: Option<&Value>)
        ensures
            lookup(self.context@, key@) is None ==> r is None,
            lookup(self.context@, key@) is Some ==> r is Some && *r->Some_0 == lookup(
                self.context@,
                key@,
            )->Some_0,
    {
        let mut i: usize = 0;
        while i < self.context.len()
            invariant
                i <= self.context@.len(),
                forall|j: int| 0 <= j < i ==> self.context@[j].key@ != key@,
            decreases self.context@.len() - i,
        {
            if same_text(self.context[i].key.as_str(), key) {
                proof {
                    lemma_first_index(self.context@, key@);
                }
                return Some(&self.context[i].value);
            }
            i = i + 1;
        }
        proof {
            lemma_first_index(self.context@, key@);
        }
        None
    }

    /// All variables, in the order they were first set.
    pub fn get_vars(&self) -> (r: &Vec<Member>)
        ensures
            r == &self.context,
    {
        &self.context
    }

    /// The value flowing through the graph.
    pub fn get_value(&self) -> (r: &Value)
        ensures
            *r == self.value,
    {
        &self.value
    }

    /// Mutable access to the value flowing through the graph.
    pub fn get_value_mut(&mut self) -> (r: &mut Value)
        ensures
            *r == old(self).value,
            final(self).value == *final(r),
            final(self).context == old(self).context,
            final(self).prompt == old(self).prompt,
    {
        &mut self.value
    }

    /// Replaces the value flowing through the graph.
    pub fn set_value(&mut self, value: Value)
        ensures
            final(self).value == value,
            final(self).context == old(self).context,
            final(self).prompt == old(self).prompt,
    {
        self.value = value;
    }

    /// Replaces the value flowing through the graph with a string.
    pub fn set_value_str(&mut self, s: String)
        ensures
            final(self).value == Value::Str(s),
            final(self).context == old(self).context,
            final(self).prompt == old(self).prompt,
    {
        self.value = Value::Str(s);
    }

    /// Leaves a prompt for the driver to answer.
    pub fn set_prompt(&mut self, prompt: Prompt)
        ensures
            final(self).prompt == Some(prompt),
            final(self).value == old(self).value,
            final(self).context == old(self).context,
    {
        self.prompt = Some(prompt);
    }

    /// Takes the pending prompt out, leaving none.
    pub fn take_prompt(&mut self) -> (r: Option<Prompt>)
        ensures
            r == old(self).prompt,
            final(self).prompt is None,
            final(self).value == old(self).value,
            final(self).context == old(self).context,
    {
        self.prompt.take()
    }

    /// A copy for a new branch of the graph: the same value and variables, and no prompt.
    pub fn fork(&self) -> (r: Params)
        ensures
            same_value(r.value, self.value),
            same_members(r.context@, self.context@),
            r.prompt is None,
    {
        let mut context: Vec<Member> = Vec::new();
        let mut i: usize = 0;
        while i < self.context.len()
            invariant
                i <= self.context@.len(),
                context@.len() == i,
                forall|j: int| 0 <= j < i ==> #[trigger] same_member(context@[j], self.context@[j]),
            decreases self.context@.len() - i,
        {
            context.push(self.context[i].clone());
            i = i + 1;
        }
        proof {
            lemma_same_members_pointwise(context@, self.context@);
        }
        Params { value: self.value.duplicate(), context, prompt: None }
    }
}

} // verus!
