//! The environment: an arena of scopes, each mapping names to values and
//! optionally pointing at its enclosing lexical scope. Lookup walks the
//! scope chain outward; definition writes to the current scope only.
//!
//! Scopes are never removed: a closure keeps the index of the scope that
//! was current where it was defined, and that index stays valid for the
//! life of the environment.

use vstd::prelude::*;

use crate::value::{clone_value, str_eq, SpecValue, Value};

verus! {

/// One name-to-value binding.
pub struct Binding {
    pub name: String,
    pub val: Value,
}

/// One scope: the index of its parent scope, if any, and its bindings.
/// A later binding for the same name shadows an earlier one.
pub struct Scope {
    pub parent: Option<usize>,
    pub bindings: Vec<Binding>,
}

/// The mathematical model of a scope: the parent index and the mapping
/// the bindings amount to.
pub ghost struct SpecScope {
    pub parent: Option<int>,
    pub bindings: Map<Seq<char>, SpecValue>,
}

/// The mapping a binding list amounts to: later entries win.
pub open spec fn bindings_map(s: Seq<Binding>) -> Map<Seq<char>, SpecValue>
    decreases s.len(),
{
    if s.len() == 0 {
        Map::empty()
    } else {
        bindings_map(s.drop_last()).insert(s.last().name@, s.last().val@)
    }
}

impl View for Scope {
    type V = SpecScope;

    open spec fn view(&self) -> SpecScope {
        SpecScope {
            parent: match self.parent {
                Some(p) => Some(p as int),
                None => None,
            },
            bindings: bindings_map(self.bindings@),
        }
    }
}

/// The chain of scopes. Scope `0` is the global scope, created once and
/// alive for the whole run.
pub struct Env {
    scopes: Vec<Scope>,
}

impl View for Env {
    type V = Seq<SpecScope>;

    closed spec fn view(&self) -> Seq<SpecScope> {
        Seq::new(self.scopes@.len(), |i: int| self.scopes@[i]@)
    }
}

/// A value is well formed in an environment of `n` scopes: a closure
/// only captures a scope that exists.
pub open spec fn wf_value(v: SpecValue, n: int) -> bool {
    match v {
        SpecValue::Closure { env, .. } => 0 <= env < n,
        _ => true,
    }
}

/// A scope at index `i` is well formed: its parent lies strictly below
/// it, and every bound value is well formed.
pub open spec fn wf_scope(s: SpecScope, i: int, n: int) -> bool {
    &&& match s.parent {
        Some(p) => 0 <= p < i,
        None => true,
    }
    &&& forall|name: Seq<char>|
        #[trigger] s.bindings.contains_key(name) ==> wf_value(s.bindings[name], n)
}

/// Every scope of the environment is well formed. Lookup terminates
/// because parent indices strictly decrease.
pub open spec fn wf_env(env: Seq<SpecScope>) -> bool {
    forall|i: int| 0 <= i < env.len() ==> wf_scope(#[trigger] env[i], i, env.len() as int)
}

/// The value a name denotes, looked up from scope `cur` outward through
/// the parent chain: the innermost binding wins.
pub open spec fn lookup(env: Seq<SpecScope>, cur: int, name: Seq<char>) -> Option<SpecValue>
    decreases cur,
{
    if !(0 <= cur < env.len()) {
        None
    } else if env[cur].bindings.contains_key(name) {
        Some(env[cur].bindings[name])
    } else {
        match env[cur].parent {
            Some(p) => if 0 <= p < cur {
                lookup(env, p, name)
            } else {
                None
            },
            None => None,
        }
    }
}

/// Whatever lookup finds in a well-formed environment is itself well
/// formed.
pub proof fn lemma_lookup_wf(env: Seq<SpecScope>, cur: int, name: Seq<char>)
    requires
        wf_env(env),
        lookup(env, cur, name) is Some,
    ensures
        wf_value(lookup(env, cur, name).unwrap(), env.len() as int),
    decreases cur,
{
    if 0 <= cur < env.len() {
        if env[cur].bindings.contains_key(name) {
        } else {
            match env[cur].parent {
                Some(p) => {
                    if 0 <= p < cur {
                        lemma_lookup_wf(env, p, name);
                    }
                },
                None => {},
            }
        }
    }
}

/// A well-formed environment stays well formed when scopes are appended:
/// well-formedness of values is monotone in the scope count.
pub proof fn lemma_wf_env_grow(env: Seq<SpecScope>, ext: Seq<SpecScope>)
    requires
        wf_env(env),
        forall|i: int|
            0 <= i < ext.len() ==> wf_scope(#[trigger] ext[i], env.len() + i, (env + ext).len() as int),
    ensures
        wf_env(env + ext),
{
    assert forall|i: int| 0 <= i < (env + ext).len() implies wf_scope(
        #[trigger] (env + ext)[i],
        i,
        (env + ext).len() as int,
    ) by {
        if i < env.len() {
            assert(wf_scope(env[i], i, env.len() as int));
            assert((env + ext)[i] == env[i]);
        } else {
            assert((env + ext)[i] == ext[i - env.len()]);
        }
    }
}

/// Finds the innermost binding for `name` in one binding list.
#[verifier::loop_isolation(false)]
fn bindings_get(b: &Vec<Binding>, name: &str) -> (r: Option<Value>)
    ensures
        match r {
            Some(v) => bindings_map(b@).contains_key(name@) && bindings_map(b@)[name@] == v@,
            None => !bindings_map(b@).contains_key(name@),
        },
{
    let mut j = b.len();
    proof {
        assert(b@.subrange(0, b@.len() as int) =~= b@);
    }
    while j > 0
        invariant
            0 <= j <= b@.len(),
            bindings_map(b@).contains_key(name@) == bindings_map(
                b@.subrange(0, j as int),
            ).contains_key(name@),
            bindings_map(b@).contains_key(name@) ==> bindings_map(b@)[name@] == bindings_map(
                b@.subrange(0, j as int),
            )[name@],
        decreases j,
    {
        j -= 1;
        let ghost pre = b@.subrange(0, j as int + 1);
        proof {
            assert(pre.drop_last() =~= b@.subrange(0, j as int));
            assert(pre.last() == b@[j as int]);
        }
        if str_eq(b[j].name.as_str(), name) {
            return Some(clone_value(&b[j].val));
        }
    }
    proof {
        assert(b@.subrange(0, 0) =~= Seq::<Binding>::empty());
    }
    None
}

impl Env {
    /// A fresh environment holding only the empty global scope.
    pub fn new() -> (e: Env)
        ensures
            e@.len() == 1,
            e@[0].parent is None,
            e@[0].bindings == Map::<Seq<char>, SpecValue>::empty(),
            wf_env(e@),
    {
        let mut scopes: Vec<Scope> = Vec::new();
        scopes.push(Scope { parent: None, bindings: Vec::new() });
        let e = Env { scopes };
        proof {
            assert(e@[0].bindings =~= Map::<Seq<char>, SpecValue>::empty());
        }
        e
    }

    /// How many scopes the environment holds.
    pub fn scope_count(&self) -> (n: usize)
        ensures
            n == self@.len(),
    {
        self.scopes.len()
    }

    /// Looks a name up from scope `cur` outward through the parent
    /// chain, returning a copy of the innermost binding.
    #[verifier::loop_isolation(false)]
    pub fn get(&self, cur: usize, name: &str) -> (r: Option<Value>)
        requires
            wf_env(self@),
            cur < self@.len(),
        ensures
            match r {
                Some(v) => lookup(self@, cur as int, name@) == Some(v@),
                None => lookup(self@, cur as int, name@) is None,
            },
    {
        let mut j = cur;
        loop
            invariant
                0 <= j < self@.len(),
                lookup(self@, cur as int, name@) == lookup(self@, j as int, name@),
            decreases j,
        {
            let found = bindings_get(&self.scopes[j].bindings, name);
            proof {
                assert(self@[j as int] == self.scopes@[j as int]@);
            }
            match found {
                Some(v) => {
                    return Some(v);
                },
                None => {
                    match self.scopes[j].parent {
                        Some(p) => {
                            proof {
                                assert(wf_scope(self@[j as int], j as int, self@.len() as int));
                            }
                            j = p;
                        },
                        None => {
                            return None;
                        },
                    }
                },
            }
        }
    }

    /// Binds `name` to `v` in scope `cur` alone, inserting or
    /// overwriting: shadowing, never mutation of an outer scope.
    pub fn insert(&mut self, cur: usize, name: &str, v: Value)
        requires
            cur < old(self)@.len(),
        ensures
            final(self)@ == old(self)@.update(
                cur as int,
                SpecScope {
                    parent: old(self)@[cur as int].parent,
                    bindings: old(self)@[cur as int].bindings.insert(name@, v@),
                },
            ),
            wf_env(old(self)@) && wf_value(v@, old(self)@.len() as int) ==> wf_env(final(self)@),
    {
        let ghost old_env = self@;
        let b = Binding { name: name.to_owned(), val: v };
        let ghost bnm = b.name@;
        let ghost bv = b.val@;
        let ghost old_bindings = self.scopes@[cur as int].bindings@;
        self.scopes[cur].bindings.push(b);
        proof {
            assert(bnm == name@);
            let nb = self.scopes@[cur as int].bindings@;
            assert(nb.drop_last() =~= old_bindings);
            assert(bindings_map(nb) == bindings_map(old_bindings).insert(name@, bv));
            assert(self@ =~= old_env.update(
                cur as int,
                SpecScope {
                    parent: old_env[cur as int].parent,
                    bindings: old_env[cur as int].bindings.insert(name@, bv),
                },
            ));
            if wf_env(old_env) && wf_value(bv, old_env.len() as int) {
                assert forall|i: int| 0 <= i < self@.len() implies wf_scope(
                    #[trigger] self@[i],
                    i,
                    self@.len() as int,
                ) by {
                    if i != cur as int {
                        assert(self@[i] == old_env[i]);
                        assert(wf_scope(old_env[i], i, old_env.len() as int));
                    } else {
                        assert(wf_scope(old_env[i], i, old_env.len() as int));
                        assert forall|nm: Seq<char>|
                            #[trigger] self@[i].bindings.contains_key(nm) implies wf_value(
                            self@[i].bindings[nm],
                            self@.len() as int,
                        ) by {
                            if nm == name@ {
                            } else {
                                assert(old_env[i].bindings.contains_key(nm));
                            }
                        }
                    }
                }
            }
        }
    }

    /// Opens a new scope whose parent is `parent`, as one function call
    /// does, and returns its index.
    pub fn child_scope(&mut self, parent: usize) -> (idx: usize)
        requires
            parent < old(self)@.len(),
        ensures
            idx == old(self)@.len(),
            final(self)@ == old(self)@.push(
                SpecScope { parent: Some(parent as int), bindings: Map::empty() },
            ),
            wf_env(old(self)@) ==> wf_env(final(self)@),
    {
        let idx = self.scopes.len();
        let ghost old_env = self@;
        self.scopes.push(Scope { parent: Some(parent), bindings: Vec::new() });
        proof {
            let ghost ns = SpecScope { parent: Some(parent as int), bindings: Map::empty() };
            assert(bindings_map(Seq::<Binding>::empty()) =~= Map::<Seq<char>, SpecValue>::empty());
            assert(self@ =~= old_env.push(ns));
            if wf_env(old_env) {
                lemma_wf_env_grow(old_env, seq![ns]);
                assert(old_env + seq![ns] =~= self@);
            }
        }
        idx
    }
}

} // verus!
