//! Environments: scopes that map names to values.
//!
//! All scopes of an evaluation live in one [`Env`], each under an index. A
//! scope holds its own bindings and the index of its enclosing scope, so
//! scopes form chains: looking up a name walks up the chain, and inner scopes
//! see (and shadow) outer bindings. A closure refers to the scope it captured
//! by its index, so a binding added to that scope later is visible to the
//! closure, as with a shared scope.

use vstd::prelude::*;
use crate::text::str_eq;
use crate::value::{SpecValue, Value, vfields_view, lemma_vfields_view, lemma_vfields_view_push};

verus! {

/// Key/value bindings, in order (a scope's bindings, or a record's fields).
pub type Bindings = Seq<(Seq<char>, SpecValue)>;

/// The position of the first binding of `name`.
pub open spec fn binding_index(b: Bindings, name: Seq<char>) -> Option<nat>
    decreases b.len(),
{
    if b.len() == 0 {
        None
    } else {
        match binding_index(b.drop_last(), name) {
            Some(k) => Some(k),
            None => if b.last().0 == name {
                Some((b.len() - 1) as nat)
            } else {
                None
            },
        }
    }
}

/// The value of the first binding of `name`.
pub open spec fn find_binding(b: Bindings, name: Seq<char>) -> Option<SpecValue> {
    match binding_index(b, name) {
        Some(k) => Some(b[k as int].1),
        None => None,
    }
}

/// Binds `name` to `v`: the first binding of `name` is replaced in place
/// (keeping the order), or a new binding is added at the end.
pub open spec fn upsert(b: Bindings, name: Seq<char>, v: SpecValue) -> Bindings {
    match binding_index(b, name) {
        Some(k) => b.update(k as int, (name, v)),
        None => b.push((name, v)),
    }
}

/// The model of a scope: its bindings and its enclosing scope, if any.
pub struct SpecScope {
    pub bindings: Bindings,
    pub parent: Option<nat>,
}

/// Looks `name` up in scope `id`, then in its enclosing scopes. An enclosing
/// scope is always created before the scopes inside it, so its index is
/// smaller; a chain that does not descend ends the search.
pub open spec fn lookup(env: Seq<SpecScope>, id: nat, name: Seq<char>) -> Option<SpecValue>
    decreases id,
{
    if id >= env.len() {
        None
    } else {
        match find_binding(env[id as int].bindings, name) {
            Some(v) => Some(v),
            None => match env[id as int].parent {
                Some(p) => if p < id {
                    lookup(env, p, name)
                } else {
                    None
                },
                None => None,
            },
        }
    }
}

/// Binds `name` to `v` in scope `id` (shadowing any binding in enclosing scopes).
pub open spec fn define(env: Seq<SpecScope>, id: nat, name: Seq<char>, v: SpecValue) -> Seq<
    SpecScope,
> {
    if id < env.len() {
        env.update(
            id as int,
            SpecScope { bindings: upsert(env[id as int].bindings, name, v), parent: env[id as int].parent },
        )
    } else {
        env
    }
}

/// A new empty scope nested inside `parent`, added after the existing scopes.
pub open spec fn new_scope(env: Seq<SpecScope>, parent: nat) -> Seq<SpecScope> {
    env.push(SpecScope { bindings: seq![], parent: Some(parent) })
}

// ---------------------------------------------------------------------------
// Laws of environments
// ---------------------------------------------------------------------------

pub proof fn lemma_binding_index_found(b: Bindings, name: Seq<char>)
    ensures
        binding_index(b, name) matches Some(k) ==> k < b.len() && b[k as int].0 == name,
        binding_index(b, name) is None ==> forall|k: int| 0 <= k < b.len() ==> #[trigger] b[k].0 != name,
    decreases b.len(),
{
    if b.len() > 0 {
        lemma_binding_index_found(b.drop_last(), name);
        if binding_index(b, name) is None {
            assert forall|k: int| 0 <= k < b.len() implies #[trigger] b[k].0 != name by {
                if k < b.len() - 1 {
                    assert(b.drop_last()[k] == b[k]);
                }
            }
        }
    }
}

/// No binding before the first binding of `name` has that name.
proof fn lemma_binding_index_first(b: Bindings, name: Seq<char>)
    ensures
        binding_index(b, name) matches Some(k) ==> forall|j: int|
            0 <= j < k ==> #[trigger] b[j].0 != name,
    decreases b.len(),
{
    if b.len() > 0 {
        let p = b.drop_last();
        lemma_binding_index_first(p, name);
        lemma_binding_index_found(p, name);
        if let Some(k) = binding_index(b, name) {
            assert forall|j: int| 0 <= j < k implies #[trigger] b[j].0 != name by {
                assert(p[j] == b[j]);
            }
        }
    }
}

/// The first binding of `name` is at `j` when `j` holds it and no earlier
/// position does.
proof fn lemma_first_match(b: Bindings, name: Seq<char>, j: int)
    requires
        0 <= j < b.len(),
        b[j].0 == name,
        forall|i: int| 0 <= i < j ==> #[trigger] b[i].0 != name,
    ensures
        binding_index(b, name) == Some(j as nat),
    decreases b.len(),
{
    let p = b.drop_last();
    if j < b.len() - 1 {
        assert forall|i: int| 0 <= i < j implies #[trigger] p[i].0 != name by {
            assert(p[i] == b[i]);
        }
        lemma_first_match(p, name, j);
    } else {
        lemma_binding_index_found(p, name);
        if let Some(k) = binding_index(p, name) {
            assert(p[k as int] == b[k as int]);
        }
    }
}

/// After binding `name` to `v`, the bindings give `v` for `name` and are
/// unchanged for every other name.
pub proof fn lemma_upsert(b: Bindings, name: Seq<char>, v: SpecValue, other: Seq<char>)
    ensures
        find_binding(upsert(b, name, v), name) == Some(v),
        other != name ==> find_binding(upsert(b, name, v), other) == find_binding(b, other),
{
    lemma_binding_index_found(b, name);
    lemma_binding_index_found(b, other);
    let u = upsert(b, name, v);
    match binding_index(b, name) {
        Some(k) => {
            lemma_binding_index_first(b, name);
            assert forall|i: int| 0 <= i < k implies #[trigger] u[i].0 != name by {
                assert(u[i] == b[i]);
            }
            lemma_first_match(u, name, k as int);
            if other != name {
                match binding_index(b, other) {
                    Some(j) => {
                        lemma_binding_index_first(b, other);
                        assert forall|i: int| 0 <= i < j implies #[trigger] u[i].0 != other by {
                            if i != k {
                                assert(u[i] == b[i]);
                            }
                        }
                        assert(u[j as int] == b[j as int]);
                        lemma_first_match(u, other, j as int);
                    },
                    None => {
                        lemma_binding_index_found(u, other);
                        if let Some(j) = binding_index(u, other) {
                            if j != k {
                                assert(u[j as int] == b[j as int]);
                            }
                        }
                    },
                }
            }
        },
        None => {
            assert forall|i: int| 0 <= i < b.len() implies #[trigger] u[i].0 != name by {
                assert(u[i] == b[i]);
            }
            lemma_first_match(u, name, b.len() as int);
            if other != name {
                assert(u.drop_last() =~= b);
            }
        },
    }
}

/// A read gives back what a write wrote: after `define` of `name` in a scope,
/// looking `name` up from that scope gives the defined value.
pub proof fn law_lookup_after_define(env: Seq<SpecScope>, id: nat, name: Seq<char>, v: SpecValue)
    requires
        id < env.len(),
    ensures
        lookup(define(env, id, name, v), id, name) == Some(v),
{
    lemma_upsert(env[id as int].bindings, name, v, name);
}

/// Defining one name leaves the lookup of every other name unchanged, from
/// every scope.
pub proof fn law_define_other_names(
    env: Seq<SpecScope>,
    id: nat,
    name: Seq<char>,
    v: SpecValue,
    from: nat,
    other: Seq<char>,
)
    requires
        other != name,
    ensures
        lookup(define(env, id, name, v), from, other) == lookup(env, from, other),
    decreases from,
{
    let env2 = define(env, id, name, v);
    if from < env.len() {
        if id < env.len() {
            lemma_upsert(env[id as int].bindings, name, v, other);
        }
        assert(env2[from as int].parent == env[from as int].parent);
        assert(find_binding(env2[from as int].bindings, other) == find_binding(
            env[from as int].bindings,
            other,
        ));
        if let Some(p) = env[from as int].parent {
            if p < from {
                law_define_other_names(env, id, name, v, p, other);
            }
        }
    }
}

/// A new scope sees every binding of its enclosing scope until it binds the
/// name itself, and creating it changes no lookup from existing scopes.
pub proof fn law_new_scope(env: Seq<SpecScope>, parent: nat, from: nat, name: Seq<char>)
    requires
        parent < env.len(),
    ensures
        lookup(new_scope(env, parent), env.len(), name) == lookup(env, parent, name),
        from < env.len() ==> lookup(new_scope(env, parent), from, name) == lookup(env, from, name),
    decreases from,
{
    let env2 = new_scope(env, parent);
    lemma_new_scope_keeps(env, parent, parent, name);
    if from < env.len() {
        lemma_new_scope_keeps(env, parent, from, name);
    }
}

proof fn lemma_new_scope_keeps(env: Seq<SpecScope>, parent: nat, from: nat, name: Seq<char>)
    requires
        from < env.len(),
    ensures
        lookup(new_scope(env, parent), from, name) == lookup(env, from, name),
    decreases from,
{
    let env2 = new_scope(env, parent);
    assert(env2[from as int] == env[from as int]);
    if let Some(p) = env[from as int].parent {
        if p < from {
            lemma_new_scope_keeps(env, parent, p, name);
        }
    }
}

/// A binding in an inner scope shadows the same name in enclosing scopes.
pub proof fn law_shadowing(env: Seq<SpecScope>, parent: nat, name: Seq<char>, v: SpecValue)
    requires
        parent < env.len(),
    ensures
        lookup(define(new_scope(env, parent), env.len(), name, v), env.len(), name) == Some(v),
        lookup(define(new_scope(env, parent), env.len(), name, v), parent, name) == lookup(
            env,
            parent,
            name,
        ),
{
    let env2 = new_scope(env, parent);
    law_lookup_after_define(env2, env.len(), name, v);
    lemma_define_keeps_other_scope(env2, env.len(), name, v, parent);
    lemma_new_scope_keeps(env, parent, parent, name);
}

/// Defining in one scope changes no lookup that starts below it.
proof fn lemma_define_keeps_other_scope(
    env: Seq<SpecScope>,
    id: nat,
    name: Seq<char>,
    v: SpecValue,
    from: nat,
)
    requires
        from < id,
    ensures
        lookup(define(env, id, name, v), from, name) == lookup(env, from, name),
    decreases from,
{
    let env2 = define(env, id, name, v);
    if from < env.len() {
        assert(env2[from as int] == env[from as int]);
        if let Some(p) = env[from as int].parent {
            if p < from {
                lemma_define_keeps_other_scope(env, id, name, v, p);
            }
        }
    }
}

// ---------------------------------------------------------------------------
// Executable environments
// ---------------------------------------------------------------------------

/// The position of the first binding of `name` in `b`.
pub fn index_of(b: &Vec<(String, Value)>, name: &str) -> (r: Option<usize>)
    ensures
        match r {
            Some(k) => binding_index(vfields_view(b@), name@) == Some(k as nat),
            None => binding_index(vfields_view(b@), name@) is None,
        },
{
    let ghost m = vfields_view(b@);
    proof {
        lemma_vfields_view(b@);
    }
    let mut k: usize = 0;
    while k < b.len()
        invariant
            m == vfields_view(b@),
            m.len() == b@.len(),
            forall|j: int| 0 <= j < m.len() ==> #[trigger] m[j] == (b@[j].0@, b@[j].1@),
            k <= b@.len(),
            forall|j: int| 0 <= j < k ==> #[trigger] m[j].0 != name@,
        decreases b.len() - k,
    {
        if str_eq(b[k].0.as_str(), name) {
            proof {
                lemma_first_match(m, name@, k as int);
            }
            return Some(k);
        }
        k = k + 1;
    }
    proof {
        lemma_binding_index_found(m, name@);
        if let Some(j) = binding_index(m, name@) {
            assert(m[j as int].0 != name@);
        }
    }
    None
}

/// Binds `name` to `value` in the bindings `b`, as [`upsert`].
pub fn upsert_binding(b: &mut Vec<(String, Value)>, name: String, value: Value)
    ensures
        vfields_view(final(b)@) == upsert(vfields_view(old(b)@), name@, value@),
{
    proof {
        lemma_vfields_view(b@);
    }
    match index_of(b, name.as_str()) {
        Some(k) => {
            let ghost old_b = b@;
            proof {
                lemma_binding_index_found(vfields_view(b@), name@);
            }
            b.set(k, (name, value));
            proof {
                lemma_vfields_view(b@);
                assert(vfields_view(b@) =~= vfields_view(old_b).update(k as int, (name@, value@)));
            }
        },
        None => {
            proof {
                lemma_vfields_view_push(b@, (name, value));
            }
            b.push((name, value));
        },
    }
}

struct Scope {
    bindings: Vec<(String, Value)>,
    parent: Option<usize>,
}

spec fn scope_view(s: Scope) -> SpecScope {
    SpecScope {
        bindings: vfields_view(s.bindings@),
        parent: match s.parent {
            Some(p) => Some(p as nat),
            None => None,
        },
    }
}

/// All the scopes of an evaluation. Scope `0` is the top level.
pub struct Env {
    scopes: Vec<Scope>,
}

impl View for Env {
    type V = Seq<SpecScope>;

    closed spec fn view(&self) -> Seq<SpecScope> {
        self.scopes@.map_values(|s: Scope| scope_view(s))
    }
}

/// The index of the top-level scope of a new [`Env`].
pub const ROOT_SCOPE: usize = 0;

impl Env {
    /// Creates an environment holding one empty top-level scope.
    pub fn new() -> (env: Self)
        ensures
            env@ == seq![SpecScope { bindings: seq![], parent: None }],
    {
        let mut scopes: Vec<Scope> = Vec::new();
        let b: Vec<(String, Value)> = Vec::new();
        assert(vfields_view(b@) =~= seq![]);
        scopes.push(Scope { bindings: b, parent: None });
        let env = Env { scopes };
        assert(env@ =~= seq![SpecScope { bindings: seq![], parent: None }]);
        env
    }

    /// The number of scopes.
    pub fn len(&self) -> (n: usize)
        ensures
            n == self@.len(),
    {
        self.scopes.len()
    }

    /// Creates a new scope nested inside `parent`, returning its index.
    pub fn child(&mut self, parent: usize) -> (id: usize)
        ensures
            final(self)@ == new_scope(old(self)@, parent as nat),
            id == old(self)@.len(),
    {
        let id = self.scopes.len();
        let b: Vec<(String, Value)> = Vec::new();
        assert(vfields_view(b@) =~= seq![]);
        self.scopes.push(Scope { bindings: b, parent: Some(parent) });
        assert(self@ =~= new_scope(old(self)@, parent as nat));
        id
    }

    /// Looks `name` up, checking scope `scope` then walking up its enclosing
    /// scopes.
    pub fn get(&self, scope: usize, name: &str) -> (r: Option<Value>)
        ensures
            match r {
                Some(v) => lookup(self@, scope as nat, name@) == Some(v@),
                None => lookup(self@, scope as nat, name@) is None,
            },
    {
        let mut id = scope;
        loop
            invariant
                lookup(self@, scope as nat, name@) == lookup(self@, id as nat, name@),
            decreases id,
        {
            if id >= self.scopes.len() {
                return None;
            }
            let sc = &self.scopes[id];
            assert(self@[id as int] == scope_view(self.scopes@[id as int]));
            match index_of(&sc.bindings, name) {
                Some(k) => {
                    proof {
                        lemma_vfields_view(sc.bindings@);
                        lemma_binding_index_found(vfields_view(sc.bindings@), name@);
                    }
                    return Some(sc.bindings[k].1.duplicate());
                },
                None => {},
            }
            match sc.parent {
                Some(p) => {
                    if p < id {
                        id = p;
                    } else {
                        return None;
                    }
                },
                None => {
                    return None;
                },
            }
        }
    }

    /// Binds `name` to `value` in scope `scope` (shadowing any existing binding).
    pub fn define(&mut self, scope: usize, name: String, value: Value)
        ensures
            final(self)@ == define(old(self)@, scope as nat, name@, value@),
    {
        if scope < self.scopes.len() {
            let mut sc = Scope { bindings: Vec::new(), parent: None };
            self.scopes.set_and_swap(scope, &mut sc);
            upsert_binding(&mut sc.bindings, name, value);
            let ghost mid = self.scopes@;
            self.scopes.set_and_swap(scope, &mut sc);
            assert(self@ =~= define(old(self)@, scope as nat, name@, value@));
        }
    }
}

} // verus!
