//! Where names are resolved: the laws of lexical scope.
//!
//! A name is resolved from the scope its expression is evaluated in, walking
//! out through the enclosing scopes. A `let` form opens a scope nested in the
//! scope it is evaluated in, and a call opens a scope nested in the scope the
//! called closure captured where it was made, never in the caller's scope.
//! Field access `base.field` resolves `base` like any other name.

use vstd::prelude::*;
use crate::ast::SpecExpr;
use crate::env::{
    SpecScope, binding_index, define, find_binding, lookup, new_scope, law_define_other_names,
    law_new_scope,
};
use crate::eval::{
    bind_params, char_index, eval_expr, eval_seq, spec_apply_function, spec_call_closure,
    spec_eval_let, spec_eval_list, spec_let_bindings, SpecEvalError,
};
use crate::frame::law_call_scope;
use crate::value::SpecValue;

verus! {

/// The names that a list form dispatches on before it calls a function.
pub open spec fn reserved(f: Seq<char>) -> bool {
    ||| f == "def"@
    ||| f == "let"@
    ||| f == "if"@
    ||| f == "fn"@
    ||| f == "+"@
    ||| f == "concat"@
    ||| f == "show"@
    ||| f == "fold"@
    ||| f == "append"@
    ||| f == "merge"@
}

/// What looking a name up gives as the value of a plain symbol.
pub open spec fn resolved(env: Seq<SpecScope>, sc: nat, n: Seq<char>) -> Result<
    SpecValue,
    SpecEvalError,
> {
    match lookup(env, sc, n) {
        Some(v) => Ok(v),
        None => Err(SpecEvalError::UnknownName(n)),
    }
}

// ---------------------------------------------------------------------------
// Positions of first occurrences
// ---------------------------------------------------------------------------

proof fn lemma_char_index_none(s: Seq<char>, c: char)
    requires
        forall|j: int| 0 <= j < s.len() ==> s[j] != c,
    ensures
        char_index(s, c) is None,
    decreases s.len(),
{
    if s.len() > 0 {
        lemma_char_index_none(s.drop_last(), c);
    }
}

proof fn lemma_char_index_first(s: Seq<char>, c: char, k: nat)
    requires
        k < s.len(),
        s[k as int] == c,
        forall|j: int| 0 <= j < k ==> s[j] != c,
    ensures
        char_index(s, c) == Some(k),
    decreases s.len(),
{
    if k + 1 < s.len() {
        lemma_char_index_first(s.drop_last(), c, k);
    } else {
        lemma_char_index_none(s.drop_last(), c);
    }
}

proof fn lemma_binding_index_first(
    b: Seq<(Seq<char>, SpecValue)>,
    name: Seq<char>,
    k: nat,
)
    requires
        k < b.len(),
        b[k as int].0 == name,
        forall|j: int| 0 <= j < k ==> b[j].0 != name,
    ensures
        binding_index(b, name) == Some(k),
    decreases b.len(),
{
    if k + 1 < b.len() {
        lemma_binding_index_first(b.drop_last(), name, k);
    } else {
        lemma_binding_index_none(b.drop_last(), name);
    }
}

proof fn lemma_binding_index_none(b: Seq<(Seq<char>, SpecValue)>, name: Seq<char>)
    requires
        forall|j: int| 0 <= j < b.len() ==> b[j].0 != name,
    ensures
        binding_index(b, name) is None,
    decreases b.len(),
{
    if b.len() > 0 {
        lemma_binding_index_none(b.drop_last(), name);
    }
}

// ---------------------------------------------------------------------------
// Laws
// ---------------------------------------------------------------------------

/// A plain name (one without `.`) evaluates to what looking it up from the
/// current scope gives.
pub proof fn law_symbol_resolves_from_current_scope(
    fuel: nat,
    n: Seq<char>,
    env: Seq<SpecScope>,
    sc: nat,
)
    requires
        fuel > 0,
        forall|j: int| 0 <= j < n.len() ==> n[j] != '.',
    ensures
        eval_expr(fuel, SpecExpr::Symbol(n), env, sc) == (env, resolved(env, sc, n)),
{
    lemma_char_index_none(n, '.');
}

/// Field access resolves its base from the current scope, as the plain name
/// would be: where `base` is bound, seen from scope `sc`, to a record whose
/// first field named `field` is at position `i`, `base.field` evaluates in
/// `sc` to that field's value.
pub proof fn law_field_access_from_current_scope(
    fuel: nat,
    env: Seq<SpecScope>,
    sc: nat,
    base: Seq<char>,
    field: Seq<char>,
    fs: Seq<(Seq<char>, SpecValue)>,
    i: nat,
)
    requires
        fuel > 0,
        forall|j: int| 0 <= j < base.len() ==> base[j] != '.',
        lookup(env, sc, base) == Some(SpecValue::Record(fs)),
        i < fs.len(),
        fs[i as int].0 == field,
        forall|j: int| 0 <= j < i ==> fs[j].0 != field,
    ensures
        eval_expr(fuel, SpecExpr::Symbol(base + seq!['.'] + field), env, sc) == (
            env,
            Ok::<SpecValue, SpecEvalError>(fs[i as int].1),
        ),
        eval_expr(fuel, SpecExpr::Symbol(base), env, sc) == (
            env,
            Ok::<SpecValue, SpecEvalError>(SpecValue::Record(fs)),
        ),
{
    let name = base + seq!['.'] + field;
    let k = base.len();
    assert(name[k as int] == '.');
    assert forall|j: int| 0 <= j < k implies name[j] != '.' by {
        assert(name[j] == base[j]);
    }
    lemma_char_index_first(name, '.', k);
    assert(name.subrange(0, k as int) =~= base);
    assert(name.subrange(k + 1 as int, name.len() as int) =~= field);
    lemma_binding_index_first(fs, field, i);
    assert(find_binding(fs, field) == Some(fs[i as int].1));
    lemma_char_index_none(base, '.');
}

/// Calls are lexically scoped. Calling a name that is bound, seen from the
/// caller's scope, to a closure that captured scope `c` evaluates the
/// arguments in the caller's scope, then the closure's body in one new scope
/// whose parent is `c` (not the caller's scope), holding the parameters bound
/// to the argument values. In the body each parameter (when the names are
/// distinct) gives its argument, and every other name resolves as it does in
/// `c`, whatever the caller's scope binds.
pub proof fn law_call_is_lexical(
    fuel: nat,
    f: Seq<char>,
    args: Seq<SpecExpr>,
    env: Seq<SpecScope>,
    sc: nat,
    params: Seq<Seq<char>>,
    body: SpecExpr,
    c: nat,
    n: Seq<char>,
)
    requires
        fuel > 0,
        !reserved(f),
        lookup(env, sc, f) == Some(SpecValue::Closure { params, body, env: c }),
    ensures
        ({
            let (env2, r) = eval_seq((fuel - 1) as nat, args, 0, env, sc, seq![]);
            let id = env2.len();
            let opened = env2.push(SpecScope { bindings: seq![], parent: Some(c) });
            match r {
                Ok(vals) => vals.len() == params.len() ==> {
                    let env3 = bind_params(opened, id, params, vals, 0);
                    &&& eval_expr(fuel, SpecExpr::List(seq![SpecExpr::Symbol(f)] + args), env, sc)
                        == eval_expr((fuel - 1) as nat, body, env3, id)
                    &&& (c < env2.len() && !params.contains(n)) ==> lookup(env3, id, n)
                        == lookup(env2, c, n)
                    &&& (params.no_duplicates() && c < env2.len()) ==> forall|k: int|
                        0 <= k < params.len() ==> lookup(env3, id, #[trigger] params[k])
                            == Some(vals[k])
                },
                Err(_) => true,
            }
        }),
{
    let items = seq![SpecExpr::Symbol(f)] + args;
    assert(items.subrange(1, items.len() as int) =~= args);
    assert(items[0] == SpecExpr::Symbol(f));
    let f1 = (fuel - 1) as nat;
    assert(eval_expr(fuel, SpecExpr::List(items), env, sc) == spec_eval_list(f1, items, env, sc));
    assert(spec_eval_list(f1, items, env, sc) == spec_apply_function(f1, f, args, env, sc));
    let (env2, r) = eval_seq(f1, args, 0, env, sc, seq![]);
    if let Ok(vals) = r {
        if vals.len() == params.len() {
            assert(spec_apply_function(f1, f, args, env, sc) == spec_call_closure(
                f1,
                params,
                body,
                c,
                vals,
                env2,
            ));
            assert(new_scope(env2, c) == env2.push(SpecScope { bindings: seq![], parent: Some(c) }));
            if c < env2.len() {
                law_call_scope(f1, params, body, c, vals, env2, n, 0);
                assert forall|k: int| params.no_duplicates() && 0 <= k < params.len() implies lookup(
                    bind_params(new_scope(env2, c), env2.len(), params, vals, 0),
                    env2.len(),
                    #[trigger] params[k],
                ) == Some(vals[k]) by {
                    law_call_scope(f1, params, body, c, vals, env2, n, k);
                }
            }
        }
    }
}

/// A `let` form opens one new scope whose parent is the scope the form is
/// evaluated in; before its bindings, every name resolves there as it does
/// in the enclosing scope. The bindings and then the body are evaluated in
/// that scope.
pub proof fn law_let_opens_child_of_current_scope(
    fuel: nat,
    bs: Seq<SpecExpr>,
    body: SpecExpr,
    env: Seq<SpecScope>,
    sc: nat,
    n: Seq<char>,
)
    requires
        fuel > 0,
        sc < env.len(),
        bs.len() % 2 == 0,
    ensures
        ({
            let child = env.len();
            let opened = env.push(SpecScope { bindings: seq![], parent: Some(sc) });
            let form = SpecExpr::List(
                seq![SpecExpr::Symbol("let"@), SpecExpr::Vector(bs), body],
            );
            &&& lookup(opened, child, n) == lookup(env, sc, n)
            &&& bs.len() == 0 ==> eval_expr(fuel, form, env, sc) == eval_expr(
                (fuel - 1) as nat,
                body,
                opened,
                child,
            )
        }),
{
    reveal_strlit("let");
    reveal_strlit("def");
    law_new_scope(env, sc, sc, n);
    let form_items = seq![SpecExpr::Symbol("let"@), SpecExpr::Vector(bs), body];
    let args = seq![SpecExpr::Vector(bs), body];
    assert(form_items.subrange(1, form_items.len() as int) =~= args);
    assert("let"@[0] != "def"@[0]);
    let f1 = (fuel - 1) as nat;
    assert(spec_eval_list(f1, form_items, env, sc) == spec_eval_let(f1, args, env, sc));
    if bs.len() == 0 {
        let opened = new_scope(env, sc);
        assert(spec_let_bindings(f1, bs, 0, opened, env.len()) == (opened, Ok::<(), SpecEvalError>(())));
    }
}

/// A name that a `let` does not bind resolves in its body as in the scope
/// the `let` is evaluated in: for `(let [x e] n)`, where `e` evaluates to a
/// value without changing any scope, `n` (not `x`, without `.`) evaluates to
/// what looking `n` up from the enclosing scope gives.
pub proof fn law_let_body_sees_enclosing_names(
    fuel: nat,
    x: Seq<char>,
    e: SpecExpr,
    n: Seq<char>,
    env: Seq<SpecScope>,
    sc: nat,
    v: SpecValue,
)
    requires
        fuel > 1,
        sc < env.len(),
        n != x,
        forall|j: int| 0 <= j < n.len() ==> n[j] != '.',
        ({
            let opened = env.push(SpecScope { bindings: seq![], parent: Some(sc) });
            eval_expr((fuel - 1) as nat, e, opened, env.len()) == (
                opened,
                Ok::<SpecValue, SpecEvalError>(v),
            )
        }),
    ensures
        eval_expr(
            fuel,
            SpecExpr::List(
                seq![
                    SpecExpr::Symbol("let"@),
                    SpecExpr::Vector(seq![SpecExpr::Symbol(x), e]),
                    SpecExpr::Symbol(n),
                ],
            ),
            env,
            sc,
        ).1 == resolved(env, sc, n),
{
    reveal_strlit("let");
    reveal_strlit("def");
    let child = env.len();
    let opened = env.push(SpecScope { bindings: seq![], parent: Some(sc) });
    let bs = seq![SpecExpr::Symbol(x), e];
    let body = SpecExpr::Symbol(n);
    let form_items = seq![SpecExpr::Symbol("let"@), SpecExpr::Vector(bs), body];
    let args = seq![SpecExpr::Vector(bs), body];
    assert(form_items.subrange(1, form_items.len() as int) =~= args);
    assert("let"@[0] != "def"@[0]);
    let f1 = (fuel - 1) as nat;
    assert(spec_eval_list(f1, form_items, env, sc) == spec_eval_let(f1, args, env, sc));
    let env_b = define(opened, child, x, v);
    assert(new_scope(env, sc) == opened);
    assert(spec_let_bindings(f1, bs, 2, env_b, child) == (env_b, Ok::<(), SpecEvalError>(())));
    assert(spec_let_bindings(f1, bs, 0, opened, child) == (env_b, Ok::<(), SpecEvalError>(())));
    law_define_other_names(opened, child, x, v, child, n);
    law_new_scope(env, sc, sc, n);
    lemma_char_index_none(n, '.');
    assert(lookup(env_b, child, n) == lookup(env, sc, n));
    law_symbol_resolves_from_current_scope((fuel - 1) as nat, n, env_b, child);
}

} // verus!
