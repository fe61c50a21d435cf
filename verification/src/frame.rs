//! What an evaluation may change in the environment.
//!
//! Evaluating an expression in a scope adds scopes and changes, among the
//! scopes that already exist, only the bindings of that scope: `def` binds in
//! the current scope, while `let` and function calls evaluate in fresh scopes
//! of their own. So a `let` form and a call leave every existing scope as it
//! was, and their bindings never leak out.

use vstd::prelude::*;
use crate::ast::SpecExpr;
use crate::env::{
    SpecScope, define, lookup, new_scope, law_lookup_after_define, law_define_other_names,
    law_new_scope,
};
use crate::eval::{
    bind_params, eval_expr, eval_fields, eval_seq, merge_fields, spec_apply_function,
    spec_builtin_add, spec_builtin_append, spec_builtin_concat, spec_builtin_fold,
    spec_builtin_merge, spec_builtin_show, spec_call_closure, spec_eval_def, spec_eval_if,
    spec_eval_let, spec_eval_list, spec_fold_items, spec_let_bindings,
};
use crate::value::SpecValue;

verus! {

/// `new` extends `old`, and among the scopes of `old` only the bindings of
/// scope `sc` may differ (scope parents never change).
pub open spec fn keeps(old: Seq<SpecScope>, new: Seq<SpecScope>, sc: nat) -> bool {
    &&& old.len() <= new.len()
    &&& forall|i: int| 0 <= i < old.len() ==> #[trigger] new[i].parent == old[i].parent
    &&& forall|i: int| 0 <= i < old.len() && i != sc ==> #[trigger] new[i] == old[i]
}

proof fn lemma_keeps_trans(a: Seq<SpecScope>, b: Seq<SpecScope>, c: Seq<SpecScope>, s: nat)
    requires
        keeps(a, b, s),
        keeps(b, c, s),
    ensures
        keeps(a, c, s),
{
    assert forall|i: int| 0 <= i < a.len() implies #[trigger] c[i].parent == a[i].parent by {
        assert(b[i].parent == a[i].parent);
    }
    assert forall|i: int| 0 <= i < a.len() && i != s implies #[trigger] c[i] == a[i] by {
        assert(b[i] == a[i]);
    }
}

/// Keeping every existing scope implies keeping all but any one.
proof fn lemma_keeps_weaken(a: Seq<SpecScope>, b: Seq<SpecScope>, s: nat)
    requires
        keeps(a, b, a.len()),
    ensures
        keeps(a, b, s),
{
}

/// Two steps that each keep every scope existing before them.
proof fn lemma_keeps_all_trans(a: Seq<SpecScope>, b: Seq<SpecScope>, c: Seq<SpecScope>)
    requires
        keeps(a, b, a.len()),
        keeps(b, c, b.len()),
    ensures
        keeps(a, c, a.len()),
{
    lemma_keeps_weaken(b, c, a.len());
    lemma_keeps_trans(a, b, c, a.len());
}

proof fn lemma_define_keeps(env: Seq<SpecScope>, sc: nat, name: Seq<char>, v: SpecValue)
    ensures
        keeps(env, define(env, sc, name, v), sc),
{
}

proof fn lemma_new_scope_keeps(env: Seq<SpecScope>, p: nat, s: nat)
    ensures
        keeps(env, new_scope(env, p), s),
{
}

proof fn lemma_bind_params_keeps(
    env: Seq<SpecScope>,
    id: nat,
    params: Seq<Seq<char>>,
    vals: Seq<SpecValue>,
    i: nat,
)
    ensures
        keeps(env, bind_params(env, id, params, vals, i), id),
    decreases params.len() - i,
{
    if i < params.len() {
        let e1 = define(env, id, params[i as int], vals[i as int]);
        lemma_define_keeps(env, id, params[i as int], vals[i as int]);
        lemma_bind_params_keeps(e1, id, params, vals, i + 1);
        lemma_keeps_trans(env, e1, bind_params(e1, id, params, vals, i + 1), id);
    }
}

/// Evaluating an expression in scope `sc` keeps every other existing scope.
pub proof fn lemma_eval_expr_keeps(fuel: nat, e: SpecExpr, env: Seq<SpecScope>, sc: nat)
    ensures
        keeps(env, eval_expr(fuel, e, env, sc).0, sc),
    decreases fuel, 0nat, 0nat,
{
    if fuel > 0 {
        let f = (fuel - 1) as nat;
        match e {
            SpecExpr::Vector(items) => lemma_eval_seq_keeps(f, items, 0, env, sc, seq![]),
            SpecExpr::Record(fields) => lemma_eval_fields_keeps(f, fields, 0, env, sc, seq![]),
            SpecExpr::List(items) => lemma_eval_list_keeps(f, items, env, sc),
            _ => {},
        }
    }
}

proof fn lemma_eval_seq_keeps(
    fuel: nat,
    items: Seq<SpecExpr>,
    i: nat,
    env: Seq<SpecScope>,
    sc: nat,
    acc: Seq<SpecValue>,
)
    ensures
        keeps(env, eval_seq(fuel, items, i, env, sc, acc).0, sc),
    decreases fuel, 1nat, items.len() - i,
{
    if i < items.len() {
        lemma_eval_expr_keeps(fuel, items[i as int], env, sc);
        let (env2, r) = eval_expr(fuel, items[i as int], env, sc);
        if let Ok(v) = r {
            lemma_eval_seq_keeps(fuel, items, i + 1, env2, sc, acc.push(v));
            lemma_keeps_trans(env, env2, eval_seq(fuel, items, i + 1, env2, sc, acc.push(v)).0, sc);
        }
    }
}

proof fn lemma_eval_fields_keeps(
    fuel: nat,
    fields: Seq<(Seq<char>, SpecExpr)>,
    i: nat,
    env: Seq<SpecScope>,
    sc: nat,
    acc: Seq<(Seq<char>, SpecValue)>,
)
    ensures
        keeps(env, eval_fields(fuel, fields, i, env, sc, acc).0, sc),
    decreases fuel, 1nat, fields.len() - i,
{
    if i < fields.len() {
        lemma_eval_expr_keeps(fuel, fields[i as int].1, env, sc);
        let (env2, r) = eval_expr(fuel, fields[i as int].1, env, sc);
        if let Ok(v) = r {
            let acc2 = acc.push((fields[i as int].0, v));
            lemma_eval_fields_keeps(fuel, fields, i + 1, env2, sc, acc2);
            lemma_keeps_trans(env, env2, eval_fields(fuel, fields, i + 1, env2, sc, acc2).0, sc);
        }
    }
}

proof fn lemma_eval_list_keeps(fuel: nat, items: Seq<SpecExpr>, env: Seq<SpecScope>, sc: nat)
    ensures
        keeps(env, spec_eval_list(fuel, items, env, sc).0, sc),
    decreases fuel, 4nat, 0nat,
{
    if items.len() > 0 {
        let args = items.subrange(1, items.len() as int);
        if let SpecExpr::Symbol(name) = items[0] {
            if name == "def"@ {
                lemma_eval_def_keeps(fuel, args, env, sc);
            } else if name == "let"@ {
                lemma_eval_let_keeps(fuel, args, env, sc);
                lemma_keeps_weaken(env, spec_eval_let(fuel, args, env, sc).0, sc);
            } else if name == "if"@ {
                lemma_eval_if_keeps(fuel, args, env, sc);
            } else if name == "fn"@ {
            } else if name == "+"@ {
                lemma_add_keeps(fuel, args, 0, env, sc, 0);
            } else if name == "concat"@ {
                lemma_concat_keeps(fuel, args, 0, env, sc, seq![]);
            } else if name == "show"@ {
                lemma_show_keeps(fuel, args, env, sc);
            } else if name == "fold"@ {
                lemma_fold_keeps(fuel, args, env, sc);
            } else if name == "append"@ {
                lemma_append_keeps(fuel, args, env, sc);
            } else if name == "merge"@ {
                lemma_merge_keeps(fuel, args, 0, env, sc, seq![]);
            } else {
                lemma_apply_keeps(fuel, name, args, env, sc);
            }
        }
    }
}

proof fn lemma_eval_def_keeps(fuel: nat, args: Seq<SpecExpr>, env: Seq<SpecScope>, sc: nat)
    ensures
        keeps(env, spec_eval_def(fuel, args, env, sc).0, sc),
    decreases fuel, 2nat, 0nat,
{
    if args.len() > 0 {
        if let SpecExpr::Symbol(name) = args[0] {
            lemma_eval_expr_keeps(fuel, args.last(), env, sc);
            let (env2, r) = eval_expr(fuel, args.last(), env, sc);
            if let Ok(v) = r {
                lemma_define_keeps(env2, sc, name, v);
                lemma_keeps_trans(env, env2, define(env2, sc, name, v), sc);
            }
        }
    }
}

/// A `let` form keeps every existing scope.
proof fn lemma_eval_let_keeps(fuel: nat, args: Seq<SpecExpr>, env: Seq<SpecScope>, sc: nat)
    ensures
        keeps(env, spec_eval_let(fuel, args, env, sc).0, env.len()),
    decreases fuel, 2nat, 0nat,
{
    if args.len() > 0 {
        if let SpecExpr::Vector(bs) = args[0] {
            if args.len() >= 2 && bs.len() % 2 == 0 {
                let child = env.len();
                let env1 = new_scope(env, sc);
                lemma_new_scope_keeps(env, sc, child);
                lemma_let_bindings_keeps(fuel, bs, 0, env1, child);
                let (env2, r) = spec_let_bindings(fuel, bs, 0, env1, child);
                lemma_keeps_trans(env, env1, env2, child);
                if r is Ok {
                    lemma_eval_expr_keeps(fuel, args[1], env2, child);
                    lemma_keeps_trans(env, env2, eval_expr(fuel, args[1], env2, child).0, child);
                }
            }
        }
    }
}

proof fn lemma_let_bindings_keeps(
    fuel: nat,
    bs: Seq<SpecExpr>,
    i: nat,
    env: Seq<SpecScope>,
    child: nat,
)
    ensures
        keeps(env, spec_let_bindings(fuel, bs, i, env, child).0, child),
    decreases fuel, 1nat, bs.len() - i,
{
    if i < bs.len() {
        if let SpecExpr::Symbol(name) = bs[i as int] {
            if i + 1 < bs.len() {
                lemma_eval_expr_keeps(fuel, bs[i + 1 as int], env, child);
                let (env2, r) = eval_expr(fuel, bs[i + 1 as int], env, child);
                if let Ok(v) = r {
                    let env3 = define(env2, child, name, v);
                    lemma_define_keeps(env2, child, name, v);
                    lemma_keeps_trans(env, env2, env3, child);
                    lemma_let_bindings_keeps(fuel, bs, i + 2, env3, child);
                    lemma_keeps_trans(env, env3, spec_let_bindings(fuel, bs, i + 2, env3, child).0, child);
                }
            }
        }
    }
}

proof fn lemma_eval_if_keeps(fuel: nat, args: Seq<SpecExpr>, env: Seq<SpecScope>, sc: nat)
    ensures
        keeps(env, spec_eval_if(fuel, args, env, sc).0, sc),
    decreases fuel, 2nat, 0nat,
{
    if args.len() == 3 {
        lemma_eval_expr_keeps(fuel, args[0], env, sc);
        let (env2, r) = eval_expr(fuel, args[0], env, sc);
        if let Ok(SpecValue::Bool(b)) = r {
            let branch = if b {
                args[1]
            } else {
                args[2]
            };
            lemma_eval_expr_keeps(fuel, branch, env2, sc);
            lemma_keeps_trans(env, env2, eval_expr(fuel, branch, env2, sc).0, sc);
        }
    }
}

/// A call keeps every existing scope.
proof fn lemma_call_keeps(
    fuel: nat,
    params: Seq<Seq<char>>,
    body: SpecExpr,
    cenv: nat,
    vals: Seq<SpecValue>,
    env: Seq<SpecScope>,
)
    ensures
        keeps(env, spec_call_closure(fuel, params, body, cenv, vals, env).0, env.len()),
    decreases fuel, 1nat, 0nat,
{
    if vals.len() == params.len() {
        let id = env.len();
        let env0 = new_scope(env, cenv);
        let env1 = bind_params(env0, id, params, vals, 0);
        lemma_new_scope_keeps(env, cenv, id);
        lemma_bind_params_keeps(env0, id, params, vals, 0);
        lemma_keeps_trans(env, env0, env1, id);
        lemma_eval_expr_keeps(fuel, body, env1, id);
        lemma_keeps_trans(env, env1, eval_expr(fuel, body, env1, id).0, id);
    }
}

proof fn lemma_apply_keeps(
    fuel: nat,
    name: Seq<char>,
    args: Seq<SpecExpr>,
    env: Seq<SpecScope>,
    sc: nat,
)
    ensures
        keeps(env, spec_apply_function(fuel, name, args, env, sc).0, sc),
    decreases fuel, 2nat, 0nat,
{
    if let Some(SpecValue::Closure { params, body, env: cenv }) = lookup(env, sc, name) {
        lemma_eval_seq_keeps(fuel, args, 0, env, sc, seq![]);
        let (env2, r) = eval_seq(fuel, args, 0, env, sc, seq![]);
        if let Ok(vals) = r {
            lemma_call_keeps(fuel, params, body, cenv, vals, env2);
            let env3 = spec_call_closure(fuel, params, body, cenv, vals, env2).0;
            lemma_keeps_weaken(env2, env3, sc);
            lemma_keeps_trans(env, env2, env3, sc);
        }
    }
}

proof fn lemma_add_keeps(
    fuel: nat,
    args: Seq<SpecExpr>,
    i: nat,
    env: Seq<SpecScope>,
    sc: nat,
    total: i64,
)
    ensures
        keeps(env, spec_builtin_add(fuel, args, i, env, sc, total).0, sc),
    decreases fuel, 1nat, args.len() - i,
{
    if i < args.len() {
        lemma_eval_expr_keeps(fuel, args[i as int], env, sc);
        let (env2, r) = eval_expr(fuel, args[i as int], env, sc);
        if let Ok(SpecValue::Int(n)) = r {
            if i64::MIN <= total + n && total + n <= i64::MAX {
                let t = (total + n) as i64;
                lemma_add_keeps(fuel, args, i + 1, env2, sc, t);
                lemma_keeps_trans(env, env2, spec_builtin_add(fuel, args, i + 1, env2, sc, t).0, sc);
            }
        }
    }
}

proof fn lemma_concat_keeps(
    fuel: nat,
    args: Seq<SpecExpr>,
    i: nat,
    env: Seq<SpecScope>,
    sc: nat,
    acc: Seq<char>,
)
    ensures
        keeps(env, spec_builtin_concat(fuel, args, i, env, sc, acc).0, sc),
    decreases fuel, 1nat, args.len() - i,
{
    if i < args.len() {
        lemma_eval_expr_keeps(fuel, args[i as int], env, sc);
        let (env2, r) = eval_expr(fuel, args[i as int], env, sc);
        if let Ok(SpecValue::String(s)) = r {
            lemma_concat_keeps(fuel, args, i + 1, env2, sc, acc + s);
            lemma_keeps_trans(
                env,
                env2,
                spec_builtin_concat(fuel, args, i + 1, env2, sc, acc + s).0,
                sc,
            );
        }
    }
}

proof fn lemma_show_keeps(fuel: nat, args: Seq<SpecExpr>, env: Seq<SpecScope>, sc: nat)
    ensures
        keeps(env, spec_builtin_show(fuel, args, env, sc).0, sc),
    decreases fuel, 2nat, 0nat,
{
    if args.len() == 1 {
        lemma_eval_expr_keeps(fuel, args[0], env, sc);
    }
}

proof fn lemma_append_keeps(fuel: nat, args: Seq<SpecExpr>, env: Seq<SpecScope>, sc: nat)
    ensures
        keeps(env, spec_builtin_append(fuel, args, env, sc).0, sc),
    decreases fuel, 2nat, 0nat,
{
    if args.len() == 2 {
        lemma_eval_expr_keeps(fuel, args[0], env, sc);
        let (env2, r1) = eval_expr(fuel, args[0], env, sc);
        if r1 is Ok {
            lemma_eval_expr_keeps(fuel, args[1], env2, sc);
            lemma_keeps_trans(env, env2, eval_expr(fuel, args[1], env2, sc).0, sc);
        }
    }
}

proof fn lemma_fold_keeps(fuel: nat, args: Seq<SpecExpr>, env: Seq<SpecScope>, sc: nat)
    ensures
        keeps(env, spec_builtin_fold(fuel, args, env, sc).0, sc),
    decreases fuel, 3nat, 0nat,
{
    if args.len() == 3 {
        lemma_eval_expr_keeps(fuel, args[0], env, sc);
        let (env2, r1) = eval_expr(fuel, args[0], env, sc);
        if let Ok(list) = r1 {
            lemma_eval_expr_keeps(fuel, args[1], env2, sc);
            let (env3, r2) = eval_expr(fuel, args[1], env2, sc);
            lemma_keeps_trans(env, env2, env3, sc);
            if let Ok(acc) = r2 {
                lemma_eval_expr_keeps(fuel, args[2], env3, sc);
                let (env4, r3) = eval_expr(fuel, args[2], env3, sc);
                lemma_keeps_trans(env, env3, env4, sc);
                if let Ok(func) = r3 {
                    if let (
                        SpecValue::List(items),
                        SpecValue::Closure { params, body, env: cenv },
                    ) = (list, func) {
                        lemma_fold_items_keeps(fuel, params, body, cenv, items, 0, acc, env4);
                        let env5 = spec_fold_items(fuel, params, body, cenv, items, 0, acc, env4).0;
                        lemma_keeps_weaken(env4, env5, sc);
                        lemma_keeps_trans(env, env4, env5, sc);
                    }
                }
            }
        }
    }
}

proof fn lemma_fold_items_keeps(
    fuel: nat,
    params: Seq<Seq<char>>,
    body: SpecExpr,
    cenv: nat,
    items: Seq<SpecValue>,
    i: nat,
    acc: SpecValue,
    env: Seq<SpecScope>,
)
    ensures
        keeps(
            env,
            spec_fold_items(fuel, params, body, cenv, items, i, acc, env).0,
            env.len(),
        ),
    decreases fuel, 2nat, items.len() - i,
{
    if i < items.len() {
        let vals = seq![acc, items[i as int]];
        lemma_call_keeps(fuel, params, body, cenv, vals, env);
        let (env2, r) = spec_call_closure(fuel, params, body, cenv, vals, env);
        if let Ok(a) = r {
            lemma_fold_items_keeps(fuel, params, body, cenv, items, i + 1, a, env2);
            lemma_keeps_all_trans(
                env,
                env2,
                spec_fold_items(fuel, params, body, cenv, items, i + 1, a, env2).0,
            );
        }
    }
}

proof fn lemma_merge_keeps(
    fuel: nat,
    args: Seq<SpecExpr>,
    i: nat,
    env: Seq<SpecScope>,
    sc: nat,
    merged: Seq<(Seq<char>, SpecValue)>,
)
    ensures
        keeps(env, spec_builtin_merge(fuel, args, i, env, sc, merged).0, sc),
    decreases fuel, 1nat, args.len() - i,
{
    if i < args.len() {
        lemma_eval_expr_keeps(fuel, args[i as int], env, sc);
        let (env2, r) = eval_expr(fuel, args[i as int], env, sc);
        if let Ok(SpecValue::Record(fs)) = r {
            let m2 = merge_fields(merged, fs);
            lemma_merge_keeps(fuel, args, i + 1, env2, sc, m2);
            lemma_keeps_trans(env, env2, spec_builtin_merge(fuel, args, i + 1, env2, sc, m2).0, sc);
        }
    }
}

/// Lookups from a scope only read that scope and the scopes before it.
proof fn lemma_lookup_unchanged(old: Seq<SpecScope>, new: Seq<SpecScope>, from: nat, name: Seq<char>)
    requires
        from < old.len(),
        old.len() <= new.len(),
        forall|i: int| 0 <= i <= from ==> #[trigger] new[i] == old[i],
    ensures
        lookup(new, from, name) == lookup(old, from, name),
    decreases from,
{
    assert(new[from as int] == old[from as int]);
    if let Some(p) = old[from as int].parent {
        if p < from {
            lemma_lookup_unchanged(old, new, p, name);
        }
    }
}

// ---------------------------------------------------------------------------
// Laws
// ---------------------------------------------------------------------------

/// Evaluating an expression in scope `sc` only adds scopes and, among the
/// existing scopes, only changes the bindings of `sc`.
pub proof fn law_evaluation_frame(fuel: nat, e: SpecExpr, env: Seq<SpecScope>, sc: nat)
    ensures
        keeps(env, eval_expr(fuel, e, env, sc).0, sc),
{
    lemma_eval_expr_keeps(fuel, e, env, sc);
}

/// `let` does not leak its bindings: evaluating a `let` form changes no scope
/// that existed before, so every lookup from an existing scope gives what it
/// gave before.
pub proof fn law_let_does_not_leak(
    fuel: nat,
    args: Seq<SpecExpr>,
    env: Seq<SpecScope>,
    sc: nat,
    from: nat,
    name: Seq<char>,
)
    requires
        from < env.len(),
    ensures
        lookup(spec_eval_let(fuel, args, env, sc).0, from, name) == lookup(env, from, name),
{
    lemma_eval_let_keeps(fuel, args, env, sc);
    lemma_lookup_unchanged(env, spec_eval_let(fuel, args, env, sc).0, from, name);
}

/// A function call binds its parameters in a fresh scope: it changes no scope
/// that existed before the call, so its parameters never leak.
pub proof fn law_call_does_not_leak(
    fuel: nat,
    params: Seq<Seq<char>>,
    body: SpecExpr,
    cenv: nat,
    vals: Seq<SpecValue>,
    env: Seq<SpecScope>,
    from: nat,
    name: Seq<char>,
)
    requires
        from < env.len(),
    ensures
        lookup(spec_call_closure(fuel, params, body, cenv, vals, env).0, from, name) == lookup(
            env,
            from,
            name,
        ),
{
    lemma_call_keeps(fuel, params, body, cenv, vals, env);
    lemma_lookup_unchanged(
        env,
        spec_call_closure(fuel, params, body, cenv, vals, env).0,
        from,
        name,
    );
}

/// `(def name expr)` binds `name` in the current scope to the value it
/// returns.
pub proof fn law_def_binds(fuel: nat, args: Seq<SpecExpr>, env: Seq<SpecScope>, sc: nat)
    requires
        sc < env.len(),
    ensures
        ({
            let (env2, r) = spec_eval_def(fuel, args, env, sc);
            r matches Ok(v) ==> args[0] matches SpecExpr::Symbol(name) && lookup(env2, sc, name)
                == Some(v)
        }),
{
    if args.len() > 0 {
        if let SpecExpr::Symbol(name) = args[0] {
            lemma_eval_expr_keeps(fuel, args.last(), env, sc);
            let (env2, r) = eval_expr(fuel, args.last(), env, sc);
            if let Ok(v) = r {
                law_lookup_after_define(env2, sc, name, v);
            }
        }
    }
}

/// Binding parameters leaves every other name as it was.
proof fn lemma_bind_params_other(
    env: Seq<SpecScope>,
    id: nat,
    params: Seq<Seq<char>>,
    vals: Seq<SpecValue>,
    i: nat,
    from: nat,
    name: Seq<char>,
)
    requires
        forall|k: int| i <= k < params.len() ==> #[trigger] params[k] != name,
    ensures
        lookup(bind_params(env, id, params, vals, i), from, name) == lookup(env, from, name),
    decreases params.len() - i,
{
    if i < params.len() {
        let e1 = define(env, id, params[i as int], vals[i as int]);
        law_define_other_names(env, id, params[i as int], vals[i as int], from, name);
        lemma_bind_params_other(e1, id, params, vals, i + 1, from, name);
    }
}

/// With distinct parameter names, each parameter is bound to its argument.
proof fn lemma_bind_params_own(
    env: Seq<SpecScope>,
    id: nat,
    params: Seq<Seq<char>>,
    vals: Seq<SpecValue>,
    i: nat,
    k: int,
)
    requires
        id < env.len(),
        params.no_duplicates(),
        i <= k < params.len(),
        params.len() == vals.len(),
    ensures
        lookup(bind_params(env, id, params, vals, i), id, params[k]) == Some(vals[k]),
    decreases params.len() - i,
{
    let e1 = define(env, id, params[i as int], vals[i as int]);
    if i == k {
        law_lookup_after_define(env, id, params[k], vals[k]);
        assert forall|j: int| i + 1 <= j < params.len() implies #[trigger] params[j] != params[k] by {}
        lemma_bind_params_other(e1, id, params, vals, i + 1, id, params[k]);
    } else {
        lemma_bind_params_own(e1, id, params, vals, i + 1, k);
    }
}

/// Lexical scope of calls: a call evaluates the body in a fresh scope nested
/// in the closure's captured scope, where each parameter (when the names are
/// distinct) is bound to its argument and every other name resolves as in the
/// captured scope.
pub proof fn law_call_scope(
    fuel: nat,
    params: Seq<Seq<char>>,
    body: SpecExpr,
    cenv: nat,
    vals: Seq<SpecValue>,
    env: Seq<SpecScope>,
    name: Seq<char>,
    k: int,
)
    requires
        cenv < env.len(),
        params.len() == vals.len(),
    ensures
        ({
            let id = env.len();
            let env1 = bind_params(new_scope(env, cenv), id, params, vals, 0);
            &&& spec_call_closure(fuel, params, body, cenv, vals, env) == eval_expr(
                fuel,
                body,
                env1,
                id,
            )
            &&& !params.contains(name) ==> lookup(env1, id, name) == lookup(env, cenv, name)
            &&& params.no_duplicates() && 0 <= k < params.len() ==> lookup(env1, id, params[k])
                == Some(vals[k])
        }),
{
    let id = env.len();
    let env0 = new_scope(env, cenv);
    if !params.contains(name) {
        assert forall|j: int| 0 <= j < params.len() implies #[trigger] params[j] != name by {
            if params[j] == name {
                assert(params.contains(name));
            }
        }
        lemma_bind_params_other(env0, id, params, vals, 0, id, name);
        law_new_scope(env, cenv, id, name);
    }
    if params.no_duplicates() && 0 <= k < params.len() {
        lemma_bind_params_own(env0, id, params, vals, 0, k);
    }
}

/// `let` bindings are sequential: after the first pair `name value`, the
/// remaining bindings are evaluated where `name` is bound to its value.
pub proof fn law_let_bindings_sequential(
    fuel: nat,
    bs: Seq<SpecExpr>,
    env: Seq<SpecScope>,
    child: nat,
)
    requires
        child < env.len(),
        bs.len() >= 2,
        bs[0] is Symbol,
    ensures
        ({
            let name = bs[0]->Symbol_0;
            let (env2, r) = eval_expr(fuel, bs[1], env, child);
            r matches Ok(v) ==> {
                &&& spec_let_bindings(fuel, bs, 0, env, child) == spec_let_bindings(
                    fuel,
                    bs,
                    2,
                    define(env2, child, name, v),
                    child,
                )
                &&& lookup(define(env2, child, name, v), child, name) == Some(v)
            }
        }),
{
    let name = bs[0]->Symbol_0;
    lemma_eval_expr_keeps(fuel, bs[1], env, child);
    let (env2, r) = eval_expr(fuel, bs[1], env, child);
    if let Ok(v) = r {
        law_lookup_after_define(env2, child, name, v);
    }
}

} // verus!
