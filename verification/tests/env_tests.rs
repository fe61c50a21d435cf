//! Scopes: definitions, lookups and nesting.

use emily::env::{Env, ROOT_SCOPE};
use emily::value::Value;

#[test]
fn read_gives_back_what_was_written() {
    let mut env = Env::new();
    assert!(env.get(ROOT_SCOPE, "x").is_none());
    env.define(ROOT_SCOPE, "x".to_string(), Value::Int(1));
    assert!(matches!(env.get(ROOT_SCOPE, "x"), Some(Value::Int(1))));
    env.define(ROOT_SCOPE, "x".to_string(), Value::Int(2));
    assert!(matches!(env.get(ROOT_SCOPE, "x"), Some(Value::Int(2))));
    assert!(env.get(ROOT_SCOPE, "y").is_none());
}

#[test]
fn child_scopes_see_and_shadow_their_parent() {
    let mut env = Env::new();
    env.define(ROOT_SCOPE, "x".to_string(), Value::Int(1));
    let child = env.child(ROOT_SCOPE);
    assert_eq!(child, 1);
    assert_eq!(env.len(), 2);
    assert!(matches!(env.get(child, "x"), Some(Value::Int(1))));
    env.define(child, "x".to_string(), Value::Int(2));
    assert!(matches!(env.get(child, "x"), Some(Value::Int(2))));
    assert!(matches!(env.get(ROOT_SCOPE, "x"), Some(Value::Int(1))));
    env.define(child, "y".to_string(), Value::Bool(true));
    assert!(env.get(ROOT_SCOPE, "y").is_none());
}

#[test]
fn unknown_scopes_hold_nothing() {
    let mut env = Env::new();
    assert!(env.get(7, "x").is_none());
    env.define(7, "x".to_string(), Value::Int(1));
    assert!(env.get(7, "x").is_none());
    assert_eq!(env.len(), 1);
}
