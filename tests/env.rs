use code_editor::env::{DuplicateSymbol, Env};

#[test]
fn inner_scopes_shadow_outer_ones() {
    let mut env: Env<&str> = Env::new();
    env.push_scope();
    assert_eq!(env.insert_sym(1, "outer"), Ok(()));
    env.push_scope();
    assert_eq!(env.find_sym_on_scopes(1), Some(&"outer"));
    assert_eq!(env.insert_sym(1, "inner"), Ok(()));
    assert_eq!(env.find_sym_on_scopes(1), Some(&"inner"));
    env.pop_scope();
    assert_eq!(env.find_sym_on_scopes(1), Some(&"outer"));
    assert_eq!(env.find_sym_on_scopes(2), None);
}

#[test]
fn a_scope_defines_a_name_once() {
    let mut env: Env<u32> = Env::new();
    env.push_scope();
    assert_eq!(env.insert_sym(7, 1), Ok(()));
    assert_eq!(env.insert_sym(7, 2), Err(DuplicateSymbol { ident: 7 }));
    assert_eq!(env.find_sym_on_scopes(7), Some(&1));
}
