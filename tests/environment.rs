use fps_lang::ast::environment::Environment;
use fps_lang::ast::literal::LiteralValue;
use fps_lang::ast::AstError;

#[test]
fn declare() {
    let mut env = Environment::new();
    env.declare("a".to_string(), LiteralValue::Boolean(false)).unwrap();

    assert_eq!(env.get("a".to_string()), Ok(LiteralValue::Boolean(false)));
}

#[test]
fn assign() {
    let mut env = Environment::new();
    env.declare("a".to_string(), LiteralValue::Boolean(false)).unwrap();
    env.assign("a".to_string(), LiteralValue::Boolean(true)).unwrap();

    assert_eq!(env.get("a".to_string()), Ok(LiteralValue::Boolean(true)));
}

#[test]
fn declare_different_env() {
    let mut env = Environment::new();
    env.declare("a".to_string(), LiteralValue::Boolean(false)).unwrap();

    env.push_scope();
    env.declare("a".to_string(), LiteralValue::Boolean(true)).unwrap();
    assert_eq!(env.get("a".to_string()), Ok(LiteralValue::Boolean(true)));

    env.pop_scope();
    assert_eq!(env.get("a".to_string()), Ok(LiteralValue::Boolean(false)));
}

#[test]
fn declaring_twice_in_one_scope_fails() {
    let mut env = Environment::new();
    env.declare("a".to_string(), LiteralValue::Null).unwrap();
    assert_eq!(
        env.declare("a".to_string(), LiteralValue::Boolean(true)),
        Err(AstError::AlreadyDeclared("a".to_string()))
    );
    assert_eq!(env.get("a".to_string()), Ok(LiteralValue::Null));
}

#[test]
fn reading_or_assigning_an_unknown_name_fails() {
    let mut env = Environment::new();
    assert_eq!(env.get("x".to_string()), Err(AstError::NotDeclared("x".to_string())));
    assert_eq!(
        env.assign("x".to_string(), LiteralValue::Null),
        Err(AstError::NotDeclared("x".to_string()))
    );
}

#[test]
fn assignment_reaches_the_enclosing_scope() {
    let mut env = Environment::new();
    env.declare("a".to_string(), LiteralValue::Boolean(false)).unwrap();
    env.push_scope();
    env.assign("a".to_string(), LiteralValue::Boolean(true)).unwrap();
    env.pop_scope();
    assert_eq!(env.get("a".to_string()), Ok(LiteralValue::Boolean(true)));
}

#[test]
fn closing_a_scope_drops_its_bindings() {
    let mut env = Environment::new();
    env.push_scope();
    env.declare("b".to_string(), LiteralValue::Null).unwrap();
    env.pop_scope();
    assert_eq!(env.get("b".to_string()), Err(AstError::NotDeclared("b".to_string())));
}
