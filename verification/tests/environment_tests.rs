use aurora::environment::{Environment, Memory};
use aurora::expressions::FunctionType;
use aurora::expressions::Object;

fn num(env: &Environment, name: &str) -> u64 {
    match env.get(name) {
        Some(Object::NumberObject(b)) => *b,
        other => panic!("expected a number for {}, got {:?}", name, other),
    }
}

#[test]
fn define_then_get() {
    let mut env = Environment::new();
    env.define("x".to_owned(), Object::NumberObject(7));
    assert_eq!(num(&env, "x"), 7);
    assert!(env.get("y").is_none());
}

#[test]
fn later_define_shadows_in_same_frame() {
    let mut env = Environment::new();
    env.define("x".to_owned(), Object::NumberObject(1));
    env.define("x".to_owned(), Object::NumberObject(2));
    assert_eq!(num(&env, "x"), 2);
}

#[test]
fn assign_writes_the_binding_cell() {
    let mut env = Environment::new();
    env.define("x".to_owned(), Object::NumberObject(1));
    assert!(env.assign("x", Object::NumberObject(5)));
    assert_eq!(num(&env, "x"), 5);
    assert!(!env.assign("missing", Object::NilObject));
}

#[test]
fn inner_var_is_invisible_outside_its_frame() {
    // The scoping rule: a binding made inside a pushed frame vanishes with
    // it, and an outer binding of the same name is unchanged.
    let mut env = Environment::new();
    env.define("x".to_owned(), Object::NumberObject(1));
    env.stackpush(Memory::new());
    env.define("x".to_owned(), Object::NumberObject(99));
    env.define("inner".to_owned(), Object::BoolObject(true));
    assert_eq!(num(&env, "x"), 99);
    env.stackpop();
    assert_eq!(num(&env, "x"), 1);
    assert!(env.get("inner").is_none());
}

#[test]
fn assignment_in_inner_frame_reaches_outer_cell() {
    let mut env = Environment::new();
    env.define("x".to_owned(), Object::NumberObject(1));
    env.stackpush(Memory::new());
    assert!(env.assign("x", Object::NumberObject(3)));
    env.stackpop();
    assert_eq!(num(&env, "x"), 3);
}

#[test]
fn captured_cell_is_shared_through_injection() {
    // A closure capturing `x` holds its cell; injecting the cell into a call
    // frame aliases the same storage, so assignment through the frame is
    // seen outside: the lexical-capture discipline.
    let mut env = Environment::new();
    let cell = env.define("x".to_owned(), Object::NumberObject(0));
    env.inject("x".to_owned(), cell);
    env.stackpush(Memory::new());
    assert!(env.assign("x", Object::NumberObject(41)));
    env.stackpop();
    assert_eq!(num(&env, "x"), 41);
}

#[test]
fn need_to_capture_sees_only_outer_names() {
    let mut env = Environment::new();
    env.define("outer".to_owned(), Object::NumberObject(1));
    env.stack_temp_push();
    env.define("param".to_owned(), Object::NilObject);
    assert!(env.need_to_capture("outer"));
    assert!(!env.need_to_capture("param"));
    assert!(!env.need_to_capture("unknown"));
    env.stack_temp_pop();
    assert!(!env.need_to_capture("outer"));
}

#[test]
fn return_signal_round_trip() {
    let mut env = Environment::new();
    assert!(!env.is_set_return());
    env.set_return(Object::NumberObject(9));
    assert!(env.is_set_return());
    match env.unset_return() {
        Object::NumberObject(9) => {}
        other => panic!("expected the returned value, got {:?}", other),
    }
    assert!(!env.is_set_return());
    match env.unset_return() {
        Object::NilObject => {}
        other => panic!("expected nil, got {:?}", other),
    }
}

#[test]
fn function_kind_markers_nest() {
    let mut env = Environment::new();
    assert!(!env.is_in_function());
    env.set_in_function(FunctionType::Function);
    assert!(env.is_in_function());
    env.set_in_function(FunctionType::Method);
    assert!(env.is_in_method());
    assert!(!env.is_in_function());
    env.clear_in_function();
    assert!(env.is_in_function());
    env.clear_in_function();
    assert!(!env.is_in_function());
}
