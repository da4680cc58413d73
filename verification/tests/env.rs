use exprlang::env::Env;

#[test]
fn get_after_insert_gives_the_value() {
    let mut env: Env<i32> = Env::new();
    assert_eq!(env.get("x"), None);
    env.insert("x".to_string(), 1);
    assert_eq!(env.get("x"), Some(&1));
    assert_eq!(env.get("y"), None);
    assert_eq!(env.depth(), 1);
}

#[test]
fn insert_replaces_an_earlier_binding() {
    let mut env: Env<&str> = Env::new();
    env.insert("a".to_string(), "first");
    env.insert("b".to_string(), "other");
    env.insert("a".to_string(), "second");
    assert_eq!(env.get("a"), Some(&"second"));
    assert_eq!(env.get("b"), Some(&"other"));
}

#[test]
fn inner_frame_shadows_and_falls_through() {
    let mut env: Env<i64> = Env::new();
    env.insert("x".to_string(), 1);
    env.insert("y".to_string(), 2);
    env.push_frame();
    assert_eq!(env.depth(), 2);
    assert_eq!(env.get("x"), Some(&1));
    env.insert("x".to_string(), 10);
    assert_eq!(env.get("x"), Some(&10));
    assert_eq!(env.get("y"), Some(&2));
    assert_eq!(env.get("z"), None);
    env.pop_frame();
    assert_eq!(env.depth(), 1);
    assert_eq!(env.get("x"), Some(&1));
}

#[test]
fn a_popped_frame_forgets_its_bindings() {
    let mut env: Env<u8> = Env::new();
    env.push_frame();
    env.insert("k".to_string(), 1);
    env.push_frame();
    env.insert("k".to_string(), 2);
    assert_eq!(env.get("k"), Some(&2));
    env.pop_frame();
    assert_eq!(env.get("k"), Some(&1));
    env.pop_frame();
    assert_eq!(env.get("k"), None);
}
