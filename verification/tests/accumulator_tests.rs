use locale_check::stack::Stack;

fn keys(v: &[&str]) -> Vec<String> {
    v.iter().map(|s| s.to_string()).collect()
}

fn record_keys(stack: &Stack, name: &str) -> Vec<String> {
    for rec in stack.values.iter() {
        if rec.name == name {
            return rec.keys.clone();
        }
    }
    panic!("no record named {}", name);
}

#[test]
fn union_over_three_languages() {
    let mut stack = Stack::new();
    stack.merge_keys("common".to_string(), keys(&["hello", "bye"]));
    stack.merge_keys("common".to_string(), keys(&["hello", "welcome"]));
    stack.merge_keys("common".to_string(), keys(&["farewell"]));
    assert_eq!(record_keys(&stack, "common"), keys(&["bye", "farewell", "hello", "welcome"]));
}

#[test]
fn union_is_order_independent() {
    let contributions: [&[&str]; 3] = [&["hello", "bye"], &["hello", "welcome"], &["farewell"]];
    let mut forward = Stack::new();
    for c in contributions.iter() {
        forward.merge_keys("common".to_string(), keys(c));
    }
    let mut backward = Stack::new();
    for c in contributions.iter().rev() {
        backward.merge_keys("common".to_string(), keys(c));
    }
    assert_eq!(record_keys(&forward, "common"), record_keys(&backward, "common"));
}

#[test]
fn merge_is_idempotent() {
    let mut once = Stack::new();
    once.merge_keys("common".to_string(), keys(&["b", "a"]));
    let mut twice = Stack::new();
    twice.merge_keys("common".to_string(), keys(&["b", "a"]));
    twice.merge_keys("common".to_string(), keys(&["b", "a"]));
    assert_eq!(once.values.len(), 1);
    assert_eq!(twice.values.len(), 1);
    assert_eq!(record_keys(&once, "common"), record_keys(&twice, "common"));
}

#[test]
fn merge_keeps_namespaces_apart() {
    let mut stack = Stack::new();
    stack.merge_keys("x".to_string(), keys(&["only_in_x"]));
    stack.merge_keys("y".to_string(), keys(&["a"]));
    assert_eq!(record_keys(&stack, "x"), keys(&["only_in_x"]));
    assert_eq!(record_keys(&stack, "y"), keys(&["a"]));
}

#[test]
fn add_name_space_sorts_and_dedups() {
    let mut stack = Stack::new();
    stack.add_name_space("menu".to_string(), keys(&["save", "open", "save", "close"]));
    assert_eq!(record_keys(&stack, "menu"), keys(&["close", "open", "save"]));
}

#[test]
fn merge_with_empty_key_list() {
    let mut stack = Stack::new();
    stack.merge_keys("common".to_string(), keys(&[]));
    assert_eq!(record_keys(&stack, "common"), keys(&[]));
    stack.merge_keys("common".to_string(), keys(&["a"]));
    assert_eq!(record_keys(&stack, "common"), keys(&["a"]));
}

#[test]
fn sorts_by_code_point_beyond_ascii() {
    let mut stack = Stack::new();
    stack.merge_keys("common".to_string(), keys(&["é", "z", "a"]));
    assert_eq!(record_keys(&stack, "common"), keys(&["a", "z", "é"]));
}
