use locale_check::checker::record_report;
use locale_check::loader::{get_folder_name, load_namespace, LoadResult};
use locale_check::stack::Stack;
use locale_check::tree::Language;

fn keys(v: &[&str]) -> Vec<String> {
    v.iter().map(|s| s.to_string()).collect()
}

fn loaded(r: LoadResult) -> locale_check::tree::NameSpace {
    match r {
        LoadResult::Loaded(ns) => ns,
        _ => panic!("expected a loaded namespace"),
    }
}

#[test]
fn parses_a_flat_object() {
    let mut stack = Stack::new();
    let r = load_namespace(
        &mut stack,
        "common.json".to_string(),
        "{\"hello\":\"Hi\",\"bye\":\"Bye\"}",
        false,
    );
    let ns = loaded(r);
    assert_eq!(ns.name, "common.json");
    assert_eq!(ns.data, vec![
        ("bye".to_string(), "Bye".to_string()),
        ("hello".to_string(), "Hi".to_string()),
    ]);
    assert_eq!(stack.values.len(), 1);
    assert_eq!(stack.values[0].keys, keys(&["bye", "hello"]));
}

#[test]
fn malformed_file_is_skipped_and_merges_nothing() {
    let mut stack = Stack::new();
    let r = load_namespace(&mut stack, "common.json".to_string(), "not json at all", false);
    assert!(matches!(r, LoadResult::ParseFailed));
    assert_eq!(stack.values.len(), 0);
    let r2 = load_namespace(
        &mut stack,
        "common.json".to_string(),
        "{\"hello\":{\"nested\":\"no\"}}",
        false,
    );
    assert!(matches!(r2, LoadResult::ParseFailed));
    assert_eq!(stack.values.len(), 0);
    let r3 = load_namespace(&mut stack, "common.json".to_string(), "{\"ok\":\"yes\"}", false);
    let ns = loaded(r3);
    assert_eq!(ns.name, "common.json");
    assert_eq!(stack.values.len(), 1);
    assert_eq!(stack.values[0].keys, keys(&["ok"]));
}

#[test]
fn two_locales_one_missing_key() {
    let mut stack = Stack::new();
    let en = loaded(load_namespace(
        &mut stack,
        "common.json".to_string(),
        "{\"hello\":\"Hi\",\"bye\":\"Bye\"}",
        false,
    ));
    let fr = loaded(load_namespace(
        &mut stack,
        "common.json".to_string(),
        "{\"hello\":\"Salut\"}",
        false,
    ));
    let languages = vec![
        Language { name: "en".to_string(), files: vec![en] },
        Language { name: "fr".to_string(), files: vec![fr] },
    ];
    assert_eq!(stack.values.len(), 1);
    assert_eq!(stack.values[0].name, "common.json");
    let report = record_report(&stack.values[0], &languages);
    assert_eq!(report, vec![("fr".to_string(), "bye".to_string())]);
}

#[test]
fn sort_mode_orders_keys_and_preserves_content() {
    let mut stack = Stack::new();
    let r = load_namespace(
        &mut stack,
        "common.json".to_string(),
        "{\"b\":\"2\",\"a\":\"1\"}",
        true,
    );
    let (ns, rewritten) = match r {
        LoadResult::LoadedForRewrite(ns, out) => (ns, out),
        _ => panic!("expected a rewrite"),
    };
    let a_at = rewritten.find("\"a\"").expect("key a in the rewritten text");
    let b_at = rewritten.find("\"b\"").expect("key b in the rewritten text");
    assert!(a_at < b_at);
    let mut again = Stack::new();
    let reparsed = loaded(load_namespace(
        &mut again,
        "common.json".to_string(),
        rewritten.as_str(),
        false,
    ));
    assert_eq!(reparsed.data, ns.data);
}

#[test]
fn empty_object_loads_with_no_keys() {
    let mut stack = Stack::new();
    let ns = loaded(load_namespace(&mut stack, "empty.json".to_string(), "{}", false));
    assert_eq!(ns.data, Vec::<(String, String)>::new());
    assert_eq!(stack.values.len(), 1);
    assert_eq!(stack.values[0].keys, keys(&[]));
}

#[test]
fn folder_name_takes_the_last_segment() {
    assert_eq!(get_folder_name("root/en/common.json"), "common.json");
    assert_eq!(get_folder_name("en"), "en");
    assert_eq!(get_folder_name("root/en/"), "");
    assert_eq!(get_folder_name(""), "");
}

#[test]
fn folder_name_handles_multibyte_segments() {
    assert_eq!(get_folder_name("root/café/common.json"), "common.json");
    assert_eq!(get_folder_name("root/café"), "café");
}
