use locale_check::checker::{check, record_report};
use locale_check::stack::{GlobalNameSpace, Stack};
use locale_check::tree::{Language, NameSpace};

fn keys(v: &[&str]) -> Vec<String> {
    v.iter().map(|s| s.to_string()).collect()
}

fn pairs(v: &[(&str, &str)]) -> Vec<(String, String)> {
    v.iter().map(|(k, w)| (k.to_string(), w.to_string())).collect()
}

#[test]
fn reports_exactly_the_absent_keys() {
    let record = GlobalNameSpace { name: "common".to_string(), keys: keys(&["a", "b", "c"]) };
    let partial = NameSpace { name: "common".to_string(), data: pairs(&[("a", "1"), ("c", "3")]) };
    assert_eq!(check(&partial, &record), keys(&["b"]));
    let full = NameSpace {
        name: "common".to_string(),
        data: pairs(&[("a", "1"), ("b", "2"), ("c", "3")]),
    };
    assert_eq!(check(&full, &record), keys(&[]));
}

#[test]
fn reports_in_record_order() {
    let record = GlobalNameSpace { name: "common".to_string(), keys: keys(&["a", "b", "c", "d"]) };
    let ns = NameSpace { name: "common".to_string(), data: pairs(&[("b", "2")]) };
    assert_eq!(check(&ns, &record), keys(&["a", "c", "d"]));
}

#[test]
fn empty_namespace_misses_everything() {
    let record = GlobalNameSpace { name: "common".to_string(), keys: keys(&["a", "b"]) };
    let ns = NameSpace { name: "common".to_string(), data: pairs(&[]) };
    assert_eq!(check(&ns, &record), keys(&["a", "b"]));
}

#[test]
fn key_of_one_namespace_never_missing_in_another() {
    let mut stack = Stack::new();
    stack.merge_keys("x".to_string(), keys(&["only_in_x"]));
    stack.merge_keys("y".to_string(), keys(&["a"]));
    let lang = Language {
        name: "en".to_string(),
        files: vec![
            NameSpace { name: "x".to_string(), data: pairs(&[("only_in_x", "1")]) },
            NameSpace { name: "y".to_string(), data: pairs(&[("a", "1")]) },
        ],
    };
    let languages = vec![lang];
    for rec in stack.values.iter() {
        assert_eq!(record_report(rec, &languages), Vec::<(String, String)>::new());
    }
}

#[test]
fn language_without_the_namespace_is_skipped() {
    let record = GlobalNameSpace { name: "common".to_string(), keys: keys(&["a"]) };
    let without = Language { name: "de".to_string(), files: Vec::new() };
    let with = Language {
        name: "fr".to_string(),
        files: vec![NameSpace { name: "common".to_string(), data: pairs(&[]) }],
    };
    let languages = vec![without, with];
    assert_eq!(
        record_report(&record, &languages),
        vec![("fr".to_string(), "a".to_string())]
    );
}
