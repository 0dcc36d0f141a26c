use factory::envdict::EnvDict;

fn text(s: &str) -> String {
    String::from(s)
}

fn dict(entries: &[(&str, Option<&str>)]) -> EnvDict {
    let mut d = EnvDict::new();
    for (k, v) in entries {
        d.set(text(k), v.map(text));
    }
    d
}

fn sorted(mut pairs: Vec<(String, String)>) -> Vec<(String, String)> {
    pairs.sort();
    pairs
}

fn entries(d: &EnvDict, keys: &[&str]) -> Vec<Option<Option<String>>> {
    keys.iter().map(|k| d.get(&text(k))).collect()
}

#[test]
fn new_dictionary_is_empty() {
    let d = EnvDict::new();
    assert!(!d.contains_key(&text("PATH")));
    assert_eq!(d.get(&text("PATH")), None);
    assert_eq!(d.finalize(), Vec::new());
}

#[test]
fn env_set_replaces_an_entry() {
    let mut d = EnvDict::new();
    d.set(text("A"), Some(text("1")));
    d.set(text("B"), None);
    d.set(text("A"), Some(text("2")));
    assert_eq!(d.get(&text("A")), Some(Some(text("2"))));
    assert_eq!(d.get(&text("B")), Some(None));
    assert_eq!(d.get(&text("C")), None);
    assert!(d.contains_key(&text("B")));
}

#[test]
fn merge_takes_the_keys_of_both_sides() {
    let a = dict(&[("A", Some("1"))]);
    let b = dict(&[("B", Some("2"))]);
    let both = a.merge(b);
    assert_eq!(both.get(&text("A")), Some(Some(text("1"))));
    assert_eq!(both.get(&text("B")), Some(Some(text("2"))));
    assert_eq!(both.get(&text("C")), None);
}

#[test]
fn merge_prefers_the_left_side() {
    let a = dict(&[("A", Some("left")), ("U", None)]);
    let b = dict(&[("A", Some("right")), ("U", Some("set")), ("B", Some("2"))]);
    let both = a.merge(b);
    assert_eq!(both.get(&text("A")), Some(Some(text("left"))));
    assert_eq!(both.get(&text("U")), Some(None));
    assert_eq!(both.get(&text("B")), Some(Some(text("2"))));
}

#[test]
fn merge_is_associative() {
    let keys = ["A", "B", "C", "D", "E"];
    let a = || dict(&[("A", Some("a")), ("B", None)]);
    let b = || dict(&[("B", Some("b")), ("C", Some("b")), ("D", None)]);
    let c = || dict(&[("A", Some("c")), ("C", None), ("D", Some("c")), ("E", Some("c"))]);
    let left = a().merge(b()).merge(c());
    let right = a().merge(b().merge(c()));
    assert_eq!(entries(&left, &keys), entries(&right, &keys));
    assert_eq!(
        entries(&left, &keys),
        vec![
            Some(Some(text("a"))),
            Some(None),
            Some(Some(text("b"))),
            Some(None),
            Some(Some(text("c"))),
        ]
    );
    assert_eq!(sorted(left.finalize()), sorted(right.finalize()));
}

#[test]
fn merge_with_an_empty_dictionary_changes_nothing() {
    let keys = ["A", "B"];
    let a = dict(&[("A", Some("1")), ("B", None)]);
    let merged = a.merge(EnvDict::new());
    assert_eq!(entries(&merged, &keys), vec![Some(Some(text("1"))), Some(None)]);
    let other = EnvDict::new().merge(dict(&[("A", Some("1")), ("B", None)]));
    assert_eq!(entries(&other, &keys), vec![Some(Some(text("1"))), Some(None)]);
}

#[test]
fn finalize_drops_the_unset_entries() {
    let d = dict(&[("A", Some("1")), ("B", None), ("C", Some("")), ("D", None)]);
    assert_eq!(
        sorted(d.finalize()),
        vec![(text("A"), text("1")), (text("C"), text(""))]
    );
}

#[test]
fn unset_on_the_left_removes_a_variable_of_the_right() {
    let step_env = dict(&[("HOME", None), ("CC", Some("clang"))]);
    let base = dict(&[("HOME", Some("/root")), ("PATH", Some("/bin")), ("CC", Some("gcc"))]);
    assert_eq!(
        sorted(step_env.merge(base).finalize()),
        vec![(text("CC"), text("clang")), (text("PATH"), text("/bin"))]
    );
}
