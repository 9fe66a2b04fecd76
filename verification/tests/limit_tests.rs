use limitador::labels::Labels;
use limitador::limit::{parse_condition, Limit};
use std::collections::hash_map::DefaultHasher;
use std::hash::{Hash, Hasher};

fn hash_of<T: Hash>(value: &T) -> u64 {
    let mut hasher = DefaultHasher::new();
    value.hash(&mut hasher);
    hasher.finish()
}

#[test]
fn limit_applies() {
    let limit = Limit::new("test_namespace", 10, 60, vec!["x == 5"], vec!["y"]);

    let mut values = Labels::new();
    values.insert("x".into(), "5".into());

    assert!(limit.applies(&values))
}

#[test]
fn limit_does_not_apply() {
    let limit = Limit::new("test_namespace", 10, 60, vec!["x == 5"], vec!["y"]);

    let mut values = Labels::new();
    values.insert("x".into(), "1".into());

    assert_eq!(false, limit.applies(&values))
}

#[test]
fn limit_with_multiple_conditions_needs_all_of_them() {
    let limit = Limit::new("ns", 10, 60, vec!["x == 5", "y == 2"], vec![]);

    let mut values = Labels::new();
    values.insert("x".into(), "5".into());
    assert_eq!(false, limit.applies(&values));

    values.insert("y".into(), "3".into());
    assert_eq!(false, limit.applies(&values));

    values.insert("y".into(), "2".into());
    assert!(limit.applies(&values));
}

#[test]
fn limit_without_conditions_always_applies() {
    let limit = Limit::new("ns", 10, 60, vec![], vec![]);
    assert!(limit.applies(&Labels::new()));

    let mut values = Labels::new();
    values.insert("anything".into(), "at all".into());
    assert!(limit.applies(&values));
}

#[test]
fn condition_on_absent_label_is_not_satisfied() {
    let limit = Limit::new("ns", 10, 60, vec!["x == 5"], vec![]);
    let mut values = Labels::new();
    values.insert("y".into(), "5".into());
    assert_eq!(false, limit.applies(&values));
    assert_eq!(false, Limit::condition_applies("x == 5", &values));
    assert!(Limit::condition_applies("y == 5", &values));
}

#[test]
fn malformed_condition_is_never_satisfied() {
    let mut values = Labels::new();
    values.insert("x".into(), "5".into());
    assert_eq!(false, Limit::condition_applies("x", &values));
    assert_eq!(false, Limit::condition_applies("x = 5", &values));
    assert_eq!(false, Limit::condition_applies("x==5", &values));
    assert_eq!(false, Limit::condition_applies("", &values));

    let limit = Limit::new("ns", 10, 60, vec!["x == 5", "nonsense"], vec![]);
    assert_eq!(false, limit.applies(&values));
}

#[test]
fn parse_condition_splits_at_the_separator() {
    assert_eq!(parse_condition("req.method == GET"), Some(("req.method", "GET")));
    assert_eq!(parse_condition("x == 5"), Some(("x", "5")));
    assert_eq!(parse_condition("a == "), Some(("a", "")));
    assert_eq!(parse_condition(" == b"), Some(("", "b")));
    assert_eq!(parse_condition(" == "), Some(("", "")));
    assert_eq!(parse_condition("a == b == c"), Some(("a", "b")));
    assert_eq!(parse_condition("a ==  == b"), Some(("a", "")));
    assert_eq!(parse_condition("a === b"), None);
    assert_eq!(parse_condition("a==b"), None);
    assert_eq!(parse_condition("a"), None);
    assert_eq!(parse_condition(""), None);
}

#[test]
fn parse_condition_counts_characters_not_bytes() {
    assert_eq!(parse_condition("ключ == значение"), Some(("ключ", "значение")));
    assert_eq!(parse_condition("naïve == café == x"), Some(("naïve", "café")));

    let mut values = Labels::new();
    values.insert("ключ".into(), "значение".into());
    assert!(Limit::condition_applies("ключ == значение", &values));
    assert_eq!(false, Limit::condition_applies("ключ == другое", &values));
}

#[test]
fn limit_accessors_return_what_was_given() {
    let limit = Limit::new("test_namespace", -7, 3600, vec!["b == 1", "a == 2"], vec!["z", "y"]);
    assert_eq!(limit.namespace(), "test_namespace");
    assert_eq!(limit.max_value(), -7);
    assert_eq!(limit.seconds(), 3600);
    assert_eq!(limit.conditions().len(), 2);
    assert_eq!(limit.conditions().get(0), "a == 2");
    assert_eq!(limit.conditions().get(1), "b == 1");
    assert_eq!(limit.variables().len(), 2);
    assert_eq!(limit.variables().get(0), "y");
    assert_eq!(limit.variables().get(1), "z");
    assert!(limit.in_namespace("test_namespace"));
    assert_eq!(false, limit.in_namespace("test_namespac"));
    assert_eq!(false, limit.in_namespace("other"));
}

#[test]
fn limit_equality_ignores_order_and_repetition() {
    let a = Limit::new("ns", 10, 60, vec!["x == 1", "y == 2"], vec!["u", "v"]);
    let b = Limit::new("ns", 10, 60, vec!["y == 2", "x == 1", "y == 2"], vec!["v", "u", "u"]);
    assert_eq!(a, b);
    assert_eq!(hash_of(&a), hash_of(&b));
    assert_eq!(a, a.clone());
    assert_eq!(hash_of(&a), hash_of(&a.clone()));
}

#[test]
fn limit_equality_looks_at_every_attribute() {
    let base = Limit::new("ns", 10, 60, vec!["x == 1"], vec!["u"]);
    assert_ne!(base, Limit::new("other", 10, 60, vec!["x == 1"], vec!["u"]));
    assert_ne!(base, Limit::new("ns", 11, 60, vec!["x == 1"], vec!["u"]));
    assert_ne!(base, Limit::new("ns", 10, 61, vec!["x == 1"], vec!["u"]));
    assert_ne!(base, Limit::new("ns", 10, 60, vec!["x == 2"], vec!["u"]));
    assert_ne!(base, Limit::new("ns", 10, 60, vec!["x == 1", "y == 1"], vec!["u"]));
    assert_ne!(base, Limit::new("ns", 10, 60, vec!["x == 1"], vec!["w"]));
    assert_ne!(base, Limit::new("ns", 10, 60, vec!["x == 1"], vec![]));
    assert_ne!(base, Limit::new("ns", 10, 60, vec!["u"], vec!["x == 1"]));
}

#[test]
fn malformed_condition_reports_the_first_in_order() {
    let fine = Limit::new("ns", 10, 60, vec!["x == 1", "y == 2"], vec![]);
    assert_eq!(fine.malformed_condition(), None);

    let none = Limit::new("ns", 10, 60, vec![], vec![]);
    assert_eq!(none.malformed_condition(), None);

    let broken = Limit::new("ns", 10, 60, vec!["zzz", "x == 1", "bbb", "ccc"], vec![]);
    assert_eq!(broken.malformed_condition(), Some("bbb".to_string()));
}
