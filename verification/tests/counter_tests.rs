use limitador::counter::{Counter, CounterKey};
use limitador::labels::Labels;
use limitador::limit::Limit;
use std::collections::hash_map::DefaultHasher;
use std::collections::HashSet;
use std::hash::{Hash, Hasher};

fn hash_of<T: Hash>(value: &T) -> u64 {
    let mut hasher = DefaultHasher::new();
    value.hash(&mut hasher);
    hasher.finish()
}

fn labels_from(pairs: &[(&str, &str)]) -> Labels {
    let mut labels = Labels::new();
    for (key, value) in pairs {
        labels.insert(key.to_string(), value.to_string());
    }
    labels
}

#[test]
fn counter_identity_ignores_insertion_order() {
    let limit = Limit::new("ns", 10, 60, vec!["req.method == GET"], vec!["app_id"]);
    let pairs = [("namespace", "ns"), ("req.method", "GET"), ("app_id", "1"), ("zone", "eu")];
    let orders: [[usize; 4]; 6] =
        [[0, 1, 2, 3], [3, 2, 1, 0], [1, 0, 3, 2], [2, 3, 0, 1], [0, 2, 1, 3], [3, 0, 2, 1]];

    let reference = Counter::new(limit.clone(), labels_from(&pairs));
    for order in orders {
        let permuted: Vec<(&str, &str)> = order.iter().map(|&i| pairs[i]).collect();
        let counter = Counter::new(limit.clone(), labels_from(&permuted));
        assert_eq!(counter, reference);
        assert_eq!(hash_of(&counter), hash_of(&reference));
        assert_eq!(counter.key(), reference.key());
        assert_eq!(hash_of(&counter.key()), hash_of(&reference.key()));
    }
}

#[test]
fn counter_identity_ignores_the_order_of_conditions_and_variables() {
    let labels = labels_from(&[("a", "1")]);
    let one = Counter::new(
        Limit::new("ns", 10, 60, vec!["a == 1", "b == 2"], vec!["x", "y"]),
        labels.clone(),
    );
    let other = Counter::new(
        Limit::new("ns", 10, 60, vec!["b == 2", "a == 1"], vec!["y", "x", "y"]),
        labels,
    );
    assert_eq!(one, other);
    assert_eq!(hash_of(&one), hash_of(&other));
    assert_eq!(one.key(), other.key());
}

#[test]
fn overwritten_labels_count_with_their_last_value() {
    let limit = Limit::new("ns", 10, 60, vec![], vec![]);
    let counter = Counter::new(limit.clone(), labels_from(&[("a", "1"), ("a", "2")]));
    assert_eq!(counter, Counter::new(limit.clone(), labels_from(&[("a", "2")])));
    assert_ne!(counter, Counter::new(limit, labels_from(&[("a", "1")])));
}

#[test]
fn different_counters_have_different_identities() {
    let limit = Limit::new("ns", 10, 60, vec![], vec![]);
    let base = Counter::new(limit.clone(), labels_from(&[("a", "1"), ("b", "2")]));

    let others = vec![
        Counter::new(limit.clone(), labels_from(&[("a", "1"), ("b", "3")])),
        Counter::new(limit.clone(), labels_from(&[("a", "1")])),
        Counter::new(limit.clone(), labels_from(&[("a", "1"), ("b", "2"), ("c", "3")])),
        Counter::new(limit.clone(), labels_from(&[("a", "2"), ("b", "1")])),
        Counter::new(limit.clone(), labels_from(&[("a:1", ""), ("b", "2")])),
        Counter::new(limit.clone(), labels_from(&[("a", "1b"), ("", "2")])),
        Counter::new(limit.clone(), labels_from(&[])),
        Counter::new(
            Limit::new("ns", 11, 60, vec![], vec![]),
            labels_from(&[("a", "1"), ("b", "2")]),
        ),
        Counter::new(
            Limit::new("ns", 10, 61, vec![], vec![]),
            labels_from(&[("a", "1"), ("b", "2")]),
        ),
        Counter::new(
            Limit::new("nt", 10, 60, vec![], vec![]),
            labels_from(&[("a", "1"), ("b", "2")]),
        ),
        Counter::new(
            Limit::new("ns", 10, 60, vec!["a == 1"], vec![]),
            labels_from(&[("a", "1"), ("b", "2")]),
        ),
        Counter::new(
            Limit::new("ns", 10, 60, vec![], vec!["a == 1"]),
            labels_from(&[("a", "1"), ("b", "2")]),
        ),
    ];

    let mut keys: HashSet<CounterKey> = HashSet::new();
    keys.insert(base.key());
    for other in &others {
        assert_ne!(*other, base);
        assert_ne!(other.key(), base.key());
        assert!(keys.insert(other.key()));
    }
    assert_eq!(keys.len(), others.len() + 1);
}

#[test]
fn key_writes_the_counter_out_in_order() {
    let counter = Counter::new(
        Limit::new("ns", 7, 30, vec!["y == 2", "x == 1"], vec!["v", "u"]),
        labels_from(&[("k2", "b"), ("k1", "a"), ("k3", "c")]),
    );
    let expected: CounterKey = (
        "ns".to_string(),
        7,
        30,
        vec!["x == 1".to_string(), "y == 2".to_string()],
        vec!["u".to_string(), "v".to_string()],
        vec!["k1".to_string(), "k2".to_string(), "k3".to_string()],
        vec!["a".to_string(), "b".to_string(), "c".to_string()],
    );
    assert_eq!(counter.key(), expected);
}

#[test]
fn counter_accessors_delegate_to_the_limit() {
    let limit = Limit::new("ns", 42, 3600, vec![], vec![]);
    let labels = labels_from(&[("a", "1")]);
    let counter = Counter::new(limit.clone(), labels.clone());
    assert_eq!(counter.max_value(), 42);
    assert_eq!(counter.seconds(), 3600);
    assert_eq!(*counter.limit(), limit);
    assert_eq!(*counter.set_variables(), labels);
    assert_eq!(counter.clone(), counter);
    assert_eq!(hash_of(&counter.clone()), hash_of(&counter));
}
