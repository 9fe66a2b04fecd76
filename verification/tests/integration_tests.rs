use limitador::errors::LimitadorError;
use limitador::labels::Labels;
use limitador::limit::Limit;
use limitador::storage::StorageErr;
use limitador::{settle, RateLimiter};
use std::collections::HashSet;
use std::time::{Duration, Instant};

fn wait_for(duration: Duration) {
    let start = Instant::now();
    while start.elapsed() < duration {
        std::hint::spin_loop();
    }
}

#[test]
fn add_a_limit() {
    let limit = Limit::new(
        "test_namespace",
        10,
        60,
        vec!["req.method == GET"],
        vec!["req.method", "app_id"],
    );

    let mut rate_limiter = RateLimiter::new();
    rate_limiter.add_limit(limit.clone()).unwrap();

    let mut expected_result = HashSet::new();
    expected_result.insert(limit);

    let found: HashSet<Limit> =
        rate_limiter.get_limits("test_namespace").unwrap().into_iter().collect();

    assert_eq!(found, expected_result)
}

#[test]
fn rate_limited() {
    let max_hits = 3;

    let limit = Limit::new(
        "test_namespace",
        max_hits,
        60,
        vec!["req.method == GET"],
        vec!["req.method", "app_id"],
    );

    let mut rate_limiter = RateLimiter::new();
    rate_limiter.add_limit(limit.clone()).unwrap();

    let mut values = Labels::new();
    values.insert("namespace".to_string(), "test_namespace".to_string());
    values.insert("req.method".to_string(), "GET".to_string());
    values.insert("app_id".to_string(), "test_app_id".to_string());

    for _ in 0..max_hits {
        assert_eq!(false, rate_limiter.is_rate_limited(&values).unwrap());
        rate_limiter.update_counters(&values).unwrap();
    }
    assert_eq!(true, rate_limiter.is_rate_limited(&values).unwrap());
}

#[test]
fn rate_limited_returns_err_when_no_namespace() {
    let rate_limiter = RateLimiter::new();

    let mut values = Labels::new();
    values.insert("some_key".to_string(), "some_value".to_string());

    assert_eq!(
        rate_limiter.is_rate_limited(&values).err().unwrap(),
        LimitadorError::MissingNamespace
    );
}

#[test]
fn update_counters_returns_err_when_no_namespace() {
    let mut rate_limiter = RateLimiter::new();

    let mut values = Labels::new();
    values.insert("some_key".to_string(), "some_value".to_string());

    assert_eq!(
        rate_limiter.update_counters(&values).err().unwrap(),
        LimitadorError::MissingNamespace
    );
}

#[test]
fn missing_namespace_is_reported_before_anything_is_counted() {
    let mut rate_limiter = RateLimiter::new();
    rate_limiter.add_limit(Limit::new("ns", 1, 60, vec![], vec![])).unwrap();

    let empty = Labels::new();
    assert_eq!(rate_limiter.is_rate_limited(&empty), Err(LimitadorError::MissingNamespace));
    assert_eq!(rate_limiter.update_counters(&empty), Err(LimitadorError::MissingNamespace));

    let mut values = Labels::new();
    values.insert("namespace".to_string(), "ns".to_string());
    assert_eq!(rate_limiter.is_rate_limited(&values), Ok(false));
}

#[test]
fn adding_the_same_limit_twice_registers_it_once() {
    let mut rate_limiter = RateLimiter::new();
    let limit = Limit::new("ns", 10, 60, vec!["a == 1", "b == 2"], vec!["a"]);
    let same = Limit::new("ns", 10, 60, vec!["b == 2", "a == 1"], vec!["a", "a"]);

    rate_limiter.add_limit(limit.clone()).unwrap();
    rate_limiter.add_limit(limit.clone()).unwrap();
    rate_limiter.add_limit(same).unwrap();

    let found = rate_limiter.get_limits("ns").unwrap();
    assert_eq!(found.len(), 1);
    assert_eq!(found[0], limit);
}

#[test]
fn get_limits_lists_only_the_namespace_asked_for() {
    let mut rate_limiter = RateLimiter::new();
    let a1 = Limit::new("a", 10, 60, vec![], vec![]);
    let a2 = Limit::new("a", 20, 60, vec![], vec![]);
    let b1 = Limit::new("b", 10, 60, vec![], vec![]);
    rate_limiter.add_limit(a1.clone()).unwrap();
    rate_limiter.add_limit(b1.clone()).unwrap();
    rate_limiter.add_limit(a2.clone()).unwrap();

    assert_eq!(rate_limiter.get_limits("a").unwrap(), vec![a1, a2]);
    assert_eq!(rate_limiter.get_limits("b").unwrap(), vec![b1]);
    assert_eq!(rate_limiter.get_limits("c").unwrap(), Vec::<Limit>::new());
    assert_eq!(rate_limiter.get_limits("").unwrap(), Vec::<Limit>::new());
}

#[test]
fn get_limits_hands_out_copies() {
    let mut rate_limiter = RateLimiter::new();
    let limit = Limit::new("ns", 10, 60, vec![], vec![]);
    rate_limiter.add_limit(limit.clone()).unwrap();

    let mut found = rate_limiter.get_limits("ns").unwrap();
    found.clear();
    found.push(Limit::new("ns", 99, 1, vec![], vec![]));

    assert_eq!(rate_limiter.get_limits("ns").unwrap(), vec![limit]);
}

#[test]
fn add_limit_refuses_a_malformed_condition() {
    let mut rate_limiter = RateLimiter::new();
    let broken = Limit::new("ns", 10, 60, vec!["x == 1", "y = 2", "z"], vec![]);

    assert_eq!(
        rate_limiter.add_limit(broken),
        Err(LimitadorError::MalformedCondition("y = 2".to_string()))
    );
    assert_eq!(rate_limiter.get_limits("ns").unwrap(), Vec::<Limit>::new());
}

#[test]
fn fixed_window_without_conditions() {
    let mut rate_limiter = RateLimiter::new();
    rate_limiter.add_limit(Limit::new("ns", 3, 60, Vec::<&str>::new(), vec![])).unwrap();

    let mut values = Labels::new();
    values.insert("namespace".to_string(), "ns".to_string());
    values.insert("user".to_string(), "alice".to_string());

    for _ in 0..3 {
        assert_eq!(rate_limiter.is_rate_limited(&values), Ok(false));
        assert_eq!(rate_limiter.update_counters(&values), Ok(()));
    }
    assert_eq!(rate_limiter.is_rate_limited(&values), Ok(true));
    assert_eq!(rate_limiter.is_rate_limited(&values), Ok(true));
}

#[test]
fn checking_alone_consumes_nothing() {
    let mut rate_limiter = RateLimiter::new();
    rate_limiter.add_limit(Limit::new("ns", 1, 60, vec![], vec![])).unwrap();

    let mut values = Labels::new();
    values.insert("namespace".to_string(), "ns".to_string());

    for _ in 0..10 {
        assert_eq!(rate_limiter.is_rate_limited(&values), Ok(false));
    }
    rate_limiter.update_counters(&values).unwrap();
    assert_eq!(rate_limiter.is_rate_limited(&values), Ok(true));
}

#[test]
fn counters_are_kept_per_label_values() {
    let mut rate_limiter = RateLimiter::new();
    rate_limiter.add_limit(Limit::new("ns", 1, 60, vec![], vec!["user"])).unwrap();

    let mut alice = Labels::new();
    alice.insert("namespace".to_string(), "ns".to_string());
    alice.insert("user".to_string(), "alice".to_string());

    let mut bob = Labels::new();
    bob.insert("user".to_string(), "bob".to_string());
    bob.insert("namespace".to_string(), "ns".to_string());

    rate_limiter.update_counters(&alice).unwrap();
    assert_eq!(rate_limiter.is_rate_limited(&alice), Ok(true));
    assert_eq!(rate_limiter.is_rate_limited(&bob), Ok(false));
}

#[test]
fn label_insertion_order_does_not_split_a_counter() {
    let mut rate_limiter = RateLimiter::new();
    rate_limiter.add_limit(Limit::new("ns", 2, 60, vec![], vec![])).unwrap();

    let mut one = Labels::new();
    one.insert("namespace".to_string(), "ns".to_string());
    one.insert("a".to_string(), "1".to_string());
    one.insert("b".to_string(), "2".to_string());

    let mut other = Labels::new();
    other.insert("b".to_string(), "2".to_string());
    other.insert("a".to_string(), "1".to_string());
    other.insert("namespace".to_string(), "ns".to_string());

    rate_limiter.update_counters(&one).unwrap();
    assert_eq!(rate_limiter.is_rate_limited(&other), Ok(false));
    rate_limiter.update_counters(&other).unwrap();
    assert_eq!(rate_limiter.is_rate_limited(&one), Ok(true));
    assert_eq!(rate_limiter.is_rate_limited(&other), Ok(true));
}

#[test]
fn condition_filters_checking_and_updating() {
    let mut rate_limiter = RateLimiter::new();
    rate_limiter
        .add_limit(Limit::new("ns", 1, 60, vec!["req.method == GET"], vec!["req.method"]))
        .unwrap();

    let mut get = Labels::new();
    get.insert("namespace".to_string(), "ns".to_string());
    get.insert("req.method".to_string(), "GET".to_string());

    let mut post = Labels::new();
    post.insert("namespace".to_string(), "ns".to_string());
    post.insert("req.method".to_string(), "POST".to_string());

    assert_eq!(rate_limiter.counters_that_apply("ns", &get).unwrap().len(), 1);
    assert_eq!(rate_limiter.counters_that_apply("ns", &post).unwrap().len(), 0);

    for _ in 0..5 {
        assert_eq!(rate_limiter.is_rate_limited(&post), Ok(false));
        rate_limiter.update_counters(&post).unwrap();
    }
    assert_eq!(rate_limiter.is_rate_limited(&get), Ok(false));

    rate_limiter.update_counters(&get).unwrap();
    assert_eq!(rate_limiter.is_rate_limited(&get), Ok(true));
    assert_eq!(rate_limiter.is_rate_limited(&post), Ok(false));
}

#[test]
fn any_exhausted_limit_rejects_the_request() {
    let mut rate_limiter = RateLimiter::new();
    rate_limiter.add_limit(Limit::new("ns", 5, 60, vec![], vec![])).unwrap();
    rate_limiter.add_limit(Limit::new("ns", 2, 60, vec!["tier == free"], vec![])).unwrap();
    rate_limiter.add_limit(Limit::new("other", 0, 60, vec![], vec![])).unwrap();

    let mut values = Labels::new();
    values.insert("namespace".to_string(), "ns".to_string());
    values.insert("tier".to_string(), "free".to_string());

    assert_eq!(rate_limiter.counters_that_apply("ns", &values).unwrap().len(), 2);

    for _ in 0..2 {
        assert_eq!(rate_limiter.is_rate_limited(&values), Ok(false));
        rate_limiter.update_counters(&values).unwrap();
    }
    assert_eq!(rate_limiter.is_rate_limited(&values), Ok(true));

    let mut paid = Labels::new();
    paid.insert("namespace".to_string(), "ns".to_string());
    paid.insert("tier".to_string(), "paid".to_string());
    for _ in 0..5 {
        assert_eq!(rate_limiter.is_rate_limited(&paid), Ok(false));
        rate_limiter.update_counters(&paid).unwrap();
    }
    assert_eq!(rate_limiter.is_rate_limited(&paid), Ok(true));
}

#[test]
fn budget_is_restored_when_the_window_has_passed() {
    let mut rate_limiter = RateLimiter::new();
    rate_limiter.add_limit(Limit::new("ns", 2, 1, vec![], vec![])).unwrap();

    let mut values = Labels::new();
    values.insert("namespace".to_string(), "ns".to_string());

    rate_limiter.update_counters(&values).unwrap();
    rate_limiter.update_counters(&values).unwrap();
    assert_eq!(rate_limiter.is_rate_limited(&values), Ok(true));

    wait_for(Duration::from_millis(1200));

    assert_eq!(rate_limiter.is_rate_limited(&values), Ok(false));
    rate_limiter.update_counters(&values).unwrap();
    assert_eq!(rate_limiter.is_rate_limited(&values), Ok(false));
    rate_limiter.update_counters(&values).unwrap();
    assert_eq!(rate_limiter.is_rate_limited(&values), Ok(true));
}

#[test]
fn updating_does_not_start_the_window_anew() {
    let mut rate_limiter = RateLimiter::new();
    rate_limiter.add_limit(Limit::new("ns", 100, 2, vec![], vec![])).unwrap();

    let mut values = Labels::new();
    values.insert("namespace".to_string(), "ns".to_string());

    for _ in 0..100 {
        rate_limiter.update_counters(&values).unwrap();
    }
    assert_eq!(rate_limiter.is_rate_limited(&values), Ok(true));

    wait_for(Duration::from_millis(1100));
    rate_limiter.update_counters(&values).unwrap();
    assert_eq!(rate_limiter.is_rate_limited(&values), Ok(true));

    wait_for(Duration::from_millis(1100));
    assert_eq!(rate_limiter.is_rate_limited(&values), Ok(false));
}

#[test]
fn default_is_an_empty_rate_limiter() {
    let rate_limiter = RateLimiter::default();
    assert_eq!(rate_limiter.get_limits("ns").unwrap(), Vec::<Limit>::new());
}

#[test]
fn error_messages() {
    assert_eq!(LimitadorError::MissingNamespace.message(), "Missing namespace");
    assert_eq!(
        LimitadorError::MalformedCondition("x".to_string()).message(),
        "malformed condition: x"
    );
    assert_eq!(
        LimitadorError::Storage("down".to_string()).message(),
        "error while accessing the limits storage: down"
    );
}

#[test]
fn storage_errors_become_limiter_errors() {
    let err = StorageErr::new("unreachable");
    assert_eq!(err.msg(), "unreachable");
    assert_eq!(LimitadorError::from(err), LimitadorError::Storage("unreachable".to_string()));
}

#[test]
fn a_store_answer_settles_the_request_or_leaves_it_open() {
    assert_eq!(settle(Ok(true)), None);
    assert_eq!(settle(Ok(false)), Some(Ok(true)));
    assert_eq!(
        settle(Err(StorageErr::new("unreachable"))),
        Some(Err(LimitadorError::Storage("unreachable".to_string())))
    );
}
