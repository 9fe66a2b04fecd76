use limitador::descriptor::{
    find_descriptor_entry, find_descriptors_entry, request_values, response_code, Entry,
    RateLimitDescriptor, RateLimitRequest, CODE_OK, CODE_OVER_LIMIT,
};
use limitador::limit::Limit;
use limitador::RateLimiter;

fn entry(key: &str, value: &str) -> Entry {
    Entry { key: key.to_string(), value: value.to_string() }
}

fn descriptor(pairs: &[(&str, &str)]) -> RateLimitDescriptor {
    RateLimitDescriptor { entries: pairs.iter().map(|(k, v)| entry(k, v)).collect() }
}

#[test]
fn find_descriptor_entry_gives_the_first_match() {
    let d = descriptor(&[("a", "1"), ("ratelimitkey", "x"), ("b", "2"), ("ratelimitkey", "y")]);

    let found = find_descriptor_entry(&d, "ratelimitkey").unwrap();
    assert_eq!(found.key, "ratelimitkey");
    assert_eq!(found.value, "x");
    assert!(std::ptr::eq(found, &d.entries[1]));

    assert_eq!(find_descriptor_entry(&d, "b").unwrap().value, "2");
    assert!(find_descriptor_entry(&d, "c").is_none());
    assert!(find_descriptor_entry(&d, "").is_none());
    assert!(find_descriptor_entry(&descriptor(&[]), "a").is_none());
}

#[test]
fn find_descriptors_entry_looks_through_the_descriptors_in_order() {
    let request = RateLimitRequest {
        domain: "ns".to_string(),
        descriptors: vec![
            descriptor(&[("a", "1")]),
            descriptor(&[]),
            descriptor(&[("b", "2"), ("ratelimitkey", "first"), ("ratelimitkey", "second")]),
            descriptor(&[("ratelimitkey", "third")]),
        ],
    };

    let found = find_descriptors_entry(&request, "ratelimitkey").unwrap();
    assert_eq!(found.value, "first");
    assert!(std::ptr::eq(found, &request.descriptors[2].entries[1]));
    assert_eq!(find_descriptors_entry(&request, "a").unwrap().value, "1");
    assert!(find_descriptors_entry(&request, "missing").is_none());

    let empty = RateLimitRequest { domain: "ns".to_string(), descriptors: vec![] };
    assert!(find_descriptors_entry(&empty, "a").is_none());
}

#[test]
fn request_values_puts_the_domain_under_namespace() {
    let request = RateLimitRequest {
        domain: "test_namespace".to_string(),
        descriptors: vec![
            descriptor(&[("req.method", "GET"), ("app_id", "1")]),
            descriptor(&[("ignored", "yes")]),
        ],
    };

    let values = request_values(&request).unwrap();
    assert_eq!(values.len(), 3);
    assert_eq!(values.get("namespace"), Some(&"test_namespace".to_string()));
    assert_eq!(values.get("req.method"), Some(&"GET".to_string()));
    assert_eq!(values.get("app_id"), Some(&"1".to_string()));
    assert_eq!(values.get("ignored"), None);
}

#[test]
fn request_values_lets_later_entries_override() {
    let request = RateLimitRequest {
        domain: "ns".to_string(),
        descriptors: vec![descriptor(&[("a", "1"), ("namespace", "other"), ("a", "2")])],
    };

    let values = request_values(&request).unwrap();
    assert_eq!(values.len(), 2);
    assert_eq!(values.get("namespace"), Some(&"other".to_string()));
    assert_eq!(values.get("a"), Some(&"2".to_string()));
}

#[test]
fn request_values_needs_a_descriptor() {
    let none = RateLimitRequest { domain: "ns".to_string(), descriptors: vec![] };
    assert!(request_values(&none).is_none());

    let bare = RateLimitRequest { domain: "ns".to_string(), descriptors: vec![descriptor(&[])] };
    let values = request_values(&bare).unwrap();
    assert_eq!(values.len(), 1);
    assert_eq!(values.get("namespace"), Some(&"ns".to_string()));
}

#[test]
fn response_codes() {
    assert_eq!(CODE_OK, 1);
    assert_eq!(CODE_OVER_LIMIT, 2);
    assert_eq!(response_code(false), 1);
    assert_eq!(response_code(true), 2);
}

#[test]
fn a_request_is_checked_and_counted_through_its_labels() {
    let mut limiter = RateLimiter::new();
    limiter.add_limit(Limit::new("ns", 1, 60, vec!["req.method == GET"], vec![])).unwrap();

    let request = RateLimitRequest {
        domain: "ns".to_string(),
        descriptors: vec![descriptor(&[("req.method", "GET")])],
    };
    let values = request_values(&request).unwrap();

    assert_eq!(response_code(limiter.is_rate_limited(&values).unwrap()), CODE_OK);
    limiter.update_counters(&values).unwrap();
    assert_eq!(response_code(limiter.is_rate_limited(&values).unwrap()), CODE_OVER_LIMIT);
}
