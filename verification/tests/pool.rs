use balancer::pool::{LbError, RoundRobin};

fn pool_of(addrs: &[&str]) -> RoundRobin {
    let list: Vec<String> = addrs.iter().map(|a| a.to_string()).collect();
    RoundRobin::new(list)
}

fn pool_with_availability(addrs: &[&str], up: &[bool]) -> RoundRobin {
    let mut pool = pool_of(addrs);
    for (i, &ok) in up.iter().enumerate() {
        pool.record_probe(i, ok);
    }
    pool
}

#[test]
fn round_robin_cycles_in_order() {
    let mut pool = pool_with_availability(
        &["10.0.0.1:80", "10.0.0.2:80", "10.0.0.3:80"],
        &[true, true, true],
    );
    let picks: Vec<Option<String>> = (0..7).map(|_| pool.select_backend()).collect();
    let expected = ["10.0.0.1:80", "10.0.0.2:80", "10.0.0.3:80", "10.0.0.1:80", "10.0.0.2:80",
        "10.0.0.3:80", "10.0.0.1:80"];
    for (pick, want) in picks.iter().zip(expected.iter()) {
        assert_eq!(pick.as_deref(), Some(*want));
    }
}

#[test]
fn skips_unavailable_backend() {
    let mut pool = pool_with_availability(
        &["10.0.0.1:80", "10.0.0.2:80", "10.0.0.3:80"],
        &[true, false, true],
    );
    assert_eq!(pool.select_backend().as_deref(), Some("10.0.0.1:80"));
    assert_eq!(pool.select_backend().as_deref(), Some("10.0.0.3:80"));
    assert_eq!(pool.select_backend().as_deref(), Some("10.0.0.1:80"));
    assert_eq!(pool.select_backend().as_deref(), Some("10.0.0.3:80"));
}

#[test]
fn all_unavailable_selects_none() {
    let mut pool = pool_with_availability(
        &["10.0.0.1:80", "10.0.0.2:80"],
        &[true, true],
    );
    // move the cursor off the first backend, then lose every backend
    assert_eq!(pool.select_backend().as_deref(), Some("10.0.0.1:80"));
    pool.record_probe(0, false);
    pool.record_probe(1, false);
    assert_eq!(pool.select_backend(), None);
    assert_eq!(pool.select_backend(), None);
}

#[test]
fn fresh_pool_selects_none_until_probed() {
    let mut pool = pool_of(&["10.0.0.1:80", "10.0.0.2:80"]);
    assert_eq!(pool.select_backend(), None);
    pool.record_probe(1, true);
    assert_eq!(pool.select_backend().as_deref(), Some("10.0.0.2:80"));
}

#[test]
fn empty_pool_selects_none() {
    let mut pool = pool_of(&[]);
    assert_eq!(pool.num_backends(), 0);
    assert_eq!(pool.select_backend(), None);
    assert_eq!(pool.route_request(), Err(LbError::NoAvailableBackend));
}

#[test]
fn probe_transitions_and_idempotence() {
    let mut pool = pool_of(&["10.0.0.1:80"]);
    assert!(!pool.backend_available(0));
    pool.record_probe(0, true);
    assert!(pool.backend_available(0));
    pool.record_probe(0, true);
    assert!(pool.backend_available(0));
    pool.record_probe(0, false);
    assert!(!pool.backend_available(0));
    pool.record_probe(0, false);
    assert!(!pool.backend_available(0));
}

#[test]
fn scenario_three_backends() {
    let mut pool = pool_with_availability(
        &["127.0.0.1:9001", "127.0.0.1:9002", "127.0.0.1:9003"],
        &[true, true, true],
    );
    assert_eq!(pool.select_backend().as_deref(), Some("127.0.0.1:9001"));
    assert_eq!(pool.select_backend().as_deref(), Some("127.0.0.1:9002"));
    assert_eq!(pool.select_backend().as_deref(), Some("127.0.0.1:9003"));

    // mark B unavailable; from a fresh cursor at A the cycle is A, C, A, C
    let mut pool = pool_with_availability(
        &["127.0.0.1:9001", "127.0.0.1:9002", "127.0.0.1:9003"],
        &[true, false, true],
    );
    assert_eq!(pool.select_backend().as_deref(), Some("127.0.0.1:9001"));
    assert_eq!(pool.select_backend().as_deref(), Some("127.0.0.1:9003"));
    assert_eq!(pool.select_backend().as_deref(), Some("127.0.0.1:9001"));
    assert_eq!(pool.select_backend().as_deref(), Some("127.0.0.1:9003"));

    // mark all unavailable; the connection handler sees NoAvailableBackend
    pool.record_probe(0, false);
    pool.record_probe(2, false);
    assert_eq!(pool.route_request(), Err(LbError::NoAvailableBackend));
}

#[test]
fn route_request_returns_selected_address() {
    let mut pool = pool_with_availability(&["10.0.0.1:80", "10.0.0.2:80"], &[false, true]);
    assert_eq!(pool.route_request(), Ok("10.0.0.2:80".to_string()));
}

#[test]
fn select_many_matches_single_selections() {
    let mut pool = pool_with_availability(
        &["10.0.0.1:80", "10.0.0.2:80", "10.0.0.3:80"],
        &[true, false, true],
    );
    let picks = pool.select_many(5);
    let expected = ["10.0.0.1:80", "10.0.0.3:80", "10.0.0.1:80", "10.0.0.3:80", "10.0.0.1:80"];
    assert_eq!(picks.len(), 5);
    for (pick, want) in picks.iter().zip(expected.iter()) {
        assert_eq!(pick.as_deref(), Some(*want));
    }
}

#[test]
fn config_drops_invalid_entries() {
    // the validation collaborator judged the middle entry invalid
    let raw = vec![
        "127.0.0.1:9001".to_string(),
        "not-an-addr".to_string(),
        "127.0.0.1:9002".to_string(),
    ];
    let verdicts = vec![true, false, true];
    let pool = RoundRobin::from_config(raw, verdicts).expect("two valid backends remain");
    assert_eq!(pool.num_backends(), 2);
    assert_eq!(pool.address_at(0), "127.0.0.1:9001");
    assert_eq!(pool.address_at(1), "127.0.0.1:9002");
}

#[test]
fn config_with_no_valid_entry_is_fatal() {
    let raw = vec!["not-an-addr".to_string(), "also bad".to_string()];
    let verdicts = vec![false, false];
    assert!(matches!(
        RoundRobin::from_config(raw, verdicts),
        Err(LbError::StartupConfig)
    ));
    assert!(matches!(
        RoundRobin::from_config(Vec::new(), Vec::new()),
        Err(LbError::StartupConfig)
    ));
}
