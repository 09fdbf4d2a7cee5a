use edgemap::pool::UpstreamPool;

fn create_test_empty_pool() -> UpstreamPool {
    UpstreamPool::new(vec![])
}
fn create_test_single_pool() -> UpstreamPool {
    let upstreams = vec![String::from("http://localhost:3000")];
    UpstreamPool::new(upstreams)
}
fn create_test_multiple_pool() -> UpstreamPool {
    let upstreams = vec![
        String::from("http://localhost:3000"),
        String::from("http://localhost:3001"),
        String::from("http://localhost:3002"),
        String::from("http://localhost:3003"),
        String::from("http://localhost:3004"),
    ];
    UpstreamPool::new(upstreams)
}

#[test]
fn empty_pool_is_reported_empty() {
    // `get_upstream` requires a non-empty pool; callers test this first.
    assert!(create_test_empty_pool().is_empty());
    assert!(!create_test_single_pool().is_empty());
}

#[test]
fn get_from_single_pool_repeats() {
    let mut pool = create_test_single_pool();
    assert_eq!(pool.get_upstream(), "http://localhost:3000");
    assert_eq!(pool.get_upstream(), "http://localhost:3000");
    assert_eq!(pool.get_upstream(), "http://localhost:3000");
}

#[test]
fn get_from_multiple_pool_round_robin() {
    let mut pool = create_test_multiple_pool();
    assert_eq!(pool.get_upstream(), "http://localhost:3000");
    assert_eq!(pool.get_upstream(), "http://localhost:3001");
    assert_eq!(pool.get_upstream(), "http://localhost:3002");
    assert_eq!(pool.get_upstream(), "http://localhost:3003");
    assert_eq!(pool.get_upstream(), "http://localhost:3004");
    assert_eq!(pool.get_upstream(), "http://localhost:3000");
}

#[test]
fn every_server_once_per_round() {
    let mut pool = UpstreamPool::new(vec!["a".to_string(), "b".to_string(), "c".to_string()]);
    pool.get_upstream();
    let mut seen: Vec<String> = (0..3).map(|_| pool.get_upstream().clone()).collect();
    seen.sort();
    assert_eq!(seen, vec!["a".to_string(), "b".to_string(), "c".to_string()]);
}

#[test]
fn pick_k_goes_to_server_k_mod_n() {
    let servers: Vec<String> = (0..4).map(|i| format!("s{}", i)).collect();
    let mut pool = UpstreamPool::new(servers.clone());
    for k in 0..23 {
        assert_eq!(pool.get_upstream(), &servers[k % 4]);
    }
}

#[test]
fn whole_rounds_serve_each_server_equally() {
    let servers: Vec<String> = (0..5).map(|i| format!("s{}", i)).collect();
    let mut pool = UpstreamPool::new(servers.clone());
    // Start from a counter in the middle of a round.
    pool.get_upstream();
    pool.get_upstream();
    let mut counts = vec![0usize; 5];
    for _ in 0..(3 * 5) {
        let s = pool.get_upstream().clone();
        let i = servers.iter().position(|x| *x == s).unwrap();
        counts[i] += 1;
    }
    assert_eq!(counts, vec![3; 5]);
}
