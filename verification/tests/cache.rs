use bytes::Bytes;
use edgemap::cache::{cache_control_forbids, location_matches, CacheHandler, PathType};
use edgemap::config::{priority_rank, SiteMapEntry, Weight};
use edgemap::request::{Header, RequestData, UriScheme};

fn weight(p: f64) -> Weight {
    priority_rank(p.to_bits())
}

fn create_test_cache(max_mb: u64) -> CacheHandler {
    let sitemap = vec![
        SiteMapEntry { loc: "/high/*".to_string(), priority: weight(1.0) },
        SiteMapEntry { loc: "/".to_string(), priority: weight(0.1) },
        SiteMapEntry { loc: "/low/*".to_string(), priority: weight(0.5) },
        SiteMapEntry { loc: "/repeated".to_string(), priority: weight(0.1) },
    ];
    CacheHandler::new(sitemap, max_mb)
}

fn make_req_data(path: &str) -> RequestData {
    RequestData {
        method: "GET".to_string(),
        scheme: None,
        authority: None,
        path: path.to_string(),
        query: None,
        headers: vec![],
    }
}

fn cache_control(value: &str) -> Vec<Header> {
    vec![Header::new("cache-control", value)]
}

#[test]
fn test_bucket_uniqueness_and_ordering() {
    let cache = create_test_cache(1);

    assert_eq!(cache.bucket_weights().len(), 3);

    let weights = cache.bucket_weights();
    assert!(weights.contains(&weight(1.0)));
    assert!(weights.contains(&weight(0.5)));
    assert!(weights.contains(&weight(0.1)));
}

#[test]
fn test_check_exact_matching() {
    let cache = create_test_cache(1);

    let req = make_req_data("/low/file.txt");
    let result = cache.check(&req, &vec![]);
    if let PathType::Public(w) = result {
        assert_eq!(w, weight(0.5));
    } else {
        panic!("Expected Public path type");
    }
}

#[test]
fn test_check_wildcard_matching() {
    let cache = create_test_cache(1);

    let req = make_req_data("/high/resource.json");
    let result = cache.check(&req, &vec![]);
    if let PathType::Public(w) = result {
        assert_eq!(w, weight(1.0));
    } else {
        panic!("Expected Public path type");
    }
}

#[test]
fn test_check_private_route() {
    let cache = create_test_cache(1);

    let req = make_req_data("/api/users");
    let result = cache.check(&req, &vec![]);
    assert!(matches!(result, PathType::Private));
}

#[test]
fn test_cache_blacklist_bypass() {
    let cache = create_test_cache(1);

    let bypass_headers = vec![
        "no-store",
        "no-cache",
        "max-age=0",
        "private",
        "no-store, no-cache",
        "public, max-age=0",
    ];

    for header_value in bypass_headers {
        let headers = cache_control(header_value);

        let req = make_req_data("/high/page.html");
        let result = cache.check(&req, &headers);

        assert!(
            matches!(result, PathType::Private),
            "Header '{}' should bypass cache, but got {:?}",
            header_value,
            result
        );
    }
}

#[test]
fn test_valid_caching_headers() {
    let cache = create_test_cache(1);

    let valid_headers = vec!["", "public", "public, max-age=3600", "must-revalidate"];

    for header_value in valid_headers {
        let headers = if header_value.is_empty() { vec![] } else { cache_control(header_value) };

        let req = make_req_data("/high/page.html");
        let result = cache.check(&req, &headers);

        if let PathType::Private = result {
            panic!();
        }
    }
}

#[test]
fn test_save_and_get_from_cache() {
    let mut cache = create_test_cache(1);

    let body = Bytes::from_static(b"edgemap");
    let req = make_req_data("/high/test");

    cache.try_save(req.duplicate(), body.clone(), vec![], weight(1.0));

    let result = cache.check(&req, &vec![]);
    match result {
        PathType::Cached(item) => {
            assert_eq!(item.bytes, body);
        }
        _ => panic!(),
    }
}

#[test]
fn test_eviction_removes_lower_priority() {
    let mut cache = create_test_cache(1);

    let low_body = Bytes::from(vec![0u8; 500 * 1024]); // 500KB
    let low_req = make_req_data("/low/large1");
    cache.try_save(low_req.duplicate(), low_body.clone(), vec![], weight(0.5));

    let low_body2 = Bytes::from(vec![1u8; 500 * 1024]);
    let low_req2 = make_req_data("/low/large2");
    cache.try_save(low_req2.duplicate(), low_body2.clone(), vec![], weight(0.5));

    let high_body = Bytes::from(vec![2u8; 600 * 1024]);
    let high_req = make_req_data("/high/new");
    cache.try_save(high_req.duplicate(), high_body.clone(), vec![], weight(1.0));

    let result = cache.check(&high_req, &vec![]);
    match result {
        PathType::Cached(item) => {
            assert_eq!(item.bytes, high_body);
        }
        _ => panic!(),
    }
}

#[test]
fn test_weighted_eviction_skips_same_or_higher_priority() {
    let mut cache = create_test_cache(1);

    let body0 = Bytes::from(vec![0u8; 800 * 1024]);
    let req0 = make_req_data("/high/item");
    cache.try_save(req0.duplicate(), body0.clone(), vec![], weight(1.0));

    let body1 = Bytes::from(vec![1u8; 500 * 1024]);
    let req1 = make_req_data("/high/newer");
    cache.try_save(req1.duplicate(), body1.clone(), vec![], weight(1.0));

    let body2 = Bytes::from(vec![2u8; 500 * 1024]);
    let req2 = make_req_data("/high/newer");
    cache.try_save(req2.duplicate(), body2.clone(), vec![], weight(0.5));

    let result0 = cache.check(&req0, &vec![]);
    match result0 {
        PathType::Cached(item) => {
            assert_eq!(item.bytes, body0);
        }
        _ => panic!(),
    }
    let result1 = cache.check(&req1, &vec![]);
    if let PathType::Cached(_) = result1 {
        panic!();
    }
    let result2 = cache.check(&req2, &vec![]);
    if let PathType::Cached(_) = result2 {
        panic!();
    }
}

#[test]
fn test_max_bytes_limit() {
    let mut cache = create_test_cache(1);

    let body = Bytes::from(vec![0u8; 20 * 1024 * 1024]);
    let req = make_req_data("/huge");
    cache.try_save(req.duplicate(), body.clone(), vec![], weight(1.0));

    let result = cache.check(&req, &vec![]);
    if let PathType::Cached(_) = result {
        panic!();
    }
}

// ---------------------------------------------------------------------------------

#[test]
fn saving_with_forbidding_response_headers_stores_nothing() {
    let mut cache = create_test_cache(1);
    let req = make_req_data("/high/page");
    cache.try_save(req.duplicate(), Bytes::from_static(b"abc"), cache_control("no-store"), weight(1.0));
    assert_eq!(cache.used_bytes(), 0);
    assert!(matches!(cache.check(&req, &vec![]), PathType::Public(_)));
}

#[test]
fn saved_response_keeps_its_headers_and_bytes_are_counted() {
    let mut cache = create_test_cache(1);
    let req = make_req_data("/high/page");
    let headers = vec![Header::new("content-type", "text/html")];
    cache.try_save(req.duplicate(), Bytes::from_static(b"hello"), headers, weight(1.0));
    assert_eq!(cache.used_bytes(), 5);
    match cache.check(&req, &vec![]) {
        PathType::Cached(item) => {
            assert_eq!(item.headers.len(), 1);
            assert_eq!(item.headers[0].name, "content-type");
            assert_eq!(item.headers[0].value, b"text/html".to_vec());
            assert_eq!(item.bucket_indexes, (0, 0));
        }
        other => panic!("expected a hit, got {:?}", other),
    }
}

#[test]
fn request_headers_are_part_of_the_key() {
    let mut cache = create_test_cache(1);
    let req = make_req_data("/high/page");
    cache.try_save(req.duplicate(), Bytes::from_static(b"hello"), vec![], weight(1.0));
    let mut other = make_req_data("/high/page");
    other.headers = vec![Header::new("accept", "text/html")];
    assert!(matches!(cache.check(&other, &vec![]), PathType::Public(_)));
    let mut post = make_req_data("/high/page");
    post.method = "POST".to_string();
    assert!(matches!(cache.check(&post, &vec![]), PathType::Public(_)));
}

#[test]
fn authority_and_scheme_compare_ignoring_ascii_case() {
    let mut cache = create_test_cache(1);
    let mut req = make_req_data("/high/page");
    req.scheme = Some(UriScheme::Http);
    req.authority = Some("Example.COM".to_string());
    cache.try_save(req.duplicate(), Bytes::from_static(b"x"), vec![], weight(1.0));
    let mut same = make_req_data("/high/page");
    same.scheme = Some(UriScheme::Http);
    same.authority = Some("example.com".to_string());
    assert!(matches!(cache.check(&same, &vec![]), PathType::Cached(_)));
    same.scheme = Some(UriScheme::Https);
    assert!(matches!(cache.check(&same, &vec![]), PathType::Public(_)));
}

#[test]
fn header_maps_compare_per_name() {
    let mut cache = create_test_cache(1);
    let mut req = make_req_data("/high/page");
    req.headers = vec![Header::new("a", "1"), Header::new("b", "2"), Header::new("a", "3")];
    cache.try_save(req.duplicate(), Bytes::from_static(b"x"), vec![], weight(1.0));
    let mut reordered = make_req_data("/high/page");
    reordered.headers = vec![Header::new("b", "2"), Header::new("a", "1"), Header::new("a", "3")];
    assert!(matches!(cache.check(&reordered, &vec![]), PathType::Cached(_)));
    let mut swapped = make_req_data("/high/page");
    swapped.headers = vec![Header::new("a", "3"), Header::new("b", "2"), Header::new("a", "1")];
    assert!(matches!(cache.check(&swapped, &vec![]), PathType::Public(_)));
}

#[test]
fn eviction_takes_newest_of_lowest_weight_first() {
    let mut cache = create_test_cache(1);
    let a = make_req_data("/a");
    let b = make_req_data("/low/b");
    let c = make_req_data("/low/c");
    // "/a" is covered by nothing but is filed under the 0.1 bucket when saved with that weight.
    cache.try_save(a.duplicate(), Bytes::from(vec![0u8; 300 * 1024]), vec![], weight(0.1));
    cache.try_save(b.duplicate(), Bytes::from(vec![0u8; 300 * 1024]), vec![], weight(0.5));
    cache.try_save(c.duplicate(), Bytes::from(vec![0u8; 300 * 1024]), vec![], weight(0.5));
    assert_eq!(cache.used_bytes(), 900 * 1024);
    // 200KB of weight 1.0 does not fit: the 0.1 entry goes first, which is enough.
    assert!(cache.evict(200 * 1024, weight(1.0)));
    assert_eq!(cache.used_bytes(), 600 * 1024);
    assert!(matches!(cache.check(&c, &vec![]), PathType::Cached(_)));
    // 500KB more: the newest 0.5 entry ("/low/c") goes, then room suffices.
    assert!(cache.evict(500 * 1024, weight(1.0)));
    assert_eq!(cache.used_bytes(), 300 * 1024);
    assert!(matches!(cache.check(&c, &vec![]), PathType::Public(_)));
    assert!(matches!(cache.check(&b, &vec![]), PathType::Cached(_)));
}

#[test]
fn eviction_fails_without_lower_rules_or_bytes() {
    let mut cache = create_test_cache(1);
    assert!(!cache.evict(10, weight(0.1)));
    assert!(!cache.evict(10, weight(1.0)));
    // With no lower bytes needed, success only depends on a lower rule existing.
    assert!(cache.evict(0, weight(1.0)));
    assert!(!cache.evict(0, weight(0.1)));
}

#[test]
fn weight_without_bucket_stores_and_counts_nothing() {
    let mut cache = create_test_cache(1);
    let req = make_req_data("/high/x");
    cache.try_save(req.duplicate(), Bytes::from_static(b"12345"), vec![], weight(0.7));
    assert_eq!(cache.used_bytes(), 0);
    assert_eq!(cache.stored_body_bytes(), 0);
    assert!(matches!(cache.check(&req, &vec![]), PathType::Public(_)));
}

#[test]
fn highest_priority_rule_wins() {
    let sitemap = vec![
        SiteMapEntry { loc: "/*".to_string(), priority: weight(0.2) },
        SiteMapEntry { loc: "/docs/*".to_string(), priority: weight(0.9) },
        SiteMapEntry { loc: "/docs/intro".to_string(), priority: weight(0.4) },
    ];
    let cache = CacheHandler::new(sitemap, 1);
    let r = cache.check(&make_req_data("/docs/intro"), &vec![]);
    assert!(matches!(r, PathType::Public(w) if w == weight(0.9)));
    let r = cache.check(&make_req_data("/other"), &vec![]);
    assert!(matches!(r, PathType::Public(w) if w == weight(0.2)));
    assert_eq!(cache.bucket_weights(), vec![weight(0.2), weight(0.9), weight(0.4)]);
}

#[test]
fn location_matching_rules() {
    assert!(location_matches(&"/".to_string(), b"/"));
    assert!(!location_matches(&"/".to_string(), b"/x"));
    assert!(location_matches(&"/static/*".to_string(), b"/static/a.css"));
    assert!(location_matches(&"/static/*".to_string(), b"/static/"));
    // The prefix is the location without its "/*", so the slash is not required.
    assert!(location_matches(&"/static/*".to_string(), b"/static"));
    assert!(location_matches(&"/static/*".to_string(), b"/staticky"));
    assert!(!location_matches(&"/static/*".to_string(), b"/stati"));
    assert!(location_matches(&"/*".to_string(), b"/anything"));
    assert!(location_matches(&"*".to_string(), b"*"));
}

#[test]
fn cache_control_text_rules() {
    assert!(cache_control_forbids(&cache_control("private")));
    assert!(!cache_control_forbids(&cache_control("public")));
    assert!(!cache_control_forbids(&vec![]));
    assert!(!cache_control_forbids(&vec![Header::new("x-cache-control", "no-store")]));
    // Only the first Cache-Control value is read.
    let two = vec![Header::new("cache-control", "public"), Header::new("cache-control", "no-store")];
    assert!(!cache_control_forbids(&two));
    // A value that is not visible ASCII reads as empty text.
    let mut odd = Header::new("cache-control", "no-store");
    odd.value.push(0x80);
    assert!(!cache_control_forbids(&vec![odd]));
    let mut tab = Header::new("cache-control", "no-store");
    tab.value.push(b'\t');
    assert!(cache_control_forbids(&vec![tab]));
}

#[test]
fn budget_of_zero_stores_nothing() {
    let mut cache = create_test_cache(0);
    let req = make_req_data("/high/x");
    cache.try_save(req.duplicate(), Bytes::from_static(b""), vec![], weight(1.0));
    assert_eq!(cache.used_bytes(), 0);
    assert!(matches!(cache.check(&req, &vec![]), PathType::Public(_)));
    // Not even an empty body can be made room for.
    assert!(!cache.evict(0, weight(1.0)));
}

#[test]
fn entry_exactly_filling_the_budget_is_not_stored() {
    let mut cache = create_test_cache(1);
    let req = make_req_data("/high/x");
    cache.try_save(req.duplicate(), Bytes::from(vec![0u8; 1024 * 1024]), vec![], weight(1.0));
    assert_eq!(cache.used_bytes(), 0);
    let smaller = make_req_data("/high/y");
    cache.try_save(smaller.duplicate(), Bytes::from(vec![0u8; 1024 * 1024 - 1]), vec![], weight(1.0));
    assert_eq!(cache.used_bytes(), 1024 * 1024 - 1);
}

#[test]
fn saving_a_request_again_replaces_its_bytes() {
    let mut cache = create_test_cache(1);
    let req = make_req_data("/high/page");
    cache.try_save(req.duplicate(), Bytes::from(vec![0u8; 1000]), vec![], weight(1.0));
    cache.try_save(req.duplicate(), Bytes::from(vec![0u8; 300]), vec![], weight(1.0));
    assert_eq!(cache.used_bytes(), 300);
    assert_eq!(cache.stored_body_bytes(), 300);
    match cache.check(&req, &vec![]) {
        PathType::Cached(item) => {
            assert_eq!(item.bytes.len(), 300);
            assert_eq!(item.bucket_indexes, (0, 0));
        }
        other => panic!("expected a hit, got {:?}", other),
    }
}

#[test]
fn two_saves_of_one_path_count_its_body_once() {
    let sitemap = vec![SiteMapEntry { loc: "/a/*".to_string(), priority: weight(0.5) }];
    let mut cache = CacheHandler::new(sitemap, 1);
    let x = make_req_data("/a/x");
    cache.try_save(x.duplicate(), Bytes::from(vec![0u8; 400 * 1024]), vec![], weight(0.5));
    cache.try_save(x.duplicate(), Bytes::from(vec![0u8; 400 * 1024]), vec![], weight(0.5));
    assert_eq!(cache.used_bytes(), 400 * 1024);
    let y = make_req_data("/a/y");
    cache.try_save(y.duplicate(), Bytes::from(vec![1u8; 400 * 1024]), vec![], weight(0.5));
    assert!(matches!(cache.check(&y, &vec![]), PathType::Cached(_)));
    assert!(matches!(cache.check(&x, &vec![]), PathType::Cached(_)));
    assert_eq!(cache.used_bytes(), 800 * 1024);
    assert_eq!(cache.stored_body_bytes(), 800 * 1024);
}

#[test]
fn successful_eviction_is_followed_by_the_store() {
    let mut cache = create_test_cache(1);
    let a = make_req_data("/low/a");
    let b = make_req_data("/low/b");
    let c = make_req_data("/high/c");
    cache.try_save(a.duplicate(), Bytes::from(vec![0u8; 512 * 1024]), vec![], weight(0.5));
    cache.try_save(b.duplicate(), Bytes::from(vec![0u8; 256 * 1024]), vec![], weight(0.5));
    cache.try_save(c.duplicate(), Bytes::from(vec![0u8; 512 * 1024]), vec![], weight(1.0));
    // Evicting "/low/b" alone would leave exactly 512KB free, which a save needs to exceed.
    assert!(matches!(cache.check(&c, &vec![]), PathType::Cached(_)));
    assert!(matches!(cache.check(&a, &vec![]), PathType::Public(_)));
    assert!(matches!(cache.check(&b, &vec![]), PathType::Public(_)));
    assert_eq!(cache.used_bytes(), 512 * 1024);
}

#[test]
fn eviction_leaves_strictly_more_room_than_asked() {
    let mut cache = create_test_cache(1);
    cache.try_save(make_req_data("/low/a"), Bytes::from(vec![0u8; 512 * 1024]), vec![], weight(0.5));
    cache.try_save(make_req_data("/low/b"), Bytes::from(vec![0u8; 256 * 1024]), vec![], weight(0.5));
    assert!(cache.evict(512 * 1024, weight(1.0)));
    assert!(cache.used_bytes() + 512 * 1024 < 1024 * 1024);
    assert_eq!(cache.used_bytes(), 0);
}

#[test]
fn eviction_spares_higher_priority_responses() {
    let mut cache = create_test_cache(1);
    let high = make_req_data("/high/keep");
    let low = make_req_data("/low/drop");
    cache.try_save(high.duplicate(), Bytes::from(vec![0u8; 400 * 1024]), vec![], weight(1.0));
    cache.try_save(low.duplicate(), Bytes::from(vec![0u8; 400 * 1024]), vec![], weight(0.5));
    assert!(!cache.evict(500 * 1024, weight(1.0)));
    assert!(cache.evict(300 * 1024, weight(1.0)));
    assert!(matches!(cache.check(&high, &vec![]), PathType::Cached(_)));
    assert!(matches!(cache.check(&low, &vec![]), PathType::Public(_)));
    assert_eq!(cache.stored_body_bytes(), 400 * 1024);
}

#[test]
fn response_saved_again_moves_to_its_new_priority() {
    let mut cache = create_test_cache(1);
    let req = make_req_data("/high/page");
    cache.try_save(req.duplicate(), Bytes::from(vec![0u8; 500 * 1024]), vec![], weight(0.5));
    cache.try_save(req.duplicate(), Bytes::from(vec![1u8; 400 * 1024]), vec![], weight(1.0));
    assert_eq!(cache.stored_body_bytes(), 400 * 1024);
    assert_eq!(cache.used_bytes(), 400 * 1024);
    // The response now lives in the 1.0 bucket only: nothing below 1.0 can be evicted.
    assert!(!cache.evict(200 * 1024, weight(1.0)));
    match cache.check(&req, &vec![]) {
        PathType::Cached(item) => assert_eq!(item.bucket_indexes, (0, 0)),
        other => panic!("expected a hit, got {:?}", other),
    }
    assert_eq!(cache.used_bytes(), 400 * 1024);
}

#[test]
fn sitemap_order_does_not_change_decisions() {
    let rules = [("/high/*", 1.0), ("/", 0.1), ("/low/*", 0.5), ("/*", 0.3)];
    let build = |order: &[usize]| {
        let sitemap = order
            .iter()
            .map(|&i| SiteMapEntry { loc: rules[i].0.to_string(), priority: weight(rules[i].1) })
            .collect();
        CacheHandler::new(sitemap, 1)
    };
    let a = build(&[0, 1, 2, 3]);
    let b = build(&[3, 2, 1, 0]);
    for path in ["/", "/high/x", "/low/y", "/other", "/highway"] {
        let ra = a.check(&make_req_data(path), &vec![]);
        let rb = b.check(&make_req_data(path), &vec![]);
        match (ra, rb) {
            (PathType::Public(x), PathType::Public(y)) => assert_eq!(x, y, "{}", path),
            (PathType::Private, PathType::Private) => {}
            (x, y) => panic!("{}: {:?} vs {:?}", path, x, y),
        }
    }
}
