use edgemap::cache::{CacheHandler, PathType};
use edgemap::config::{priority_rank, Config, ConfigFormat, SiteMapEntry, StartMode};
use edgemap::request::RequestData;
use edgemap::text::decimal_string;

fn test_sitemap() -> Vec<SiteMapEntry> {
    vec![
        SiteMapEntry { loc: "/".to_string(), priority: priority_rank(1.0f64.to_bits()) },
        SiteMapEntry { loc: "/public/*".to_string(), priority: priority_rank(0.5f64.to_bits()) },
    ]
}

fn get(path: &str) -> RequestData {
    RequestData {
        method: "GET".to_string(),
        scheme: None,
        authority: None,
        path: path.to_string(),
        query: None,
        headers: vec![],
    }
}

#[test]
fn test_exact_match_allowed() {
    let cache = CacheHandler::new(test_sitemap(), 2);
    let req = get("/");
    assert!(matches!(cache.check(&req, &vec![]), PathType::Public(_) | PathType::Cached(_)));
}

#[test]
fn test_wildcard_match_allowed() {
    let cache = CacheHandler::new(test_sitemap(), 2);
    let req = get("/public/style.css");
    assert!(matches!(cache.check(&req, &vec![]), PathType::Public(_) | PathType::Cached(_)));
}

#[test]
fn test_api_path_blocked() {
    let cache = CacheHandler::new(test_sitemap(), 2);
    let req = get("/api/users");
    assert!(matches!(cache.check(&req, &vec![]), PathType::Private));
}

// ---------------------------------------------------------------------------------

fn args(a: &[&str]) -> Vec<String> {
    a.iter().map(|s| s.to_string()).collect()
}

#[test]
fn port_argument_starts_lite_mode() {
    match Config::new(args(&["edgemap", "3000"])) {
        StartMode::Lite(c) => {
            assert_eq!(c.output_port, 8080);
            assert_eq!(c.upstreams, vec!["http://localhost:3000".to_string()]);
            assert!(c.sitemap.is_empty());
            assert_eq!(c.max_memory_mb, 32);
        }
        other => panic!("expected lite mode, got {:?}", other),
    }
}

#[test]
fn third_argument_sets_the_proxy_port() {
    match Config::new(args(&["edgemap", "+3000", "9090"])) {
        StartMode::Lite(c) => {
            assert_eq!(c.output_port, 9090);
            assert_eq!(c.upstreams, vec!["http://localhost:3000".to_string()]);
        }
        other => panic!("expected lite mode, got {:?}", other),
    }
    match Config::new(args(&["edgemap", "0", "not-a-port"])) {
        StartMode::Lite(c) => {
            assert_eq!(c.output_port, 8080);
            assert_eq!(c.upstreams, vec!["http://localhost:0".to_string()]);
        }
        other => panic!("expected lite mode, got {:?}", other),
    }
    match Config::new(args(&["edgemap", "65535", "1", "extra"])) {
        StartMode::Lite(c) => assert_eq!(c.output_port, 8080),
        other => panic!("expected lite mode, got {:?}", other),
    }
}

#[test]
fn other_arguments_name_a_file() {
    for a in ["config.json", "65536", "-1", "+", "", " 80", "80a"] {
        match Config::new(args(&["edgemap", a])) {
            StartMode::File(p) => assert_eq!(p, a),
            other => panic!("expected a file for {:?}, got {:?}", a, other),
        }
    }
}

#[test]
fn file_formats_by_name() {
    assert!(matches!(ConfigFormat::of_path(&"config.json".to_string()), Some(ConfigFormat::Json)));
    assert!(matches!(ConfigFormat::of_path(&"edgemap.json".to_string()), Some(ConfigFormat::Json)));
    assert!(matches!(ConfigFormat::of_path(&"config.yaml".to_string()), Some(ConfigFormat::Yaml)));
    assert!(matches!(ConfigFormat::of_path(&"edgemap.yaml".to_string()), Some(ConfigFormat::Yaml)));
    assert!(matches!(ConfigFormat::of_path(&"sitemap.xml".to_string()), Some(ConfigFormat::Xml)));
    assert!(matches!(ConfigFormat::of_path(&"sitemap_index.xml".to_string()), Some(ConfigFormat::Xml)));
    assert!(ConfigFormat::of_path(&"./config.json".to_string()).is_none());
    assert!(ConfigFormat::of_path(&"settings.toml".to_string()).is_none());
}

#[test]
fn priority_ranks_order_as_priorities() {
    let ps = [f64::NEG_INFINITY, -2.5f64, -1.0, -5e-324, -0.0, 0.0, 5e-324, 0.1, 0.5, 1.0, 7.25, f64::INFINITY];
    for a in ps {
        for b in ps {
            let (ra, rb) = (priority_rank(a.to_bits()), priority_rank(b.to_bits()));
            assert_eq!(a < b, ra < rb, "{} vs {}", a, b);
            assert_eq!(a == b, ra == rb, "{} vs {}", a, b);
        }
    }
    assert_eq!(priority_rank(0.0f64.to_bits()), 0x8000_0000_0000_0000);
}

#[test]
fn decimal_text_of_ports() {
    assert_eq!(decimal_string(0), "0");
    assert_eq!(decimal_string(7), "7");
    assert_eq!(decimal_string(80), "80");
    assert_eq!(decimal_string(65535), "65535");
}
