use edgemap::proxy::{cache_status, upstream_url, Served};

#[test]
fn cache_status_values() {
    assert_eq!(cache_status(Served::Hit), "EdgeMap; hit");
    assert_eq!(cache_status(Served::Miss), "EdgeMap; fwd=miss");
    assert_eq!(cache_status(Served::Bypass), "EdgeMap; fwd=bypass");
}

#[test]
fn upstream_url_appends_the_path() {
    assert_eq!(
        upstream_url(&"http://localhost:3000".to_string(), &"/a/b".to_string()),
        "http://localhost:3000/a/b"
    );
}
