//! What the proxy sends upstream and how it labels its answers.
use vstd::prelude::*;
use vstd::string::StringExecFns;

verus! {

/// How a response was obtained.
#[derive(Debug)]
pub enum Served {
    /// From the cache.
    Hit,
    /// From an upstream, and offered to the cache.
    Miss,
    /// From an upstream, bypassing the cache.
    Bypass,
}

/// The Cache-Status (RFC 9211) parameter for each way of serving.
pub open spec fn status_parameter(s: Served) -> Seq<char> {
    match s {
        Served::Hit => "hit"@,
        Served::Miss => "fwd=miss"@,
        Served::Bypass => "fwd=bypass"@,
    }
}

/// The Cache-Status header value that the proxy adds to a response.
pub fn cache_status(s: Served) -> (v: String)
    ensures
        v@ == "EdgeMap; "@ + status_parameter(s),
{
    let parameter = match s {
        Served::Hit => "hit",
        Served::Miss => "fwd=miss",
        Served::Bypass => "fwd=bypass",
    };
    "EdgeMap; ".to_owned().concat(parameter)
}

/// The URL a request is forwarded to: the upstream's address followed by the path
/// (the query is not forwarded).
pub fn upstream_url(server: &String, path: &String) -> (url: String)
    ensures
        url@ == server@ + path@,
{
    server.clone().concat(path.as_str())
}

} // verus!
