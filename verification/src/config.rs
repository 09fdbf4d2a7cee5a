//! Startup configuration: command-line arguments, lite mode and configuration files.
use vstd::prelude::*;
use vstd::string::StringExecFns;
use crate::text::{decimal, decimal_string, parse_u16, parse_u16_spec, string_bytes, utf8, bytes_equal};

verus! {

/// The caching priority of a sitemap entry, as a rank that orders as the entry's
/// `f64` priority does (see [`priority_rank`]).
pub type Weight = u64;

/// One sitemap rule: a location (exact, or a prefix ending in `/*`) and its priority.
#[derive(Debug)]
pub struct SiteMapEntry {
    pub loc: String,
    pub priority: Weight,
}

/// The proxy's configuration.
#[derive(Debug)]
pub struct Config {
    pub output_port: u16,
    pub upstreams: Vec<String>,
    pub sitemap: Vec<SiteMapEntry>,
    pub max_memory_mb: u64,
}

/// The sign bit of an IEEE 754 double.
pub open spec fn sign_bit() -> u64 {
    0x8000_0000_0000_0000
}

/// The rank of a double given by its bit pattern: negative numbers below zero, larger
/// magnitudes further from zero, and both zeros the same rank.
pub open spec fn priority_rank_spec(bits: u64) -> u64 {
    if bits == sign_bit() {
        sign_bit()
    } else if bits >= sign_bit() {
        (u64::MAX - bits) as u64
    } else {
        (bits + sign_bit()) as u64
    }
}

/// The rank of the double whose bit pattern (`f64::to_bits`) is `bits`: ranks order as
/// the patterns' sign-magnitude values do (see [`lemma_rank_order`]), which is how
/// IEEE 754 orders doubles that are not NaN. A NaN pattern also gets a rank (above +∞,
/// or below −∞ when its sign bit is set), though NaN compares with nothing; priorities
/// read from JSON are never NaN.
pub fn priority_rank(bits: u64) -> (rank: Weight)
    ensures
        rank == priority_rank_spec(bits),
{
    if bits == 0x8000_0000_0000_0000 {
        0x8000_0000_0000_0000
    } else if bits >= 0x8000_0000_0000_0000 {
        u64::MAX - bits
    } else {
        bits + 0x8000_0000_0000_0000
    }
}

/// The value a double's bit pattern stands for in sign-magnitude order: the pattern
/// without its sign bit, as an integer, negated when the sign bit is set. Both zeros
/// are 0, and IEEE 754 orders any two doubles that are not NaN as these values are
/// ordered (larger exponent-and-fraction bits mean a larger magnitude).
pub open spec fn sign_magnitude(bits: u64) -> int {
    if bits >= sign_bit() {
        -(bits - sign_bit())
    } else {
        bits as int
    }
}

/// The rank is the sign-magnitude value shifted up by 2^63, and by one less below zero.
proof fn lemma_rank_of_value(bits: u64)
    ensures
        priority_rank_spec(bits) == if sign_magnitude(bits) >= 0 {
            sign_magnitude(bits) + 0x8000_0000_0000_0000
        } else {
            sign_magnitude(bits) + 0x8000_0000_0000_0000 - 1
        },
{
}

/// Ranks order as the sign-magnitude values of the patterns: one rank is below another
/// exactly when its value is, and two ranks are equal exactly when the values are (so
/// −0.0 and +0.0 share a rank, and no two other doubles do).
pub proof fn lemma_rank_order(a: u64, b: u64)
    ensures
        priority_rank_spec(a) < priority_rank_spec(b) <==> sign_magnitude(a) < sign_magnitude(b),
        priority_rank_spec(a) == priority_rank_spec(b) <==> sign_magnitude(a) == sign_magnitude(b),
{
    lemma_rank_of_value(a);
    lemma_rank_of_value(b);
}

/// The port the proxy listens on unless told otherwise.
pub const DEFAULT_PORT: u16 = 8080;

/// The memory budget of lite mode, in megabytes.
pub const LITE_MEMORY_MB: u64 = 32;

/// The address of a server on this machine at `port`.
pub open spec fn local_upstream(port: u16) -> Seq<char> {
    "http://localhost:"@ + decimal(port as nat)
}

/// `c` is the configuration of lite mode: one local upstream, no sitemap (nothing is
/// cached) and the lite memory budget.
pub open spec fn is_lite_config(c: Config, upstream_port: u16, proxy_port: u16) -> bool {
    &&& c.output_port == proxy_port
    &&& c.upstreams@.len() == 1
    &&& c.upstreams@[0]@ == local_upstream(upstream_port)
    &&& c.sitemap@.len() == 0
    &&& c.max_memory_mb == LITE_MEMORY_MB
}

/// How the proxy starts, as decided from its arguments.
#[derive(Debug)]
pub enum StartMode {
    /// Lite mode, with its configuration.
    Lite(Config),
    /// Standard mode, reading the configuration file at this path.
    File(String),
}

/// The port that the third argument gives, or the default one.
pub open spec fn proxy_port_spec(args: Seq<String>) -> u16 {
    if args.len() == 3 && parse_u16_spec(utf8(args[2]@)) is Some {
        parse_u16_spec(utf8(args[2]@))->0
    } else {
        DEFAULT_PORT
    }
}

/// The formats a configuration file may have.
#[derive(Debug)]
pub enum ConfigFormat {
    Json,
    Yaml,
    Xml,
}

/// The format that a configuration file's name announces.
pub open spec fn format_of_path(path: Seq<u8>) -> Option<ConfigFormat> {
    if path == utf8("config.json"@) || path == utf8("edgemap.json"@) {
        Some(ConfigFormat::Json)
    } else if path == utf8("config.yaml"@) || path == utf8("edgemap.yaml"@) {
        Some(ConfigFormat::Yaml)
    } else if path == utf8("sitemap.xml"@) || path == utf8("sitemap_index.xml"@) {
        Some(ConfigFormat::Xml)
    } else {
        None
    }
}

impl ConfigFormat {
    /// The format of the configuration file named `path`; `None` for a name the proxy
    /// does not know.
    pub fn of_path(path: &String) -> (f: Option<ConfigFormat>)
        ensures
            f == format_of_path(utf8(path@)),
    {
        let p = string_bytes(path);
        if bytes_equal(p, "config.json".as_bytes()) || bytes_equal(p, "edgemap.json".as_bytes()) {
            Some(ConfigFormat::Json)
        } else if bytes_equal(p, "config.yaml".as_bytes()) || bytes_equal(p, "edgemap.yaml".as_bytes()) {
            Some(ConfigFormat::Yaml)
        } else if bytes_equal(p, "sitemap.xml".as_bytes()) || bytes_equal(p, "sitemap_index.xml".as_bytes()) {
            Some(ConfigFormat::Xml)
        } else {
            None
        }
    }
}

impl Config {
    /// Decides from the command line how to start: with a port number as first
    /// argument, lite mode in front of that local port (listening on the second
    /// argument's port when it is one, else on the default port); otherwise standard
    /// mode, reading the file that the first argument names.
    pub fn new(args: Vec<String>) -> (mode: StartMode)
        requires
            args@.len() >= 2,
        ensures
            match mode {
                StartMode::Lite(c) => parse_u16_spec(utf8(args@[1]@)) is Some && is_lite_config(
                    c,
                    parse_u16_spec(utf8(args@[1]@))->0,
                    proxy_port_spec(args@),
                ),
                StartMode::File(path) => parse_u16_spec(utf8(args@[1]@)) is None && path@
                    == args@[1]@,
            },
    {
        let mut proxy_port = DEFAULT_PORT;
        if args.len() == 3 {
            match parse_u16(string_bytes(&args[2])) {
                Some(p) => {
                    proxy_port = p;
                },
                None => {},
            }
        }
        match parse_u16(string_bytes(&args[1])) {
            Some(upstream_port) => StartMode::Lite(Config::lite_mode(upstream_port, proxy_port)),
            None => StartMode::File(args[1].clone()),
        }
    }

    /// The configuration of lite mode.
    pub fn lite_mode(upstream_port: u16, proxy_port: u16) -> (c: Config)
        ensures
            is_lite_config(c, upstream_port, proxy_port),
    {
        let upstream = "http://localhost:".to_owned().concat(decimal_string(upstream_port).as_str());
        let mut upstreams: Vec<String> = Vec::new();
        upstreams.push(upstream);
        Config {
            output_port: proxy_port,
            upstreams,
            sitemap: Vec::new(),
            max_memory_mb: LITE_MEMORY_MB,
        }
    }
}

} // verus!
