# EdgeMap

An edge-caching reverse proxy whose decisions are verified with Verus.

- `src/` is the verified library:
  - `pool.rs`: round-robin choice of the upstream server;
  - `config.rs`: command-line decisions, lite mode, configuration file formats, and the
    integer rank that stands for a sitemap priority;
  - `request.rs`: the cache key of a request (method, URI parts, headers) and its equality;
  - `cache.rs`, `cache_model.rs`: which paths are cached (sitemap rules, Cache-Control),
    storing responses within a byte budget, and weighted eviction, with their model and laws;
  - `proxy.rs`: the upstream URL and the Cache-Status header value;
  - `text.rs`, `body.rs`: byte-level helpers and the response body buffer.
- `app/` holds the HTTP server and client (axum, reqwest, tokio) and the configuration
  file reading (serde_json); it asks the library for every decision.
- `tests/` exercises the library.

Run with a port (`edgemap 3000`, lite mode in front of `localhost:3000`) or a
configuration file (`edgemap config.json`).
