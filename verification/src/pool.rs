//! Round-robin selection among the configured upstream servers.
use vstd::prelude::*;
use vstd::arithmetic::div_mod::{lemma_fundamental_div_mod, lemma_fundamental_div_mod_converse_mod, lemma_mod_multiples_vanish};

verus! {

/// The address of an upstream server, such as `http://localhost:3000`.
pub type Upstream = String;

/// The upstream servers and the position of the next one to serve.
pub struct UpstreamPool {
    upstreams: Vec<Upstream>,
    index: usize,
}

impl UpstreamPool {
    /// The servers of the pool, in the order they were given.
    pub closed spec fn servers(&self) -> Seq<Upstream> {
        self.upstreams@
    }

    /// The counter of requests handed out so far (wrapping at `usize::MAX`).
    pub closed spec fn counter(&self) -> usize {
        self.index
    }

    /// Creates a pool over `upstreams` whose first request goes to the first server.
    pub fn new(upstreams: Vec<Upstream>) -> (pool: Self)
        ensures
            pool.servers() == upstreams@,
            pool.counter() == 0,
    {
        UpstreamPool { upstreams, index: 0 }
    }

    /// Whether the pool has no server.
    pub fn is_empty(&self) -> (r: bool)
        ensures
            r == (self.servers().len() == 0),
    {
        self.upstreams.len() == 0
    }

    /// Hands out the next server in round-robin order.
    pub fn get_upstream(&mut self) -> (server: &Upstream)
        requires
            old(self).servers().len() > 0,
        ensures
            *server == old(self).servers()[old(self).counter() as int % old(self).servers().len() as int],
            final(self).servers() == old(self).servers(),
            final(self).counter() == old(self).counter().wrapping_add(1),
            forall|m: nat| #[trigger] picks(old(self).servers(), old(self).counter(), m + 1) == seq![*server] + picks(
                final(self).servers(),
                final(self).counter(),
                m,
            ),
    {
        let pool_size = self.upstreams.len();
        let current_index = self.index;
        self.index = current_index.wrapping_add(1);
        &self.upstreams[current_index % pool_size]
    }
}

/// The server position that the request numbered `c + j` is sent to, relative to
/// the position of `c`.
proof fn lemma_next_position(n: int, c: int, j: int)
    requires
        n > 0,
        c >= 0,
        0 <= j < n,
    ensures
        (c + j) % n == if c % n + j < n {
            c % n + j
        } else {
            c % n + j - n
        },
{
    let q = c / n;
    let r = c % n;
    lemma_fundamental_div_mod(c, n);
    assert(c + j == n * q + (r + j));
    lemma_mod_multiples_vanish(q, r + j, n);
    if r + j < n {
        lemma_fundamental_div_mod_converse_mod(r + j, n, 0, r + j);
    } else {
        lemma_fundamental_div_mod_converse_mod(r + j, n, 1, r + j - n);
    }
}

/// The position of the server that request `c + j` goes to among `n` servers.
pub open spec fn position_after(c: int, j: int, n: int) -> int {
    (c + j) % n
}

/// Round robin reaches everyone: from any counter `c`, one of the next `n` requests goes
/// to server `k`.
pub proof fn lemma_round_robin_reaches(n: int, c: int, k: int)
    requires
        n > 0,
        c >= 0,
        0 <= k < n,
    ensures
        exists|j: int| 0 <= j < n && #[trigger] position_after(c, j, n) == k,
{
    let r = c % n;
    let j = if k >= r { k - r } else { k - r + n };
    lemma_next_position(n, c, j);
    assert(position_after(c, j, n) == k);
}

/// Round robin repeats no one: from any counter `c`, two of the next `n` requests go to
/// the same server only if they are the same request.
pub proof fn lemma_round_robin_no_repeat(n: int, c: int, j1: int, j2: int)
    requires
        n > 0,
        c >= 0,
        0 <= j1 < n,
        0 <= j2 < n,
        position_after(c, j1, n) == position_after(c, j2, n),
    ensures
        j1 == j2,
{
    lemma_next_position(n, c, j1);
    lemma_next_position(n, c, j2);
}

/// The servers that `m` successive picks hand out from a pool over `servers` whose
/// counter is `c`: each pick takes the server at the counter modulo the pool size, then
/// advances the counter by one, wrapping (as `get_upstream` does).
pub open spec fn picks(servers: Seq<Upstream>, c: usize, m: nat) -> Seq<Upstream>
    decreases m,
{
    if m == 0 {
        seq![]
    } else {
        seq![servers[c as int % servers.len() as int]] + picks(servers, c.wrapping_add(1), (m - 1) as nat)
    }
}

/// Round robin over successive picks: while the counter does not wrap, pick `j` of `m`
/// picks made from counter `c` goes to the server at position `(c + j) mod n`. From a
/// new pool (counter 0), the `(k + 1)`-th pick goes to server `k mod n`.
pub proof fn lemma_picks_round_robin(servers: Seq<Upstream>, c: usize, m: nat)
    requires
        servers.len() > 0,
        c + m <= usize::MAX,
    ensures
        picks(servers, c, m).len() == m,
        forall|j: int| 0 <= j < m ==> #[trigger] picks(servers, c, m)[j] == servers[position_after(c as int, j, servers.len() as int)],
    decreases m,
{
    if m > 0 {
        let c1 = c.wrapping_add(1);
        assert(c1 == c + 1);
        lemma_picks_round_robin(servers, c1, (m - 1) as nat);
        let rest = picks(servers, c1, (m - 1) as nat);
        let all = picks(servers, c, m);
        assert(all == seq![servers[c as int % servers.len() as int]] + rest);
        assert forall|j: int| 0 <= j < m implies #[trigger] all[j] == servers[position_after(c as int, j, servers.len() as int)] by {
            if j > 0 {
                assert(all[j] == rest[j - 1]);
                assert(position_after(c1 as int, j - 1, servers.len() as int) == position_after(c as int, j, servers.len() as int));
            }
        }
    }
}

/// How many of `m` picks made from counter `c` go to the server at position `k` of `n`.
pub open spec fn served_count(c: int, m: nat, n: int, k: int) -> nat
    decreases m,
{
    if m == 0 {
        0
    } else {
        served_count(c, (m - 1) as nat, n, k) + if position_after(c, m - 1, n) == k {
            1nat
        } else {
            0nat
        }
    }
}

/// Within one round of `n` picks, server `k` is served once, by the pick `jk`.
proof fn lemma_served_in_round(c: int, m: nat, n: int, k: int, jk: int)
    requires
        n > 0,
        c >= 0,
        0 <= k < n,
        m <= n,
        0 <= jk < n,
        position_after(c, jk, n) == k,
    ensures
        served_count(c, m, n, k) == if jk < m {
            1nat
        } else {
            0nat
        },
    decreases m,
{
    if m > 0 {
        lemma_served_in_round(c, (m - 1) as nat, n, k, jk);
        if position_after(c, m - 1, n) == k {
            lemma_round_robin_no_repeat(n, c, m - 1, jk);
        }
    }
}

/// Counting over `a + b` picks counts the first `a`, then `b` more from counter `c + a`.
proof fn lemma_served_split(c: int, a: nat, b: nat, n: int, k: int)
    ensures
        served_count(c, a + b, n, k) == served_count(c, a, n, k) + served_count(c + a, b, n, k),
    decreases b,
{
    if b > 0 {
        lemma_served_split(c, a, (b - 1) as nat, n, k);
        assert(position_after(c, a + b - 1, n) == position_after(c + a, b - 1, n));
    }
}

/// Round robin is fair: `q * n` picks from any counter serve each of the `n` servers
/// exactly `q` times.
pub proof fn lemma_round_robin_fair(c: int, q: nat, n: int, k: int)
    requires
        n > 0,
        c >= 0,
        0 <= k < n,
    ensures
        served_count(c, q * n as nat, n, k) == q,
    decreases q,
{
    if q > 0 {
        let a = ((q - 1) * n) as nat;
        lemma_round_robin_fair(c, (q - 1) as nat, n, k);
        assert(q * n == a + n) by (nonlinear_arith)
            requires
                a == (q - 1) * n,
        ;
        lemma_served_split(c, a, n as nat, n, k);
        lemma_round_robin_reaches(n, c + a, k);
        let jk = choose|j: int| 0 <= j < n && #[trigger] position_after(c + a, j, n) == k;
        lemma_served_in_round(c + a, n as nat, n, k, jk);
    }
}

} // verus!
