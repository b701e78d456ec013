pub mod laws;
pub mod sessions;

use crate::address::{reparsed, Address};
use crate::outside::{gcd_u16, random_weight, spec_gcd};
use sessions::SessionTable;
use vstd::prelude::*;

verus! {

/// What a server's heartbeat reports: how many cores it has free.
#[derive(Clone, Copy, Debug, PartialEq, Eq, Structural)]
pub struct HealthInfo {
    pub cores: u8,
}

/// The state of a server as the balancer sees it.
#[derive(Clone, Copy, Debug, PartialEq, Eq, Structural)]
pub struct ServerInfo {
    pub alive: bool,
    pub connections: u16,
    pub cores: u8,
}

/// The state given to a server that was just added: alive, no connections,
/// no cores known.
pub open spec fn fresh_info() -> ServerInfo {
    ServerInfo { alive: true, connections: 0, cores: 0 }
}

impl ServerInfo {
    /// A new server state: alive, with no connections and no cores known.
    pub fn new() -> (r: ServerInfo)
        ensures
            r == fresh_info(),
    {
        ServerInfo { alive: true, connections: 0, cores: 0 }
    }
}

/// A backend server: the address QUIC traffic goes to, the address its
/// heartbeat answers on, and its weight for weighted round robin.
#[derive(Clone, Copy, Debug, PartialEq, Eq, Structural)]
pub struct Server {
    pub quic: Address,
    pub heartbeat: Address,
    pub weight: u16,
}

impl Server {
    /// The address QUIC traffic for this server goes to.
    pub open spec fn quic_addr(self) -> Address {
        self.quic
    }

    /// The address this server's heartbeat answers on.
    pub open spec fn hb_addr(self) -> Address {
        self.heartbeat
    }

    /// A server with the given addresses and a random weight.
    pub fn new(quic: Address, heartbeat: Address) -> (s: Server)
        ensures
            s.quic_addr() == quic,
            s.hb_addr() == heartbeat,
    {
        let weight = random_weight();
        Server::with_weight(quic, heartbeat, weight)
    }

    /// A server with the given addresses and weight.
    pub fn with_weight(quic: Address, heartbeat: Address, weight: u16) -> (s: Server)
        ensures
            s.quic_addr() == quic,
            s.hb_addr() == heartbeat,
            s.weight == weight,
    {
        Server { quic, heartbeat, weight }
    }

    /// The address QUIC traffic for this server goes to.
    pub fn get_quic(&self) -> (a: Address)
        ensures
            a == self.quic_addr(),
    {
        self.quic
    }

    /// The address this server's heartbeat answers on.
    pub fn get_hb(&self) -> (a: Address)
        ensures
            a == self.hb_addr(),
    {
        self.heartbeat
    }
}

/// The servers named in the configuration file.
pub struct Config {
    pub servers: Vec<Server>,
}

impl Config {
    /// A configuration with no servers.
    pub fn new() -> (c: Config)
        ensures
            c.servers@ == Seq::<Server>::empty(),
    {
        Config { servers: Vec::new() }
    }
}

/// The load balancing algorithms.
#[derive(Clone, Copy, Debug, PartialEq, Eq, Structural)]
pub enum Algo {
    CheckSessions,
    RoundRobin,
    LeastConnections,
    WeightedRoundRobin,
    CpUtilise,
}

/// The pool of backend servers with what the balancing algorithms keep
/// between calls.
pub struct ServerPool {
    /// Sticky sessions: which server each client was sent to.
    pub sessions: SessionTable,
    /// Each server with its state.
    pub servers: Vec<(Server, ServerInfo)>,
    current: usize,
    /// The index weighted round robin chose last, or -1.
    pub previous: i16,
    current_weight: u16,
    max: u16,
    gcd: u16,
    pub algo: Algo,
}

/// The abstract state of a pool.
#[verifier::ext_equal]
pub struct PoolView {
    pub sessions: Map<Address, Address>,
    pub servers: Seq<(Server, ServerInfo)>,
    /// Where round robin looks first.
    pub current: int,
    pub previous: int,
    /// Weighted round robin's current weight.
    pub current_weight: u16,
    /// The largest weight, or the sum of weights added with `add`.
    pub max: u16,
    /// The greatest common divisor of the weights.
    pub gcd: u16,
    pub algo: Algo,
}

impl View for ServerPool {
    type V = PoolView;

    closed spec fn view(&self) -> PoolView {
        PoolView {
            sessions: self.sessions@,
            servers: self.servers@,
            current: self.current as int,
            previous: self.previous as int,
            current_weight: self.current_weight,
            max: self.max,
            gcd: self.gcd,
            algo: self.algo,
        }
    }
}

/// The invariant of a pool's abstract state: round robin's position is a
/// server (or 0 when there is none), and weighted round robin's last choice
/// is a server or -1.
pub open spec fn pool_wf(p: PoolView) -> bool {
    &&& (p.servers.len() == 0 ==> p.current == 0)
    &&& (p.servers.len() > 0 ==> 0 <= p.current < p.servers.len())
    &&& (p.previous == -1 || 0 <= p.previous < p.servers.len())
}

// ---------------------------------------------------------------- round robin

/// The server `d` places after round robin's position, cyclically.
pub open spec fn rr_at(p: PoolView, d: int) -> int {
    if p.current + d < p.servers.len() {
        p.current + d
    } else {
        p.current + d - p.servers.len()
    }
}

/// How many places after round robin's position the first live server is
/// (from `d` on); the number of servers when there is none.
pub open spec fn rr_offset(p: PoolView, d: nat) -> nat
    decreases p.servers.len() - d,
{
    if d >= p.servers.len() {
        p.servers.len()
    } else if p.servers[rr_at(p, d as int)].1.alive {
        d
    } else {
        rr_offset(p, d + 1)
    }
}

/// Round robin's choice: the first live server at or after its position.
pub open spec fn rr_choice(p: PoolView) -> int {
    rr_at(p, rr_offset(p, 0) as int)
}

/// Some server is alive.
pub open spec fn some_alive(p: PoolView) -> bool {
    exists|i: int| 0 <= i < p.servers.len() && #[trigger] p.servers[i].1.alive
}

pub(crate) proof fn lemma_rr_offset(p: PoolView, d: nat)
    requires
        pool_wf(p),
        p.servers.len() > 0,
        d <= p.servers.len(),
    ensures
        d <= rr_offset(p, d) <= p.servers.len(),
        rr_offset(p, d) < p.servers.len() ==> p.servers[rr_at(p, rr_offset(p, d) as int)].1.alive,
        forall|e: int| d <= e < rr_offset(p, d) ==> !(#[trigger] p.servers[rr_at(p, e)].1.alive),
    decreases p.servers.len() - d,
{
    if d < p.servers.len() && !p.servers[rr_at(p, d as int)].1.alive {
        lemma_rr_offset(p, d + 1);
    }
}

/// When some server is alive, round robin finds one.
pub(crate) proof fn lemma_rr_finds(p: PoolView)
    requires
        pool_wf(p),
        p.servers.len() > 0,
        some_alive(p),
    ensures
        rr_offset(p, 0) < p.servers.len(),
        0 <= rr_choice(p) < p.servers.len(),
        p.servers[rr_choice(p)].1.alive,
{
    lemma_rr_offset(p, 0);
    let n = p.servers.len() as int;
    let k = choose|i: int| 0 <= i < n && #[trigger] p.servers[i].1.alive;
    let e = if k >= p.current { k - p.current } else { k - p.current + n };
    assert(rr_at(p, e) == k);
    if rr_offset(p, 0) == n {
        assert(!p.servers[rr_at(p, e)].1.alive);
    }
}


// ---------------------------------------------------------- least connections

/// A server that least connections may choose: a live one.
pub open spec fn lc_candidate(p: PoolView, k: int) -> bool {
    &&& 0 <= k < p.servers.len()
    &&& p.servers[k].1.alive
}

/// `c` is the first of the candidates with the fewest connections.
pub open spec fn lc_is_choice(p: PoolView, c: int) -> bool {
    &&& lc_candidate(p, c)
    &&& forall|k: int| #[trigger] lc_candidate(p, k) ==> p.servers[c].1.connections <= p.servers[k].1.connections
    &&& forall|k: int| 0 <= k < c && #[trigger] lc_candidate(p, k) ==> p.servers[k].1.connections > p.servers[c].1.connections
}

/// Least connections' choice: the first live server with the fewest
/// connections, or the first server when none is alive.
pub open spec fn lc_choice(p: PoolView) -> int {
    if exists|c: int| lc_is_choice(p, c) {
        choose|c: int| lc_is_choice(p, c)
    } else {
        0
    }
}

// -------------------------------------------------------------- cpu utilise

/// A server that cpu utilise may choose: a live one.
pub open spec fn cpu_candidate(p: PoolView, k: int) -> bool {
    &&& 0 <= k < p.servers.len()
    &&& p.servers[k].1.alive
}

/// `c` is the first of the candidates with the most free cores.
pub open spec fn cpu_is_choice(p: PoolView, c: int) -> bool {
    &&& cpu_candidate(p, c)
    &&& forall|k: int| #[trigger] cpu_candidate(p, k) ==> p.servers[k].1.cores <= p.servers[c].1.cores
    &&& forall|k: int| 0 <= k < c && #[trigger] cpu_candidate(p, k) ==> p.servers[k].1.cores < p.servers[c].1.cores
}

/// Cpu utilise's choice: the first live server with the most free cores, or
/// the first server when none is alive.
pub open spec fn cpu_choice(p: PoolView) -> int {
    if exists|c: int| cpu_is_choice(p, c) {
        choose|c: int| cpu_is_choice(p, c)
    } else {
        0
    }
}

// ---------------------------------------------------- weighted round robin

/// The divisor weighted round robin steps its index by: the number of servers
/// as an `i16`.
pub open spec fn wrr_modulus(p: PoolView) -> int {
    (p.servers.len() as i16) as int
}

/// The current weight after stepping to index `j`: on wrapping to 0 it drops by
/// the gcd, and goes back to the maximum once it would no longer be positive.
pub open spec fn wrr_next_weight(p: PoolView, j: int, cw: u16) -> u16 {
    if j == 0 {
        if cw <= p.gcd {
            p.max
        } else {
            (cw - p.gcd) as u16
        }
    } else {
        cw
    }
}

/// Weighted round robin takes server `j` at current weight `c`: it is alive
/// and its weight reaches `c`.
pub open spec fn wrr_takes(p: PoolView, j: int, c: u16) -> bool {
    &&& p.servers[j].1.alive
    &&& p.servers[j].0.weight >= c
}

/// Weighted round robin from index `i` and current weight `cw`: the index it
/// settles on within `fuel` steps with the current weight it has then, or
/// `None` when it does not settle, when its `i16` index would overflow, or when
/// there is no server.
pub open spec fn wrr_search(p: PoolView, i: int, cw: u16, fuel: nat) -> Option<(int, u16)>
    decreases fuel,
{
    let m = wrr_modulus(p);
    if fuel == 0 || m == 0 || i + 1 > i16::MAX {
        None
    } else {
        let j = (i + 1) % m;
        let c = wrr_next_weight(p, j, cw);
        if wrr_takes(p, j, c) {
            Some((j, c))
        } else {
            wrr_search(p, j, c, (fuel - 1) as nat)
        }
    }
}

/// How many steps weighted round robin is given: past this many its state
/// (an index and a `u16` weight) has repeated, so it never settles.
pub open spec fn wrr_bound(p: PoolView) -> nat {
    p.servers.len() * 65536 + 1
}

/// Weighted round robin's choice, with its new current weight: it starts after
/// the index it chose last, at the current weight it left.
pub open spec fn wrr_choice(p: PoolView) -> Option<(int, u16)> {
    wrr_search(p, p.previous, p.current_weight, wrr_bound(p))
}

pub(crate) proof fn lemma_modulus(n: usize)
    ensures
        (n as i16) > 0 ==> (n as i16) as usize <= n,
        (n as i16) < 0 ==> n >= 32768,
{
    assert((n as i16) > 0 ==> (n as i16) as usize <= n) by (bit_vector);
    assert((n as i16) < 0 ==> n >= 32768) by (bit_vector);
}

// ------------------------------------------------------------- get_next

/// Whether `get_next` returns on this pool: round robin needs a live server,
/// least connections must not overflow the chosen server's count, weighted
/// round robin must settle, and `CheckSessions` is no algorithm for it.
pub open spec fn get_next_defined(p: PoolView) -> bool {
    match p.algo {
        Algo::RoundRobin => p.servers.len() > 0 && some_alive(p),
        Algo::LeastConnections => p.servers.len() > 0 && p.servers[lc_choice(p)].1.connections < u16::MAX,
        Algo::CpUtilise => p.servers.len() > 0,
        Algo::WeightedRoundRobin => wrr_choice(p) is Some,
        Algo::CheckSessions => false,
    }
}

/// The index of the server that `get_next` returns.
pub open spec fn next_choice(p: PoolView) -> int {
    match p.algo {
        Algo::RoundRobin => rr_choice(p),
        Algo::LeastConnections => lc_choice(p),
        Algo::CpUtilise => cpu_choice(p),
        Algo::WeightedRoundRobin => (wrr_choice(p)->0).0,
        Algo::CheckSessions => 0,
    }
}

/// The pool after `get_next`: round robin moves past its choice, least
/// connections counts one more connection on its choice, weighted round robin
/// remembers its choice, cpu utilise changes nothing.
pub open spec fn after_next(p: PoolView) -> PoolView {
    match p.algo {
        Algo::RoundRobin => PoolView {
            current: if rr_choice(p) + 1 == p.servers.len() { 0 } else { rr_choice(p) + 1 },
            ..p
        },
        Algo::LeastConnections => {
            let c = lc_choice(p);
            let info = p.servers[c].1;
            PoolView {
                servers: p.servers.update(
                    c,
                    (p.servers[c].0, ServerInfo { connections: (info.connections + 1) as u16, ..info }),
                ),
                ..p
            }
        },
        Algo::WeightedRoundRobin => PoolView {
            previous: (wrr_choice(p)->0).0,
            current_weight: (wrr_choice(p)->0).1,
            ..p
        },
        _ => p,
    }
}

// ------------------------------------------------------------ sessions

/// The server address a client is stuck to, as looking it up gives it back:
/// read back from its text.
pub open spec fn found_session(p: PoolView, client: Address) -> Option<Address> {
    if p.sessions.contains_key(client) {
        Some(reparsed(p.sessions[client]))
    } else {
        None
    }
}

/// The server address a client is stuck to, if any.
pub open spec fn session_of(p: PoolView, client: Address) -> Option<Address> {
    if p.sessions.contains_key(client) {
        Some(p.sessions[client])
    } else {
        None
    }
}

/// The pool with `client` stuck to `server`.
pub open spec fn connected(p: PoolView, client: Address, server: Address) -> PoolView {
    PoolView { sessions: p.sessions.insert(client, server), ..p }
}

/// The pool with `client` unstuck.
pub open spec fn disconnected(p: PoolView, client: Address) -> PoolView {
    PoolView { sessions: p.sessions.remove(client), ..p }
}

/// `i` is the first server whose QUIC address is `addr`.
pub open spec fn is_first_with_quic(p: PoolView, addr: Address, i: int) -> bool {
    &&& 0 <= i < p.servers.len()
    &&& p.servers[i].0.quic == addr
    &&& forall|j: int| 0 <= j < i ==> #[trigger] p.servers[j].0.quic != addr
}

/// The first server whose QUIC address is `addr`, if any.
pub open spec fn first_with_quic(p: PoolView, addr: Address) -> Option<int> {
    if exists|i: int| is_first_with_quic(p, addr, i) {
        Some(choose|i: int| is_first_with_quic(p, addr, i))
    } else {
        None
    }
}

/// What `check_sessions` does: a client stuck to a live server is sent to it
/// again; a client stuck to a dead server is unstuck; otherwise nothing.
pub open spec fn check_sessions_result(p: PoolView, client: Address) -> (PoolView, Option<int>) {
    if !p.sessions.contains_key(client) {
        (p, None)
    } else {
        match first_with_quic(p, reparsed(p.sessions[client])) {
            Some(i) => if p.servers[i].1.alive {
                (p, Some(i))
            } else {
                (PoolView { sessions: p.sessions.remove(client), ..p }, None)
            },
            None => (p, None),
        }
    }
}

/// The pool after a sticky route to server `i`: under least connections the
/// server counts one more connection, as a route by the algorithm does.
pub open spec fn counted(p: PoolView, i: int) -> PoolView {
    if p.algo == Algo::LeastConnections {
        let info = p.servers[i].1;
        PoolView {
            servers: p.servers.update(i, (p.servers[i].0, ServerInfo { connections: (info.connections + 1) as u16, ..info })),
            ..p
        }
    } else {
        p
    }
}

/// What routing a new connection does. Without sticky sessions: the
/// algorithm's choice, with the session table untouched. With them: the live
/// server the client is stuck to, if any (counted as a connection under least
/// connections); otherwise the algorithm's choice, to which the client is then
/// stuck.
pub open spec fn route_result(p: PoolView, client: Address, sticky: bool) -> (PoolView, int) {
    if !sticky {
        (after_next(p), next_choice(p))
    } else {
        let (p1, found) = check_sessions_result(p, client);
        match found {
            Some(i) => (counted(p1, i), i),
            None => {
                let c = next_choice(p1);
                let p2 = after_next(p1);
                (PoolView { sessions: p2.sessions.insert(client, p1.servers[c].0.quic), ..p2 }, c)
            },
        }
    }
}

/// Whether routing a new connection returns: the algorithm can choose where it
/// is asked to, and a sticky route under least connections does not overflow
/// the server's count.
pub open spec fn route_defined(p: PoolView, client: Address, sticky: bool) -> bool {
    if !sticky {
        get_next_defined(p)
    } else {
        match check_sessions_result(p, client).1 {
            Some(i) => p.algo == Algo::LeastConnections ==> p.servers[i].1.connections < u16::MAX,
            None => get_next_defined(check_sessions_result(p, client).0),
        }
    }
}

/// The servers after one connection to `addr` is closed: each server with that
/// QUIC address counts one connection less.
pub open spec fn decremented(p: PoolView, addr: Address) -> Seq<(Server, ServerInfo)> {
    Seq::new(
        p.servers.len(),
        |i: int|
            if p.servers[i].0.quic == addr {
                (p.servers[i].0, ServerInfo { connections: (p.servers[i].1.connections - 1) as u16, ..p.servers[i].1 })
            } else {
                p.servers[i]
            },
    )
}

/// Every server with QUIC address `addr` has a connection to close.
pub open spec fn can_decrement(p: PoolView, addr: Address) -> bool {
    forall|i: int| 0 <= i < p.servers.len() && #[trigger] p.servers[i].0.quic == addr ==> p.servers[i].1.connections > 0
}

// -------------------------------------------------------------- health

/// A server state updated by a heartbeat: a reply means alive with the
/// reported cores, no reply means dead.
pub open spec fn heartbeat_info(info: ServerInfo, reply: Option<HealthInfo>) -> ServerInfo {
    match reply {
        Some(h) => ServerInfo { alive: true, cores: h.cores, ..info },
        None => ServerInfo { alive: false, ..info },
    }
}

/// A server state after a health check: a server that was and stays alive
/// keeps its state; any other gets a fresh state updated by the heartbeat.
pub open spec fn checked_info(info: ServerInfo, reply: Option<HealthInfo>) -> ServerInfo {
    let fresh = heartbeat_info(fresh_info(), reply);
    if info.alive && fresh.alive {
        info
    } else {
        fresh
    }
}

// ----------------------------------------------------------- construction

/// The largest weight of the servers (0 for none).
pub open spec fn max_weight(s: Seq<Server>) -> u16
    decreases s.len(),
{
    if s.len() == 0 {
        0
    } else if max_weight(s.drop_last()) < s.last().weight {
        s.last().weight
    } else {
        max_weight(s.drop_last())
    }
}

/// The greatest common divisor of the servers' weights (0 for none).
pub open spec fn gcd_weights(s: Seq<Server>) -> nat
    decreases s.len(),
{
    if s.len() == 0 {
        0
    } else if s.len() == 1 {
        s[0].weight as nat
    } else {
        spec_gcd(gcd_weights(s.drop_last()), s.last().weight as nat)
    }
}

impl ServerPool {
    /// The pool's invariant.
    pub closed spec fn wf(&self) -> bool {
        &&& self.sessions.wf()
        &&& pool_wf(self@)
    }

    /// A pool that keeps its invariant has an abstract state that keeps
    /// `pool_wf`, so the laws apply to it.
    pub proof fn lemma_view_wf(&self)
        requires
            self.wf(),
        ensures
            pool_wf(self@),
    {
    }

    /// An empty pool that balances by round robin.
    pub fn new() -> (pool: ServerPool)
        ensures
            pool.wf(),
            pool@ == (PoolView {
                sessions: Map::empty(),
                servers: Seq::empty(),
                current: 0,
                previous: -1,
                current_weight: 0,
                max: 0,
                gcd: 0,
                algo: Algo::RoundRobin,
            }),
    {
        ServerPool {
            sessions: SessionTable::new(),
            servers: Vec::new(),
            current: 0,
            previous: -1,
            current_weight: 0,
            max: 0,
            gcd: 0,
            algo: Algo::RoundRobin,
        }
    }


    /// Least connections' index (no state changes).
    fn least_connections(&self) -> (idx: usize)
        requires
            self.wf(),
            self.servers.len() > 0,
        ensures
            idx == lc_choice(self@),
            idx < self.servers.len(),
            (exists|k: int| lc_candidate(self@, k)) ==> lc_is_choice(self@, idx as int),
    {
        let ghost p = self@;
        let n = self.servers.len();
        let mut place: usize = 0;
        let mut least: u16 = 0;
        let mut found = false;
        let mut i: usize = 0;
        while i < n
            invariant
                n == self.servers.len(),
                self@ == p,
                i <= n,
                place < n,
                found <==> exists|k: int| 0 <= k < i && #[trigger] lc_candidate(p, k),
                found ==> {
                    &&& place < i
                    &&& lc_candidate(p, place as int)
                    &&& least == p.servers[place as int].1.connections
                    &&& forall|k: int| 0 <= k < i && #[trigger] lc_candidate(p, k) ==> least <= p.servers[k].1.connections
                    &&& forall|k: int| 0 <= k < place && #[trigger] lc_candidate(p, k) ==> p.servers[k].1.connections > least
                },
                !found ==> place == 0,
            decreases n - i,
        {
            let info = self.servers[i].1;
            if info.alive && (!found || info.connections < least) {
                place = i;
                least = info.connections;
                found = true;
            }
            proof {
                if lc_candidate(p, i as int) {
                    assert(found);
                }
            }
            i = i + 1;
        }
        proof {
            if found {
                assert(lc_is_choice(p, place as int));
                let c = choose|c: int| lc_is_choice(p, c);
                if c < place {
                    assert(lc_candidate(p, c));
                } else if c > place {
                    assert(lc_candidate(p, place as int));
                }
            } else {
                assert forall|c: int| !lc_is_choice(p, c) by {
                    if lc_is_choice(p, c) {
                        assert(lc_candidate(p, c));
                    }
                }
            }
        }
        place
    }

    /// Cpu utilise's index (no state changes).
    fn cpu_utilise(&self) -> (idx: usize)
        requires
            self.wf(),
            self.servers.len() > 0,
        ensures
            idx == cpu_choice(self@),
            idx < self.servers.len(),
            (exists|k: int| cpu_candidate(self@, k)) ==> cpu_is_choice(self@, idx as int),
    {
        let ghost p = self@;
        let n = self.servers.len();
        let mut place: usize = 0;
        let mut available: u8 = 0;
        let mut found = false;
        let mut i: usize = 0;
        while i < n
            invariant
                n == self.servers.len(),
                self@ == p,
                i <= n,
                place < n,
                found <==> exists|k: int| 0 <= k < i && #[trigger] cpu_candidate(p, k),
                found ==> {
                    &&& place < i
                    &&& cpu_candidate(p, place as int)
                    &&& available == p.servers[place as int].1.cores
                    &&& forall|k: int| 0 <= k < i && #[trigger] cpu_candidate(p, k) ==> p.servers[k].1.cores <= available
                    &&& forall|k: int| 0 <= k < place && #[trigger] cpu_candidate(p, k) ==> p.servers[k].1.cores < available
                },
                !found ==> place == 0,
            decreases n - i,
        {
            let info = self.servers[i].1;
            if info.alive && (!found || info.cores > available) {
                place = i;
                available = info.cores;
                found = true;
            }
            proof {
                if cpu_candidate(p, i as int) {
                    assert(found);
                }
            }
            i = i + 1;
        }
        proof {
            if found {
                assert(cpu_is_choice(p, place as int));
                let c = choose|c: int| cpu_is_choice(p, c);
                if c < place {
                    assert(cpu_candidate(p, c));
                } else if c > place {
                    assert(cpu_candidate(p, place as int));
                }
            } else {
                assert forall|c: int| !cpu_is_choice(p, c) by {
                    if cpu_is_choice(p, c) {
                        assert(cpu_candidate(p, c));
                    }
                }
            }
        }
        place
    }

    /// Weighted round robin's index, or `None` where it would overflow or
    /// never settle (no state changes).
    fn weighted_round_robin(&self) -> (r: Option<(usize, u16)>)
        requires
            self.wf(),
        ensures
            r is Some <==> wrr_choice(self@) is Some,
            r matches Some((j, c)) ==> {
                &&& wrr_choice(self@) == Some((j as int, c))
                &&& j < self.servers.len()
                &&& j <= i16::MAX
                &&& wrr_takes(self@, j as int, c)
            },
    {
        let ghost p = self@;
        let n = self.servers.len();
        let m: i16 = n as i16;
        proof { lemma_modulus(n); }
        if m == 0 {
            return None;
        }
        let g: u16 = self.gcd;
        let top: u16 = self.max;
        let mut i: i16 = self.previous;
        let mut cw: u16 = self.current_weight;
        let mut fuel: u128 = (n as u128) * 65536 + 1;
        while fuel > 0
            invariant
                n == self.servers.len(),
                self@ == p,
                m == (n as i16),
                m != 0,
                (m > 0 ==> m as usize <= n),
                (m < 0 ==> n >= 32768),
                g == p.gcd,
                top == p.max,
                -1 <= i < n,
                wrr_search(p, i as int, cw, fuel as nat) == wrr_choice(p),
            decreases fuel,
        {
            if i == i16::MAX {
                return None;
            }
            let j: i16 = (i + 1) % m;
            if j == 0 {
                cw = if cw <= g { top } else { cw - g };
            }
            let (server, info) = self.servers[j as usize];
            if info.alive && server.weight >= cw {
                return Some((j as usize, cw));
            }
            i = j;
            fuel = fuel - 1;
        }
        None
    }

    /// Round robin: the first live server at or after the current position;
    /// the position moves to the server after it.
    fn round_robin(&mut self) -> (idx: usize)
        requires
            old(self).wf(),
            old(self).servers.len() > 0,
            some_alive(old(self)@),
        ensures
            final(self).wf(),
            idx == rr_choice(old(self)@),
            final(self)@ == (PoolView {
                current: if idx + 1 == old(self).servers.len() { 0 } else { idx + 1 },
                ..old(self)@
            }),
    {
        let ghost p = self@;
        proof { lemma_rr_offset(p, 0); lemma_rr_finds(p); }
        let n = self.servers.len();
        let mut i = self.current;
        let ghost mut d: nat = 0;
        while !self.servers[i].1.alive
            invariant
                n == self.servers.len(),
                self@ == p,
                pool_wf(p),
                n > 0,
                d <= rr_offset(p, 0) < n,
                p.servers[rr_at(p, rr_offset(p, 0) as int)].1.alive,
                forall|e: int| 0 <= e < rr_offset(p, 0) ==> !(#[trigger] p.servers[rr_at(p, e)].1.alive),
                i == rr_at(p, d as int),
                0 <= i < n,
            decreases rr_offset(p, 0) - d,
        {
            i = if i + 1 == n { 0 } else { i + 1 };
            proof { d = d + 1; }
        }
        proof {
            if d < rr_offset(p, 0) {
                assert(!p.servers[rr_at(p, d as int)].1.alive);
            }
        }
        self.current = if i + 1 == n { 0 } else { i + 1 };
        i
    }
}

impl ServerPool {
    /// Whether `get_next` returns on this pool (see `get_next_defined`).
    pub fn can_get_next(&self) -> (b: bool)
        requires
            self.wf(),
        ensures
            b == get_next_defined(self@),
    {
        let n = self.servers.len();
        match self.algo {
            Algo::RoundRobin => {
                let mut i: usize = 0;
                while i < n
                    invariant
                        n == self.servers.len(),
                        self.algo == Algo::RoundRobin,
                        i <= n,
                        forall|k: int| 0 <= k < i ==> !(#[trigger] self@.servers[k].1.alive),
                    decreases n - i,
                {
                    if self.servers[i].1.alive {
                        assert(self@.servers[i as int].1.alive);
                        return true;
                    }
                    i = i + 1;
                }
                false
            },
            Algo::LeastConnections => {
                if n == 0 {
                    return false;
                }
                let c = self.least_connections();
                self.servers[c].1.connections < u16::MAX
            },
            Algo::CpUtilise => n > 0,
            Algo::WeightedRoundRobin => self.weighted_round_robin().is_some(),
            Algo::CheckSessions => false,
        }
    }

    /// The next server by the pool's algorithm (see `next_choice` and
    /// `after_next`).
    pub fn get_next(pool: &mut ServerPool) -> (s: Server)
        requires
            old(pool).wf(),
            get_next_defined(old(pool)@),
        ensures
            final(pool).wf(),
            0 <= next_choice(old(pool)@) < old(pool)@.servers.len(),
            s == old(pool)@.servers[next_choice(old(pool)@)].0,
            final(pool)@ == after_next(old(pool)@),
            old(pool)@.algo == Algo::RoundRobin ==> old(pool)@.servers[next_choice(old(pool)@)].1.alive,
            old(pool)@.algo == Algo::WeightedRoundRobin ==> old(pool)@.servers[next_choice(old(pool)@)].1.alive,
            old(pool)@.algo == Algo::LeastConnections && (exists|k: int| lc_candidate(old(pool)@, k))
                ==> lc_is_choice(old(pool)@, next_choice(old(pool)@)),
            old(pool)@.algo == Algo::CpUtilise && (exists|k: int| cpu_candidate(old(pool)@, k))
                ==> cpu_is_choice(old(pool)@, next_choice(old(pool)@)),
    {
        match pool.algo {
            Algo::RoundRobin => {
                proof { lemma_rr_finds(pool@); }
                let i = pool.round_robin();
                pool.servers[i].0
            },
            Algo::LeastConnections => {
                let c = pool.least_connections();
                let (server, info) = pool.servers[c];
                pool.servers.set(c, (server, ServerInfo { connections: info.connections + 1, ..info }));
                server
            },
            Algo::CpUtilise => {
                let c = pool.cpu_utilise();
                pool.servers[c].0
            },
            Algo::WeightedRoundRobin => {
                let r = pool.weighted_round_robin();
                let (j, c) = r.unwrap();
                pool.previous = j as i16;
                pool.current_weight = c;
                pool.servers[j].0
            },
            Algo::CheckSessions => {
                proof { assert(false); }
                pool.servers[0].0
            },
        }
    }

    /// The first server whose QUIC address is `addr`, if any.
    fn first_with_quic(&self, addr: Address) -> (r: Option<usize>)
        requires
            self.wf(),
        ensures
            r == (match first_with_quic(self@, addr) {
                Some(i) => Some(i as usize),
                None => None::<usize>,
            }),
            r matches Some(i) ==> i < self.servers.len(),
    {
        let ghost p = self@;
        let n = self.servers.len();
        let mut i: usize = 0;
        while i < n
            invariant
                n == self.servers.len(),
                self@ == p,
                i <= n,
                forall|j: int| 0 <= j < i ==> #[trigger] p.servers[j].0.quic != addr,
            decreases n - i,
        {
            if self.servers[i].0.quic == addr {
                proof {
                    assert(is_first_with_quic(p, addr, i as int));
                    let c = choose|c: int| is_first_with_quic(p, addr, c);
                    if c < i {
                        assert(p.servers[c].0.quic == addr);
                    } else if c > i {
                        assert(p.servers[i as int].0.quic == addr);
                    }
                }
                return Some(i);
            }
            i = i + 1;
        }
        proof {
            assert forall|c: int| !is_first_with_quic(p, addr, c) by {
                if is_first_with_quic(p, addr, c) {
                    assert(p.servers[c].0.quic == addr);
                }
            }
        }
        None
    }

    /// The index of the live server a client is stuck to, if any; a client
    /// stuck to a dead server is unstuck.
    fn sticky_index(&mut self, client: Address) -> (r: Option<usize>)
        requires
            old(self).wf(),
        ensures
            final(self).wf(),
            final(self)@ == check_sessions_result(old(self)@, client).0,
            r is None <==> check_sessions_result(old(self)@, client).1 is None,
            r matches Some(i) ==> check_sessions_result(old(self)@, client).1 == Some(i as int),
            r matches Some(i) ==> i < old(self)@.servers.len(),
    {
        proof {
            crate::backend::laws::law_check_sessions_live(self@, client);
        }
        match self.find_client_server(client) {
            Some(addr) => match self.first_with_quic(addr) {
                Some(i) => {
                    if self.servers[i].1.alive {
                        Some(i)
                    } else {
                        self.client_disconnect(client);
                        None
                    }
                },
                None => None,
            },
            None => None,
        }
    }

    /// The server a client was stuck to, if any.
    pub fn find_client_server(&self, client: Address) -> (r: Option<Address>)
        requires
            self.wf(),
        ensures
            r == found_session(self@, client),
    {
        match self.sessions.get(&client) {
            Some(addr) => Some(addr.reparse()),
            None => None,
        }
    }

    /// Sticks a client to a server.
    pub fn client_connect(&mut self, client: Address, server: Address)
        requires
            old(self).wf(),
        ensures
            final(self).wf(),
            final(self)@ == connected(old(self)@, client, server),
    {
        self.sessions.insert(client, server);
    }

    /// Unsticks a client.
    pub fn client_disconnect(&mut self, client: Address)
        requires
            old(self).wf(),
        ensures
            final(self).wf(),
            final(self)@ == disconnected(old(self)@, client),
    {
        self.sessions.remove(&client);
    }
}

impl Algo {
    /// The live server a client is stuck to, if any; a client stuck to a dead
    /// server is unstuck.
    pub fn check_sessions(pool: &mut ServerPool, client: Address) -> (r: Option<Server>)
        requires
            old(pool).wf(),
        ensures
            final(pool).wf(),
            final(pool)@ == check_sessions_result(old(pool)@, client).0,
            r == (match check_sessions_result(old(pool)@, client).1 {
                Some(i) => Some(old(pool)@.servers[i].0),
                None => None::<Server>,
            }),
    {
        proof {
            crate::backend::laws::law_check_sessions_live(pool@, client);
        }
        match pool.sticky_index(client) {
            Some(i) => Some(pool.servers[i].0),
            None => None,
        }
    }

    /// Closes one connection to `server_addr`: each server with that QUIC
    /// address counts one connection less.
    pub fn decrement_connections(pool: &mut ServerPool, server_addr: Address)
        requires
            old(pool).wf(),
            can_decrement(old(pool)@, server_addr),
        ensures
            final(pool).wf(),
            final(pool)@ == (PoolView { servers: decremented(old(pool)@, server_addr), ..old(pool)@ }),
    {
        let ghost p = pool@;
        let n = pool.servers.len();
        let mut i: usize = 0;
        while i < n
            invariant
                n == pool.servers.len(),
                n == p.servers.len(),
                i <= n,
                pool.wf(),
                pool@ == (PoolView { servers: pool@.servers, ..p }),
                can_decrement(p, server_addr),
                forall|k: int| 0 <= k < i ==> #[trigger] pool@.servers[k] == decremented(p, server_addr)[k],
                forall|k: int| i <= k < n ==> #[trigger] pool@.servers[k] == p.servers[k],
            decreases n - i,
        {
            let (server, info) = pool.servers[i];
            if server.quic == server_addr {
                assert(p.servers[i as int].0.quic == server_addr);
                pool.servers.set(i, (server, ServerInfo { connections: info.connections - 1, ..info }));
            }
            i = i + 1;
        }
        assert(pool@.servers =~= decremented(p, server_addr));
    }
}

/// The servers of a configuration, each with a fresh state.
pub open spec fn fresh_servers(s: Seq<Server>) -> Seq<(Server, ServerInfo)> {
    Seq::new(s.len(), |i: int| (s[i], fresh_info()))
}

impl ServerPool {
    /// A pool of the configured servers, balanced by `algo`: the maximum is
    /// the largest weight and the gcd that of all weights.
    pub fn from_config(config: Config, algo: Algo) -> (pool: ServerPool)
        requires
            config.servers.len() > 0,
        ensures
            pool.wf(),
            pool@ == (PoolView {
                sessions: Map::empty(),
                servers: fresh_servers(config.servers@),
                current: 0,
                previous: -1,
                current_weight: 0,
                max: max_weight(config.servers@),
                gcd: gcd_weights(config.servers@) as u16,
                algo,
            }),
            pool@.gcd == gcd_weights(config.servers@),
    {
        let servers = config.servers;
        let n = servers.len();
        let mut list: Vec<(Server, ServerInfo)> = Vec::new();
        let mut max: u16 = 0;
        let mut gcd: u16 = servers[0].weight;
        let mut i: usize = 0;
        while i < n
            invariant
                n == servers.len(),
                n > 0,
                i <= n,
                list@ == fresh_servers(servers@.take(i as int)),
                max == max_weight(servers@.take(i as int)),
                i == 0 ==> gcd == servers@[0].weight,
                i > 0 ==> gcd == gcd_weights(servers@.take(i as int)),
            decreases n - i,
        {
            let server = servers[i];
            assert(servers@.take(i + 1).drop_last() =~= servers@.take(i as int));
            if max < server.weight {
                max = server.weight;
            }
            if i > 0 {
                gcd = gcd_u16(gcd, server.weight);
            }
            list.push((server, ServerInfo::new()));
            assert(list@ =~= fresh_servers(servers@.take(i + 1)));
            i = i + 1;
        }
        assert(servers@.take(n as int) =~= servers@);
        ServerPool {
            sessions: SessionTable::new(),
            servers: list,
            current: 0,
            previous: -1,
            current_weight: 0,
            max,
            gcd,
            algo,
        }
    }

    /// Adds a server with a fresh state: the gcd takes in its weight and its
    /// weight is added to the maximum.
    pub fn add(&mut self, server: Server)
        requires
            old(self).wf(),
            old(self)@.max + server.weight <= u16::MAX,
        ensures
            final(self).wf(),
            final(self)@ == (PoolView {
                servers: old(self)@.servers.push((server, fresh_info())),
                gcd: spec_gcd(old(self)@.gcd as nat, server.weight as nat) as u16,
                max: (old(self)@.max + server.weight) as u16,
                ..old(self)@
            }),
            final(self)@.gcd == spec_gcd(old(self)@.gcd as nat, server.weight as nat),
    {
        let server_weight = server.weight;
        self.gcd = gcd_u16(self.gcd, server_weight);
        self.max = self.max + server_weight;
        self.servers.push((server, ServerInfo::new()));
    }

    /// Updates a server state with the outcome of its heartbeat: a reply
    /// (`Some`) makes it alive with the reported cores, none makes it dead.
    pub fn update_server_info(info: &mut ServerInfo, reply: Option<HealthInfo>)
        ensures
            *final(info) == heartbeat_info(*old(info), reply),
    {
        match reply {
            Some(data) => {
                info.alive = true;
                info.cores = data.cores;
            },
            None => {
                info.alive = false;
            },
        }
    }

    /// Records one round of health checks, `replies[i]` being the heartbeat
    /// outcome of server `i`: a server that was and stays alive keeps its
    /// state, any other gets a fresh state updated by its heartbeat.
    pub fn check_health(&mut self, replies: &Vec<Option<HealthInfo>>)
        requires
            old(self).wf(),
            replies.len() == old(self)@.servers.len(),
        ensures
            final(self).wf(),
            final(self)@ == (PoolView {
                servers: Seq::new(
                    old(self)@.servers.len(),
                    |i: int| (old(self)@.servers[i].0, checked_info(old(self)@.servers[i].1, replies@[i])),
                ),
                ..old(self)@
            }),
    {
        let ghost p = self@;
        let n = self.servers.len();
        let mut i: usize = 0;
        while i < n
            invariant
                n == self.servers.len(),
                n == p.servers.len(),
                n == replies.len(),
                i <= n,
                self.wf(),
                self@ == (PoolView { servers: self@.servers, ..p }),
                forall|k: int| 0 <= k < i ==> #[trigger] self@.servers[k] == (p.servers[k].0, checked_info(p.servers[k].1, replies@[k])),
                forall|k: int| i <= k < n ==> #[trigger] self@.servers[k] == p.servers[k],
            decreases n - i,
        {
            let (server, info) = self.servers[i];
            let status = info.alive;
            let mut temp = ServerInfo::new();
            ServerPool::update_server_info(&mut temp, replies[i]);
            if !(status && temp.alive) {
                self.servers.set(i, (server, temp));
            }
            i = i + 1;
        }
        assert(self@.servers =~= Seq::new(
            p.servers.len(),
            |i: int| (p.servers[i].0, checked_info(p.servers[i].1, replies@[i])),
        ));
    }

    /// Routes a new connection from `client` (see `route_result`): without
    /// sticky sessions to the algorithm's choice; with them to the live server
    /// the client is stuck to, if any, and otherwise to the algorithm's choice,
    /// to which it is then stuck.
    pub fn route_client(&mut self, client: Address, sticky: bool) -> (s: Server)
        requires
            old(self).wf(),
            route_defined(old(self)@, client, sticky),
        ensures
            final(self).wf(),
            final(self)@ == route_result(old(self)@, client, sticky).0,
            0 <= route_result(old(self)@, client, sticky).1 < old(self)@.servers.len(),
            s == old(self)@.servers[route_result(old(self)@, client, sticky).1].0,
    {
        if !sticky {
            return ServerPool::get_next(self);
        }
        let ghost p = self@;
        proof {
            crate::backend::laws::law_check_sessions_live(p, client);
        }
        match self.sticky_index(client) {
            Some(i) => {
                assert(check_sessions_result(p, client).1 == Some(i as int));
                assert(self@.servers == p.servers);
                let (server, info) = self.servers[i];
                if self.algo == Algo::LeastConnections {
                    self.servers.set(i, (server, ServerInfo { connections: info.connections + 1, ..info }));
                }
                server
            },
            None => {
                let s = ServerPool::get_next(self);
                self.client_connect(client, s.quic);
                s
            },
        }
    }

    /// Whether closing a connection to `server` may proceed: under least
    /// connections every server with that address must have a connection.
    pub open spec fn close_defined(p: PoolView, server: Address) -> bool {
        p.algo == Algo::LeastConnections ==> can_decrement(p, server)
    }

    /// Closes a connection to `server`: under least connections its count of
    /// connections drops by one, under the other algorithms nothing changes.
    pub fn connection_closed(&mut self, server: Address)
        requires
            old(self).wf(),
            ServerPool::close_defined(old(self)@, server),
        ensures
            final(self).wf(),
            final(self)@ == (if old(self)@.algo == Algo::LeastConnections {
                PoolView { servers: decremented(old(self)@, server), ..old(self)@ }
            } else {
                old(self)@
            }),
    {
        match self.algo {
            Algo::LeastConnections => Algo::decrement_connections(self, server),
            _ => {},
        }
    }
}

} // verus!
