use crate::address::{reparsed, Address};
use crate::backend::{
    after_next, check_sessions_result, heartbeat_info, lc_is_choice, cpu_is_choice, cpu_choice, counted, found_session, checked_info, connected, decremented, can_decrement,
    disconnected, first_with_quic, fresh_info, get_next_defined, is_first_with_quic, lc_choice,
    fresh_servers, gcd_weights, max_weight, next_choice, pool_wf, route_defined, route_result, rr_at, rr_choice, rr_offset,
    session_of, wrr_choice, wrr_modulus, wrr_search, wrr_takes, wrr_next_weight, wrr_bound, Algo, HealthInfo, PoolView,
    Server, ServerInfo,
};
use crate::outside::spec_gcd;
use vstd::arithmetic::div_mod::{lemma_fundamental_div_mod, lemma_mod_multiples_basic};
use vstd::prelude::*;

verus! {

/// After a client is stuck to a server, looking the client up gives that
/// server, and every other client's lookup is unchanged.
pub proof fn law_find_after_connect(p: PoolView, client: Address, server: Address, other: Address)
    ensures
        session_of(connected(p, client, server), client) == Some(server),
        other != client ==> session_of(connected(p, client, server), other) == session_of(p, other),
{
}

/// After a client is unstuck, looking it up gives nothing, and every other
/// client's lookup is unchanged.
pub proof fn law_find_after_disconnect(p: PoolView, client: Address, other: Address)
    ensures
        session_of(disconnected(p, client), client) == None::<Address>,
        other != client ==> session_of(disconnected(p, client), other) == session_of(p, other),
{
}

/// The sticky-session lookup only ever gives back a live server, one whose
/// QUIC address is the one the client is stuck to (as looking it up gives it
/// back); a client stuck to a dead server is unstuck.
pub proof fn law_check_sessions_live(p: PoolView, client: Address)
    ensures
        check_sessions_result(p, client).1 matches Some(i) ==> {
            &&& 0 <= i < p.servers.len()
            &&& p.servers[i].1.alive
            &&& found_session(p, client) == Some(p.servers[i].0.quic)
            &&& check_sessions_result(p, client).0 == p
        },
        check_sessions_result(p, client).1 is None ==> {
            ||| check_sessions_result(p, client).0 == p
            ||| check_sessions_result(p, client).0 == disconnected(p, client)
        },
        check_sessions_result(p, client).0.servers == p.servers,
        check_sessions_result(p, client).0.algo == p.algo,
{
    if p.sessions.contains_key(client) {
        let addr = reparsed(p.sessions[client]);
        if first_with_quic(p, addr) is Some {
            assert(is_first_with_quic(p, addr, first_with_quic(p, addr)->0));
        }
    }
}

/// Routing a connection with sticky sessions leaves the client stuck to the
/// server it was routed to: looking the client up gives that server's address.
pub proof fn law_route_sticks(p: PoolView, client: Address)
    requires
        pool_wf(p),
        route_defined(p, client, true),
    ensures
        found_session(route_result(p, client, true).0, client) == Some(
            reparsed(p.servers[route_result(p, client, true).1].0.quic),
        ),
{
    law_check_sessions_live(p, client);
}

/// Routing without sticky sessions leaves the session table as it was.
pub proof fn law_route_without_sticky(p: PoolView, client: Address)
    requires
        pool_wf(p),
        route_defined(p, client, false),
    ensures
        route_result(p, client, false).0.sessions == p.sessions,
        route_result(p, client, false).1 == next_choice(p),
        route_result(p, client, false).0 == after_next(p),
{
    lemma_next_keeps_servers(p);
}

/// A client routed once with sticky sessions is routed again, with nothing
/// changing but the count under least connections, to the first server with
/// the address it is stuck to, as long as that server is alive.
pub proof fn law_route_repeats(p: PoolView, client: Address)
    requires
        pool_wf(p),
        route_defined(p, client, true),
        ({
            let q = route_result(p, client, true).0;
            let a = reparsed(p.servers[route_result(p, client, true).1].0.quic);
            first_with_quic(q, a) matches Some(j) && q.servers[j].1.alive
        }),
    ensures
        ({
            let q = route_result(p, client, true).0;
            let a = reparsed(p.servers[route_result(p, client, true).1].0.quic);
            &&& route_result(q, client, true).1 == first_with_quic(q, a)->0
            &&& route_result(q, client, true).0 == counted(q, first_with_quic(q, a)->0)
            &&& q.servers[route_result(q, client, true).1].0.quic == a
        }),
{
    law_route_sticks(p, client);
    lemma_route_keeps_servers(p, client, true);
    let q = route_result(p, client, true).0;
    let a = reparsed(p.servers[route_result(p, client, true).1].0.quic);
    let j = first_with_quic(q, a)->0;
    assert(is_first_with_quic(q, a, j));
    assert(reparsed(reparsed(p.servers[route_result(p, client, true).1].0.quic)) == a);
}

/// Under least connections, routing a client and then closing its connection
/// leaves every server's count as it was, when no other server shares the
/// address of the server the client was routed to; with or without sticky
/// sessions.
pub proof fn law_route_close_restores(p: PoolView, client: Address, sticky: bool)
    requires
        pool_wf(p),
        p.algo == Algo::LeastConnections,
        route_defined(p, client, sticky),
        forall|k: int|
            0 <= k < p.servers.len() && k != route_result(p, client, sticky).1 ==> #[trigger] p.servers[k].0.quic
                != p.servers[route_result(p, client, sticky).1].0.quic,
    ensures
        can_decrement(route_result(p, client, sticky).0, p.servers[route_result(p, client, sticky).1].0.quic),
        decremented(route_result(p, client, sticky).0, p.servers[route_result(p, client, sticky).1].0.quic)
            == p.servers,
{
    lemma_route_keeps_servers(p, client, sticky);
    law_check_sessions_live(p, client);
    let (q, i) = route_result(p, client, sticky);
    let a = p.servers[i].0.quic;
    if !sticky {
        law_close_undoes_open(p);
    } else {
        let p1 = check_sessions_result(p, client).0;
        match check_sessions_result(p, client).1 {
            Some(x) => {
                assert(decremented(q, a) =~= p.servers) by {
                    assert forall|k: int| 0 <= k < p.servers.len() implies #[trigger] decremented(q, a)[k] == p.servers[k] by {
                        if k != i {
                            assert(q.servers[k] == p.servers[k]);
                        }
                    }
                }
            },
            None => {
                lemma_next_keeps_servers(p1);
                law_close_undoes_open(p1);
                let q2 = after_next(p1);
                assert(q.servers == q2.servers);
            },
        }
    }
}

proof fn lemma_wrr_search_range(p: PoolView, i: int, cw: u16, fuel: nat)
    ensures
        wrr_search(p, i, cw, fuel) matches Some((j, c)) ==> 0 <= j < p.servers.len() && j <= i16::MAX
            && wrr_takes(p, j, c),
    decreases fuel,
{
    let m = wrr_modulus(p);
    if fuel > 0 && m != 0 && i + 1 <= i16::MAX {
        let j = (i + 1) % m;
        crate::backend::lemma_modulus(p.servers.len() as usize);
        lemma_wrr_search_range(p, j, wrr_next_weight(p, j, cw), (fuel - 1) as nat);
    }
}

/// `get_next` returns one of the servers, keeps the servers (least
/// connections changes only a count) and keeps the pool's invariant.
pub proof fn lemma_next_keeps_servers(p: PoolView)
    requires
        pool_wf(p),
        get_next_defined(p),
    ensures
        0 <= next_choice(p) < p.servers.len(),
        pool_wf(after_next(p)),
        after_next(p).servers.len() == p.servers.len(),
        forall|k: int| 0 <= k < p.servers.len() ==> #[trigger] after_next(p).servers[k].0 == p.servers[k].0,
        after_next(p).sessions == p.sessions,
{
    match p.algo {
        Algo::RoundRobin => {
            crate::backend::lemma_rr_finds(p);
        },
        Algo::LeastConnections => {
            if exists|x: int| crate::backend::lc_is_choice(p, x) {
                let x = choose|x: int| crate::backend::lc_is_choice(p, x);
                assert(crate::backend::lc_is_choice(p, x));
            }
            let c = lc_choice(p);
            assert forall|k: int| 0 <= k < p.servers.len() implies #[trigger] after_next(p).servers[k].0 == p.servers[k].0 by {
                if k != c {
                    assert(after_next(p).servers[k] == p.servers[k]);
                }
            }
        },
        Algo::CpUtilise => {
            if exists|x: int| crate::backend::cpu_is_choice(p, x) {
                let x = choose|x: int| crate::backend::cpu_is_choice(p, x);
                assert(crate::backend::cpu_is_choice(p, x));
            }
        },
        Algo::WeightedRoundRobin => {
            lemma_wrr_search_range(p, p.previous, p.current_weight, wrr_bound(p));
        },
        Algo::CheckSessions => {},
    }
}

/// Routing returns one of the servers and keeps the servers.
pub proof fn lemma_route_keeps_servers(p: PoolView, client: Address, sticky: bool)
    requires
        pool_wf(p),
        route_defined(p, client, sticky),
    ensures
        0 <= route_result(p, client, sticky).1 < p.servers.len(),
        pool_wf(route_result(p, client, sticky).0),
        route_result(p, client, sticky).0.servers.len() == p.servers.len(),
        forall|k: int| 0 <= k < p.servers.len() ==> #[trigger] route_result(p, client, sticky).0.servers[k].0 == p.servers[k].0,
        route_result(p, client, sticky).0.algo == p.algo,
{
    law_check_sessions_live(p, client);
    if !sticky {
        lemma_next_keeps_servers(p);
    } else {
        let p1 = check_sessions_result(p, client).0;
        if check_sessions_result(p, client).1 is None {
            lemma_next_keeps_servers(p1);
        } else {
            let i = check_sessions_result(p, client).1->0;
            assert forall|k: int| 0 <= k < p.servers.len() implies #[trigger] route_result(p, client, sticky).0.servers[k].0 == p.servers[k].0 by {
                if k != i {
                    assert(counted(p1, i).servers[k] == p.servers[k]);
                }
            }
        }
    }
}

/// `k` calls of `get_next` in a row.
pub open spec fn after_calls(p: PoolView, k: nat) -> PoolView
    decreases k,
{
    if k == 0 {
        p
    } else {
        after_next(after_calls(p, (k - 1) as nat))
    }
}

/// One of the first `calls` successive calls of `get_next` returns server `j`.
pub open spec fn returned_within(p: PoolView, j: int, calls: nat) -> bool {
    exists|k: nat| k < calls && #[trigger] next_choice(after_calls(p, k)) == j
}

proof fn lemma_rr_all_alive_step(p: PoolView)
    requires
        pool_wf(p),
        p.algo == Algo::RoundRobin,
        p.servers.len() > 0,
        forall|i: int| 0 <= i < p.servers.len() ==> #[trigger] p.servers[i].1.alive,
    ensures
        rr_choice(p) == p.current,
        next_choice(p) == p.current,
        after_next(p) == (PoolView {
            current: if p.current + 1 == p.servers.len() { 0 } else { p.current + 1 },
            ..p
        }),
{
    assert(p.servers[rr_at(p, 0)].1.alive);
    assert(rr_offset(p, 0) == 0);
}

/// Round robin with every server alive cycles through the servers: the `k`-th
/// of the successive calls, for every `k`, returns the server `k` places after
/// its position, counted modulo the number of servers (from position 0, server
/// `k % n`); so any `n` calls in a row return each server exactly once.
pub proof fn law_round_robin_cycles(p: PoolView)
    requires
        pool_wf(p),
        p.algo == Algo::RoundRobin,
        p.servers.len() > 0,
        forall|i: int| 0 <= i < p.servers.len() ==> #[trigger] p.servers[i].1.alive,
    ensures
        forall|k: nat| #[trigger] next_choice(after_calls(p, k)) == (p.current + k) % (p.servers.len() as int),
        forall|k: nat| k < p.servers.len() ==> #[trigger] next_choice(after_calls(p, k)) == rr_at(p, k as int),
        forall|j: int| 0 <= j < p.servers.len() ==> #[trigger] returned_within(p, j, p.servers.len()),
        forall|k1: nat, k2: nat|
            k1 < p.servers.len() && k2 < p.servers.len() && k1 != k2 ==> #[trigger] next_choice(after_calls(p, k1))
                != #[trigger] next_choice(after_calls(p, k2)),
{
    assert forall|k: nat| #[trigger] next_choice(after_calls(p, k)) == (p.current + k) % (p.servers.len() as int) by {
        lemma_rr_iterate_all(p, k);
        lemma_rr_all_alive_step(after_calls(p, k));
    }
    assert forall|k: nat| k < p.servers.len() implies #[trigger] next_choice(after_calls(p, k)) == rr_at(p, k as int) by {
        lemma_rr_iterate(p, k);
        lemma_rr_all_alive_step(after_calls(p, k));
    }
    assert forall|j: int| 0 <= j < p.servers.len() implies #[trigger] returned_within(p, j, p.servers.len()) by {
        let n = p.servers.len() as int;
        let e: nat = if j >= p.current { (j - p.current) as nat } else { (j - p.current + n) as nat };
        lemma_rr_iterate(p, e);
        lemma_rr_all_alive_step(after_calls(p, e));
        assert(next_choice(after_calls(p, e)) == j);
    }
    assert forall|k1: nat, k2: nat|
        k1 < p.servers.len() && k2 < p.servers.len() && k1 != k2 implies #[trigger] next_choice(after_calls(p, k1))
            != #[trigger] next_choice(after_calls(p, k2)) by {
        lemma_rr_iterate(p, k1);
        lemma_rr_all_alive_step(after_calls(p, k1));
        lemma_rr_iterate(p, k2);
        lemma_rr_all_alive_step(after_calls(p, k2));
    }
}

proof fn lemma_rr_iterate_all(p: PoolView, k: nat)
    requires
        pool_wf(p),
        p.algo == Algo::RoundRobin,
        p.servers.len() > 0,
        forall|i: int| 0 <= i < p.servers.len() ==> #[trigger] p.servers[i].1.alive,
    ensures
        after_calls(p, k) == (PoolView { current: (p.current + k) % (p.servers.len() as int), ..p }),
        pool_wf(after_calls(p, k)),
    decreases k,
{
    let n = p.servers.len() as int;
    if k == 0 {
        vstd::arithmetic::div_mod::lemma_fundamental_div_mod_converse(p.current, n, 0, p.current);
    } else {
        lemma_rr_iterate_all(p, (k - 1) as nat);
        lemma_rr_all_alive_step(after_calls(p, (k - 1) as nat));
        let x = p.current + k - 1;
        let c = x % n;
        vstd::arithmetic::div_mod::lemma_fundamental_div_mod(x, n);
        let q = x / n;
        if c + 1 == n {
            assert(x + 1 == (q + 1) * n + 0) by (nonlinear_arith)
                requires
                    x == n * q + c,
                    c + 1 == n;
            vstd::arithmetic::div_mod::lemma_fundamental_div_mod_converse(x + 1, n, q + 1, 0);
        } else {
            assert(x + 1 == q * n + (c + 1)) by (nonlinear_arith)
                requires
                    x == n * q + c;
            vstd::arithmetic::div_mod::lemma_fundamental_div_mod_converse(x + 1, n, q, c + 1);
        }
    }
}

proof fn lemma_rr_iterate(p: PoolView, k: nat)
    requires
        pool_wf(p),
        p.algo == Algo::RoundRobin,
        p.servers.len() > 0,
        forall|i: int| 0 <= i < p.servers.len() ==> #[trigger] p.servers[i].1.alive,
        k < p.servers.len(),
    ensures
        after_calls(p, k) == (PoolView { current: rr_at(p, k as int), ..p }),
        pool_wf(after_calls(p, k)),
    decreases k,
{
    if k > 0 {
        lemma_rr_iterate(p, (k - 1) as nat);
        lemma_rr_all_alive_step(after_calls(p, (k - 1) as nat));
    }
}

/// Under least connections, closing the connection that `get_next` just
/// counted restores every server's count, when no other server shares the
/// chosen server's QUIC address.
pub proof fn law_close_undoes_open(p: PoolView)
    requires
        pool_wf(p),
        p.algo == Algo::LeastConnections,
        get_next_defined(p),
        forall|k: int|
            0 <= k < p.servers.len() && k != lc_choice(p) ==> #[trigger] p.servers[k].0.quic != p.servers[lc_choice(p)].0.quic,
    ensures
        can_decrement(after_next(p), p.servers[next_choice(p)].0.quic),
        decremented(after_next(p), p.servers[next_choice(p)].0.quic) == p.servers,
{
    let c = lc_choice(p);
    let q = after_next(p);
    let a = p.servers[c].0.quic;
    assert(0 <= c < p.servers.len()) by {
        if exists|x: int| crate::backend::lc_is_choice(p, x) {
            let x = choose|x: int| crate::backend::lc_is_choice(p, x);
            assert(crate::backend::lc_is_choice(p, x));
        }
    }
    assert(decremented(q, a) =~= p.servers) by {
        assert forall|i: int| 0 <= i < p.servers.len() implies #[trigger] decremented(q, a)[i] == p.servers[i] by {
            if i != c {
                assert(q.servers[i] == p.servers[i]);
            }
        }
    }
}

/// A health check leaves a server alive exactly when it answered its
/// heartbeat; a server that was dead and answers comes back with no
/// connections and the cores it reported.
pub proof fn law_health_decides_alive(info: ServerInfo, reply: Option<HealthInfo>)
    ensures
        checked_info(info, reply).alive == (reply is Some),
        reply is None ==> checked_info(info, reply) == (ServerInfo { alive: false, ..fresh_info() }),
        reply matches Some(h) ==> (!info.alive ==> checked_info(info, reply) == (ServerInfo {
            alive: true,
            connections: 0,
            cores: h.cores,
        })),
        reply is Some && info.alive ==> checked_info(info, reply) == info,
{
}

/// Weighted round robin with equal weights and every server alive behaves as
/// round robin over all servers: it takes the server after the one it took
/// last, and its current weight stays within the weight.
pub proof fn law_equal_weights_round_robin(p: PoolView, w: u16)
    requires
        pool_wf(p),
        0 < p.servers.len() <= i16::MAX,
        0 < w,
        p.max == w,
        p.gcd == w,
        p.current_weight <= w,
        forall|i: int| 0 <= i < p.servers.len() ==> #[trigger] p.servers[i].0.weight == w,
        forall|i: int| 0 <= i < p.servers.len() ==> #[trigger] p.servers[i].1.alive,
    ensures
        wrr_choice(p) is Some,
        (wrr_choice(p)->0).0 == if p.previous + 1 == p.servers.len() {
            0
        } else {
            p.previous + 1
        },
        (wrr_choice(p)->0).1 <= w,
{
    let n = p.servers.len() as int;
    assert(wrr_modulus(p) == n);
    let j = (p.previous + 1) % n;
    if p.previous + 1 == n {
        vstd::arithmetic::div_mod::lemma_mod_self_0(n);
    } else {
        vstd::arithmetic::div_mod::lemma_small_mod((p.previous + 1) as nat, n as nat);
    }
    assert(j == if p.previous + 1 == n { 0 } else { p.previous + 1 });
    assert(p.servers[j].0.weight == w);
    assert(p.servers[j].1.alive);
    assert(wrr_bound(p) > 0);
}

/// The pool's maximum after construction is the largest weight: no weight is
/// larger, and some server has it.
pub proof fn law_max_weight(s: Seq<Server>)
    requires
        s.len() > 0,
    ensures
        forall|i: int| 0 <= i < s.len() ==> #[trigger] s[i].weight <= max_weight(s),
        exists|i: int| 0 <= i < s.len() && #[trigger] s[i].weight == max_weight(s),
    decreases s.len(),
{
    if s.len() > 1 {
        law_max_weight(s.drop_last());
        assert forall|i: int| 0 <= i < s.len() implies #[trigger] s[i].weight <= max_weight(s) by {
            if i < s.len() - 1 {
                assert(s[i] == s.drop_last()[i]);
            }
        }
        if max_weight(s.drop_last()) < s.last().weight {
            assert(s[s.len() - 1].weight == max_weight(s));
        } else {
            let i = choose|i: int| 0 <= i < s.drop_last().len() && #[trigger] s.drop_last()[i].weight == max_weight(s.drop_last());
            assert(s[i].weight == max_weight(s));
        }
    } else {
        assert(s.drop_last().len() == 0);
        assert(max_weight(s.drop_last()) == 0);
        assert(s[0].weight == max_weight(s));
    }
}

/// `d` divides `a` (0 divides only 0).
pub open spec fn divides(d: nat, a: nat) -> bool {
    if d == 0 {
        a == 0
    } else {
        a % d == 0
    }
}

proof fn lemma_divides_sum(d: nat, a: nat, b: nat, q: nat)
    requires
        divides(d, b),
        divides(d, (a - b * q) as nat),
        a >= b * q,
    ensures
        divides(d, a),
{
    if d > 0 {
        let x = b / d;
        let y = ((a - b * q) as nat) / d;
        lemma_fundamental_div_mod(b as int, d as int);
        lemma_fundamental_div_mod((a - b * q) as int, d as int);
        assert(a == d * (x * q + y)) by (nonlinear_arith)
            requires
                b == d * x,
                a - b * q == d * y;
        lemma_mod_multiples_basic((x * q + y) as int, d as int);
        assert((d * (x * q + y)) == (x * q + y) * d) by (nonlinear_arith);
    } else {
        assert(b * q == 0) by (nonlinear_arith)
            requires
                b == 0;
    }
}

proof fn lemma_divides_diff(d: nat, a: nat, b: nat, q: nat)
    requires
        divides(d, b),
        divides(d, a),
        a >= b * q,
    ensures
        divides(d, (a - b * q) as nat),
{
    if d > 0 {
        let x = b / d;
        let y = a / d;
        lemma_fundamental_div_mod(b as int, d as int);
        lemma_fundamental_div_mod(a as int, d as int);
        assert(a - b * q == d * (y - x * q)) by (nonlinear_arith)
            requires
                b == d * x,
                a == d * y;
        assert(y - x * q >= 0) by (nonlinear_arith)
            requires
                a - b * q >= 0,
                a - b * q == d * (y - x * q),
                d > 0;
        lemma_mod_multiples_basic(y - x * q, d as int);
        assert((d * (y - x * q)) == (y - x * q) * d) by (nonlinear_arith);
    } else {
        assert(b * q == 0) by (nonlinear_arith)
            requires
                b == 0;
    }
}

/// `spec_gcd(a, b)` divides `a` and `b`, and every common divisor of `a` and
/// `b` divides it.
pub proof fn law_gcd(a: nat, b: nat, d: nat)
    ensures
        divides(spec_gcd(a, b), a),
        divides(spec_gcd(a, b), b),
        divides(d, a) && divides(d, b) ==> divides(d, spec_gcd(a, b)),
    decreases b,
{
    if b == 0 {
        if a > 0 {
            lemma_mod_multiples_basic(1, a as int);
        }
        assert(divides(spec_gcd(a, b), b));
    } else {
        let r = a % b;
        let q = a / b;
        lemma_fundamental_div_mod(a as int, b as int);
        assert(b * q <= a) by (nonlinear_arith)
            requires
                a == b * q + r,
                r >= 0;
        assert((a - b * q) as nat == r);
        law_gcd(b, r, d);
        lemma_divides_sum(spec_gcd(a, b), a, b, q);
        if divides(d, a) && divides(d, b) {
            lemma_divides_diff(d, a, b, q);
        }
    }
}

/// The pool's gcd after construction is the greatest common divisor of the
/// weights: it divides every weight, and so does every common divisor of them.
pub proof fn law_gcd_weights(s: Seq<Server>, d: nat)
    ensures
        forall|i: int| 0 <= i < s.len() ==> divides(gcd_weights(s), #[trigger] s[i].weight as nat),
        (forall|i: int| 0 <= i < s.len() ==> divides(d, #[trigger] s[i].weight as nat)) ==> divides(d, gcd_weights(s)),
    decreases s.len(),
{
    if s.len() == 1 {
        let w = s[0].weight as nat;
        if w > 0 {
            lemma_mod_multiples_basic(1, w as int);
        }
    } else if s.len() > 1 {
        let t = s.drop_last();
        let w = s.last().weight as nat;
        law_gcd_weights(t, d);
        let g = gcd_weights(t);
        law_gcd(g, w, d);
        assert forall|i: int| 0 <= i < s.len() implies divides(gcd_weights(s), #[trigger] s[i].weight as nat) by {
            if i < s.len() - 1 {
                assert(s[i] == t[i]);
                law_divides_trans(gcd_weights(s), g, s[i].weight as nat);
            }
        }
        if forall|i: int| 0 <= i < s.len() ==> divides(d, #[trigger] s[i].weight as nat) {
            assert forall|i: int| 0 <= i < t.len() implies divides(d, #[trigger] t[i].weight as nat) by {
                assert(s[i] == t[i]);
            }
            assert(divides(d, w)) by {
                assert(s[s.len() - 1].weight == w);
            }
        }
    }
}

/// Divisibility is transitive.
pub proof fn law_divides_trans(a: nat, b: nat, c: nat)
    requires
        divides(a, b),
        divides(b, c),
    ensures
        divides(a, c),
{
    if a > 0 && b > 0 {
        lemma_fundamental_div_mod(b as int, a as int);
        lemma_fundamental_div_mod(c as int, b as int);
        let x = b / a;
        let y = c / b;
        assert(c == a * (x * y)) by (nonlinear_arith)
            requires
                b == a * x,
                c == b * y;
        lemma_mod_multiples_basic((x * y) as int, a as int);
        assert(a * (x * y) == (x * y) * a) by (nonlinear_arith);
    } else if a > 0 && b == 0 {
        lemma_mod_multiples_basic(0, a as int);
    }
}

// ------------------------------------------------- weighted round robin rounds

/// A pool on which weighted round robin runs its rounds: some servers, every
/// one alive, a positive gcd that divides the maximum and every weight, no
/// weight above the maximum, and some server with the maximum weight.
pub open spec fn wrr_regular(p: PoolView) -> bool {
    &&& 0 < p.servers.len() <= i16::MAX
    &&& p.gcd > 0
    &&& p.max > 0
    &&& p.max % p.gcd == 0
    &&& forall|i: int| 0 <= i < p.servers.len() ==> #[trigger] p.servers[i].1.alive
    &&& forall|i: int|
        0 <= i < p.servers.len() ==> #[trigger] p.servers[i].0.weight % p.gcd == 0 && p.servers[i].0.weight
            <= p.max
    &&& exists|i: int| 0 <= i < p.servers.len() && #[trigger] p.servers[i].0.weight == p.max
}

/// A current weight of a round: positive, at most the maximum, a multiple of
/// the gcd.
pub open spec fn wrr_round_weight(p: PoolView, c: u16) -> bool {
    &&& 0 < c <= p.max
    &&& c % p.gcd == 0
}

/// The first server from index `from` on whose weight reaches `c`; the number
/// of servers when there is none.
pub open spec fn next_taker(p: PoolView, from: int, c: u16) -> int
    decreases p.servers.len() - from,
{
    if from >= p.servers.len() || from < 0 {
        p.servers.len() as int
    } else if p.servers[from].0.weight >= c {
        from
    } else {
        next_taker(p, from + 1, c)
    }
}

/// One call of weighted round robin from its last choice `prev` at current
/// weight `cw`: the next server after `prev` whose weight reaches `cw`; when
/// there is none, the current weight drops by the gcd (back to the maximum
/// once it has reached the gcd) and the first server whose weight reaches it
/// is taken.
pub open spec fn wrr_call(p: PoolView, prev: int, cw: u16) -> (int, u16) {
    if prev >= 0 && next_taker(p, prev + 1, cw) < p.servers.len() {
        (next_taker(p, prev + 1, cw), cw)
    } else {
        let c = wrr_next_weight(p, 0, cw);
        (next_taker(p, 0, c), c)
    }
}

proof fn lemma_next_taker(p: PoolView, from: int, c: u16, k: int)
    requires
        0 <= from,
    ensures
        from <= next_taker(p, from, c) <= p.servers.len() || from > p.servers.len(),
        next_taker(p, from, c) < p.servers.len() ==> p.servers[next_taker(p, from, c)].0.weight >= c,
        forall|j: int| from <= j < next_taker(p, from, c) ==> #[trigger] p.servers[j].0.weight < c,
        from <= k < p.servers.len() && p.servers[k].0.weight >= c ==> next_taker(p, from, c) <= k,
    decreases p.servers.len() - from,
{
    if from < p.servers.len() && p.servers[from].0.weight < c {
        lemma_next_taker(p, from + 1, c, k);
    }
}

proof fn lemma_next_taker_same(p: PoolView, q: PoolView, from: int, c: u16)
    requires
        p.servers == q.servers,
    ensures
        next_taker(p, from, c) == next_taker(q, from, c),
    decreases p.servers.len() - from,
{
    if 0 <= from < p.servers.len() && p.servers[from].0.weight < c {
        lemma_next_taker_same(p, q, from + 1, c);
    }
}

proof fn lemma_scan(p: PoolView, i: int, c: u16, f: nat)
    requires
        wrr_regular(p),
        0 <= i < p.servers.len(),
        i + 1 <= next_taker(p, i + 1, c),
        f >= next_taker(p, i + 1, c) - i,
    ensures
        next_taker(p, i + 1, c) < p.servers.len() ==> wrr_search(p, i, c, f) == Some((next_taker(p, i + 1, c), c)),
        next_taker(p, i + 1, c) == p.servers.len() ==> wrr_search(p, i, c, f) == wrr_search(
            p,
            p.servers.len() - 1,
            c,
            (f - (p.servers.len() - 1 - i)) as nat,
        ),
    decreases p.servers.len() - i,
{
    let n = p.servers.len() as int;
    lemma_next_taker(p, i + 1, c, 0);
    if i + 1 < n {
        assert(wrr_modulus(p) == n);
        vstd::arithmetic::div_mod::lemma_small_mod((i + 1) as nat, n as nat);
        assert((i + 1) % n == i + 1);
        assert(wrr_next_weight(p, i + 1, c) == c);
        if p.servers[i + 1].0.weight >= c {
            assert(next_taker(p, i + 1, c) == i + 1);
        } else {
            assert(next_taker(p, i + 1, c) == next_taker(p, i + 2, c));
            lemma_scan(p, i + 1, c, (f - 1) as nat);
        }
    }
}

proof fn lemma_wrap(p: PoolView, c: u16, f: nat)
    requires
        wrr_regular(p),
        f >= 1,
    ensures
        ({
            let c2 = wrr_next_weight(p, 0, c);
            &&& wrr_search(p, -1, c, f) == wrr_search(p, p.servers.len() - 1, c, f)
            &&& wrr_search(p, p.servers.len() - 1, c, f) == if p.servers[0].0.weight >= c2 {
                Some((0int, c2))
            } else {
                wrr_search(p, 0, c2, (f - 1) as nat)
            }
        }),
{
    let n = p.servers.len() as int;
    assert(wrr_modulus(p) == n);
    vstd::arithmetic::div_mod::lemma_mod_self_0(n);
    vstd::arithmetic::div_mod::lemma_small_mod(0, n as nat);
}

/// Each call of weighted round robin, on a pool where it runs its rounds, is
/// `wrr_call`: it takes the next server whose weight reaches the current
/// weight, and when none is left it lowers the current weight by the gcd (back
/// to the maximum after the gcd) and starts again from the first server; it
/// always finds one.
pub proof fn law_wrr_call(p: PoolView)
    requires
        wrr_regular(p),
        (p.previous == -1 && p.current_weight == 0) || (0 <= p.previous < p.servers.len() && wrr_round_weight(
            p,
            p.current_weight,
        )),
    ensures
        wrr_choice(p) == Some(wrr_call(p, p.previous, p.current_weight)),
        wrr_call(p, p.previous, p.current_weight).0 < p.servers.len(),
        wrr_round_weight(p, wrr_call(p, p.previous, p.current_weight).1),
{
    let n = p.servers.len() as int;
    let cw = p.current_weight;
    let f = wrr_bound(p);
    let c2 = wrr_next_weight(p, 0, cw);
    let top = choose|i: int| 0 <= i < n && #[trigger] p.servers[i].0.weight == p.max;
    assert(p.servers[top].0.weight == p.max);
    // The current weight after a wrap is a round weight.
    if cw <= p.gcd {
        assert(c2 == p.max);
    } else {
        assert(c2 == cw - p.gcd);
        assert((cw - p.gcd) % (p.gcd as int) == 0) by {
            vstd::arithmetic::div_mod::lemma_mod_sub_multiples_vanish(cw as int, p.gcd as int);
        }
    }
    assert(wrr_round_weight(p, c2));
    lemma_next_taker(p, 0, c2, top);
    let j0 = next_taker(p, 0, c2);
    assert(j0 < n);
    assert(f >= 2 * n + 1) by (nonlinear_arith)
        requires
            f == n * 65536 + 1,
            n > 0;
    // The search after a wrap.
    assert(wrr_search(p, n - 1, cw, f) == Some((j0, c2))) by {
        lemma_wrap(p, cw, f);
        if p.servers[0].0.weight < c2 {
            assert(next_taker(p, 0, c2) == next_taker(p, 1, c2));
            lemma_next_taker(p, 1, c2, top);
            lemma_scan(p, 0, c2, (f - 1) as nat);
        }
    }
    if p.previous == -1 {
        lemma_wrap(p, cw, f);
    } else {
        let i = p.previous;
        lemma_next_taker(p, i + 1, cw, 0);
        lemma_scan(p, i, cw, f);
        if next_taker(p, i + 1, cw) == n {
            lemma_wrap(p, cw, f);
            assert(wrr_search(p, n - 1, cw, (f - (n - 1 - i)) as nat) == Some((j0, c2))) by {
                lemma_wrap(p, cw, (f - (n - 1 - i)) as nat);
                if p.servers[0].0.weight < c2 {
                    assert(next_taker(p, 0, c2) == next_taker(p, 1, c2));
                    lemma_next_taker(p, 1, c2, top);
                    lemma_scan(p, 0, c2, (f - (n - 1 - i) - 1) as nat);
                }
            }
        }
    }
}

/// How many of the first `k` calls of `get_next` return server `i`.
pub open spec fn picks(p: PoolView, i: int, k: nat) -> nat
    decreases k,
{
    if k == 0 {
        0
    } else {
        picks(p, i, (k - 1) as nat) + if next_choice(after_calls(p, (k - 1) as nat)) == i {
            1nat
        } else {
            0nat
        }
    }
}

/// Weighted round robin has finished a cycle: it is at the gcd and no server
/// after its last choice reaches it.
pub open spec fn wrr_cycle_end(q: PoolView) -> bool {
    &&& q.current_weight == q.gcd
    &&& 0 <= q.previous < q.servers.len()
    &&& next_taker(q, q.previous + 1, q.gcd) == q.servers.len()
}

/// How many times server `i` has been taken within a cycle by the time the
/// last choice is `j` at current weight `c`: once for each earlier round its
/// weight reached, and once more if it reaches this round and comes no later
/// than `j`.
pub open spec fn cycle_picks(p: PoolView, i: int, j: int, c: u16) -> int {
    let w = p.servers[i].0.weight;
    (if w > c {
        (w - c) / (p.gcd as int)
    } else {
        0
    }) + (if w >= c && i <= j {
        1int
    } else {
        0int
    })
}

/// A state of weighted round robin within its first cycle.
pub open spec fn wrr_in_cycle(p: PoolView, q: PoolView) -> bool {
    &&& q == (PoolView { previous: q.previous, current_weight: q.current_weight, ..p })
    &&& 0 <= q.previous < p.servers.len()
    &&& wrr_round_weight(p, q.current_weight)
    &&& p.servers[q.previous].0.weight >= q.current_weight
}

proof fn lemma_round_step_count(w: int, c: int, g: int)
    requires
        g > 0,
        w >= 0,
        c > g,
        w % g == 0,
        c % g == 0,
    ensures
        (if w > c - g {
            (w - (c - g)) / g
        } else {
            0
        }) == (if w > c {
            (w - c) / g
        } else {
            0
        }) + (if w >= c {
            1int
        } else {
            0int
        }),
{
    vstd::arithmetic::div_mod::lemma_fundamental_div_mod(w, g);
    vstd::arithmetic::div_mod::lemma_fundamental_div_mod(c, g);
    let a = w / g;
    let b = c / g;
    assert(w == a * g) by (nonlinear_arith)
        requires
            w == g * (w / g) + w % g,
            w % g == 0,
            a == w / g;
    assert(c == b * g) by (nonlinear_arith)
        requires
            c == g * (c / g) + c % g,
            c % g == 0,
            b == c / g;
    if w >= c {
        assert(a >= b) by (nonlinear_arith)
            requires
                w == a * g,
                c == b * g,
                w >= c,
                g > 0;
        assert(w - (c - g) == (a - b + 1) * g + 0) by (nonlinear_arith)
            requires
                w == a * g,
                c == b * g;
        vstd::arithmetic::div_mod::lemma_fundamental_div_mod_converse(w - (c - g), g, a - b + 1, 0);
        if w > c {
            assert(w - c == (a - b) * g + 0) by (nonlinear_arith)
                requires
                    w == a * g,
                    c == b * g;
            vstd::arithmetic::div_mod::lemma_fundamental_div_mod_converse(w - c, g, a - b, 0);
        }
    } else {
        assert(a < b) by (nonlinear_arith)
            requires
                w == a * g,
                c == b * g,
                w < c,
                g > 0;
        assert(w <= c - g) by (nonlinear_arith)
            requires
                w == a * g,
                c == b * g,
                a < b,
                g > 0;
    }
}

proof fn lemma_end_count(w: int, g: int)
    requires
        g > 0,
        w >= 0,
        w % g == 0,
    ensures
        (if w > g {
            (w - g) / g
        } else {
            0
        }) + (if w >= g {
            1int
        } else {
            0int
        }) == w / g,
{
    vstd::arithmetic::div_mod::lemma_fundamental_div_mod(w, g);
    let a = w / g;
    assert(w == a * g) by (nonlinear_arith)
        requires
            w == g * (w / g) + w % g,
            w % g == 0,
            a == w / g;
    if w > g {
        assert(w - g == (a - 1) * g + 0) by (nonlinear_arith)
            requires
                w == a * g;
        vstd::arithmetic::div_mod::lemma_fundamental_div_mod_converse(w - g, g, a - 1, 0);
    } else if w == g {
        vstd::arithmetic::div_mod::lemma_fundamental_div_mod_converse(w, g, 1, 0);
    } else {
        assert(a == 0) by (nonlinear_arith)
            requires
                w == a * g,
                w < g,
                w >= 0,
                g > 0;
    }
}

/// One call from a state in the cycle that is not its end stays in the cycle,
/// returns the new last choice, and lowers the current weight or moves on.
proof fn lemma_cycle_state_step(p: PoolView, k: nat)
    requires
        wrr_regular(p),
        p.algo == Algo::WeightedRoundRobin,
        wrr_in_cycle(p, after_calls(p, k)),
        !wrr_cycle_end(after_calls(p, k)),
    ensures
        wrr_in_cycle(p, after_calls(p, k + 1)),
        next_choice(after_calls(p, k)) == after_calls(p, k + 1).previous,
{
    let q = after_calls(p, k);
    let j = q.previous;
    let c = q.current_weight;
    let n = p.servers.len() as int;
    assert(wrr_regular(q));
    law_wrr_call(q);
    let (j2, c2) = wrr_call(q, j, c);
    assert(after_calls(p, k + 1) == after_next(q));
    lemma_next_taker(q, j + 1, c, 0);
    lemma_next_taker(q, 0, c2, 0);
}

/// The state after one call from a state in the cycle that is not its end, and
/// the counts: the call either takes the next server of the round or moves to
/// the next round.
proof fn lemma_cycle_step(p: PoolView, k: nat)
    requires
        wrr_regular(p),
        p.algo == Algo::WeightedRoundRobin,
        wrr_in_cycle(p, after_calls(p, k)),
        !wrr_cycle_end(after_calls(p, k)),
        forall|i: int|
            0 <= i < p.servers.len() ==> #[trigger] picks(p, i, k) == cycle_picks(
                p,
                i,
                after_calls(p, k).previous,
                after_calls(p, k).current_weight,
            ),
    ensures
        wrr_in_cycle(p, after_calls(p, k + 1)),
        forall|i: int|
            0 <= i < p.servers.len() ==> #[trigger] picks(p, i, k + 1) == cycle_picks(
                p,
                i,
                after_calls(p, k + 1).previous,
                after_calls(p, k + 1).current_weight,
            ),
        after_calls(p, k + 1).current_weight < after_calls(p, k).current_weight || (after_calls(p, k + 1).current_weight
            == after_calls(p, k).current_weight && after_calls(p, k + 1).previous > after_calls(p, k).previous),
{
    let q = after_calls(p, k);
    let j = q.previous;
    let c = q.current_weight;
    let g = p.gcd;
    let n = p.servers.len() as int;
    assert(wrr_regular(q));
    law_wrr_call(q);
    let (j2, c2) = wrr_call(q, j, c);
    assert(after_calls(p, k + 1) == after_next(q));
    assert(after_next(q) == (PoolView { previous: j2, current_weight: c2, ..p }));
    assert(next_choice(q) == j2);
    assert(p.servers[j2].0.weight >= c2) by {
        if j + 1 <= n && next_taker(q, j + 1, c) < n {
            lemma_next_taker(q, j + 1, c, 0);
        } else {
            lemma_next_taker(q, 0, c2, 0);
        }
    }
    lemma_next_taker(q, j + 1, c, 0);
    lemma_next_taker(q, 0, c2, 0);
    if next_taker(q, j + 1, c) < n {
        assert forall|i: int| 0 <= i < n implies #[trigger] picks(p, i, k + 1) == cycle_picks(p, i, j2, c2) by {
            assert(picks(p, i, k + 1) == picks(p, i, k) + if j2 == i { 1nat } else { 0nat });
            if j < i < j2 {
                assert(p.servers[i].0.weight < c);
            }
        }
    } else {
        assert(c > g) by {
            vstd::arithmetic::div_mod::lemma_fundamental_div_mod(c as int, g as int);
            if c <= g {
                assert(c == g) by (nonlinear_arith)
                    requires
                        c as int == g * (c / g) + c % g,
                        c % g == 0,
                        0 < c <= g,
                        g > 0;
            }
        }
        assert(c2 == c - g);
        assert forall|i: int| 0 <= i < n implies #[trigger] picks(p, i, k + 1) == cycle_picks(p, i, j2, c2) by {
            assert(picks(p, i, k + 1) == picks(p, i, k) + if j2 == i { 1nat } else { 0nat });
            let w = p.servers[i].0.weight;
            lemma_round_step_count(w as int, c as int, g as int);
            if i > j {
                assert(w < c);
            }
            if i < j2 {
                assert(w < c2);
            }
        }
    }
}

/// From a state in the first cycle, the cycle ends: returns the call after
/// which it does, no earlier call ending it.
proof fn lemma_cycle_reaches_end(p: PoolView, k: nat) -> (e: nat)
    requires
        wrr_regular(p),
        p.algo == Algo::WeightedRoundRobin,
        k >= 1,
        wrr_in_cycle(p, after_calls(p, k)),
        forall|t: nat| 1 <= t < k ==> !wrr_cycle_end(#[trigger] after_calls(p, t)),
        forall|i: int|
            0 <= i < p.servers.len() ==> #[trigger] picks(p, i, k) == cycle_picks(
                p,
                i,
                after_calls(p, k).previous,
                after_calls(p, k).current_weight,
            ),
    ensures
        e >= k,
        wrr_cycle_end(after_calls(p, e)),
        wrr_in_cycle(p, after_calls(p, e)),
        forall|t: nat| 1 <= t < e ==> !wrr_cycle_end(#[trigger] after_calls(p, t)),
        forall|i: int|
            0 <= i < p.servers.len() ==> #[trigger] picks(p, i, e) == cycle_picks(
                p,
                i,
                after_calls(p, e).previous,
                after_calls(p, e).current_weight,
            ),
    decreases after_calls(p, k).current_weight, p.servers.len() - after_calls(p, k).previous,
{
    if wrr_cycle_end(after_calls(p, k)) {
        k
    } else {
        lemma_cycle_step(p, k);
        assert forall|t: nat| 1 <= t < k + 1 implies !wrr_cycle_end(#[trigger] after_calls(p, t)) by {
            if t < k {
            }
        }
        lemma_cycle_reaches_end(p, k + 1)
    }
}

/// The sum of the weights divided by the gcd, over the first `n` servers.
pub open spec fn weight_rounds(p: PoolView, n: int) -> int
    decreases n,
{
    if n <= 0 {
        0
    } else {
        weight_rounds(p, n - 1) + (p.servers[n - 1].0.weight as int) / (p.gcd as int)
    }
}

/// The calls of the first `k` that return one of the first `m` servers.
pub open spec fn picks_below(p: PoolView, m: int, k: nat) -> int
    decreases m,
{
    if m <= 0 {
        0
    } else {
        picks_below(p, m - 1, k) + picks(p, m - 1, k)
    }
}

proof fn lemma_picks_below_step(p: PoolView, m: int, k: nat)
    requires
        0 <= m,
    ensures
        picks_below(p, m, k + 1) == picks_below(p, m, k) + if 0 <= next_choice(after_calls(p, k)) < m {
            1int
        } else {
            0int
        },
    decreases m,
{
    if m > 0 {
        lemma_picks_below_step(p, m - 1, k);
    }
}

proof fn lemma_picks_below_zero(p: PoolView, m: int)
    ensures
        picks_below(p, m, 0) == 0,
    decreases m,
{
    if m > 0 {
        lemma_picks_below_zero(p, m - 1);
    }
}

proof fn lemma_picks_total(p: PoolView, k: nat)
    requires
        forall|t: nat| t < k ==> 0 <= #[trigger] next_choice(after_calls(p, t)) < p.servers.len(),
    ensures
        picks_below(p, p.servers.len() as int, k) == k,
    decreases k,
{
    if k > 0 {
        lemma_picks_total(p, (k - 1) as nat);
        lemma_picks_below_step(p, p.servers.len() as int, (k - 1) as nat);
    } else {
        lemma_picks_below_zero(p, p.servers.len() as int);
    }
}

proof fn lemma_sum_matches(p: PoolView, m: int, k: nat)
    requires
        0 <= m <= p.servers.len(),
        forall|i: int| 0 <= i < p.servers.len() ==> #[trigger] picks(p, i, k) == (p.servers[i].0.weight as int) / (p.gcd as int),
    ensures
        picks_below(p, m, k) == weight_rounds(p, m),
    decreases m,
{
    if m > 0 {
        lemma_sum_matches(p, m - 1, k);
    }
}

/// Weighted round robin distributes connections by weight: started afresh on a
/// pool where it runs its rounds, in its first S calls, S being the sum of the
/// weights divided by their gcd, server `i` is returned exactly `weight / gcd`
/// times, and the sequence of returned servers repeats with period S.
pub proof fn law_wrr_distribution(p: PoolView)
    requires
        wrr_regular(p),
        p.algo == Algo::WeightedRoundRobin,
        p.previous == -1,
        p.current_weight == 0,
    ensures
        weight_rounds(p, p.servers.len() as int) > 0,
        forall|i: int|
            0 <= i < p.servers.len() ==> #[trigger] picks(p, i, weight_rounds(p, p.servers.len() as int) as nat)
                == (p.servers[i].0.weight as int) / (p.gcd as int),
        forall|k: nat|
            #[trigger] next_choice(after_calls(p, k + weight_rounds(p, p.servers.len() as int) as nat)) == next_choice(
                after_calls(p, k),
            ),
{
    let n = p.servers.len() as int;
    let g = p.gcd;
    // The first call.
    law_wrr_call(p);
    let (j1, c1) = wrr_call(p, -1, 0);
    assert(c1 == p.max);
    let top = choose|i: int| 0 <= i < n && #[trigger] p.servers[i].0.weight == p.max;
    assert(p.servers[top].0.weight == p.max);
    lemma_next_taker(p, 0, c1, top);
    assert(after_calls(p, 1) == after_next(after_calls(p, 0)));
    assert(after_calls(p, 1) == (PoolView { previous: j1, current_weight: c1, ..p }));
    assert(wrr_in_cycle(p, after_calls(p, 1)));
    assert forall|i: int| 0 <= i < n implies #[trigger] picks(p, i, 1) == cycle_picks(p, i, j1, c1) by {
        assert(picks(p, i, 1) == picks(p, i, 0) + if next_choice(after_calls(p, 0)) == i { 1nat } else { 0nat });
        if i < j1 {
            assert(p.servers[i].0.weight < c1);
        }
    }
    let e = lemma_cycle_reaches_end(p, 1);
    let q = after_calls(p, e);
    // At the end of the cycle each server has been taken weight / gcd times.
    assert forall|i: int| 0 <= i < n implies #[trigger] picks(p, i, e) == (p.servers[i].0.weight as int) / (g as int) by {
        let w = p.servers[i].0.weight;
        lemma_end_count(w as int, g as int);
        lemma_next_taker(q, q.previous + 1, g, 0);
        if i > q.previous {
            assert(w < g);
        }
    }
    // Every call so far returned a server, so the calls add up to e.
    assert forall|t: nat| t < e implies 0 <= #[trigger] next_choice(after_calls(p, t)) < n by {
        lemma_first_cycle_states(p, t, e);
    }
    lemma_picks_total(p, e);
    lemma_sum_matches(p, n, e);
    assert(weight_rounds(p, n) == e);
    // The call after the end is the first call again.
    assert(after_calls(p, e + 1) == after_calls(p, 1)) by {
        assert(wrr_regular(q));
        law_wrr_call(q);
        lemma_next_taker(q, q.previous + 1, g, 0);
        lemma_next_taker_same(p, q, 0, p.max);
        assert(wrr_call(q, q.previous, q.current_weight) == wrr_call(p, -1, 0));
        assert(after_calls(p, e + 1) == after_next(q));
    }
    assert(next_choice(after_calls(p, e)) == next_choice(after_calls(p, 0))) by {
        assert(wrr_regular(q));
        law_wrr_call(q);
        lemma_next_taker(q, q.previous + 1, g, 0);
        lemma_next_taker_same(p, q, 0, p.max);
    }
    assert forall|k: nat| #[trigger] next_choice(after_calls(p, k + e)) == next_choice(after_calls(p, k)) by {
        if k > 0 {
            lemma_shift(p, e, (k - 1) as nat);
        }
    }
}

/// Calls after the end of the first cycle repeat those after the first call.
proof fn lemma_shift(p: PoolView, e: nat, t: nat)
    requires
        after_calls(p, e + 1) == after_calls(p, 1),
    ensures
        after_calls(p, e + 1 + t) == after_calls(p, 1 + t),
    decreases t,
{
    if t > 0 {
        lemma_shift(p, e, (t - 1) as nat);
        assert(after_calls(p, e + 1 + t) == after_next(after_calls(p, (e + 1 + t - 1) as nat)));
        assert(after_calls(p, 1 + t) == after_next(after_calls(p, (1 + t - 1) as nat)));
    }
}

/// Every call of the first cycle returns one of the servers.
proof fn lemma_first_cycle_states(p: PoolView, t: nat, e: nat)
    requires
        wrr_regular(p),
        p.algo == Algo::WeightedRoundRobin,
        p.previous == -1,
        p.current_weight == 0,
        t < e,
        wrr_in_cycle(p, after_calls(p, 1)),
        forall|u: nat| 1 <= u < e ==> !wrr_cycle_end(#[trigger] after_calls(p, u)),
    ensures
        0 <= next_choice(after_calls(p, t)) < p.servers.len(),
        t >= 1 ==> wrr_in_cycle(p, after_calls(p, t)),
    decreases t,
{
    if t == 0 {
        law_wrr_call(p);
        lemma_next_taker(p, 0, wrr_next_weight(p, 0, 0), 0);
    } else {
        if t > 1 {
            lemma_first_cycle_states(p, (t - 1) as nat, e);
            assert(!wrr_cycle_end(after_calls(p, (t - 1) as nat)));
            lemma_cycle_state_step(p, (t - 1) as nat);
        }
        let q = after_calls(p, t);
        assert(wrr_regular(q));
        law_wrr_call(q);
        lemma_next_taker(q, q.previous + 1, q.current_weight, 0);
        lemma_next_taker(q, 0, wrr_next_weight(q, 0, q.current_weight), 0);
    }
}

/// A pool built from a configuration with some positive weight, balanced by
/// weighted round robin, runs its rounds (so `law_wrr_distribution` applies to
/// it).
pub proof fn law_config_runs_rounds(s: Seq<Server>)
    requires
        0 < s.len() <= i16::MAX,
        exists|i: int| 0 <= i < s.len() && #[trigger] s[i].weight > 0,
    ensures
        wrr_regular(
            PoolView {
                sessions: Map::empty(),
                servers: fresh_servers(s),
                current: 0,
                previous: -1,
                current_weight: 0,
                max: max_weight(s),
                gcd: gcd_weights(s) as u16,
                algo: Algo::WeightedRoundRobin,
            },
        ),
{
    let p = PoolView {
        sessions: Map::empty(),
        servers: fresh_servers(s),
        current: 0,
        previous: -1,
        current_weight: 0,
        max: max_weight(s),
        gcd: gcd_weights(s) as u16,
        algo: Algo::WeightedRoundRobin,
    };
    let g = gcd_weights(s);
    law_gcd_weights(s, 0);
    law_max_weight(s);
    let k = choose|i: int| 0 <= i < s.len() && #[trigger] s[i].weight > 0;
    assert(divides(g, s[k].weight as nat));
    assert(g > 0);
    assert(g <= s[k].weight) by {
        if g > s[k].weight {
            vstd::arithmetic::div_mod::lemma_small_mod(s[k].weight as nat, g);
        }
    }
    assert(p.gcd == g);
    let top = choose|i: int| 0 <= i < s.len() && #[trigger] s[i].weight == max_weight(s);
    assert(divides(g, s[top].weight as nat));
    assert(p.servers[top].0.weight == p.max);
    assert(p.max > 0) by {
        assert(s[k].weight <= max_weight(s));
    }
    assert forall|i: int| 0 <= i < p.servers.len() implies #[trigger] p.servers[i].0.weight % p.gcd == 0
        && p.servers[i].0.weight <= p.max by {
        assert(p.servers[i].0 == s[i]);
        assert(divides(g, s[i].weight as nat));
    }
    assert forall|i: int| 0 <= i < p.servers.len() implies #[trigger] p.servers[i].1.alive by {}
}

// ------------------------------------------------- what each choice must be

/// A sticky route to the live server a client is stuck to goes to that server
/// and changes nothing in the pool but, under least connections, that server's
/// count, which grows by one: the session table, the round robin position and
/// weighted round robin's state are as they were.
pub proof fn law_sticky_route_keeps_pool(p: PoolView, client: Address, i: int)
    requires
        pool_wf(p),
        p.sessions.contains_key(client),
        0 <= i < p.servers.len(),
        p.servers[i].0.quic == reparsed(p.sessions[client]),
        forall|j: int| 0 <= j < i ==> #[trigger] p.servers[j].0.quic != reparsed(p.sessions[client]),
        p.servers[i].1.alive,
        p.algo == Algo::LeastConnections ==> p.servers[i].1.connections < u16::MAX,
    ensures
        route_defined(p, client, true),
        route_result(p, client, true).1 == i,
        route_result(p, client, true).0.sessions == p.sessions,
        route_result(p, client, true).0.current == p.current,
        route_result(p, client, true).0.previous == p.previous,
        route_result(p, client, true).0.current_weight == p.current_weight,
        route_result(p, client, true).0.max == p.max,
        route_result(p, client, true).0.gcd == p.gcd,
        route_result(p, client, true).0.algo == p.algo,
        route_result(p, client, true).0.servers.len() == p.servers.len(),
        forall|k: int|
            0 <= k < p.servers.len() && k != i ==> #[trigger] route_result(p, client, true).0.servers[k] == p.servers[k],
        route_result(p, client, true).0.servers[i] == (p.servers[i].0, ServerInfo {
            alive: p.servers[i].1.alive,
            connections: if p.algo == Algo::LeastConnections {
                (p.servers[i].1.connections + 1) as u16
            } else {
                p.servers[i].1.connections
            },
            cores: p.servers[i].1.cores,
        }),
{
    let a = reparsed(p.sessions[client]);
    assert(is_first_with_quic(p, a, i));
    let c = choose|c: int| is_first_with_quic(p, a, c);
    assert(is_first_with_quic(p, a, c));
    if c < i {
        assert(p.servers[c].0.quic == a);
    } else if c > i {
        assert(p.servers[i].0.quic == a);
    }
    assert(first_with_quic(p, a) == Some(i));
    assert(check_sessions_result(p, client) == (p, Some(i)));
}

/// Round robin takes a live server, the first live one counting cyclically
/// from its position: no live server comes between the position and its
/// choice. Its position then moves to just after the choice, and nothing else
/// changes.
pub proof fn law_round_robin_next_live(p: PoolView)
    requires
        pool_wf(p),
        p.algo == Algo::RoundRobin,
        get_next_defined(p),
    ensures
        0 <= next_choice(p) < p.servers.len(),
        p.servers[next_choice(p)].1.alive,
        forall|k: int|
            0 <= k < p.servers.len() && #[trigger] p.servers[k].1.alive ==> (if next_choice(p) >= p.current {
                next_choice(p) - p.current
            } else {
                next_choice(p) - p.current + p.servers.len()
            }) <= (if k >= p.current {
                k - p.current
            } else {
                k - p.current + p.servers.len()
            }),
        after_next(p) == (PoolView {
            current: if next_choice(p) + 1 == p.servers.len() { 0 } else { next_choice(p) + 1 },
            ..p
        }),
{
    let n = p.servers.len() as int;
    crate::backend::lemma_rr_finds(p);
    crate::backend::lemma_rr_offset(p, 0);
    let off = rr_offset(p, 0) as int;
    assert(rr_choice(p) == rr_at(p, off));
    assert(next_choice(p) == rr_at(p, off));
    assert(off == if rr_at(p, off) >= p.current { rr_at(p, off) - p.current } else { rr_at(p, off) - p.current + n });
    assert forall|k: int|
        0 <= k < n && #[trigger] p.servers[k].1.alive implies off <= (if k >= p.current {
            k - p.current
        } else {
            k - p.current + n
        }) by {
        let e = if k >= p.current { k - p.current } else { k - p.current + n };
        assert(rr_at(p, e) == k);
        if e < off {
            assert(!p.servers[rr_at(p, e)].1.alive);
        }
    }
}

/// The first `i` servers' best for least connections: the first live one with
/// the fewest connections, or -1 when none of them is alive.
spec fn lc_best(p: PoolView, i: int) -> int
    decreases i,
{
    if i <= 0 {
        -1
    } else {
        let b = lc_best(p, i - 1);
        if p.servers[i - 1].1.alive && (b == -1 || p.servers[i - 1].1.connections < p.servers[b].1.connections) {
            i - 1
        } else {
            b
        }
    }
}

proof fn lemma_lc_best(p: PoolView, i: int)
    requires
        0 <= i <= p.servers.len(),
    ensures
        -1 <= lc_best(p, i) < i,
        lc_best(p, i) == -1 ==> forall|k: int| 0 <= k < i ==> !(#[trigger] p.servers[k].1.alive),
        lc_best(p, i) >= 0 ==> {
            let b = lc_best(p, i);
            &&& p.servers[b].1.alive
            &&& forall|k: int| 0 <= k < i && #[trigger] p.servers[k].1.alive ==> p.servers[b].1.connections <= p.servers[k].1.connections
            &&& forall|k: int| 0 <= k < b && #[trigger] p.servers[k].1.alive ==> p.servers[k].1.connections > p.servers[b].1.connections
        },
    decreases i,
{
    if i > 0 {
        lemma_lc_best(p, i - 1);
    }
}

/// Least connections takes a live server with no more connections than any
/// live server, the first such; it counts one more connection on it and changes
/// nothing else.
pub proof fn law_least_connections_choice(p: PoolView)
    requires
        pool_wf(p),
        p.algo == Algo::LeastConnections,
        get_next_defined(p),
        exists|k: int| 0 <= k < p.servers.len() && #[trigger] p.servers[k].1.alive,
    ensures
        0 <= next_choice(p) < p.servers.len(),
        p.servers[next_choice(p)].1.alive,
        forall|k: int|
            0 <= k < p.servers.len() && #[trigger] p.servers[k].1.alive ==> p.servers[next_choice(p)].1.connections
                <= p.servers[k].1.connections,
        forall|k: int|
            0 <= k < next_choice(p) && #[trigger] p.servers[k].1.alive ==> p.servers[k].1.connections
                > p.servers[next_choice(p)].1.connections,
        after_next(p) == (PoolView {
            servers: p.servers.update(
                next_choice(p),
                (p.servers[next_choice(p)].0, ServerInfo {
                    alive: p.servers[next_choice(p)].1.alive,
                    connections: (p.servers[next_choice(p)].1.connections + 1) as u16,
                    cores: p.servers[next_choice(p)].1.cores,
                }),
            ),
            ..p
        }),
{
    let n = p.servers.len() as int;
    lemma_lc_best(p, n);
    let b = lc_best(p, n);
    let w = choose|k: int| 0 <= k < n && #[trigger] p.servers[k].1.alive;
    assert(p.servers[w].1.alive);
    assert(b >= 0);
    assert(lc_is_choice(p, b));
    let c = choose|c: int| lc_is_choice(p, c);
    assert(lc_is_choice(p, c));
    if c < b {
        assert(crate::backend::lc_candidate(p, c));
    } else if c > b {
        assert(crate::backend::lc_candidate(p, b));
    }
    assert(lc_choice(p) == b);
}

/// The first `i` servers' best for cpu utilise: the first live one with the
/// most free cores, or -1 when none of them is alive.
spec fn cpu_best(p: PoolView, i: int) -> int
    decreases i,
{
    if i <= 0 {
        -1
    } else {
        let b = cpu_best(p, i - 1);
        if p.servers[i - 1].1.alive && (b == -1 || p.servers[i - 1].1.cores > p.servers[b].1.cores) {
            i - 1
        } else {
            b
        }
    }
}

proof fn lemma_cpu_best(p: PoolView, i: int)
    requires
        0 <= i <= p.servers.len(),
    ensures
        -1 <= cpu_best(p, i) < i,
        cpu_best(p, i) == -1 ==> forall|k: int| 0 <= k < i ==> !(#[trigger] p.servers[k].1.alive),
        cpu_best(p, i) >= 0 ==> {
            let b = cpu_best(p, i);
            &&& p.servers[b].1.alive
            &&& forall|k: int| 0 <= k < i && #[trigger] p.servers[k].1.alive ==> p.servers[k].1.cores <= p.servers[b].1.cores
            &&& forall|k: int| 0 <= k < b && #[trigger] p.servers[k].1.alive ==> p.servers[k].1.cores < p.servers[b].1.cores
        },
    decreases i,
{
    if i > 0 {
        lemma_cpu_best(p, i - 1);
    }
}

/// Cpu utilise takes a live server with at least the free cores of every live
/// server, the first such, and changes nothing.
pub proof fn law_cpu_utilise_choice(p: PoolView)
    requires
        pool_wf(p),
        p.algo == Algo::CpUtilise,
        get_next_defined(p),
        exists|k: int| 0 <= k < p.servers.len() && #[trigger] p.servers[k].1.alive,
    ensures
        0 <= next_choice(p) < p.servers.len(),
        p.servers[next_choice(p)].1.alive,
        forall|k: int|
            0 <= k < p.servers.len() && #[trigger] p.servers[k].1.alive ==> p.servers[k].1.cores
                <= p.servers[next_choice(p)].1.cores,
        forall|k: int|
            0 <= k < next_choice(p) && #[trigger] p.servers[k].1.alive ==> p.servers[k].1.cores
                < p.servers[next_choice(p)].1.cores,
        after_next(p) == p,
{
    let n = p.servers.len() as int;
    lemma_cpu_best(p, n);
    let b = cpu_best(p, n);
    let w = choose|k: int| 0 <= k < n && #[trigger] p.servers[k].1.alive;
    assert(p.servers[w].1.alive);
    assert(b >= 0);
    assert(cpu_is_choice(p, b));
    let c = choose|c: int| cpu_is_choice(p, c);
    assert(cpu_is_choice(p, c));
    if c < b {
        assert(crate::backend::cpu_candidate(p, c));
    } else if c > b {
        assert(crate::backend::cpu_candidate(p, b));
    }
    assert(cpu_choice(p) == b);
}

/// A heartbeat decides liveness alone, whatever the server's state was: no
/// reply makes it dead and keeps the rest; a reply makes it alive with the
/// reported cores and keeps its connections.
pub proof fn law_heartbeat_update(info: ServerInfo, reply: Option<HealthInfo>)
    ensures
        heartbeat_info(info, None) == (ServerInfo { alive: false, connections: info.connections, cores: info.cores }),
        reply matches Some(h) ==> heartbeat_info(info, reply) == (ServerInfo {
            alive: true,
            connections: info.connections,
            cores: h.cores,
        }),
        heartbeat_info(info, reply).alive == (reply is Some),
{
}

} // verus!
