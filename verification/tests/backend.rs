use stabilize::address::Address;
use stabilize::backend::{Algo, Config, HealthInfo, Server, ServerInfo, ServerPool};
/// An IPv4 socket address written as "a.b.c.d:port".
fn addr(s: &str) -> Address {
    let (ip, port) = s.split_once(':').unwrap();
    let o: Vec<u8> = ip.split('.').map(|x| x.parse().unwrap()).collect();
    Address::v4(o[0], o[1], o[2], o[3], port.parse().unwrap())
}

fn config(quic: &[&str], weights: &[u16]) -> Config {
    let mut c = Config::new();
    for (i, q) in quic.iter().enumerate() {
        c.servers.push(Server::with_weight(addr(q), addr("127.0.0.1:6000"), weights[i]));
    }
    c
}

#[test]
fn test_server_get_addr() {
    let quic: Address = addr("127.0.0.1:5347");
    let hb: Address = addr("127.0.0.1:5348");
    let new_server = Server::new(quic, hb);
    assert_eq!(quic, new_server.get_quic());
    assert_eq!(hb, new_server.get_hb());
}

#[test]
fn address_from_octets() {
    assert_eq!(Address::v4(127, 0, 0, 1, 5347), Address::V4 { ip4: 0x7f000001, port: 5347 });
    let v6 = Address::V6 { ip6: 1, port: 443, flowinfo: 0, scope_id: 0 };
    assert_eq!(v6, Address::V6 { ip6: 1, port: 443, flowinfo: 0, scope_id: 0 });
    assert_ne!(v6, Address::V6 { ip6: 1, port: 443, flowinfo: 0, scope_id: 1 });
}

#[test]
fn round_robin_cycles_through_config() {
    let addrs = ["127.0.0.1:5347", "127.0.0.1:5348", "127.0.0.1:5349"];
    let mut pool = ServerPool::from_config(config(&addrs, &[1, 2, 3]), Algo::RoundRobin);
    for round in 0..2 {
        for i in 0..3 {
            assert!(pool.can_get_next());
            let server = ServerPool::get_next(&mut pool);
            assert_eq!(server.get_quic(), addr(addrs[i]), "round {}", round);
        }
    }
}

#[test]
fn round_robin_skips_dead_servers() {
    let addrs = ["127.0.0.1:5347", "127.0.0.1:5348", "127.0.0.1:5349"];
    let mut pool = ServerPool::from_config(config(&addrs, &[1, 1, 1]), Algo::RoundRobin);
    pool.check_health(&vec![Some(HealthInfo { cores: 1 }), None, Some(HealthInfo { cores: 1 })]);
    let got: Vec<Address> = (0..4).map(|_| ServerPool::get_next(&mut pool).get_quic()).collect();
    assert_eq!(got, vec![addr(addrs[0]), addr(addrs[2]), addr(addrs[0]), addr(addrs[2])]);
}

#[test]
fn round_robin_with_no_live_server_cannot_choose() {
    let addrs = ["127.0.0.1:5347", "127.0.0.1:5348"];
    let mut pool = ServerPool::from_config(config(&addrs, &[1, 1]), Algo::RoundRobin);
    pool.check_health(&vec![None, None]);
    assert!(!pool.can_get_next());
    assert!(!ServerPool::new().can_get_next());
}

#[test]
fn least_connections_counts_and_releases() {
    let addrs = ["127.0.0.1:5347", "127.0.0.1:5348", "127.0.0.1:5349"];
    let mut pool = ServerPool::from_config(config(&addrs, &[1, 1, 1]), Algo::LeastConnections);
    let a = ServerPool::get_next(&mut pool).get_quic();
    let b = ServerPool::get_next(&mut pool).get_quic();
    let c = ServerPool::get_next(&mut pool).get_quic();
    assert_eq!(vec![a, b, c], vec![addr(addrs[0]), addr(addrs[1]), addr(addrs[2])]);
    let counts: Vec<u16> = pool.servers.iter().map(|(_, i)| i.connections).collect();
    assert_eq!(counts, vec![1, 1, 1]);
    pool.connection_closed(addr(addrs[1]));
    let counts: Vec<u16> = pool.servers.iter().map(|(_, i)| i.connections).collect();
    assert_eq!(counts, vec![1, 0, 1]);
    assert_eq!(ServerPool::get_next(&mut pool).get_quic(), addr(addrs[1]));
}

#[test]
fn least_connections_skips_dead_servers() {
    let addrs = ["127.0.0.1:5347", "127.0.0.1:5348"];
    let mut pool = ServerPool::from_config(config(&addrs, &[1, 1]), Algo::LeastConnections);
    pool.check_health(&vec![None, Some(HealthInfo { cores: 2 })]);
    assert_eq!(ServerPool::get_next(&mut pool).get_quic(), addr(addrs[1]));
    assert_eq!(ServerPool::get_next(&mut pool).get_quic(), addr(addrs[1]));
    assert_eq!(pool.servers[1].1.connections, 2);
}

#[test]
fn closing_under_round_robin_changes_nothing() {
    let addrs = ["127.0.0.1:5347"];
    let mut pool = ServerPool::from_config(config(&addrs, &[1]), Algo::RoundRobin);
    pool.connection_closed(addr(addrs[0]));
    assert_eq!(pool.servers[0].1, ServerInfo::new());
}

#[test]
fn cpu_utilise_picks_most_free_cores() {
    let addrs = ["127.0.0.1:5347", "127.0.0.1:5348", "127.0.0.1:5349"];
    let mut pool = ServerPool::from_config(config(&addrs, &[1, 1, 1]), Algo::CpUtilise);
    assert_eq!(ServerPool::get_next(&mut pool).get_quic(), addr(addrs[0]));
    pool.check_health(&vec![None, None, None]);
    pool.check_health(&vec![
        Some(HealthInfo { cores: 2 }),
        Some(HealthInfo { cores: 8 }),
        Some(HealthInfo { cores: 8 }),
    ]);
    assert_eq!(ServerPool::get_next(&mut pool).get_quic(), addr(addrs[1]));
}

#[test]
fn weighted_round_robin_uses_gcd_of_added_weights() {
    let mut pool = ServerPool::new();
    pool.algo = Algo::WeightedRoundRobin;
    pool.add(Server::with_weight(addr("127.0.0.1:5347"), addr("127.0.0.1:6347"), 2));
    pool.add(Server::with_weight(addr("127.0.0.1:5348"), addr("127.0.0.1:6348"), 4));
    assert!(pool.can_get_next());
    assert_eq!(ServerPool::get_next(&mut pool).get_quic(), addr("127.0.0.1:5348"));
    assert_eq!(pool.previous, 1);
}

#[test]
fn weighted_round_robin_equal_weights_is_round_robin() {
    let addrs = ["127.0.0.1:5347", "127.0.0.1:5348", "127.0.0.1:5349"];
    let mut pool = ServerPool::from_config(config(&addrs, &[5, 5, 5]), Algo::WeightedRoundRobin);
    let got: Vec<Address> = (0..4).map(|_| ServerPool::get_next(&mut pool).get_quic()).collect();
    assert_eq!(got, vec![addr(addrs[0]), addr(addrs[1]), addr(addrs[2]), addr(addrs[0])]);
}

#[test]
fn weighted_round_robin_follows_weights() {
    let addrs = ["127.0.0.1:5347", "127.0.0.1:5348", "127.0.0.1:5349"];
    let mut pool = ServerPool::from_config(config(&addrs, &[1, 2, 3]), Algo::WeightedRoundRobin);
    let got: Vec<Address> = (0..12).map(|_| ServerPool::get_next(&mut pool).get_quic()).collect();
    let cycle = vec![addr(addrs[2]), addr(addrs[1]), addr(addrs[2]), addr(addrs[0]), addr(addrs[1]), addr(addrs[2])];
    assert_eq!(got[..6], cycle[..]);
    assert_eq!(got[6..], cycle[..]);
    for (i, w) in [1, 2, 3].iter().enumerate() {
        assert_eq!(got[..6].iter().filter(|a| **a == addr(addrs[i])).count(), *w);
    }
}

#[test]
fn weighted_round_robin_with_gcd() {
    let addrs = ["127.0.0.1:5347", "127.0.0.1:5348", "127.0.0.1:5349"];
    let mut pool = ServerPool::from_config(config(&addrs, &[2, 2, 8]), Algo::WeightedRoundRobin);
    let got: Vec<Address> = (0..6).map(|_| ServerPool::get_next(&mut pool).get_quic()).collect();
    assert_eq!(
        got,
        vec![addr(addrs[2]), addr(addrs[2]), addr(addrs[2]), addr(addrs[0]), addr(addrs[1]), addr(addrs[2])]
    );
}

#[test]
fn weighted_round_robin_skips_dead_servers() {
    let addrs = ["127.0.0.1:5347", "127.0.0.1:5348", "127.0.0.1:5349"];
    let mut pool = ServerPool::from_config(config(&addrs, &[1, 2, 3]), Algo::WeightedRoundRobin);
    pool.check_health(&vec![Some(HealthInfo { cores: 1 }), Some(HealthInfo { cores: 1 }), None]);
    let got: Vec<Address> = (0..3).map(|_| ServerPool::get_next(&mut pool).get_quic()).collect();
    assert_eq!(got, vec![addr(addrs[1]), addr(addrs[0]), addr(addrs[1])]);
}

#[test]
fn check_sessions_with_no_algorithm_cannot_choose() {
    let addrs = ["127.0.0.1:5347"];
    let pool = ServerPool::from_config(config(&addrs, &[1]), Algo::CheckSessions);
    assert!(!pool.can_get_next());
}

#[test]
fn update_server_info_from_heartbeat() {
    let mut info = ServerInfo::new();
    info.alive = false;
    ServerPool::update_server_info(&mut info, Some(HealthInfo { cores: 3 }));
    assert_eq!(true, info.alive);
    assert_eq!(info.cores, 3);
    ServerPool::update_server_info(&mut info, None);
    assert_eq!(false, info.alive);
}

#[test]
fn check_health_marks_live_and_dead() {
    let addrs = ["127.0.0.1:5347", "127.0.0.1:5348"];
    let mut pool = ServerPool::from_config(config(&addrs, &[1, 1]), Algo::RoundRobin);
    pool.check_health(&vec![Some(HealthInfo { cores: 1 }), None]);
    assert_eq!(pool.servers[0].1.alive, true);
    assert_eq!(pool.servers[1].1.alive, false);
    // A server that stays alive keeps its state, cores included.
    assert_eq!(pool.servers[0].1.cores, 0);
    pool.check_health(&vec![None, Some(HealthInfo { cores: 6 })]);
    assert_eq!(pool.servers[0].1, ServerInfo { alive: false, connections: 0, cores: 0 });
    assert_eq!(pool.servers[1].1, ServerInfo { alive: true, connections: 0, cores: 6 });
}

#[test]
fn sessions_connect_find_disconnect() {
    let mut pool = ServerPool::new();
    let client = addr("127.0.0.1:60612");
    let other = addr("127.0.0.1:60613");
    assert_eq!(pool.find_client_server(client), None);
    pool.client_connect(client, addr("127.0.0.1:5347"));
    pool.client_connect(other, addr("127.0.0.1:5348"));
    assert_eq!(pool.find_client_server(client), Some(addr("127.0.0.1:5347")));
    pool.client_connect(client, addr("127.0.0.1:5349"));
    assert_eq!(pool.find_client_server(client), Some(addr("127.0.0.1:5349")));
    assert_eq!(pool.sessions.len(), 2);
    pool.client_disconnect(client);
    assert_eq!(pool.find_client_server(client), None);
    assert_eq!(pool.find_client_server(other), Some(addr("127.0.0.1:5348")));
    assert_eq!(pool.sessions.len(), 1);
}

#[test]
fn route_client_is_sticky() {
    let addrs = ["127.0.0.1:5347", "127.0.0.1:5348", "127.0.0.1:5349"];
    let mut pool = ServerPool::from_config(config(&addrs, &[1, 1, 1]), Algo::RoundRobin);
    let client = addr("127.0.0.1:60612");
    let first = pool.route_client(client, true);
    assert_eq!(first.get_quic(), addr(addrs[0]));
    assert_eq!(pool.find_client_server(client), Some(first.get_quic()));
    let again = pool.route_client(client, true);
    assert_eq!(again.get_quic(), addr(addrs[0]));
    let other = pool.route_client(addr("127.0.0.1:60613"), true);
    assert_eq!(other.get_quic(), addr(addrs[1]));
}

#[test]
fn route_client_leaves_dead_server() {
    let addrs = ["127.0.0.1:5347", "127.0.0.1:5348"];
    let mut pool = ServerPool::from_config(config(&addrs, &[1, 1]), Algo::RoundRobin);
    let client = addr("127.0.0.1:60612");
    assert_eq!(pool.route_client(client, true).get_quic(), addr(addrs[0]));
    pool.check_health(&vec![None, Some(HealthInfo { cores: 1 })]);
    assert_eq!(Algo::check_sessions(&mut pool, client), None);
    assert_eq!(pool.find_client_server(client), None);
    assert_eq!(pool.route_client(client, true).get_quic(), addr(addrs[1]));
    assert_eq!(pool.find_client_server(client), Some(addr(addrs[1])));
}

#[test]
fn check_sessions_finds_live_server() {
    let addrs = ["127.0.0.1:5347", "127.0.0.1:5348"];
    let mut pool = ServerPool::from_config(config(&addrs, &[1, 1]), Algo::RoundRobin);
    let client = addr("127.0.0.1:60612");
    assert_eq!(Algo::check_sessions(&mut pool, client), None);
    pool.client_connect(client, addr(addrs[1]));
    let found = Algo::check_sessions(&mut pool, client).unwrap();
    assert_eq!(found.get_quic(), addr(addrs[1]));
    pool.client_connect(client, addr("127.0.0.1:9999"));
    assert_eq!(Algo::check_sessions(&mut pool, client), None);
    assert_eq!(pool.find_client_server(client), Some(addr("127.0.0.1:9999")));
}

#[test]
fn decrement_connections_for_address() {
    let addrs = ["127.0.0.1:5347", "127.0.0.1:5348"];
    let mut pool = ServerPool::from_config(config(&addrs, &[1, 1]), Algo::LeastConnections);
    ServerPool::get_next(&mut pool);
    Algo::decrement_connections(&mut pool, addr(addrs[0]));
    assert_eq!(pool.servers[0].1.connections, 0);
}

#[test]
fn add_appends_fresh_server() {
    let mut pool = ServerPool::new();
    pool.add(Server::with_weight(addr("127.0.0.1:5347"), addr("127.0.0.1:6347"), 3));
    assert_eq!(pool.servers.len(), 1);
    assert_eq!(pool.servers[0].1, ServerInfo::new());
    assert_eq!(pool.servers[0].0.weight, 3);
    assert_eq!(ServerPool::get_next(&mut pool).get_quic(), addr("127.0.0.1:5347"));
}

#[test]
fn config_new_is_empty() {
    assert!(Config::new().servers.is_empty());
}

#[test]
fn route_without_sticky_ignores_sessions() {
    let addrs = ["127.0.0.1:5347", "127.0.0.1:5348"];
    let mut pool = ServerPool::from_config(config(&addrs, &[1, 1]), Algo::RoundRobin);
    let client = addr("127.0.0.1:60612");
    pool.client_connect(client, addr(addrs[1]));
    assert_eq!(pool.route_client(client, false).get_quic(), addr(addrs[0]));
    assert_eq!(pool.find_client_server(client), Some(addr(addrs[1])));
    let other = addr("127.0.0.1:60613");
    assert_eq!(pool.route_client(other, false).get_quic(), addr(addrs[1]));
    assert_eq!(pool.find_client_server(other), None);
}

#[test]
fn sticky_route_and_close_keep_counts() {
    let addrs = ["127.0.0.1:5347", "127.0.0.1:5348"];
    let mut pool = ServerPool::from_config(config(&addrs, &[1, 1]), Algo::LeastConnections);
    let client = addr("127.0.0.1:60612");
    let first = pool.route_client(client, true);
    let again = pool.route_client(client, true);
    assert_eq!(first, again);
    let counts: Vec<u16> = pool.servers.iter().map(|(_, i)| i.connections).collect();
    assert_eq!(counts, vec![2, 0]);
    pool.connection_closed(again.get_quic());
    pool.connection_closed(first.get_quic());
    let counts: Vec<u16> = pool.servers.iter().map(|(_, i)| i.connections).collect();
    assert_eq!(counts, vec![0, 0]);
}

#[test]
fn least_connections_has_no_cap() {
    let addrs = ["127.0.0.1:5347", "127.0.0.1:5348"];
    let mut pool = ServerPool::from_config(config(&addrs, &[1, 1]), Algo::LeastConnections);
    pool.servers[1].1.connections = 300;
    pool.check_health(&vec![None, Some(HealthInfo { cores: 1 })]);
    pool.servers[1].1.connections = 300;
    assert_eq!(ServerPool::get_next(&mut pool).get_quic(), addr(addrs[1]));
    assert_eq!(pool.servers[1].1.connections, 301);
}

#[test]
fn cpu_utilise_picks_live_server_without_cores() {
    let addrs = ["127.0.0.1:5347", "127.0.0.1:5348"];
    let mut pool = ServerPool::from_config(config(&addrs, &[1, 1]), Algo::CpUtilise);
    pool.check_health(&vec![None, Some(HealthInfo { cores: 0 })]);
    assert_eq!(ServerPool::get_next(&mut pool).get_quic(), addr(addrs[1]));
}

#[test]
fn lookup_drops_ipv6_flow_information() {
    let mut pool = ServerPool::new();
    let client = addr("127.0.0.1:60612");
    let server = Address::V6 { ip6: 1, port: 443, flowinfo: 7, scope_id: 2 };
    pool.client_connect(client, server);
    assert_eq!(
        pool.find_client_server(client),
        Some(Address::V6 { ip6: 1, port: 443, flowinfo: 0, scope_id: 2 })
    );
}
