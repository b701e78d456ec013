use stabilize::backend::Algo;
use stabilize::Opt;

fn opt(algo: Option<&str>, cert: Option<&str>, key: Option<&str>) -> Opt {
    Opt {
        listen: 4433,
        cert: cert.map(|s| s.to_string()),
        key: key.map(|s| s.to_string()),
        protocol: String::from("cstm-01"),
        algo: algo.map(|s| s.to_string()),
        sticky: false,
    }
}

#[test]
fn algorithm_names() {
    assert_eq!(opt(Some("wrr"), None, None).algorithm(), Algo::WeightedRoundRobin);
    assert_eq!(opt(Some("lc"), None, None).algorithm(), Algo::LeastConnections);
    assert_eq!(opt(Some("cpu"), None, None).algorithm(), Algo::CpUtilise);
    assert_eq!(opt(Some("rr"), None, None).algorithm(), Algo::RoundRobin);
    assert_eq!(opt(None, None, None).algorithm(), Algo::RoundRobin);
}

#[test]
fn cert_paths_need_both() {
    let both = opt(None, Some("c.der"), Some("k.der")).cert_paths();
    assert_eq!(both, (String::from("c.der"), String::from("k.der")));
    let one = opt(None, Some("c.der"), None).cert_paths();
    assert_eq!(one, (String::from("cert.der"), String::from("key.der")));
    let none = opt(None, None, None).cert_paths();
    assert_eq!(none, (String::from("cert.der"), String::from("key.der")));
}
