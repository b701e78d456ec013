use crate::backend::Algo;
use vstd::prelude::*;

verus! {

/// The command line options of the balancer. Paths are kept as strings.
pub struct Opt {
    /// Port to listen on.
    pub listen: u16,
    /// Certificate path.
    pub cert: Option<String>,
    /// Key path.
    pub key: Option<String>,
    /// Protocol spoken by the balancer.
    pub protocol: String,
    /// Load balancing algorithm to use.
    pub algo: Option<String>,
    /// Sticky sessions switch.
    pub sticky: bool,
}

/// The algorithm an option names: "wrr" weighted round robin, "lc" least
/// connections, "cpu" cpu utilise; any other name, or none, round robin.
pub open spec fn algo_named(name: Option<Seq<char>>) -> Algo {
    match name {
        Some(n) => if n == "wrr"@ {
            Algo::WeightedRoundRobin
        } else if n == "lc"@ {
            Algo::LeastConnections
        } else if n == "cpu"@ {
            Algo::CpUtilise
        } else {
            Algo::RoundRobin
        },
        None => Algo::RoundRobin,
    }
}

/// The certificate and key paths used when the options do not give both.
pub open spec fn default_cert_paths() -> (Seq<char>, Seq<char>) {
    ("cert.der"@, "key.der"@)
}

impl Opt {
    /// The algorithm named by the `algo` option (see `algo_named`).
    pub fn algorithm(&self) -> (a: Algo)
        ensures
            a == algo_named(match self.algo {
                Some(n) => Some(n@),
                None => None::<Seq<char>>,
            }),
    {
        match &self.algo {
            Some(name) => {
                let wrr = "wrr".to_owned();
                let lc = "lc".to_owned();
                let cpu = "cpu".to_owned();
                if *name == wrr {
                    Algo::WeightedRoundRobin
                } else if *name == lc {
                    Algo::LeastConnections
                } else if *name == cpu {
                    Algo::CpUtilise
                } else {
                    Algo::RoundRobin
                }
            },
            None => Algo::RoundRobin,
        }
    }

    /// The certificate and key paths: those given, when both are; otherwise
    /// "cert.der" and "key.der".
    pub fn cert_paths(&self) -> (r: (String, String))
        ensures
            (r.0@, r.1@) == (match (&self.cert, &self.key) {
                (Some(c), Some(k)) => (c@, k@),
                _ => default_cert_paths(),
            }),
    {
        match (&self.cert, &self.key) {
            (Some(c), Some(k)) => (c.clone(), k.clone()),
            _ => ("cert.der".to_owned(), "key.der".to_owned()),
        }
    }
}

} // verus!
