# stabilize

A QUIC load balancer. The library (`src/`, verified with Verus) holds what the
balancer decides:

- `backend`: the server pool (`ServerPool`), its balancing algorithms (round
  robin, weighted round robin, least connections, cpu utilise), the
  sticky-session table (`backend::sessions`), health bookkeeping, and
  `backend::laws`, the properties proved of them;
- `frontend`: packet filters and the receive buffer a stream is read into;
- `options`: the command line options and what they select;
- `address`: socket addresses as plain values.

`app/` is the program around it: command line parsing, the configuration file
(TOML) and heartbeat messages (JSON), QUIC endpoints and the UDP heartbeats. It
keeps the pool behind a lock and asks the library where each connection goes.
