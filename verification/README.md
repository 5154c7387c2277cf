# routing_project

A simplified OSPF-style link-state router (P-OSPF), written in Verus.

Routers discover their neighbours with HELLO messages, flood link-state
advertisements (LSAs), compute cheapest paths with Dijkstra's algorithm over
link costs derived from interface capacities, and keep a routing table that
they install in the system table. Messages between routers are encrypted
with AES-256-CBC.

## Layout

- `src/` is the library. Its functions carry contracts proved by Verus,
  except the trusted wrappers named below, whose contracts are assumed;
  functions that read the clock state only what holds of every reading:
  - `dijkstra`: link costs, the topology seen from a router, cheapest paths
    (proved optimal over all walks), and the table of advertised networks.
  - `lsa`, `neighbor`, `packet_loop`, `state`: the daemon's decisions. Each
    received datagram is turned into a state change and a list of actions
    (send, forward, recompute, reply) that the application performs.
  - `net_utils`: addresses, networks, broadcast targets, encryption framing.
  - `ospf`: a second OSPF engine (HELLO handling, LSA database, routing
    table through `petgraph`'s Dijkstra) and its legacy text commands.
  - `mesh`: the multicast variant with its own shortest-path computation.
  - `routing_core`, `protocol`, `server`, `client`, `utils`: the routing
    table, neighbour and interface managers, message codecs and the
    protocol server's message handling.
  - Trusted wrappers around outside crates (`pnet`'s IP networks, `aes` and
    `cbc`, `rand`, `petgraph`, `uuid`) and a few std functions (UTF-8
    decoding, whitespace splitting, the system clock)
    are marked `#[verifier::external_body]`: Verus takes their contracts
    without proof, and their doc comments say what is assumed.
- `app/` is the unverified program around the library: sockets, timers,
  system routing table updates (`net-route`, `rtnetlink`), configuration
  files (`toml`), serialisation (`serde_json`, `bincode`) and logging.
- `tests/` runs the library on concrete values.
