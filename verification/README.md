# p2p_channel

Peer-to-peer UDP channels with NAT hole punching.

`src/` is the library, verified with Verus:

- `addr` — IP and socket addresses as plain integers, and their order.
- `channel` — routes and route keys, the channel status rules (NAT type,
  closing), the choice of the socket that sends or reads, and
  `channel::table`, the route table: the route of each peer and, per route
  key, its peers and the last read and write times. For id types whose
  equality, hashing and cloning behave as on plain values (the integer
  types, among others), the table's two halves are proved to stay
  consistent under every operation; what each operation does to the view
  (which peer has which route) is stated for every id type. The table
  keeps its maps in std's `HashMap` and a `Vec` ordered by route key, not in
  the concurrent maps of `dashmap` and `crossbeam-skiplist`: their entries
  hold the caller's id type, and a function naming the contents of such a
  map would have to be generic over it, which a trusted declaration here
  cannot be. The lock around the table lives in `app/`.
- `idle` — when a route key is idle, and what the idle watcher does next.
- `punch` — NAT types and the planning of hole punching: the ports near a
  peer's public port and the sweep over a random order of all ports, which
  visits every port once before it starts over.
- `stun::socket` — the choice of a local network interface.

`app/` holds what talks to the system: the sockets and the poll loop of a
channel, the threads' wake-ups, the punch queues and the socket options.

`tests/` runs the library on concrete values.
