# gossip_sim

A simulator of a push gossip protocol, with its logic verified by Verus.

Each node keeps a push active set: for every stake bucket, a list of peers and,
for each peer, the origins that peer has pruned. A message from an origin spreads
breadth first: every node that receives it for the first time pushes it to the
first `fanout` peers of its active set that have not pruned the origin. The
simulator records the fewest hops to each node, the hops through every inbound
peer, the tree of first deliveries, the pushes, the prunes and the message
counts, and from these the coverage, the stranded nodes and the relative message
redundancy over many rounds.

## Layout

- `src/` — the verified library.
  - `pubkey.rs`, `sort.rs`, `key_map.rs`: keys, a verified insertion sort and an
    insertion-ordered map keyed by node keys.
  - `push_active_set.rs`: stake buckets, active set entries, pruning and rotation.
  - `gossip.rs`: nodes, the cluster's breadth-first spread, prunes, and building a
    cluster from accounts.
  - `gossip_stats.rs`: hop statistics, stranded nodes and their histogram, message
    counts.
  - `influx_db.rs`: the line-protocol text of the data points and the decisions of
    the loop that sends them.
  - `received_cache.rs`: the received cache of a node.
  - `accounts.rs`: reading the accounts file, a YAML mapping from key text to stake,
    and choosing the accounts to write out.
  - `simulation.rs`: the order of work in a simulation (warm-up rounds, measured
    rounds, summary), as a step function from the simulation's state to its next
    state and the action to perform, and the settings of each simulation of a sweep.
- `tests/` — tests of the library on concrete values.
- `app/` — the program around the library: arguments, reading the accounts file's
  bytes, random shuffles, performing the simulation's steps, floating-point
  statistics, printing, and sending data points over HTTP.

The contracts of the public functions state their results over spec functions;
the public proof functions state the laws that relate several operations, such
as that a prune stops the pruned peer from pushing the origin's messages, or that
the breadth-first spread finds the fewest hops to every node it reaches.
