# meshbus

A distributed peer-to-peer service bus: link-state routing, packet forwarding
and publish/subscribe as state machines without I/O, written in Rust and
verified with Verus.

- `src/` is the verified library.
  - `types`, `text`, `order`, `ordered_map`, `buffer`: identities, times, and
    the collections and buffers that the rest is built on.
  - `protobuf`, `wire`: frames, packets and Protocol Buffers messages as bytes.
  - `control`: announcements, flooding, anti-entropy, expiry, and shortest
    paths.
  - `forward`: what becomes of a packet at a node; a packet for several
    destinations goes over each link once.
  - `pubsub`: topics, envelopes, deduplication, and delivery.
  - `transport`: introductions, links, and what the worker of a link does.
  - `runtime`: what a node does with each input; how control messages and
    packets are framed; where sequence numbers are kept; publish/subscribe on
    top of it all.
  - `lab`: a laboratory that runs a mesh and judges whether it has converged.
- `tests/` runs the library, with whole meshes of nodes that exchange frames
  without sockets among the tests.
- `app/` is the programs: sockets, files, processes and web pages around the
  library.

Each function states in its contract what it returns or changes. What holds
across functions stands as proof functions: that routes are shortest and do not
loop, that what is written is read back, that a message is delivered once, that
a published message reaches its subscribers, and others. They are gathered in
the modules named `laws`, `runs` and `travel`, or stand beside the functions they speak
of.

The program is installed under two names. `mblab-node` runs one node:

```sh
mblab-node --id 1 --name node-1 --mesh-port 7001 --admin-port 9001 \
  --seq-path state/node-1.seq
```

`--id` and `--seq-path` are required. `mblab` starts several nodes, connects
them through proxies that can delay and lose frames, and serves an interface on
a loopback address:

```sh
mblab --initial 5 --port 8080 --tick-ms 220
```
