# hypersync

A gateway between HyperLiquid nodes and the public peer-to-peer network. A node connects to the
gateway only; the gateway finds live peers, relays or replays the bootstrap, forwards live blocks in
rising order, and answers client-block requests through the peer that the node's session is pinned
to.

`src/` is the library: everything the gateway decides and computes, written in Verus with its
contracts proved. `app/` is the program around it: sockets, files, clocks and arguments. `tests/`
runs the library on concrete values.

| Module | What it holds |
| --- | --- |
| `wire` | big- and little-endian integers, frames, byte search |
| `lz4` | the bounded decoder of the first bytes of an LZ4 block, and the calls into `lz4_flex` |
| `protocol` | greetings, plausible rounds, the round of a block, windows of seen rounds |
| `frames` | rows of frames, clusters of rounds, headers that come in pieces |
| `text`, `lists`, `order` | texts, lists without repeats, stable order |
| `peers`, `probe`, `peerd`, `peer_files` | addresses, probes, the peer daemon and its files |
| `push` | merging, failover, push sessions |
| `cache`, `capture` | the bootstrap cache, its capture, replay and refresh |
| `nodes` | the state of each node and when it is given up |
| `select`, `client_blocks`, `gateway` | the choice of peers, client blocks, routing |
| `testing` | a block store, mock frames, a benchmark and a synthetic node |

Each module states its laws as public proof functions beside the functions they speak of.
