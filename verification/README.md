# Gabion

Distributed rate limiting. Each node counts hits against its own rules and
gossips per-origin counters to its peers; the cluster-wide count of a key is the
sum over origins. Counters only rise within a window, and hearing of one takes
the larger count, so gossip may be lost, repeated and reordered.

The library under `src/` is verified with [Verus](https://github.com/verus-lang/verus):
every function has a contract over mathematical models of its data, and laws that
relate several functions are proof functions.

## Layout

| Module | What it holds |
| --- | --- |
| `crdt` | The cell store: per-origin counts with dictionaries, dirty rings and peer frontiers; the laws of merging |
| `wire` | Frames: header, body with per-packet dictionaries, authentication |
| `gossip` | A node event by event, peer sampling, downstream stores, a simulated network, and why gossip converges |
| `cells`, `messages`, `standalone` | The counter table, the message format and the rounds of the standalone gossip |
| `engine`, `limiter`, `requests`, `rules`, `window` | Deciding requests: rules, rates, sliding windows, fallbacks |
| `config`, `discovery`, `endpoints`, `startup` | What a configuration asks for, where peers come from, what to start with |
| `bench` | Simulated clusters: scenarios, workloads, steps and what to make of the samples |
| `loader` | Load generation: settings, schedules, HTTP and what was let through |
| `bytes`, `period`, `seqs`, `text`, `time` | Numbers as bytes, what spelled-out periods come to, first-match search, text scanning, durations |

`app/` is the program around it: sockets, timers, Kubernetes, YAML and JSON, and
the numbers that are floats. `tests/` runs the library.

## What is taken on trust

A few functions of other crates are called through wrappers whose contracts are
not proved: HMAC-SHA256 (`hmac`, `sha2`), XXH3 (`twox-hash`) and duration parsing
(`humantime`). Each wrapper says what is claimed of the function it calls.

## Running

```
gabion serve --config gabion.yaml     # a limiter and its gossip
gabion peer --bind 0.0.0.0:7946       # a bare gossip peer
gabion example --kind partition       # a scenario to start from
gabion run --scenario scenario.json   # run one scenario, JSON result
gabion load                           # load a limiter, as the environment says
```
