# DecLimiter

A per-process network bandwidth limiter for Windows. The library under `src/`
holds what the limiter decides and computes, each function with a contract
that Verus proves:

- `util`: the datarate grammar (`10mbps`, `500K`, ...) and process search;
- `network`: parsing of packets into flows, and the table of flows and their
  processes;
- `packets`: token buckets that pace one direction of traffic;
- `limiter`, `adapter`: the verdict on each packet, the delay queue, the
  speed tick and the collection of stale flows;
- `traffic`: byte counters and speeds per process and for the machine;
- `settings`, `rules`, `groups`, `order`, `sorting`, `units`, `publisher`,
  `icon`: the model behind the user interface;
- `cli`: the command line plan and the key handling of the terminal prompts;
- `clock`: the monotonic clock the limiter reads;
- `double`: limit values held as the bits of double-precision numbers, and
  the exact byterate they give in a unit.

`app/` is the program around it: the packet driver, the operating system's
connection tables, the tokio tasks, the terminal and the window. `tests/`
runs the library on concrete values.
