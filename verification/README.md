# gwr_models

Models of the parts of a machine-learning accelerator: tensors and views of
them, the operators that compute on them (Add, Gemm, MaxPool and custom
operators), the partitioning of compute tasks so that they fit in a
processing element's SRAM, a load/store unit, memories and memory maps,
set-associative coherent caches with a directory-based coherency manager,
a simple non-coherent cache,
and the routing of a mesh fabric.

The library in `src/` is written in Verus: each public function has a
contract, and the laws that relate functions stand as proof functions beside
them. The state machines (cache, coherency manager, load/store unit, memory)
are functions from a state and an incoming message to the next state and
the messages to send.

- `src/tensor.rs`, `src/tensor_view.rs`, `src/partition.rs`: shapes, tensors,
  views, their byte layouts and the overlap of views; `src/overlap.rs`: the
  bytes a view's ranges hold, and why the shortcuts of the overlap test are
  sound.
- `src/operators/`, `src/task.rs`, `src/machine_ops.rs`: operators, their
  validation, operation counts and partitioning.
- `src/cache/`: line states, cache contents, the cache controller, the
  coherency manager and their statistics.
- `src/memory/`, `src/lsu.rs`: memory maps, memories, access bookkeeping and
  the load/store unit's request slots.
- `src/fabric/`: fabric geometry, port numbering and routing.
- `src/progression.rs`, `src/floor_sum.rs`, `src/flop_windows.rs`,
  `src/activity.rs`: arithmetic on progressions of byte ranges, floor sums,
  reporting windows and activity lanes.

`app/` holds the parts that are not verified: configuration types with
serde derives, random workload generation, floating-point throughput, and
the loops that feed messages to the verified state machines. `tests/` holds
the tests.
