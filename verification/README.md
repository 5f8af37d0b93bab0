# mechanical_sympathy

Workloads from a series of CPU performance experiments (data layout, branch
prediction, false sharing, pointer chasing, benchmarking methodology), with
their functional behaviour stated as contracts and proved with Verus.

- `src/` is the verified library, one module per experiment:
  `aos_vs_soa`, `branch_prediction`, `false_sharing`, `pointer_chasing`,
  `reasonable_benchmarking`, plus the shared `prng` (xorshift64 as a
  mathematical function), `shuffle` (Fisher–Yates and the multiset it keeps),
  `seq_facts` (sums, permutations, arithmetic modulo 2^64) and `std_calls`
  (the few standard-library calls whose behaviour is taken from their
  documentation).
- `app/` is the command-line front end: timing loops, argument handling,
  thread spawning and pinning, the atomic counters, and the floating point
  conversion of a requested branch-taken proportion.
- `tests/` exercises the library on concrete inputs.

Besides the exact result of every function, the library proves, among
others: the pointer chase is one cycle through every node, both gathers and
every heap walk sum the same total, Sattolo's algorithm builds a single
cycle, every generated program has the same opcode mix and really repeats
with its period, the two dispatch strategies agree, and splitting a sweep
between threads (the last thread taking any remainder) gives the single
threaded total.
