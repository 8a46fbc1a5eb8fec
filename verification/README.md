# reg_alloc

Register allocation for compiler back ends, written in Verus and verified:

- `register` — registers, register classes and a register file that hands
  out the first free register of a class and takes it back;
- `liveness` — live ranges and a backward liveness analysis over basic
  blocks, whose live-in/live-out sets are proved to be the least solution of
  the dataflow equations, and live-in exactly when a path reaches a use with
  no definition on the way;
- `interference` — an undirected interference graph (symmetric, without
  self-loops) with degrees, node removal and construction from live ranges;
- `coloring` — Chaitin-style simplify/select colouring with up to 256
  colours, proved to remove nodes in an order that takes a node with fewer
  than k neighbours when there is one and otherwise the node with the most
  neighbours as the potential spill, to give interfering vregs different registers, to give
  each vreg the smallest colour its neighbours leave free, to spill a vreg
  only when every colour is taken by one of its neighbours, and to spill
  nothing when simplification alone can take the graph apart;
- `spill` — spill slots that never overlap and lie within the frame, and the
  store/load code that spilling emits.

Tests are under `tests/`.
