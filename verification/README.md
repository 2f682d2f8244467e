# optimizer

Verified building blocks of an optimiser for an SSA intermediate
representation, written in Verus. Each point says what the contracts prove.

- `compute_graph`, `simplify`: sum/product graphs over `i32` literals and
  temporaries and their ordering. Each normalisation step has its own
  contract: `sort` keeps the value and leaves every list of children
  sorted; `reduce` keeps the value and leaves the graph flat (for graphs
  without empty nodes); one `simplify` pass keeps the value; constant
  folding, distribution, division and common-term removal state when they
  succeed and what they give. The whole normalisation loop (`sanity`, and
  with it `add`, `sub`, `mul`, `div`) is not proved to keep the value: it
  does not always keep it (see the test
  `normalisation_can_change_the_value`).
- `arith`, `emit`: splitting literal factors off sums, grouping by factor,
  and building instructions that compute a graph (`build_instr`), proved to
  leave the graph's `i32` value in the target.
- `rearrange`, `rearrange_block`: the local expression rearrangement pass;
  a block's rewritten form leaves every temporary with the value the block
  leaves it. The shape of the emitted trees is not stated.
- `fold_constants`: literal folding of additions and subtractions: each
  instruction is folded as stated, with the same value guarantee.
- `arith_pass`: the arithmetic simplification pass over a block
  (`sovle_bb`): stores, calls and the other instructions stay in order and
  comparisons keep their operator and target; on an error the block is
  left as it was. That the rebuilt arithmetic keeps its values is not
  stated (it rests on the normalisation above).
- `if_combine`: branch-free selects (`combine_i32`, proved to give the
  chosen value; `combine_f32`; boolean selects, stated through what the
  caller's building function gives), the temporaries known to hold zero or
  one, and the merging of the two branches of a conditional (stores and
  calls paired, every other instruction of both branches kept in order).
- `node_info`: the tables of global value numbering (numbers of
  temporaries, operands of numbers, expressions and pure calls), each read
  giving back the last write, and `work`, which numbers one instruction,
  replaces its operands and drops it where its value is already held.
- `calc_coef`, `calc`, `gvn`, `lvn`, `number`, `fvn_utils`,
  `stack_hashmap`, `instruction_extension`, `indvar`, `loopinfo`: helpers of the
  coefficient, value-numbering and instruction-extension passes.
- `topo`: the topological order of a control-flow graph's blocks, proved
  to respect every edge and to be found whenever one exists.
- `impls`: the pass schedules of the optimisation levels.

`app/` drives the schedules and holds the floating-point folding.
