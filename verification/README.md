# omeco

Contraction orders for tensor networks, written and proved in Verus.

A tensor network multiplies tensors and sums over labels. In which pairs the tensors are multiplied
decides what the evaluation costs. The library finds orders by two optimizers:

- `GreedyMethod` contracts the pair of tensors with the lowest loss, again and again. The loss is the
  size of the result less `alpha` times the sizes of the two. With a temperature the runner-up is
  taken now and then, as a generator says that is started anew in every call.
- `TreeSA` anneals contraction trees by local rewrites. Trials run in parallel, and the best one
  wins.

What is proved:

- every order that an optimizer returns contracts each tensor once and yields the output of the
  expression, and it computes what the expression computes (`order`, `value`);
- annealing only rearranges a tree, and keeps linear orders linear (`anneal`, `sweep`);
- every random number that decides something is drawn from the state of the generator that the
  draw before it left, and the numbers of a trial start from its number alone (`random`, `init`,
  `sweep`, `treesa`);
- two schedules, one after the other, are one schedule, and the weight of what costs nothing plays
  no part (`sweep`);
- without sweeps a warm start gives the seed back (`treesa`);
- where a generator and the numbers repeat themselves, the same call gives the same order, and more
  trials find nothing worse (`repeat`);
- the greedy method takes the lowest loss in every step (`pairs`, `greedy`);
- the costs of an order are counted exactly (`complexity`, `count`).

Energies and scores are computed in a type of the caller with the trait `Scalar`, such as a
floating-point number. Nothing is taken for granted of its operations: contracts say which
operations are applied to what. Random numbers come from `rand`, the parallel trials from `rayon`.

`src/` is the library, `tests/` its tests, and `app/` offers it in double precision with the hash
maps of the standard library.
