# nanoclo

A kernel for a dependent type theory with universes, inductive types with
recursors, quotients, structure eta and literals: type inference, weak head
reduction, definitional equality, and the check of declarations. Everything
under `src/` is verified by Verus.

## What is proved

`theory.rs` defines the judgements: reduction, definitional equality and typing
are the least relations closed under the rules written there. The contracts of
the executable functions speak of them over the terms that interned expressions,
closures and values stand for:

- what `whnf` returns is a reduct of its argument, and neither a `let` nor an
  applied lambda stands at its head;
- what `def_eq` calls equal is equal, and an expression is called equal to itself;
- what `infer` returns is a type of its argument, and of sorts, constants, free
  variables and literals it is the one the declarations give;
- a declaration that is accepted has a type that is a type, and a value of it;
- nothing overflows, nothing is out of bounds, nothing panics.

A check may end without an answer: a store can be full, and recursion is bounded
by a depth limit that is this library's own. Both are errors of their own. The
contracts account for every failure: a comparison that answers no has recorded
the pair it answered no to, a rejection has recorded what it was for, and any
other error comes only where a call found its depth used up or a store full.

`laws.rs` states what holds of the kernel as a whole: that interning is faithful,
that later declarations change nothing for earlier ones, that reference counts
cover their holders, that being one term up to binder names is symmetric.

## Layout

- `term`, `theory`: terms, levels and the judgements
- `bignum`, `table`, `level`, `expr`, `env`, `names`, `counters`: stores
- `arena`, `rc`, `nbe`, `collect`: values, spines, and their reference counts
- `closure`, `uses`, `reads`, `reify`, `memo`, `spine`, `strlit`, `ctx`,
  `ctx_ops`, `session`: closures, environments and the state of a check
- `tc`, `tc_ops`, `eval`, `reduce`, `nats`, `types`, `conv`, `beta`, `infer`,
  `infer_app`, `check`: the checker
- `rapier`, `rp_core`, `rp_memo`, `rp_reduce`, `rp_rec`, `rp_infer`, `rp_conv`,
  `rp_delta`: the delayed-instantiation machine
- `fuse_cost`, `fuser`, `fuse`, `fuse_app`: fusion of compiled matches and
  recursions

`app/` runs checks on threads and reads settings from the environment. `tests/`
runs the library.
