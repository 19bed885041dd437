# fitkit

Measure, refuse outside validity, optimise, verify.

The library in `src/` is the verified core of an engine that answers from measurement rather than
from plausibility. Everything in it is integer and structural logic, stated with contracts and
proved by Verus:

| Module | What it holds |
| --- | --- |
| `span` | `Span`, a half-open region of the problem, its laws, and the first span covering a position |
| `refusal` | `Refusal`, `RefusalKind`, `Answer` |
| `reported` | `Reported`, a quantity a source may not have measured |
| `bits` | set bits of a `u64` mask, counted and reasoned about as a set |
| `cost` | `Rules`, the rules a search step breaks, which unite rather than add |
| `decode` | the bookkeeping of a decode: `Tally`, the size check, backpointer walks |
| `subset` | `Terms`, the declarations a subset search obeys, and `Selection` |
| `ledger` | `Citation`, `Law`, `ask`, which checks a law's domain before deriving, and `lists`, which finds an unreported quantity by name |
| `guards` | `forbid_symbols`, which keeps name keyed lookups out of a derivation |
| `feasible` | which rows a requirement adds, and where each row's columns stand in a simplex tableau |
| `model` | the `Model` trait and the `Sense` of a feasibility row |

Confidence, margins, friction, the path and subset searches, the feasibility solver and the
guards that check them all compute with `f64`, which the verified core does not hold. They live in
`app/`, an ordinary Rust crate over the library that reaches into it for every piece of integer
logic those layers use.

`tests/` exercises the library from outside.

The guard that checks that applying the identity plan changes nothing, and its two tests, are not
here. It is written against `Model::apply_plan`, a `Segmented` signal and a `margins` function that
the engine's model layer names but never defines: there is no method to call and no type to
implement, so neither the guard nor a test of it can be built.
