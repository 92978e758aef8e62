# engine

A differentiable expression compiler: source text such as `sin(x*y) + x^2` is
lexed, parsed by a Pratt parser, lowered with hash-consing into an arena graph,
optimized (constant folding, common-subexpression elimination, dead-node
elimination), evaluated, and differentiated both symbolically (graph to graph)
and in reverse mode (one backward sweep gives the whole gradient).

The library in `src/` is verified with Verus. Every number is carried as the
IEEE-754 bit pattern of its `f64`; the arithmetic itself (evaluating an
operator, a local derivative, adding into an adjoint, reading or printing a
literal) is handed in by the caller, and the library's contracts say what is
done with whatever those closures answer.

Layout:

- `src/parse`: lexer, parser and lowering, each stated against a spec of the
  grammar (`lex_spec`, `parse_tokens`, `denotes`).
- `src/graph`: the arena, its topological invariant and the expression each
  node denotes (`term`), structural keys, and the infix printer.
- `src/optimize`: the three passes, with what each keeps (`folds`,
  `cse_result`, `is_live_set`/`compacted`) and the laws that relate them.
- `src/autodiff`: forward evaluation, the backward sweep, the Jacobian, the
  trace for the visualizer, and symbolic differentiation.
- `src/api`: the registry of compiled functions and the sorted variable list
  the HTTP service reports.
- `src/solver`: the forward-kinematics graph of a planar arm.
- `app/`: the HTTP service (axum), the `f64` arithmetic, the LU solver and the
  inverse-kinematics iteration.

Lookup tables are vectors searched in order: the hash-consing memo of the
lowering, the CSE memo keyed by canonical node keys, and the registry of
compiled functions keyed by id strings. Verus's model of `HashMap` lets a
proof reason about lookups only for keys whose hashing and equality it knows
(integers); with `String` keys or the crate's own key structs, an insert
followed by a lookup cannot be related in a proof. A vector keeps every
property the proofs need (each key present at most once, found exactly where
it was put) at the cost of a linear search.

Error messages show tokens and subtrees in the form of Rust's `Debug`: names
escaped as `Debug` escapes a string, and a literal by the `Debug` spelling of
its `f64` value, which the caller supplies (`2` shows as `Number(2.0)`).
