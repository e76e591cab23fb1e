# mathlex-eval

Numerical evaluator for mathematical expression trees: compile a tree once
with constants, evaluate it many times with different arguments, with
N-dimensional broadcasting over array arguments (Cartesian product,
row-major).

## Layout

- `src/` — the library, verified with Verus.
  - `ast` — the input tree; `validate` — which node kinds can be evaluated;
    `fold` — constants, variables, index scopes and constant folding;
    `compile` — validation then folding; `ir` — the compiled tree.
  - `scalar` — evaluation at one point; `broadcasting` — output shapes and
    per-element arguments; `handle` — argument binding and the three ways
    of consuming results (scalar, whole array, element by element);
    `array` — the whole-array result, an `ndarray` array of values.
  - `number` — numbers as binary64 bit patterns, and the numeric backend
    interface: every floating-point step (arithmetic, built-in functions,
    factorials, reading integer bounds) is asked of a closure that the
    caller hands in. The library decides everything else: what is folded,
    when a division is by zero, which error comes first, what goes where in
    the output.
  - `error`, `functions`, `text` — errors and their messages, the built-in
    function table, decimal rendering.
  - `cli`, `dict` — the line and value syntax of the command-line
    evaluator, the order of a block's steps (parsed text, constants,
    compilation, variable values, binding, evaluation; the first failure is
    reported) and what it reports for a block (a scalar, or the shape and
    every element's result).
  - `properties` — laws of the library as a whole, as proof functions.
- `app/` — the program around the library: the binary64 backend and the
  float-level interface (`NumericResult`, `EvalInput`, float arrays),
  conversion from parsed `mathlex` trees, error types with `Display`, the
  Swift bridge, serde forms, and the command-line evaluator.
- `tests/` — tests through the public interface, each file with its own
  binary64 backend.
