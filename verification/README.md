# uiua_reduce

The modifiers of the Uiua array language that work through the rows of arrays, verified with Verus:

- `reduce` combines the rows of a value into one value,
- `scan` gives what reducing gives after each row,
- `fold` carries accumulators along the rows of one or more arrays.

## Layout

- `src/eco.rs`: the clone-on-write vector of the `ecow` crate, with what is believed of it, and
  windows into it.
- `src/array.rs`, `src/value.rs`: arrays and values, and their rows.
- `src/function.rs`, `src/error.rs`: functions, primitives, failures and their wording.
- `src/env.rs`: the environment: stacks, and the `Runtime` that executes functions and computes with
  numbers. Nothing is believed of a runtime. Every contract says what follows from whatever the
  runtime gives, and which calls of it were made, in which order.
- `src/fast.rs`, `src/pervade.rs`: reducing and scanning numbers item by item.
- `src/reduce.rs`, `src/scan.rs`, `src/fold.rs`: the modifiers.
- `src/laws/`: what holds of the library as a whole.
- `app/`: a runtime whose numbers are `f64`, and the modifiers run in it.
- `tests/`: tests of the library.
