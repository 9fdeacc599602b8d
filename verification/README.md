# delta_inference

Sparse deltas between a master tensor and a variant of it, verified with Verus.

## Layout

- `src/` is the verified library, generic over the element type `T`:
  - `delta_f32.rs`: `Patch`, `Delta`, `DeltaError`, `compute_delta_f32`,
    `delta_from_verdicts`, `apply_delta_f32`, and the laws that relate them
    (reconstruction, round trip, determinism, tolerance monotonicity, swap
    symmetry, patch count, composition of deltas).
  - `kv_delta.rs`: row-level KV deltas.
  - `policy.rs`: `ReusePolicy` and `should_reuse`, with its monotonicity law.
  - `runtime.rs`: `DeltaRuntime`, which keeps masters by `StateId`.
  - `state_types.rs`: `StateId` and `TensorView`.
- `app/` holds what floating point and the outside world need: the `f32`
  element test and fraction test, the default policy, the rayon-parallel
  element tests, the serde forms of the types, error messages, an `anyhow`
  runtime, and the Python bindings.
- `tests/` runs the library on `f32` and integer tensors.

## Element tests

Floating-point arithmetic cannot be verified here, so the library takes the
element test as a closure: `exceeds(m, v, tolerance)` says whether an element
changed.  The contracts state the delta in terms of the verdicts the closure
gave; `app/floats.rs` supplies `|m - v| > tolerance` for `f32`.

## How the runtime keeps its masters

`DeltaRuntime` stores its masters as a vector of `(StateId, data)` entries,
with a type invariant that no id occurs twice, and views them as a finite map
from id to data.  A hash map keyed by the JSON text of the id would behave
the same, since that text is a one-to-one function of the id; but Verus
proves nothing about lookups in a hash map with string or struct keys, and
the JSON text of a library type cannot be produced inside the verified
library.  The vector makes lookup linear in the number of masters, which are
few (one per tracked layer/head).
