# subdiv_kernels

Subdivision-surface kernels for Catmull-Clark, Loop, sqrt(3) and Doo-Sabin
meshes, written and verified in Verus.

A mesh is refined topology first: `Refiner` makes the connectivity of every level
and a stencil table per step. The tables then blend any data that is given per
vertex, or per face corner. On top of that stand limit stencils, bicubic patches,
evaluation of the limit surface at any place, and closest points.

- `src/` is the library. It is generic over the number type (`Scalar`, `Wide`,
  `Metric`) and uses no floating point itself; `Fixed` is a number type that comes
  with it. Contracts are stated over sequences and over the spec functions of the
  number type. Laws that span functions stand in modules of their own (`tables`,
  `chains`, `copies`, `uniform`, `validity`, `results`, `searches`). What holds only
  where arithmetic does not round is stated over exact readings of the numbers
  (`linear`, `weights`, `unity`, `means`, `tangents`, `sectors`, `hulls`, `nearest`,
  `blends`, `channels`, `flips`, `corners`, `parity`).
- `tests/` runs the library in single and double precision and in fixed point.
- `app/` adds floating-point number types, serialised forms of the data types, and
  stencil evaluation on a graphics device.
