# presolve

A verified presolver for linear, quadratic and conic programs

    minimise   1/2 x'Px + c'x + c0
    subject to l <= Ax <= u, h - Gx in K, lower <= x <= upper

The library in `src/` shrinks such a problem with a set of rules, records on a
tape what the way back needs, and carries solutions and certificates of
the small problem back to the large one. It also holds the benchmark tools around
the presolver: an MPS reader, snapshots of what the rules did to a corpus, their
comparison, and reports on runs.

Every function of `src/` is proved by Verus against its contract. Binary64 values
are bit patterns there; arithmetic comes in as functions, and the contracts hold
for whatever those functions return. `app/` is the program: it supplies floating
point, the clock, files and threads.

## Layout

- `number`, `arithmetic`, `bounds`: values and the operations on them.
- `linked`, `assembly`, `symmetric`, `symmetry`, `hessian`, `csc`, `triplets`,
  `summation`: sparse matrices.
- `problem`, `cone`, `conic`, `export`, `working`, `packing`: problems, their
  conic form and its multipliers, the working model of a problem and the way back
  from it.
- `model`, `transaction`, `batch`, `rewrite`, `queues`: the working model.
- `objective`, `substitution`, `eliminate`, `fixing`: changes to it.
- `activity`, `bounding`, `redundant`, `direction`, `multipliers`, `dual`: what
  rows say about variables, and variables about rows.
- `choices`, `passes`, `singletons`, `pivots`, `implied`, `shift`, `chains`,
  `trees`, `parallel`, `twins`, `bundles`, `dominated`, `folding`, `coupled`,
  `dependencies`, `peeling`, `sparsify`, `blocks` and the modules under it: the
  rules.
- `schedule`, `settings`, `result`, `certificates`: the course of a run.
- `tape`, `lifting`, `recovery`, `warm`, `postsolve`: the way back.
- `credits`: which rule family brought which records.
- `mps`, `reader`, `source`, `json`, `snapshot`, `compare`, `render`, `results`,
  `report`, `corpus`: the benchmark tools.
