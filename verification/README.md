# gt-planner

Plans production lines for GregTech: from an export of recipes and a wanted rate of
a material it works out which recipes to run how often, how many machines that
takes, what has to come from outside and what is left over.

- `src/` is the library. It is verified with Verus: every function states what it
  returns, and the laws that hold across functions are public proof functions next
  to them.
- `tests/` runs the library with floating-point and fixed-point numbers.
- `app/` is the program around it: command line, web service, files, the solver for
  linear programs and the device that judges plans in parallel.

The library computes with numbers through the trait `scalar::Arithmetic`.
`fixed::Fixed` is decimal fixed-point arithmetic, proved to meet the trait; the
program brings 64-bit and 32-bit floating-point arithmetic.

| module | what it holds |
|---|---|
| `intern`, `model`, `raw`, `parser`, `graph` | recipes as they are exported, and the graph of materials and recipes |
| `names`, `chances` | translations, and the chances of outputs |
| `algo` | components and cycles, the condensed graph, dominated recipes, costs |
| `analysis` | all that is known of a graph before planning |
| `planner` | expansion of demands, beam search, tree search, plans |
| `solver` | the linear program of an exact plan, and the plan of its solution |
| `gpu` | parts of the graph and flow systems for a device, and scores that come back |
| `plan`, `process`, `record` | plans, flows between steps, records of runs |
| `balance` | what goes into a process comes out of it |
| `report`, `api`, `view` | what the command line and the web service show |
| `text`, `list`, `order`, `choices`, `scalar`, `fixed`, `util`, `error` | the ground they stand on |
