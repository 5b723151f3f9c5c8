# uiua_analysis

Static analysis of Uiua programs ahead of compilation, verified with Verus.

A function of a Uiua program is turned into a data graph (each operation a node, each
edge the value one operation takes from another), concrete shapes are inferred over
the graph, and the graph is prepared for code generation (machine types, conversions,
rewrites of comparisons and reductions). For symbolic analysis the library holds the
rule of each primitive (how type, range of the elements and symbolic shape of its
arguments give those of its outputs), and the matching of a call against a function
analyzed before; the driver that walks a graph applying these rules is not part of it.

## Layout

- `src/` — the verified library
  - `range.rs` — ranges of array elements and how arithmetic widens them
  - `poly.rs`, `axis.rs` — symbolic axis lengths as integer polynomials
  - `relation.rs` — requirements between axis lengths
  - `info.rs` — what is known of a value and of a node
  - `rules.rs`, `array_rules.rs` — how each primitive transforms what is known of its
    arguments
  - `concrete.rs`, `array_ref.rs` — concrete shapes, strided array views, base conversion
  - `graph.rs` — building the data graph by simulating the stack, and pruning it
  - `shape_infer.rs` — concrete shape inference over a data graph, with nested
    functions of `rows` and `table`
  - `comp_type.rs`, `prepare.rs`, `codegen.rs` — machine types, preparation of a graph
    for compilation, symbol names and tensor dimensions
  - `stack_effect.rs` — what processing a node does to the sizes of the stacks, computed
    ahead, so that a caller can tell whether a graph can be built
  - `axis_text.rs` — symbolic axis lengths as text
  - `matching.rs` — matching a call's arguments against a function analyzed before,
    and specializing what was found of it to the call
- `tests/` — tests of the library
- `app/` — the command-line program: reads an assembly, builds and analyzes the main
  function, and writes the graph in DOT form
