# drip

A compiler for the drip language whose stages are proved with Verus: each function
states in its contract what it returns, over plain mathematical models of the data.

* `src/frontend`: source files and reports, tokens, interned names, the syntax tree
  and the walk through it.
* `src/middle/resolve`: what the names in the tree stand for.
* `src/middle/hir`, `src/middle/ty.rs`, `src/middle/type_check`: the high-level
  representation, types, and the type checker.
* `src/middle/lir`: the low-level representation, its layouts and listing, and the
  lowering to it. Structures are copied on assignment and in calls; copies of those
  that do not change can be left out.
* `src/middle/optimization`: simplifying the low-level code.
* `src/backend`: leaving SSA form, and assembly for x86-64 with Linux.
* `app`: the command line.

A contract of a stage is a spec function from its input to an `Option` of its result;
there is no result for the inputs that the stage does not handle, and its functions
require that there is one. Proof functions whose names start with `law_` state what
holds of a stage as a whole.
