# dpml

A SAT solver for formulas in DIMACS CNF, written in Verus: the library in `src/` is
verified, and `app/` holds the command line program around it.

## Layout

- `src/parser.rs` reads DIMACS text (`parse`, `parse_cnf`); its grammar is a spec
  function on bytes (`dimacs`), and tautological clauses are left out.
- `src/cnf/` holds the solver's formula: clauses with two watched literals, variables
  with their watch lists, and the assignment (`CnfFormula::apply_assignment`,
  `undo_assignment`).
- `src/cdcl/` is the conflict-driven solver: unit propagation, first-UIP conflict
  analysis, non-chronological backjumping, literal priorities, Luby restarts and
  clause deletion.
- `src/dpll/` is the DPLL solver with chronological backtracking and its branching
  heuristics (DLCS, DLIS, MOM, shortest clause, Jeroslow-Wang orders).
- `src/preprocess/` holds the preprocessing formula (`CNF`), unit propagation,
  subsumption, self-subsumption and NiVER variable elimination with the recovery of
  eliminated variables' values.
- `src/branching/`, `src/assignment/` and `src/cli.rs` hold the Monien-Speckenmeyer
  branching, assignment values and the command line settings.

## What is proved

Besides well-formedness of every structure and freedom from overflow and panics:

- For a formula whose watches are sound (`watches_sound`, which `parse_cnf` and
  `CNF::to_cnf_formula` on tautology-free input establish) with nothing assigned,
  `Cdcl::solve` and `Dpll::solve` answer `Sat` only with an assignment that satisfies
  every clause, and `Unsat` only when no assignment of the variables satisfies them all.
  `Dpll::solve` answers `Sat` or `Unsat` unless it used up its `usize::MAX` branching
  steps; `Cdcl::solve` does the same on clauses that repeat no literal, unless its rounds
  or the clause IDs run out.
- Conflict analysis yields clauses that are false at the conflict, implied by the
  original clauses, with exactly one literal of the current decision level; after the
  backjump the learned clause is unit. In a consistent search it succeeds on every false
  conflict clause with a literal of the current decision level and no literal twice.
- A DPLL branching step either keeps its decision on a new level, flips it, or backtracks
  to a prefix of the earlier levels; propagation leaves nothing queued outside a conflict.
- The preprocessing unit propagation handles every queued unit, taking out the other
  clauses listed under its literal; NiVER runs until no active variable can be eliminated
  (unless clause IDs or its round budget run out), its trace lists the NiVER steps that
  lead from the input to the result (`niver_chain`), and the clauses it takes out stay
  out. Each elimination in the preprocessor's trace is a NiVER step whose clauses stay out.
- `generate_unit_queue` lists exactly the unit clauses. `apply_assignment` keeps the watch
  lists complete, never leaves a clause with both watched literals false outside a
  conflict, and queues every watching clause it leaves unit; `undo_assignment` reverts it.
- The parser's result, the clause order of the preprocessing formula, the heuristics'
  choices and the restart sequence are stated exactly in the functions' contracts.

## Running

`app/main.rs` is the program: `dpml <FILE>` solves the formula with the CDCL solver,
with preprocessing unless `--disable-preprocess` is given, and prints whether it is
satisfiable, with a model when it is, and the time taken.
