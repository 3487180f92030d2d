# mkultra

A minimal make-like build tool. The library under `src/` holds its logic,
verified with Verus; `app/` is the command-line program around it.

## Layout

- `src/cli.rs`: command-line options (`-f`, `-j`, groups of
  `-e -i -k -S -n -p -q -r -s -t`, `-h`, `--version`) and `NAME=value`
  overrides.
- `src/parser.rs`: reading a makefile (rules, tab-indented recipes with
  backslash continuations, `.PHONY`, `=`, `:=`, `?=` and `+=`
  assignments) into the graph, and the laws that reading only grows the
  graph and picks the first ordinary rule's target as the default.
- `src/dag.rs`: the dependency graph, the default target, cycle detection
  and staleness by modification times.
- `src/graph.rs`: the depth-first cycle search on a numbered graph.
- `src/topo.rs`: the build order of a target, and the proof that it lists
  every target the target depends on, once, after its prerequisites.
- `src/expand.rs`: expansion of recipe lines (`$@`, `$<`, `$^`, `$+`, `$?`,
  `$$`, `$NAME`, `$(NAME)`, `${NAME}`, `$(NAME:from=to)`,
  `$(wildcard ...)`, `$(shell ...)`); a variable's value is itself
  expanded, and a variable that refers back to itself expands to nothing
  there.
- `src/functions.rs`: the wildcard and shell functions; glob patterns come
  from the `glob` crate.
- `src/executor.rs`: running the recipes as a state machine (recipe
  prefixes `@`, `-`, `+`; dry run, keep going, ignore errors, silent,
  touch and question modes): the library decides, the program checks
  files, runs commands and reports back.
- `src/vars.rs`, `src/assoc.rs`, `src/text.rs`: variables, association
  lists and character-level text helpers.

The program in `app/main.rs` reads the makefile, lists directories (with
`walkdir`), runs commands through `/bin/sh` and prints, driving the
library's state machine.
