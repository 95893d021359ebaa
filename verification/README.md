# nemo_store

Storing, restoring and explaining materialized models of rule programs.

- `src/` is a library whose contracts are proved by Verus:
  - `tabular::trie` and `tabular::trie::storage`: tables, and their encoding.
  - `dictionary`: dictionaries, snapshots of them, and their encoding.
  - `model_store`: what a store holds, how it is written and published, and how
    it is read.
  - `labeled_graph`, `rules` and `selection_strategy`: dependencies between rules,
    their stratification, and the order in which rules are applied.
  - `explain`: sharing the explanation of facts among worker processes.
  - `run`: the phases of a run, and its report.
  - `datavalues`, `literals`, `columnar`, `parameters`, `text` and `little_endian`:
    what the others are made of.
- `tests/` runs the library.
- `app/` is a command line around it: files, processes and the terminal. Its engine
  serves stored models and does not evaluate rules.
