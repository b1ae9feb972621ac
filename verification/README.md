# merlion_render

The text-handling core of Merlion's diagram renderer, written in Verus: every
function in `src/` carries a contract, and Verus proves each one except those of
the five standard-library calls in `src/text.rs`, whose contracts are taken as
given.

- `src/model.rs`: the flowchart model the writers read (nodes, edges, clusters).
- `src/parse/`: source positions and cursors, the YAML front-matter subset, the
  JSON directive subset, label quoting and entity decoding, URL checks, source
  repairs, style declarations, flowchart links, the per-diagram statement
  helpers, and the resolution of a parsed flowchart into the model (clusters,
  `class`/`click`/`style` statements and their repairs and warnings).
- `src/stylesheet/`: block scanning of the stylesheet subset, its selectors,
  tokens and `var()` values.
- `src/svg/`: automatic roles by shape, XML escaping, class names, style sanitising, theme tokens, role
  rules, sequence marks, the flowchart's plain-text outline and the cluster draw
  order.
- `src/text.rs`: string and byte helpers shared by the modules, with the few
  standard-library calls whose behaviour the proofs take as given.

Laws that relate several functions are public proof functions named `lemma_*`
beside the functions they speak of. `tests/` runs the library on concrete inputs.
