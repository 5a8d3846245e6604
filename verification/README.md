# rvm_parser

Readers for AVEVA PDMS review models (RVM files), text and binary, verified with Verus.

- `src/` is the library. Each reader is stated as a spec function over the file's bytes
  (`spec_read_text_model`, `spec_read_binary_model`) and proved against it; the model
  tree is a `ModelTree`, which holds a `slab_tree::Tree<Group>` that only the library
  builds and grows, described by its nodes in pre-order with their
  depths. Laws about whole runs of blocks (only appending to the tree, the count of open
  groups, the header and model block at the top) are public proof functions in
  `document.rs` and `parse_binary.rs`, and `formats.rs` proves that a primitive
  written in both formats is read as the same primitive. Numbers are kept as IEEE-754 single-precision bit
  patterns; nom's `float` reads them from text.
- `tests/` runs the library on concrete text and bytes.
- `app/` is the program: it reads a file, prints the tree, and holds copies of the model
  types with serde's derives and `f32` numbers, plus the browser entry points.
