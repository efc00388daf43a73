# mex

A verified parser for mex files: build files in the manner of ninja, with quoted
variables, functions and loops.

- `src/` is the library. Its contracts say of every function what it reads, what it gives
  and what it reports, over the grammar in `src/grammar.rs` and `src/syntax.rs`. What
  holds of the library as a whole is stated in `src/laws.rs`.
- `app/` is the program `mex`, which reads `build.mex` or the file given with `-f` and
  shows how it was understood and what is wrong with it.
- `tests/` runs the library.

Trusted are the renderer of `annotate-snippets`, which makes a report of the errors
(`src/error.rs`), `String::push` (`src/text.rs`), and, with nothing claimed of them, the
functions of std through which places are traced (`src/code.rs`).
