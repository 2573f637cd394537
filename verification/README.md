# mvs

Which `/nix/store` path a version of a package built to, how big it is, what it
references and what references it — answered offline from an index of nixpkgs.

- `src/` is the library, verified with Verus: the index and the questions it
  answers (`load`, `db`, `index`, `pattern`), package specs and version order
  (`solve`, `version`), the store commands (`store`), the two roads of `run` and
  `shell` (`run`), and what is printed (`output`, `refusal`), on top of stable
  sorting and text (`order`, `rows`, `text`).
- `app/` is the command line around it: it reads the SQLite database, prints the
  answers and starts processes.
- `tests/` runs the library.

What is taken on trust is what SQLite's GLOB and LIKE operators do
(`pattern::Scratch`) and the escape sequences `owo-colors` writes
(`output::paint_*`).
