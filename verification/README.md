# vex

A small source package manager: packages are tarballs listed in a repository's
`pkgs.list`, each carrying a `build.vex` that names its version, dependencies,
build commands and install locations.

Layout:

- `src/` — the library, verified with Verus: the `.vex` language (`vex_lang`),
  the lock file (`lockfile`), install manifests (`manifest`), dependency
  resolution (`resolve`), repository listings (`fetch`), cache paths and
  staleness (`cache`), install decisions and `pkgs.vex` edits (`install`),
  filesystem snapshot diffs (`snapshot`), server routing (`serve`), output
  styles (`print`), configuration loading and search (`cli`), and the text
  functions they share (`text`).
- `tests/` — tests of the library on concrete values.
- `app/` — the command-line program: file system, processes, HTTP, threads,
  progress bars and coloured output, driving the library.
