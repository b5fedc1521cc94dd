# jot

A dated note taker with configurable variants, as a verified library and a thin
command-line program.

- `src/` is the library, verified with Verus: paths of the notes directory,
  the front-matter framing of notes and their tags, the configuration of
  variants (kept in key order), the stamps that name notes, listing and
  searching notes, and what each command decides.
- `app/` is the program: the command line, the file system, the editor, and the
  TOML (de)serialisation of the configuration and of front matter.
- `tests/` runs the library on concrete values.
