# dot_rs

A minimal dotfiles manager (`dot`), with its core verified by Verus.

- `src/` is the verified library:
  - `paths.rs`: paths as strings with their component structure (on
    Windows with drive, `\\server\share` and `\\.\name` prefixes); joining, `~`
    expansion, the portable `~/…` form, `strip_prefix`, `file_name`.
  - `text.rs`: trimming and the last segment of a URL.
  - `toml_table.rs`: the `toml` table behind `entries.toml`, reached through
    a few trusted calls and seen as plain data.
  - `config.rs`: `~/.dotrc`, `entries.toml`, the home directory and the
    dotfiles folder.
  - `commands.rs`: the decisions of `init`, `add`, `apply`, `diff` and `sync`.
  - `cli.rs`: the command line's types.
  - `laws.rs`: properties that span several calls, such as the round trip
    of a path through its portable form.
- `app/` is the program: argument parsing (clap), the terminal (console,
  dialoguer), the environment, the file system and `git`.
- `tests/` runs the library on concrete values, partly against `std::path`.
