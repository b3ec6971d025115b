# qst_ext_appsearcher_rust

An application-search extension: it collects the applications of the system's desktop
entries and of its configuration file, numbers them, and finds them by a fuzzy prefix of
their names.

The library under `src/` is verified:

- `trie`: the trie of lower-cased names, with exact, first-completion and fuzzy prefix
  search, and the laws that relate insertion to the searches.
- `config`: the application records and the name-keyed store of them; `config::sys` reads
  a desktop entry (the entry is found with the `regex` crate) into a record.
- `flag`: the command line (`--id`, `--uri`, `--help`).
- `server::main`: the index of applications by id and by name, and the entries a search
  returns.

`app/` holds the program around it: loading and saving the configuration file, reading
`/usr/share/applications`, signals, logging and launching processes.
