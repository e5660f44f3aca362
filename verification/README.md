# adw

Adds words to the extra dictionary of a Rime Wubi 86 setup, with the
dictionary logic verified by Verus.

- `src/` — the verified library:
  - `text`: trimming, prefixes, splitting, lines of a file and decimal
    numbers over characters;
  - `dict::entry`, `dict::header`, `dict::file`: dictionary lines, the YAML
    header (fields and `import_tables`), and whole dictionary files;
    `dict::reread`: reading a header again after an import was added;
  - `encoder::char_map`, `encoder::wubi86`: the code table of single
    characters and Wubi 86 phrase codes;
  - `extra`: linking the extra dictionary from the main one and appending
    entries to it;
  - `session`: the interactive session that reads a word, its code and a
    weight per entry;
  - `rime`: deployer and user-directory locations per platform, the choice
    among them, and what each `fd` search run leads to;
  - `error`: the tool's errors and their messages.
- `app/` — the `rime-addword` command line: arguments, files, environment,
  coloured output and running the deployer.
- `tests/` — tests of the library.
