# lint-quality

Finds disabled lint rules (`eslint-disable`, `@ts-ignore`, ...) in source trees,
attributes them to CODEOWNERS owners, and reports them as text, JSON, an
interactive terminal explorer, or a trend dashboard over saved reports.

## Layout

- `src/` is the library, verified with Verus: every function carries a contract
  over mathematical models (`Seq`, `Set`, `Map`, spec functions), and the laws
  that span several functions are public proof functions.
  - `scan` matches configured regex patterns line by line and extracts rule names;
  - `owners` parses CODEOWNERS, translates its patterns to globs and picks the
    owner of a path (the last matching rule wins);
  - `config` merges defaults, the config file and the command line, and decides
    where discovery looks for the config file;
  - `report` builds the summary counts (by pattern, category, rule, owner and
    directory, directories counting everything below them) and the report;
  - `tui` holds the explorer's state machine (filters, views, directory tree)
    and the text it shows; `tui::laws` states what holds across its operations;
  - `trend` orders saved reports in time and prepares the dashboard page;
  - `text`, `paths`, `counts` and `sort` are the string, path, counting and
    ordering helpers the rest is proved with.
- The regex and glob engines are called through a few trusted wrappers, each
  documented where it is declared.
- `app/` is the program around the library: argument parsing, file system
  walks and reads, JSON and TOML (de)serialization, terminal drawing, and the
  web server.
- `tests/` exercises the library on concrete inputs.
