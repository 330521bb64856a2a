# rc — verified command logic

The logic of the `rc` object-storage command line, written in Verus and
proved against its contracts.

- `src/` — the verified library:
  - `text` — searching, splitting, trimming, joining and ordering text,
    stated over `Seq<char>`;
  - `remote_path` — the `alias/bucket[/rest]` form of command paths;
  - `tag`, `tree`, `version`, `admin::policy` — the commands' parsing,
    planning and output, and the laws they keep;
  - `tree` also builds the tree view of a listing (a sorted forest) and
    draws it;
  - `setup` — the steps of connecting to a server as a state machine;
  - `pattern`, `size_text` — glob matching (`glob`) and size formatting
    (`humansize`) behind trusted wrappers.
- `tests/` — the command tests and tests of the library on concrete values.
- `app/` — the commands around the library: `clap` arguments, the calls to
  the object store and admin API, `serde` output and printing.
