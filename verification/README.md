# reverse_search

Reverse search (`bck-i-search`) over the prompts of a chat thread and of the threads that are
connected with it by forks. The library is verified with Verus.

- `src/` is the verified library.
  - `thread_id`, `text`, `entries`: ids of threads, strings, and what is searched and shown.
  - `rollouts`, `family`, `messages`, `load`: which rollouts there are, which threads belong together
    and in which order they are read, which prompts a rollout records, and the load that puts the
    entries together.
  - `pattern`, `footer`: the calls into `regex_lite` and `ratatui`, with their contracts.
  - `state`: the search from its beginning to its end.
  - `search_laws`, `load_laws`: what holds of every search and of every load.
- `app/` reads the disk, runs the load as a task, and turns the formats of the Codex protocol into the
  plain values of the library. It is built within the Codex workspace, whose crates `codex_core` and
  `codex_protocol` it uses.
- `tests/` runs the library.
