# zenscript-toolkit

Bracket-handler completions for CraftTweaker's ZenScript, as a verified
library and the language server and Zed extension around it.

- `src/` — the verified library:
  - `text`: the character-level model of `str::lines`, `contains`,
    `split_once` and `trim`, with executable counterparts;
  - `string_map`: `StringMap`, a `String`-to-`String` map kept in ascending
    key order;
  - `parse`: reading the last `[ZSBC DUMPER START]` … `[ZSBC DUMPER END]`
    block of a `crafttweaker.log`, and merging an additional list;
  - `words`: the word under the cursor, and the `<...>` bracket under it;
  - `server`: settings, documents and entries, and the answers to
    completion and hover requests;
  - `protocol`: which requests and notifications are handled;
  - `extension`: which release asset holds the server binary for a platform,
    and the steps that fetch it (a step function from phase and report to
    next phase and action; app/ carries the actions out).
- `app/` — stdio transport, JSON, file reads, the clock, and the Zed API.
- `tests/` — tests of the library on concrete inputs.
