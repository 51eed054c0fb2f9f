# twwh3_mods

A load-order manager for Total War: WARHAMMER III on Linux, with its logic
verified by Verus.

- `src/` is the library. Every function states what it does in its contract, over
  plain values: texts, lists, and views of the state.
  - `text`, `order`, `strmap`, `calendar`, `json`: what the rest is written with.
  - `paths`, `steam`, `model`, `cli`: settings, Steam's files, the pool of mods.
  - `app`, `keys`, `profiles`, `modlist`, `session`, `versions`: the state, what
    each key does to it, and the profiles that hold it.
  - `store`, `launch`, `overlay`, `dataview`, `bundle`: what is stored, launched,
    mounted, exported and imported.
  - `status`, `ui`, `screen`: what is shown.
  - `laws`: what holds of the application as a whole.
- `app/` is the program around it: files, processes, archives and the terminal.
- `tests/` runs the library on concrete values.

What the library believes without proof is declared where it is used: `serde_json`
in `json`, `sha2` in `store`, and two functions of the standard library in `text`.
