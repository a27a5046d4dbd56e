# flashpad

The logic of FlashPad, a tray note-taking app, as a library verified with
Verus, and the desktop shell around it.

- `src/` is the verified library: the database profiles and the app
  configuration (`profiles`), backup names, listing and retention
  (`backup`), the daily backup decision (`scheduler`), note defaults, the
  lock rule, duplication, sibling reordering and the cycle check for moves
  (`notes`), the order in which legacy folders become notes (`db`), reading
  FlashNote autosave logs and planning their import (`flashnote`), image
  embedding (`images`), cross-database search (`search`), the window and
  hotkey rules (`shell`), with the text and ordering helpers they share
  (`text`, `order`). The calls into `regex`, `chrono`, `base64` and std's
  path and string functions sit behind the trusted items of `foreign` (and
  one in `text`), each with a doc comment saying what is assumed of it.
- `tests/` runs the library on concrete values.
- `app/` is the Tauri application: commands, SQLite through `rusqlite`,
  files, the tray, the global hotkey and the hourly backup thread. It hands
  plain values to the library and acts on what comes back.
