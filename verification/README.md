# spotsearch

The core of the SpotSearch launcher, verified with Verus: parsing desktop
entries, matching applications against a query, scoring and ranking indexed
files, building the index's queries, choosing application and icon
directories, the update bookkeeping, and the window's reactions to the
toggle flag, the socket, the tray and focus changes.

- `src/` is the verified library. Each public function states its result
  over spec functions on sequences of characters; the `law_*` proof
  functions state properties that span calls (ranking order, de-duplication,
  hidden entries, sanitized search terms, stripping escape sequences).
- `tests/` runs the library on concrete values.
- `app/` is the program around it: the Tauri window, the SQLite index, the
  file system walk, reading desktop files and icons, settings on disk, and
  running `git` and the installer.
