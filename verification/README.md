# corgit

The backend of Corgit, a desktop dashboard for a folder full of git
repositories, as a verified library with a thin application around it.

- `src/` is the library, verified with Verus: parsing what git prints
  (status, log, refs, diffs, commit details, branch lists), the argument
  lists of every git command the app runs, the state of an open folder and
  how sweeps, writes, pins and fetches change it, the problems list, the
  write-in-progress counts, the watcher throttle, bulk runs and the
  schedule of the periodic work. Each public function states what it
  returns in its `ensures`; the `law_*` proof functions state what holds
  across calls.
- `tests/` runs the library on concrete inputs.
- `app/` is ordinary Rust: the Tauri window and its commands, spawning git,
  the files on disk, file-system watchers and the async plumbing. It hands
  the library plain values and acts on what comes back.
