# andpull

Backup, restore and two-way sync of media between a PC and an Android device
over ADB, with a dual-pane terminal browser.

## Layout

- `src/` is the library, verified with Verus. Every public function states
  what it returns or changes in its `requires`/`ensures`; laws that relate
  several functions are public proof functions.
  - `text`, `num`: character-level text and number handling (trimming,
    splitting, decimal and hex digits, UTF-8 lengths).
  - `adb`: parsing of `adb devices`, `ls` and `stat` output, the device
    shell commands, error classification of pulls and pushes.
  - `scanner`: the device and local file trees, their loading through a
    directory lister (`walked`, `local_walked` say what a load makes of a
    tree), selection, totals and browser ordering.
  - `browser`: rows, search, cursor rules, key bindings and deletion order
    of the dual-pane browser.
  - `state`: the resume state of a transfer (completed, failed and synced
    files) and an ordered path index.
  - `transfer`: where files land, what a resumed or delta sync skips, the
    jobs of the worker pool, tar header parsing and xxh3 file digests.
  - `profile`: backup profiles, how their trees are built, the shared worker
    budget, restore preflight and app-data steps.
  - `cli`, `display`, `error`: argument parsing, texts for the screen, the
    error type and its messages.
- `app/` is the program around the library: processes, files, threads,
  the terminal UI and JSON state files. It makes the calls the library
  decides on.
- `tests/` exercise the library on concrete values.
