# rsyncp

A progress wrapper for rsync: it runs rsync, reads its output, and shows the
estimated time remaining and the file being sent (green) or deleted (red), by
comparing the current run with the previous run of the same command.

## Layout

- `src/` is the library, written in Verus with contracts and proofs:
  - `config.rs`: the command line, the refused rsync arguments and the cookie.
  - `output.rs`: picking the latest file and progress lines out of rsync's output.
  - `progress.rs`: the decisions of the progress loop and the status line.
  - `runner.rs`: the cookie file, the rate window, the rsync command and the state
    directory.
  - `eta.rs`: the sample window and the text of a remaining time.
  - `text.rs`: searching, decimal rendering and parsing over characters.
  - `width.rs`: the display width of text (from `unicode-width`).
- `app/` is the program around it: process handling, polling, signals, files,
  the terminal size, and the floating-point rate estimate.
- `tests/` runs the library on concrete inputs.
