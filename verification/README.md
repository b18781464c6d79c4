# Plant dashboard

A server for plants that are watered by a pump. A sensor node reports moisture readings and
pump events over TCP; the server keeps a log, averages old readings by the hour, writes what
is settled to a CSV file, waters on schedule and shows it all on a dashboard.

- `src/` is the library, verified with Verus: log compaction (`compact`, `hours`, `order`,
  `written`), the CSV format (`csv`, `text`), the watering schedule (`watering`), the framing
  of messages (`session`), what the dashboard shows (`dashboard`) and the settings (`config`).
  `laws`, `growing` and `settle` prove what holds across these.
- `src/clock.rs` is the border to `chrono`. What it says of time stamps, the clock and the
  local zone is believed, not proved.
- `app/` is the program around the library: sockets, files, threads and JSON. It expects
  `dashboard.html` and `dashboard.css` in its working directory, and the pictures of the
  plants under `pics/`.
- `tests/` runs the library on examples.
