# flamegraph-viewer

Loads profiles recorded with `perf` or in the Gecko format and shows them as flame
charts, flame graphs and tables. The core is a library verified with Verus; the programs
around it are ordinary Rust.

## Layout

- `src/` – the verified library: the profile model, the parsers, the layouts and
  aggregations, the reports, and the state of the window. Each public function states in
  its contract what it returns; properties that span functions are the public proof
  functions named `law_…`.
- `tests/` – tests of the library on concrete values.
- `app/` – the programs: `flamegraph-viewer` (the window), `hotspots` (a report),
  `validate` (sanity checks) and `gen_perf` (synthetic input). They read files, turn
  timestamps into nanoseconds, and draw. One binary serves all four; it goes by the name
  it is installed under.

The window is drawn with Bevy. The manifest leaves the choice of a window backend to
whoever builds the program: add Bevy's feature `bevy_winit`, and on Linux `x11` or
`wayland`.

## Supported formats

| Format          | Produced by                         | Notes                               |
| --------------- | ----------------------------------- | ----------------------------------- |
| `perf` JSON     | `perf data convert --to-json`       | one sample is one event             |
| `perf script`   | `perf script`                       | samples are weighted by their period |
| Gecko / Firefox | Firefox Profiler, Vernier           | one sample is one event             |

The format is detected from the extension and the start of the file. Symbol offsets
(`+0x…`) are stripped so that all occurrences of a function group together.

## The window

It opens on a prompt; drop a profile file on it. It then shows an overview of every
thread.

| Key             | Action                                                    |
| --------------- | --------------------------------------------------------- |
| arrows          | overview: select a thread; otherwise pan                  |
| `Enter` / click | overview: open the selected thread                        |
| `Tab`           | next view: overview, flame chart, flame graph, top        |
| `Esc`           | back to the overview                                      |
| `S`             | in the top table, next sort column                        |
| `+` / `-`       | in the top table, grow / shrink the font (also `X`/`Z`)   |
| `[` / `]`       | previous / next thread                                    |
| `Z` / `X`       | zoom the time axis                                        |
| `C` / `V`       | zoom the depth axis                                       |
| hold `Alt`      | show a tick at each sample and the nearest one's timestamp |

## The report

```
hotspots <profile> [--format table|tree|json] [--top N]
                   [--thread N | --all] [--min-pct P] [--offset]
```

- `--format table` (default) – a flat table per thread; `tree` – a pruned call tree;
  `json` – the same data for further processing.
- `--top N` – rows of a table, or branches at each node of a tree (default 20).
- `--thread N` – one thread (default: the busiest); `--all` – every thread.
- `--min-pct P` – leave out what has a smaller share (default 1).
- `--offset` – keep `+0x…` offsets instead of grouping by function.
