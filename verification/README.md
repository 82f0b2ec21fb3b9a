# memwatch

A read-only Linux memory monitor: RAM usage from `/proc/meminfo`, installed
DIMMs from `dmidecode --type memory`, memory bandwidth from the perf counters
of Intel uncore IMC free-running PMUs, and the processes with the most
resident memory. It runs as an interactive terminal view or, with `--once`,
prints a text report.

## Layout

- `src/` is the verified library (Verus). Every function states its result
  in `requires`/`ensures` over spec functions, and the laws that tie functions
  together are public proof functions.
  - `text`, `num`: character-level text handling and number parsing.
  - `memory`: `/proc/meminfo` parsing and the memory summary.
  - `dmi`: `dmidecode` memory-device records and their summary.
  - `processes`: `/proc/<pid>/status` parsing and the top-RSS ranking.
  - `bandwidth`: PMU event discovery over what sysfs holds, config packing,
    counter deltas, controller pairing and grouping, and the plan of the rates.
  - `order`: the order of texts and a stable sort by text pairs.
  - `render`: byte sizes, speeds and percentages as text (the percentage
    follows the double-precision computation and rounding exactly).
  - `report`: the text report and the panels of the interactive view (the
    bandwidth rates come in as texts).
  - `cli`: the interval option and the interactive view's key and timing rules.
  - `snapshot`: the previous-sample tracker and the diagnostics of a sample.
- `app/` is the program around it: argument parsing (clap), file and process
  I/O, perf counter access (libc), the terminal view (crossterm, ratatui), and
  the bandwidth rates, which are floating point.
- `tests/` runs the library on concrete inputs.
