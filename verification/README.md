# arcanum

A live hardware dashboard for Intel graphics (i915 and xe drivers): CPU
utilization, clocks and temperatures, memory, and per-GPU engine
utilization, clocks, temperatures, fans, power and client memory, read
straight from kernel interfaces (`/proc`, hwmon, DRM sysfs and `fdinfo`).

## Layout

- `src/` is the library, written in Verus and verified. It holds what the
  dashboard decides from kernel text and from the counters it keeps
  between polls:
  - `text`: the string operations the parsers rest on (`lines`, `trim`,
    `split_once`, `split_whitespace`, integer parsing), each specified
    over `Seq<char>`.
  - `order`: a stable sort by (number, number, text) keys.
  - `collector::cpu`: `/proc/stat` parsing and jiffy differencing; RAPL
    package-energy differencing.
  - `collector::memory`: `/proc/meminfo` fields.
  - `collector::fdinfo`, `collector::counts`: DRM `fdinfo` records and the
    per-device, per-client counter table (duplicate descriptors merge by
    maximum, never by sum).
  - `collector::engines`: per-engine activity between two scans, client
    memory, engine labels.
  - `collector::gpu`: card identity from `uevent`, `pci.ids` lookup,
    render-node attribution, energy differencing and the collector state.
  - `collector::hwmon`: attribute naming and ordering, power-limit
    preference, combining a card's sensor directories, coretemp split.
  - `history`: the bounded plot series; `ui`: page routing and captions.
- `app/` is the program around it: file and directory reads, the sampler
  thread, the conversions of exact counter deltas into floating-point
  rates, and the egui interface.
- `tests/` runs the library on concrete inputs.

Usage: `arcanum` opens the dashboard; `arcanum --once` prints one sample,
`arcanum --once --json` prints it as JSON; `--interval <seconds>` sets
the poll interval.
