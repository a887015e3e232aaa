# Storage Harvester

A per-host storage exporter: it scans configured local paths in the
background with Linux block accounting, caches what each scan found, and
serves the cached state as Prometheus metrics and as an HTML status page.

The library under `src/` is verified with Verus. It holds the logic:

- `config`: settings, inherited defaults, validation, duration parsing and the
  resolution of each target (display path, scan path under the host root).
- `scanner`: scan results, the scanner factory, exclude patterns (compiled with
  `globset`) and the native walk: the state a walk keeps, what each visited
  entry adds to the nodes above it, and which nodes are reported, in path order.
- `cache`: the table of target snapshots and how scan starts, successes and
  failures change it; readiness.
- `scheduler`: what a finished scan attempt does to the table.
- `exporter::prometheus` and `api`: the metrics text and the status page,
  rendered from cached snapshots only.
- `text`, `path`, `time`: characters, numbers, Unix paths and spans of time.

`app/` is the program around it: command-line arguments, reading the YAML
file, the filesystem side of each walk, the background tasks and the HTTP
server.
