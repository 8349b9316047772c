# skillscripts

A local registry of skills and scripts: configuration files are merged,
source files are scanned for YAML headers, the headers become an index with
tool names for agents, and the index and the script registry are searched
from the command line, an interactive picker and an MCP server.

## Layout

- `src/` is the library, written and proved with Verus. Every public
  function states in `ensures` what it returns; `src/laws.rs` holds the
  properties that span several functions. Calls into outside crates
  (`dirs`, `dunce`, `path-clean`, `skim`, `fuzzy-matcher`, `typed-path`)
  and a few std functions go through small trusted wrappers whose doc
  comments say what is assumed of them.
- `app/` is the program around the library: argument handling, file and
  terminal I/O, YAML and JSON through serde, the ratatui picker loop and the
  rmcp server. It hands the library plain values and prints what comes back.
- `tests/` runs the library on concrete inputs.
