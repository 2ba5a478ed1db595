# agent-browser-monitor

Finds and stops stale `agent-browser` and Playwright browser sessions.

- `src/` is the verified library: command-line redaction and profile detection, the process
  table, process trees and browser-parent climbs, grouping processes into sessions, the
  parsers for `/proc` files, `ps` lines and the Windows JSON inventory, snapshot counts and CPU
  figures in integers, and the choice of which processes to signal when a session is stopped. `src/laws.rs` states the properties that
  span several functions.
- `tests/` runs the library on concrete inputs.
- `app/` is the desktop shell: reading `/proc`, `ps` and PowerShell output, sending signals,
  the floating-point CPU and memory figures, the grace-period loop and the Tauri commands.
