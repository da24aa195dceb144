# remote_agent

The verified core of a lightweight remote agent for the Consulo IDE: it runs processes,
moves files in chunks, proxies HTTP requests and WebSocket sessions, and reports system
information to a remote IDE.

- `src/` is the library, written in Verus. Its functions carry contracts that Verus
  proves, except the few `#[verifier::external_body]` wrappers around calls into `http`
  (building the WebSocket handshake request) and into std's string functions, whose
  contracts are taken on trust from those libraries' sources and documentation. It covers
  the permission groups and which operation needs which (`permissions`, `access`), the output a process produces
  (`output`), WebSocket message buffering and sessions (`messages`, `websocket`), the
  tables of processes and transfers (`process`, `transfer`, `registry`, `ids`), the HTTP
  client's rules (`http`), the parsers behind system information (`sysinfo`, `files`,
  `platform`) and the text primitives they stand on (`text`).
- `app/` is the program around it: the command line, file and network I/O, threads,
  process control and platform calls.
- `tests/` runs the library on concrete inputs.
