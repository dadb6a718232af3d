# async-shell

A headless terminal multiplexer and Model Context Protocol server for AI agents:
agents register, spawn commands in pseudo-terminals, page through their
cleaned scrollback with a read cursor each, and send keystrokes.

- `src/` is the verified library (Verus): `text` (decoding, escape removal,
  line splitting and rendering), `grid` (the scrollback and per-agent cursors),
  `keys` (agent ids from Ed25519 keys), `session` (agents and sessions) and
  `mcp` (request handling).
- `app/` is the program around it: JSON-RPC over stdin/stdout, pseudo-terminals
  and the threads that read them.
- `tests/` runs the library on concrete inputs.
