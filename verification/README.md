# rad

A daemon that keeps one language server per project running and shares it between editors.

Multiplexing a language server takes more than passing bytes on: request ids have to be renumbered,
a server has to get an answer to each of its requests from somebody, a document has an owner, and a
client that goes away must not leave anything open. Those decisions are what this library makes, and
what it proves of them.

- `src/` is the library. It performs no I/O: an event goes in, a list of actions comes out.
  - `model` says what a state is and what each event makes of it.
  - `server` and `peers` are the state as the program has it, and the handlers of events. Each
    handler is proved to do what `model` says.
  - `laws` are proofs of what holds of the daemon as a whole: requests get their answers, clients
    share a server exactly if they need the same one, the state stays settled.
  - `frame`, `json`, `params`, `events` and `intake` read and write messages.
  - `path`, `root`, `launch`, `types` and `session` find the server that a client needs.
  - `table` holds the hash tables, `wakatime` the reports of what a client works on.
- `app/` is the program: sockets, processes, the environment.
- `tests/` are examples.

`rad daemon` runs the daemon. An editor is configured to run `rad` as its language server.
