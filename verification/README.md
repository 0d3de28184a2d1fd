# gv_netcode

Server-side netcode of a multiplayer game, verified with Verus.

- `src/` is the library; every function in it is verified.
  - `actions`, `framed_updates`: client actions and the per-frame store they go to.
  - `walk_actions`, `cast_actions`, `look_actions`: adding received actions to
    the store with lag compensation.
  - `server_network`: the per-frame handling of client connections (room,
    actions, acknowledgements, heartbeats, pausing for lagging clients).
  - `broadcasting`: which queued world updates each client is sent.
  - `net`: the packet queues of connections.
  - `systems`: the game logic systems and their dependencies.
- `tests/` runs the library on concrete values.
- `app/` encodes and decodes messages with bincode and sends the packets the
  library asks for.
