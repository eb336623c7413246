# RustyDO

A server for Digimon Online v1.5: the login server (accounts, lobby, rooms and
games) and the status server, with the game rules and the wire formats proved
correct with Verus.

## Layout

- `src/` is the verified library.
  - Wire formats: `bytes`, `rc4`, `crypt` (header codec and RC4 body cipher),
    `reader`, `writer`, `text`, `packet`, `conn` (reassembling packets from a
    stream), `status` (the status server's packets and messages between servers).
  - The world: `object` (entities and components), `component`, `session`
    (queued messages), `server`, `room`, `turn_table`, `timer`.
  - The handlers, by where a client is: `before_login`, `after_login`,
    `on_lobby`, `on_room`, `on_game`, and the dispatcher `login`.
  - `consistency` states what every operation on the world keeps: clients in
    rooms and the rooms that hold them agree, and no user or client uid is
    logged in twice.
  - `guard` decides, before a packet, a timer or a disconnection is handled,
    whether the world holds what the handler relies on.
  - `hash` and `config`: passwords and configuration.
- `tests/` runs the library on concrete packets and worlds.
- `app/` is the program: sockets, the record store, the configuration file and
  the main loop. It hands packets to the library and delivers what the library
  queues.
