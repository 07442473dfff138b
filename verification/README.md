# palpo

The verified core of a Matrix homeserver, written in Verus. Every function
under `src/` carries a contract that Verus proves; the laws the library keeps
stand as public proof functions (`lemma_*`).

## Layout

- `src/identifiers.rs`: the grammar of server names (IPv4 and IPv6 literals,
  ports), user ids and room ids.
- `src/compressed.rs`, `src/state_set.rs`, `src/delta.rs`: room state as sets
  of compressed entries, and the layered state deltas stored for it.
- `src/graph.rs`, `src/auth_chain.rs`: the ordering of the event graph and
  auth chains.
- `src/incoming.rs`, `src/timeline.rs`, `src/visibility.rs`, `src/acl.rs`:
  decisions on events arriving over federation, on events appended to a
  room, on who may see them, and on server ACLs (glob matching).
- `src/sync.rs`, `src/sliding_sync.rs`: what a client sync sends, and the
  connection cache of sliding sync.
- `src/sending.rs`, `src/destination.rs`: outgoing transactions and where
  they go (server name resolution).
- `src/appservice.rs`: application service namespaces (through `regex`).
- `src/admin.rs`, `src/auth.rs`, `src/uiaa.rs`, `src/space.rs`,
  `src/alias.rs`, `src/media.rs`, `src/typing.rs`, `src/relations.rs`,
  `src/state_event.rs`: the rest of the request-level logic.
- `src/store.rs`: values kept in memory per user, device and session (the
  request bodies of interactive authentication, sliding-sync connections).
- `tests/`: tests on concrete values.
- `app/`: what the library cannot hold (driving network lookups, reading
  JSON).

Network, database and clock access stay with the caller: the library's
functions take what those answered and say what to do next.
