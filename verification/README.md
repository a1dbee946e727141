# realtime_gateway

The verified core of a realtime messaging gateway. Clients connect over
WebSocket or WebTransport, authenticate, and exchange commands; the gateway
routes each command by a fixed registry (preauth, gateway-local, relayed
directly to peers, or published to the backend), keeps track of live
connections and their subjects, replays messages that arrived while a
subject was offline, routes backend responses back to the connection that
asked, and guards direct relays with backend-issued relay contexts (scope,
grant, policy version, replay nonces and rate limits).

Layout:

- `src/` — the library, verified with Verus. `state.rs` holds the gateway
  state and its model; `laws.rs` the properties proved across operations;
  `ingress.rs`, `preauth.rs`, `broker.rs` and `transport.rs` the decisions
  the transports and the outbox consumer take; `auth.rs` token checks
  (through `jsonwebtoken`); `routes.rs` and `project/` the command registry.
- `app/` — the program around it: the servers, the stream client, key set
  downloads and HTTP calls, which the library's decisions drive.
- `tests/` — tests of the library.
