# payment_service

A payment service with credits, idempotent debits, and debits that are parked until a credit
covers them or their deadline passes. The logic is a library verified with Verus; the HTTP
server, the SQLite tables and the broker wiring are ordinary Rust around it.

- `src/` is the library. `service` holds the flows as a state machine: a flow asks for a call of
  the repository or for the JSON of an event, and is taken on with what came of it.
  `pending_store` and `event_store` are the two in-process stores, `repository` and `statement`
  the rules of the durable tables.
- `src/pending_laws.rs`, `src/event_laws.rs`, `src/statement_laws.rs`, `src/ledger.rs` and
  `src/run_laws.rs` state what holds across calls: that look-ups give exactly what is parked, that
  every event leaves in one drain, that a statement adds up to the balance, that no money is made
  or lost, that a debit has at most one outcome and its event, and that no debit waits that could
  be paid.
- `tests/` runs the library with the real cache, clock and text formats.
- `app/` is the program: it carries out the actions of the flows, one flow at a time.

What `moka`, `chrono` and `uuid` do is taken on trust, as stated at the few functions that call
them in `cache`, `time` and `ids`.

A debit that is given up is put on record in a table of its own, so that a redelivered request is
ignored and the history of debits holds settled ones only. Parked debits and queued events do not survive a restart.
