# ptcg_dragapult_bots

Bots that play the Dragapult ex deck of the Pokémon Trading Card Game against a
remote game server, with their decision logic verified by Verus.

## Layout

- `src/` — the verified library.
  - `wire/` — the messages and board snapshots the server and the client exchange.
  - `cards.rs` — card facts by slug (rule-box Pokémon, attack indices).
  - `deck.rs` — deck lists brought along when subscribing.
  - `bots/` — the decision logic: a uniform random policy and two Dragapult ex personas
    (`dragapult_takeuchi`, `dragapult_yopifutto`), with the board predicates they share.
    Each persona's choice of action and answer to a prompt is specified exactly; the
    laws state that every answer is legal, that damage-counter distributions keep to the
    per-target cap, place all counters that fit, target distinct opposing Pokémon and go
    lowest HP (or knock-out target) first, that deck searches never over- or under-select
    and take every priority card that fits, that the ultra-ball discard keeps a drakloak
    for last, and that the knock-out search finds the best choice of targets.
  - `session.rs` — what each server message is answered with.
  - `cli.rs`, `report.rs`, `transport.rs` — command-line parsing, log text, UTC stamps
    (which follow the Gregorian calendar), server addresses and connection URIs.
  - `rng.rs` — the random draws (through `rand`), stated by what holds of every outcome.
- `app/` — the `connect` program: WebSocket I/O (tungstenite, rustls), JSON and YAML
  (serde copies of the wire types with conversions both ways), files, the clock.
- `tests/` — tests of the library on concrete values.
