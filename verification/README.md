# FreeChess

Chess between two players, over records that anyone may keep a copy of.

There is no server. A game, the lobby, a player's page and the shared history
are each a set of signed entries. Peers send each other what the other was not
told, and come to hold the same. This crate is the logic of all that, written in
Verus: what an entry must be like to be taken in, which of two entries stays,
what is dropped when there are too many, and what the outcome of a game is.

## Layout

- `src/chess/`: pieces, rules, the board, FEN, whole games and their notation.
- `src/game/`: one game's record: terms, offers and the seat, moves, clocks,
  claims on the outcome, and certificates of the result. `replica.rs` is the
  whole record; `convergence.rs`, `claims.rs`, `seating.rs`, `merging.rs`,
  `copies.rs` and `validity.rs` say why copies of it agree and stay valid.
- `src/lobby*`, `src/leaderboard.rs`, `src/presence.rs`, `src/admin*`: the lobby.
  `lobby/crowding.rs` says why it does not matter when listings give way,
  `admin/succession.rs` and `admin/rivals.rs` who stays in office where copies
  meet.
- `src/archive.rs`, `src/player.rs`, `src/certificate.rs`, `src/elo.rs`: finished
  games, pages and ratings.
- `src/delegate*.rs`, `src/account.rs`: the player's secrets.
- `src/web_container.rs`, `src/web_contract.rs`: releases of the web app.
- `src/sorted_map.rs`, `src/order.rs`, `src/lists.rs`, `src/sync.rs`,
  `src/join.rs`, `src/ledger.rs`, `src/cutting.rs`: what the records are made of,
  and why filling them in any order comes to the same.
- `src/signed.rs`: what a signature binds.
- `src/crypto.rs`, `src/search.rs`, `src/text.rs`: among other things, what is
  taken from outside crates and from the standard library on trust.
- `app/`: how the types look on the wire, the contracts and the delegate as the
  network calls them, and the deployer's tools.

Proof functions whose names begin with `law_` state what holds of the library as
a whole.
