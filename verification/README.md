# quant_desktop

The core of a desktop A-share quote viewer (watchlist, floating ticker,
adaptive polling), written in Verus: every function in `src/` carries a
contract that the verifier proves.

## Layout

- `src/db/` — the watchlist store: stocks, groups and their memberships,
  per-group order, ticker queue, settings, schema-upgrade migrations. Every
  operation keeps the store's invariant (`Database::placed`: at least one
  group, each stock in some group, each membership naming a real group).
- `src/cache/` — the adaptive polling state machine (probe, normal, idle)
  and the scheduler's per-tick decisions.
- `src/datasource/` — trading sessions (China Standard Time), quote-line,
  bar-reply and suggest-reply parsers, symbol and request conventions of the
  quote services, the data-source registry and the search fallback order,
  User-Agent rotation.
- `src/window.rs`, `src/commands/` — window and ticker geometry: where
  windows are restored, which settings are saved, profit-column resizing.
- `src/updater/`, `src/domain.rs` — proxy choice, update information, error
  texts.
- `src/text.rs` — character-level helpers and integer parsing with std's
  `from_str` semantics.
- `tests/` — executable tests of the library.
- `app/` — the Tauri application around the library (windows, tray, IPC
  commands, HTTP, SQLite, the polling task). It is ordinary Rust and is not
  verified; floating-point quote fields are read there.

The library's trusted items are std's clock (`SystemTime::now`,
`duration_since`), `chrono` (showing a time in the machine's time zone),
`encoding_rs` (GBK decoding) and two std conversions; each states its
contract in its doc comment.
