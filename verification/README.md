# price

Logic of a BTC-USD e-paper ticker, verified with Verus.

- `src/` — the verified library:
  - `calendar` — the proleptic Gregorian calendar as day counts from 1970-01-01,
    and `civil_from_days` (Howard Hinnant's algorithm) proved against it;
  - `decimal` — decimal rendering of integers as `{:0N}` writes them;
  - `timestamp` — `format_timestamp`, epoch seconds as `dd-MMM-yyyy HH:mm` in UTC;
  - `offset` — `parse_utc_offset`, the configured display timezone (`UTC-6`, `+05:30`, ...);
  - `price_text` — `format_whole_dollars`, the `$67,432` price text from the digits of a whole-dollar amount;
  - `ticker` — the screen states, when the panel is refreshed, the last-update label,
    and the judgements of the clock, the WiFi connection, the HTTP fetch (step by step and
    over a whole response) and the refresh-interval configuration;
  - `layout` — where each element of a screen state is drawn on the 264x176 panel,
    including the black pixels of the logo;
  - `errors` — `ParseError` and `OffsetError`.
- `tests/` — tests of the library.
- `app/` — the ESP32 firmware around it: WiFi, SNTP, the HTTPS fetch, the JSON
  response and the floating-point price, and drawing with `embedded-graphics` on
  the `epd-waveshare` panel driver. It needs the generated `logo.rs` bitmap and
  the `certs/coinbase-root-ca.pem` trust anchor next to it.
