# portfolio_forecast

Reads Portfolio Performance `.portfolio` files, replays their transactions
into a net-asset-value (NAV) timeline and projects it ten years ahead.

The library under `src/` is verified with Verus:

- `format/` recognises the container of a file by its magic bytes (ZIP with a
  `*.portfolio` entry, raw `PPPBV1`, encrypted `PORTFOLIO`) and hands back the
  protobuf payload of the client. ZIP archives are read with the `zip` crate.
- `model.rs` is the client data the analysis reads: securities with their
  quotes, and transactions (amounts in cents, shares and prices scaled by
  10^8).
- `order.rs` holds the stable sort by key that puts transactions and quotes in
  date order.
- `prices.rs` builds one price table per security (sorted, one quote per
  date) and looks up the price on a day (last quote on or before it).
- `ledger.rs` replays transactions: total cash and shares per security, and
  the value of the holdings on a day, all in exact integers.
- `analysis/balance.rs` is the NAV timeline, `analysis/twr.rs` the values the
  time-weighted rate of return is chained from, `analysis/forecast.rs` the
  averaging window, the net contributions and the projection dates, and
  `analysis/ticks.rs` the calendar ticks of the chart's time axis.
- `calendar.rs` states the proleptic Gregorian calendar (day numbers, months,
  month steps, `YYYY-MM` text) and converts between timestamps, day numbers
  and calendar months with `chrono`.
- `text.rs` writes numbers in decimal for messages and dates.

`app/` is the desktop viewer around the library: file reading, protobuf
decoding (`prost`), the floating-point NAV values, rate and projection, and
the `gpui` user interface. The Android and iOS entry points sit beside it.

`tests/` exercises the library on concrete values.
