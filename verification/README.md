# durstr

Parses human-readable duration strings such as `"12 minutes, 21 seconds"` or
`"1hr 2min 3sec"` into durations, with every step proved correct by Verus.

- `src/duration.rs`: `Duration` (seconds and sub-second nanoseconds), viewed as
  a number of nanoseconds, with checked addition and multiplication.
- `src/chars.rs`: character classes (ASCII digits and letters, Unicode
  whitespace) and ASCII lowercasing.
- `src/scanner.rs`: the tokenizer and its specification `scan`.
- `src/units.rs`: `ParserUnits`, the unit table, viewed as a map from names to
  lengths; the built-in units.
- `src/parser.rs`: `ParserOptions`, `Parser`, `parse`, and the specification
  `spec_parse` they meet.
- `src/laws.rs`: properties of `spec_parse` as a whole (joining strings adds
  their durations, the order of the pieces does not matter, case-insensitive
  parsing reads lowercase, ...).
- `app/`: the same API over `std::time::Duration`, with an error type that
  implements `std::error::Error`.
