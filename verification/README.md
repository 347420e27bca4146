# cs_timespan

A signed span of time counted in 100-nanosecond ticks, with checked arithmetic, a builder,
parsers for a general, a constant and custom layouts, and formatters for the same layouts,
verified with Verus.

## Layout

- `src/time_span.rs`: the `TimeSpan` type, its tick-count view, component accessors,
  checked arithmetic and the `+`, `-` and unary `-` operators.
- `src/builder.rs`: `TimeSpanBuilder` and the integer `from_*` constructors, which sum their
  components in microseconds without intermediate overflow.
- `src/parse.rs`: the general parser (`parse`, `FromStr`, and `"g"`/`"G"` for
  `parse_exact`), specified as tokenizing into numbers and separators and matching the
  separators against the accepted layouts.
- `src/parse_constant.rs`: the constant-layout parser behind `parse_exact` with `"c"`.
- `src/parse_exact.rs`: `parse_exact`, `parse_exact_multiple` and the custom-format matcher.
- `src/format.rs`: the standard layouts (`to_string`, `to_string_format`, `try_format`).
- `src/format_custom.rs`: custom format strings.
- `src/digits.rs`, `src/text.rs`: decimal digits and conversions between strings and
  characters.
- `src/laws.rs`: properties that relate several operations, such as the round trip of every
  standard layout through the parsers.
- `app/lib.rs`: the floating-point conversions and operators (`total_*`, `from_days(f64)`,
  `checked_mul`, ...) and `Display` adapters, which stay outside the verified library.
