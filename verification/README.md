# receipt_split

Splits a receipt's total between people by ratio, in decimal arithmetic.

- `src/decimal.rs` models a `rust_decimal::Decimal` as plain parts (`Dec`) and
  reaches `rust_decimal` for each operation through small trusted wrappers.
- `src/receipt/dollar_value.rs` and `src/receipt/ratio.rs` hold amounts and ratios
  (a ratio always lies in `0..=1`).
- `src/receipt.rs` builds receipts whose items add up to the total, checks that
  ratios add up to one (within `0.000001`), and splits the total: each share is the
  ratio times the total cut to whole cents, and whole cents left over go one each
  to the first people. When fewer cents are left than there are people (always the
  case when the ratios add up to exactly one), the shares of a whole-cent total add
  up to it.
- `app/` converts floats, and gives copies of the types the `Display`, `AsRef`
  and `Error` impls that derive macros write.
