# payments

A toy payments engine, verified with Verus. It reads a CSV of deposits,
withdrawals, disputes, resolves and chargebacks, keeps client accounts, and
writes one line per account: available, held, total and locked.

- `src/` is the verified library: money parsing and printing (`money`), the
  RFC 4180 scanner with its size cap (`csv`, `scan`, `record`), header-driven
  rows (`columns`, and the positional reader in `parse`), the ledger and its
  laws (`ledger`), rendering (`render`) and the streaming engine (`run`),
  whose result does not depend on how the input is cut into pieces.
- `app/` is the command-line program: it opens the file, feeds the engine one
  buffer at a time, and writes reports to stderr and the accounts to stdout.
- `tests/` runs the library on concrete inputs.
