# agentic-ledger

An expense ledger for an agent harness: raw bank-statement lines become
categorized records, and records become a markdown spending report in which
every figure is exact in integer cents and can be checked line by line
against the stored records.

- `src/` is the verified library (Verus). `ledger` parses lines into entries
  sorted by date and description; `category` assigns every description one of
  eight categories by ordered keyword rules; `report` computes totals per
  category, the largest expenses and the covered dates; `analyze` renders the
  report and names its file; `trace` proves what a report on ingested records
  says of the ledger's lines. `amount`, `text` and `order` hold the building
  blocks: amounts and cents, Unicode-aware text handling, and orders and
  stable sorting.
- `app/` is the command-line tool around it: JSON in on stdin, one JSON
  object out on stdout, files under the workspace, and the two conversions
  that go through floating point (amount text to cents, shares as
  percentages).
- `tests/` runs the library on concrete ledgers.
