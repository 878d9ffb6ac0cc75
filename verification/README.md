# rhomeaccount_core

A small double-entry home accounting book, verified with Verus.

A *book* is a folder of plain text: a `000` metadata file that declares the
chart of accounts (categories by account prefix, and the accounts), and one
journal file per period. Journals hold dated transactions whose lines name an
account and a value; a line without a value balances its transaction.

Amounts are kept as integer cents (`i64` per line, `i128` for totals), so
sums are exact: there is no rounding step anywhere in the reports.

## Layout

- `src/` — the library, every function with a contract proved by Verus:
  - `text`, `num`, `money`, `date`, `utils`: characters, integers, Greek
    number formatting and parsing, calendar dates, account names.
  - `account`, `transaction_line`, `transaction`, `book`: the chart of
    accounts, lines, transactions and the book with its queries.
  - `ledger`, `totals`, `trial`, `series`: the book as data (its lines in
    order), the trial balance (per account and per level of the account
    tree), the account card and the time series.
  - `parser_text`: the metadata and journal grammar, as a state machine over
    the lines of each file.
  - `theme`, `overview`: the choices and rows the screens show.
- `tests/` — tests of the library on concrete books and values.
- `app/` — the desktop program: it reads the folder from disk, hands the
  text to the library and draws the screens with egui.
