opencode-bill
=============

Bills for OpenCode sessions, as a library whose logic is verified with Verus.

The library (`src/`) holds everything about a bill that does not touch the outside
world. Its functions state in `requires` and `ensures` clauses what they do, and Verus
proves them.

* `session`, `legacy`: which session a reference names, which sessions descend from
  it, and what the SQLite database or the older JSON files say of them.
* `message`, `json`: the usage that a stored message reports.
* `usage`, `ordered`: requests, tokens and cost, added up per model and per agent.
* `pricing`, `markdown`: model rates, from the local catalog and from the pricing page
  of GitHub Copilot.
* `bill`, `table`, `count`: how the bill reads.
* `binary64`, `decimal`: money as binary64 numbers, added and printed by integer
  arithmetic.
* `text`, `error`, `context`: strings, errors, and where OpenCode keeps its data.

Proof functions whose names start with `law_` state what holds of the library as a
whole: that both tables of usage add up to the total, that the lines of a table are
equally long, that the catalog comes before the pricing page, and so on.

The program (`app/`) reads the arguments, the database, the files and the page, and
prints the bill:

    opencode-bill <session-id-or-prefix> [--data-dir PATH]

What the library takes on trust are calls into `serde_json`, `directories` and the
standard library. Each stands in a function marked `external_body` (or in an
`assume_specification`) whose comment says what is claimed of it.
