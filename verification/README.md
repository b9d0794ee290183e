# progress-engine

Exact answers to draw questions about Magic: The Gathering decklists: how
likely a list is to have seen, by a given turn, enough cards matching a
Scryfall-style query, with land drops, surveil-like looks and mana payment
taken into account.

A criterion may only ask how many cards matching a query it has seen, never
which ones. Cards matching the same queries are therefore interchangeable,
collapse into groups, and every question becomes a function of per-group
counts. That is what keeps the exact engine exact; a seeded sampler answers
what enumeration cannot.

## Layout

- `src/` is the library, written in Verus. Every function in it carries a
  contract that Verus proves: the query lexer and parser, mana costs, deck
  legality, the grouping of a library, the turn schedule and its narrowing,
  the walk of one path through land drops and looks (`board`), the refusals
  of an exact run, the sampler's dealing and tally, the reading of a criteria
  file, and the text of every note and refusal. Laws that relate several
  functions stand as public proof functions beside them.
- `tests/` runs the library on concrete values.
- `app/` is the command line program: argument handling, reading files,
  decoding TOML and JSON, the floating-point sums of the exact engine, and
  printing the report.

The few calls into other crates (SHA-256, the ChaCha generator, Unicode
lowercasing) sit behind small trusted wrappers whose contracts say what those
crates document.
