# arkham_client

A verified library for a multiworld randomizer client of a card game, with
its data generator.

- `src/cardcode.rs`: card codes (`01104`, `02214b`), ranges and lists of them.
- `src/generate/`: the generator. It reads the card database and its
  corrections, groups the lines of the data files into campaigns, scenarios
  and locks, numbers every item and location, and produces the client's
  lookup functions as Rust source, `Id.py`, `Data.py` and the same tables
  as values.
- `src/client/`: the client. Its tables, the progression state of one
  player (unlocks, experience, cards, filler, reachable locations), the
  HTML of its views, and how a click or a batch of received items changes
  the state.
- `app/`: the WebAssembly session that draws into the page, the serde forms
  of the server's messages, and the file-reading side of the generator.

Every function in `src/` carries a contract, and Verus proves each body
against its contract, with the exception of three small wrappers whose
contracts are believed rather than proved: `push_char` (`String::push`)
and `escape_debug` (`str::escape_debug`) in `src/text.rs`, and
`ustr_hash` (the name hash of the `ustr` crate) in
`src/generate/name_hash.rs`.  Their doc comments say what is claimed of
each.  A campaign or scenario name that the data files give twice is
listed once in the generated files and tables, at its first place.  The public
proof functions state some of the laws the library keeps across calls;
others follow from the contracts of the single calls.

`group_data` and `generate_data` take inputs without fault (their
`requires` say which); `try_group_data` and `try_generate_data` take any
input and return an error that says what is wrong, and where.  Ids that
rest on the hashes of names can collide whatever the input, so that
fault comes back as an error from both generator entries.
