# trade_core

The core of a trading system whose behaviour is stated in contracts and proved
with Verus: price-time matching, a deterministic command processor, the journals
and wire formats that make it recoverable, and the rules of the services around
it.

* `src/` is the library. Every function in it is verified; each module's doc
  comment says what it covers. Laws that relate several functions are public
  proof functions whose names start with `law_`.
* `tests/` runs the library on concrete values.
* `app/` holds the programs: sockets, files, threads, the message queue, the
  database. They call the library for every decision.

What is believed without proof is marked in the source: that the replication
library's reading of a message depends on its bytes alone (`peers::parse_message`),
and what `String::push` does (`text`).
