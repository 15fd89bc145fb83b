# espanso (verified core)

The keyboard matcher and the directory rules of espanso, a text expander, written in Verus.

- `src/matcher/scrolling.rs`: the scrolling matcher. Each typed input yields a set of entries
  (triggers being followed); the sets are kept in a queue so that backspace can take inputs back.
  Its behaviour is stated over `MatcherModel`, each operation is proved to refine it, and a type
  invariant keeps every pending entry consistent with what was typed.
- `src/matcher/laws.rs`: properties of the matcher proved over the model: a reported match was
  typed; typing a trigger reports a match; the match reported is the one with the longest trigger
  typed since the last report, the first in list order; backspace takes back an input, and `k`
  backspaces rewind `k` inputs within the backspace limit; the queue stays within the limit;
  toggling twice restores the state.
- `src/context/mod.rs`: the platform context trait and the rules for choosing the configuration
  and package directories.
- `src/clock.rs`: the wall clock, behind trusted wrappers, read as nanoseconds since the epoch.
- `app/`: the command line, the file system and environment access, and the driver that feeds
  keyboard events to the matcher and performs what it returns.
