# triblespace

The core data structures of a trible space, written in Verus and proved
against their contracts.

## Layout

- `src/patch.rs` and `src/patch/`: PATCH, a path-compressed 256-ary trie of
  fixed-length keys whose nodes keep their children in cuckoo byte tables.
  Insertion, replacement, removal, lookup, prefix tests, infix and segment
  enumeration, ordered iteration, cloning and the set operations (union,
  intersection, difference) are stated over the map of keys to values.
- `src/query.rs` and `src/query/`: the query engine (a depth-first search
  over the variables of a constraint) and its constraints: constants, sets,
  keys, PATCH-backed tribles, masks, unions, intersections and regular path
  expressions over a graph of linking tribles. A constraint proposes at
  least the values it admits and confirms exactly those; the search hands
  out only bindings built from proposed values (solutions, for constraints
  that propose only what they admit), each at most once, all solutions of a
  consistent constraint, and then answers `None` for good. The automaton of
  a path expression accepts exactly the expression's words.
- `src/repo.rs` and `src/repo/`: an in-memory repository (blobs by their
  BLAKE3 hash, branch heads updated by compare-and-swap), copying of
  reachable blobs, workspaces and their push (blobs copied, branch moved by
  compare-and-swap against the metadata the workspace started from), commit
  selectors, and the append-only pile format with its record parser and
  index.
- `src/hashtribleset.rs`: a set of tribles indexed by every part and pair of
  parts.
- `src/pile.rs`: the earlier pile format.
- `src/remote/`: the decisions of a compare-and-swap commit against an object
  store, as a state machine driven from outside.
- `src/id.rs`, `src/id/`: ids, their embedding in values, and the FUCID,
  UFOID and RNGID generators.
- `tests/`: tests of the library through its public interface.
- `app/`: the file side: piles kept in files, the per-thread id generator
  and the clock.

Verus checks everything under `src/`; the tests run the compiled library.
