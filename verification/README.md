# ordserv

Precedence analysis of the traces of federated Lingua Franca programs, and the ordering server
that imposes chosen precedences on test runs. The library is written in Verus: every function of
`src/` is verified against its contract.

Layout:

- `src/` — the verified library.
  - `conninfo.rs`: tags, delays, and the connection information of a federated program (parsing
    included).
  - `relation.rs`, `render.rs`: events, the unary and binary relations over them, their meaning,
    and their text.
  - `axioms.rs`: the rules that every trace of the RTI satisfies.
  - `trace.rs`: from trace records to the elaborated trace (virtual first events included).
  - `unpermutables.rs`: immediate predecessors and the preceding permutable events of each event.
  - `computed.rs`, `compare.rs`: computed precedences per test, and their comparison with what
    was observed.
  - `enumerate.rs`, `lfenumerate.rs`: enumerating combinations of predicates and relations by fuel.
  - `rankset.rs`, `transpositions.rs`: sets of positions, and the streaming discovery of pairs of
    events seen in both orders.
  - `outputvector.rs`: compact, shared storage of observed orders, and the trace-point keys.
  - `ordering.rs`, `server.rs`: precedences, frames, and the decisions of the ordering server.
  - `harness.rs`: the test harness's bookkeeping (statuses, ports, constraint lists, trace hashes).
- `tests/` — tests of the library.
- `app/` — the command-line front end: reading trace and connection files, checking traces
  against the rules, printing precedences, and serving runs over TCP.
