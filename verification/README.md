# darkfi (verified core)

- `src/cli/drk_cli.rs`: the `deposit` parameters and the validator of amount
  arguments, proved to accept exactly the texts of the decimal
  floating-point grammar that `f64::from_str` documents.
- `src/net/p2p.rs`: the state of the peer-to-peer interface (its settings and
  executor handles, addresses awaiting a connection, connected channels, the
  peer-discovery and debugging switches) with a map/set view and the laws of
  its operations; and the order in which running the network starts and
  stops its sessions, as a step function from state and event to next state
  and action.
- `src/net/sessions/outbound_session.rs`: the decisions of the outbound
  connect slots, as a step function, with its laws.
- `app/`: the asynchronous runtime, argument parsing and the floating-point
  parameter types.

The pending addresses and the connected channels are held in vectors with
an invariant that no address occurs twice, rather than in std's `HashSet`
and `HashMap`. The addresses are strings, and vstd's specification of the
hashed collections covers only keys that obey its key model (integers,
`bool` and boxes of them); for `String` keys it proves nothing about lookups
or inserts. Its key model for other types is an uninterpreted predicate
that could only be granted by an assumption, which this crate does not make.
