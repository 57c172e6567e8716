# ginger

The verified core of Ginger's engine link: the OSC 1.0 messages it sends to SuperCollider's
`scsynth`, the replies it reads back, and the correlator that decides what those replies prove
about each node.

- `src/wire.rs` — the mathematical model of the wire format: what a message encodes to and
  what bytes decode to.
- `src/osc.rs` — encoding, decoding, the command constructors (`s_new`, `n_set`, `sync`,
  `g_query_tree`) and reply parsing, each proved against the model. A `float32` argument is
  carried as its bit pattern (`f32::to_bits`).
- `src/roundtrip.rs` — decoding gives back every encoded message whose strings hold no NUL
  and whose address is not `#bundle`; bundles (packets opening with `#bundle\0`) are
  rejected; `take_str` reads back what `push_str` wrote; a decoded message has exactly one argument per type tag.
- `src/readback.rs` — the correlator and its laws: outcomes rest on evidence, a `/sync`
  barrier or a dispatched command is never evidence, a rejection outranks a later tree listing,
  a node is `Unknown` exactly until readback names it, and the unknown coverage is exactly the
  commanded nodes without readback.
- `app/main.rs` — the `ginger` command line.
