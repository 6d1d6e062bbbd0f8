# namu

Namu (나무, "tree") is a combinator graph reduction engine for triage calculus,
a variant of tree calculus in which programs and data are binary trees reduced
by one operator and five rules. This crate is written in Verus: every function
of the library carries a contract, and Verus proves it, except the few trusted
wrappers around outside code, whose contracts Verus takes as given: the
`ahash::AHashMap` calls in `src/pairmap.rs`, `char::from_u32` in
`src/stdlib.rs` and `String::push` in `src/text.rs`.

## Layout

- `src/term.rs`: trees as mathematical values and the reduction rules
  (`eval`, `rule`), with determinism and fuel lemmas.
- `src/machine.rs`: the reduction machine as mathematics (a focus and a stack
  of continuations) and the invariant that each of its steps keeps.
- `src/tree.rs`: the arena (`Trees`), hash consing, the application cache, and
  `apply` / `apply_bounded`, proved against `term.rs` through `machine.rs`.
- `src/pairmap.rs`: the `ahash::AHashMap` calls the arena makes, behind
  trusted wrappers.
- `src/parser.rs`: the ternary format (`0`, `1x`, `2xy`).
- `src/stdlib.rs`: combinators, booleans, triage, and the number, list, string
  and Peano encodings, with their round-trip laws.
- `src/programs.rs`: `equal`, `bf` and `mirror`, read from ternary constants
  whose parse is proved.
- `src/text.rs`: decimal numbers and characters for messages.
