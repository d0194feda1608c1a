# shift_dfa_utf8

UTF-8 validation with a shift-based DFA: each DFA state is a 5-bit offset, and one
32-bit word per byte value packs the targets of all transitions on that byte, so a step
is a single shift. The crate is verified with Verus.

- `src/grammar.rs`: the byte grammar of RFC 3629, the longest valid prefix of a byte
  sequence and the length of the invalid sequence after it; agreement with vstd's
  `valid_utf8`.
- `src/dfa.rs`: the packed transition table, the DFA read off the grammar, and the proof
  that running the table computes what the grammar says (`lemma_dfa_recognizes_utf8`).
- `src/lib.rs`: `Utf8Error`, the byte-by-byte and the chunked validators, `from_utf8`,
  and the laws about the errors they report.
- `src/lossy.rs`: splitting bytes into valid runs and the invalid bytes after them.
