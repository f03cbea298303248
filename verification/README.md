# forge

The language kernel of a gossip-network chat node, as a verified library.

- `src/text.rs`: whitespace splitting and word cleaning; Unicode classes
  and lowercasing come from std.
- `src/tokenizer.rs`: vocabulary of distinct words with dense ids, encoding
  and decoding, and the decode-of-encode law.
- `src/constitution.rs`: the forbidden-word guard.
- `src/trainer.rs`: vocabulary learning and bigram counting.
- `src/generator.rs`: the generation loop, with its random draws from `rand`.
- `src/brain.rs`, `src/layout.rs`: row-major tensor layout and transpose.
- `app/`: the networked program, and the f32 arithmetic (matrix product,
  attention, probability normalisation, greedy prediction).
