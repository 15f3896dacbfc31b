# mental_poker

The card layer of Barnett–Smart mental poker over the Pallas curve, written in
Verus: card encoding, Schnorr and Chaum–Pedersen (DLEQ) proofs with
Fiat–Shamir, threshold ElGamal masking with reveal tokens, and a
cut-and-choose verifiable shuffle.

## Model

Group elements are held as their canonical compressed encoding and modelled
by the discrete logarithm in `[0, r)` of the point encoded; scalars are
modelled by their value in `[0, r)`. Curve and
field arithmetic are calls into arkworks (`ark-pallas`, `ark-ec`, `ark-ff`),
each behind a small trusted wrapper whose contract states the result modulo
`r`; SHA-512 (`sha2`) and the random-number generator (`rand`) are likewise
wrapped. Everything above those wrappers is verified: every proof's
completeness, the threshold-unmask algebra, and the shuffle prover and
verifier against an exact statement of what verification answers.

## Layout

- `src/scalar.rs`, `src/point.rs` — scalars and points, with the trusted
  arkworks wrappers.
- `src/transcript.rs` — the Fiat–Shamir transcript (SHA-512).
- `src/card.rs`, `src/encode.rs` — the 52 cards and their encodings `G·(i+1)`.
- `src/sigma.rs` — Schnorr and DLEQ proofs, Fiat–Shamir challenge bits.
- `src/elgamal.rs` — keys, masking, re-masking, reveal tokens, unmasking.
- `src/shuffle.rs` — the verifiable shuffle.
- `src/algebra.rs` — modular-arithmetic lemmas.
- `tests/` — executable tests.
