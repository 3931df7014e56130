# homo

Homomorphic encryption, made tangible: Paillier, BFV, a BGN-style toy
scheme and CKKS, written so that each can be read in one sitting, with the
library's behaviour stated in contracts and proved with Verus.

## Layout

- `src/` — the verified library.
  - `bigint.rs`: arbitrary-precision integers (`UBig`, `IBig`) over `num-bigint`.
  - `primes.rs`: Euclid, the binomial theorem, Fermat, Carmichael, orders
    modulo a safe prime, the Miller–Rabin chain.
  - `ring.rs`, `poly_laws.rs`: arithmetic in `ℤ_q[X]/(X^n + 1)` and its laws
    (commutativity, associativity, linearity, noise bounds, RLWE phases).
  - `schemes/`: the four schemes, each with its decryption laws.
  - `util.rs`, `text.rs`, `io.rs`, `viz.rs`, `playground.rs`, `attacks.rs`:
    randomness and modular helpers, text handling, the PEM-style envelope,
    traces, the REPL and circuit language, and the attack demos.
- `app/` — the command-line tool: argument parsing, files, serialisation,
  floating-point CKKS encoding and charts.
- `tests/` — tests of the library.

## What is proved

For every scheme, decryption inverts encryption on the keys the key
generator is meant to produce, and the homomorphic operations decrypt to the
corresponding plaintext operation: exactly for Paillier (any number of
additions, scaling, re-randomisation) and BGN (addition, and the level-2
bundle decrypting to the product), within explicit noise margins for BFV
(addition and one multiplication) and CKKS (addition, multiplication,
modulus switching and rescaling). BFV multiplication is proved for any
operands with bounded noise, so also for sums of fresh encryptions. Where a
key generator only tests primality probabilistically, the laws state which
primality they assume; the prime search states which Miller–Rabin witnesses
(for the odd part of `n - 1`) its result passed.

The REPL and the circuit evaluator state, beyond the shape of each value,
what a ciphertext built by additions and one multiplication decrypts to
within the noise margin, and private aggregation (Paillier and BGN) states
that the total encrypts the sum of the inputs.
