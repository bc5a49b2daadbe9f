# ecash_ng_crypto

Bulletproofs range proofs (values in `[0, 2^64)`) over BLS12-381, written in
Verus. Group and field arithmetic, scalar multiplication, hashing to the curve
and SHA-256 are done by `bls12_381`, `ff` and `bitcoin_hashes`, and `rayon`
runs independent halves of the larger computations side by side; everything
built on top of them is verified.

Every generator is derived from a fixed label, so nobody knows a discrete-log
relation between them: the single generators with hash-to-curve, the 128
vector generators with the cheaper non-uniform encoding to the curve. Scalar
multiplication and multi-exponentiation are verified windowed (Straus)
algorithms; they are not constant-time, which is fine for the public values
that the verifier works on and a point to keep in mind for the prover's
secrets. The range proof's inner-product
argument runs over `P + t_hat Q`, `Q = w U` with `w` a challenge, so an
accepted proof binds `t_hat` to `<l, r>`.

The model: a scalar is an integer in `[0, q)`, and a group element `k * B` is
its exponent `k` in `[0, q)`, where `B` is the standard generator. Contracts
are stated over these integers.

Layout of `src/`:

- `scalar.rs`, `point.rs`, `hash.rs`: the field, the groups and hashing, each
  outside call behind a small trusted function with its contract.
- `modular.rs`: arithmetic modulo `q`.
- `vectors.rs`, `multiexp.rs`: vector operations and multi-exponentiation.
- `parallel.rs`: running two computations in parallel.
- `generators.rs`: the fixed generators, each derived from a label.
- `transcript.rs`: the Fiat-Shamir challenges.
- `inner_product.rs`: the inner-product argument (with weighted generators
  and an inner-product generator `Q`), with its completeness proof.
- `rp.rs`: the range proof's prover and verifier.
- `completeness.rs`: the algebra behind the verifier's checks (the polynomial
  `t(X) = <l(X), r(X)>` and the verifier's commitment, for any vectors), and
  the proof that every proof the prover produces is accepted.
- `lib.rs`: Pedersen commitments.
