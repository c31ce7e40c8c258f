# kibeurre

A small Kyber (ML-KEM-768) library written in Verus: every function of `src/`
carries a contract that Verus proves.

- `parameters`: the ML-KEM-768 constants.
- `arith`, `math_utils`: integers modulo 3329 (Montgomery form, modular inverse,
  fast exponentiation), vectors, vectors of polynomials and matrices.
- `ntt`, `ntt_spec`: the number theoretic transform as the layered butterfly
  network, its inverse, and the product of transformed polynomials.
- `product`: multiplication in `Z_q[X]/(X^256 + 1)` and the proof that the
  transform turns it into the pairwise product (`poly_mult`).
- `encoding`, `format_utils`: byte encodings of polynomials, text to message
  polynomials and back, hexadecimal parsing of known answer test files.
- `kyber`, `kem`: noise sampling, compression, CPA encryption and decryption, key
  generation, encapsulation and decapsulation with implicit rejection.
- `correctness`: linearity of the transforms, the algebra of the pairwise product,
  and the decryption identity `v - s^T u = 1665 m + noise`, from which decryption
  and decapsulation give back what was encrypted whenever rounding absorbs the noise.
- `ui`: what each key does in the interactive terminal interface (`ui_step`).
- `primitives`: the calls into `sha3`, `shake`, `hex`, `rand`,
  `nist-pqc-seeded-rng` and the parts of std that vstd does not specify.

`app/` holds the command line program, the terminal interface, the benchmarks and
the reading of known answer test files. `tests/` runs the library.
