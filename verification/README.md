# bls381_hash field arithmetic

Base-field (Fp) arithmetic of BLS12-381 on six little-endian 64-bit limbs,
verified with Verus: every function's result is stated over the integer the
limbs denote.

- `src/specs.rs`: the model (limb and lane values, big-endian byte values,
  `p`, `R = 2^384`, the Montgomery reduction `mont_reduce`).
- `src/word.rs`: word primitives (wide product, add/sub with carry, 32-bit MAC).
- `src/fp.rs`: comparison, addition, subtraction, negation, halving.
- `src/montgomery.rs`: 32-bit CIOS Montgomery multiplication and reduction,
  entering and leaving Montgomery form.
- `src/bytes.rs`: 48-byte big-endian encoding.
- `src/modexp.rs`: the Fermat, Legendre and square-root exponents and
  exponentiation through the runtime's `big_mod_exp`, which the caller supplies.
- `src/witness.rs`: reading canonical elements from instruction data.
- `src/laws.rs`: round trips and inverse properties across the operations.
- `app/lib.rs`: the Solana syscalls and the mapping onto `ProgramError`.
