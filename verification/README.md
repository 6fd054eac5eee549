# num_prime

Verified building blocks for factoring large integers, written in Verus.

- `montgomery`: Montgomery arithmetic modulo an odd number held as
  little-endian 64-bit limbs (`add`, `sub`, `addc`, `mulredc` by CIOS, with
  their carries and borrows proved), Pollard's rho over it with Floyd's cycle
  detection, perfect-power detection and the splitting step that chooses
  between them. Big-number work that the logic hands off (gcd, roots, powers)
  goes to `num-bigint` through small trusted wrappers.
- `dashu`: the same rho, perfect-power detection and splitting step over a
  `dashu-int` Montgomery ring.
- `redc`: Montgomery reduction as a function on numbers, and its laws: it
  keeps the gcd with the modulus, and it multiplies in Montgomery form.
- `limbs`, `natural`, `convert`: the numbers that limb and byte sequences
  stand for, and conversions between machine integers and `Natural`.
- `arith`: gcd, primes and perfect powers as specifications.
- `splitmix64`: the SplitMix64 generator, with its state after `k` outputs.

The tests under `tests/` run the library against `num-bigint` and
`dashu-int` on concrete values.
