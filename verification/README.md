# ff_derive

Code generation for prime fields in Montgomery form over 64-bit limbs, with the
generated arithmetic proved correct in Verus.

For a number of limbs the generator writes out, as straight-line code, the
Montgomery reduction, the multiplication (schoolbook with reduction, CIOS, the
variant without a carry word, or the x86_64 assembly routine with the
schoolbook code as fallback), the squaring, and the range check of a field
element. The library keeps that code as plain data and proves what it computes.

## Layout

- `src/ir.rs`: the emitted statements as data (`Stmt`, `Rhs`, `Term`, `Var`,
  `Cond`, `MulCode`, `PrimeFieldCode`) and their meaning over 64-bit words
  (`run`, `seq_val`).
- `src/gen.rs`: the generators (`mont_impl`, `mul_impl_default`, `sqr_impl`,
  `mul_impl_no_carry`, `mul_impl_cios`, `mul_impl_asm4`, `mul_impl`,
  `valid_impl`, `prime_field_impl`), each with a contract that gives its output
  exactly.
- `src/range_check.rs`, `src/reduce_law.rs`, `src/mul_law.rs`,
  `src/sqr_law.rs`, `src/mont_law.rs`, `src/cios_law.rs`,
  `src/no_carry_law.rs`, `src/field_law.rs`: what the emitted code computes,
  for every number of limbs: the range check is the comparison of the
  numbers, `reduce` brings a number below twice the modulus under it, the
  schoolbook code and the squaring leave the full product, the Montgomery
  reduction divides by `R = 2^(64 n)` modulo the modulus, and each
  multiplication, with its final reduction, leaves the Montgomery product:
  the number below the modulus that, times `R`, is congruent to `a * b`.
- `src/arith.rs`, `src/semantics.rs`: facts about limbs and about running code.
- `app/lib.rs`: `prime_field_impl` on identifiers, which renders the generated
  code as Rust tokens with `quote` inside the fixed text of the trait
  implementations.
- `src/modular.rs`, `src/field_ops.rs`, `src/product_law.rs`,
  `src/inverse_law.rs`: what the fixed methods of the field type (addition,
  subtraction, doubling, negation, `zero`, `one`, `cmp`, `random`,
  `from_repr`, `inverse`) compute, in the values of the elements.
- `src/binding.rs`: the emitted code binds every variable before it reads
  it (the squaring from two limbs on; for one limb it does not).
- `tests/`: the generated code on small limb counts, and run on numbers with
  `fff`'s `mac_with_carry`, `adc` and `sbb`; the three other word routines
  that the emitted code calls are given their meaning by the tests themselves,
  as by the library.
