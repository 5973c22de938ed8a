use vstd::arithmetic::div_mod::{lemma_add_mod_noop, lemma_small_mod};
use vstd::prelude::*;

verus! {

/// The scalars are the integers modulo 2^64, stored as `u64`.
pub open spec fn modulus() -> int {
    0x1_0000_0000_0000_0000
}

/// The scalar that an integer denotes.
pub open spec fn reduce(x: int) -> int {
    x % modulus()
}

/// Scalar addition: `+` in the ring of integers modulo 2^64.
pub fn scalar_add(a: u64, b: u64) -> (r: u64)
    ensures
        r as int == reduce(a + b),
{
    a.wrapping_add(b)
}

/// Scalar multiplication: `*` in the ring of integers modulo 2^64.
pub fn scalar_mul(a: u64, b: u64) -> (r: u64)
    ensures
        r as int == reduce(a * b),
{
    a.wrapping_mul(b)
}

/// Reducing a summand first does not change the sum.
pub proof fn lemma_reduce_add(x: int, y: int)
    ensures
        reduce(reduce(x) + y) == reduce(x + y),
        reduce(reduce(x) + reduce(y)) == reduce(x + y),
{
    lemma_add_mod_noop(x, y, modulus());
    lemma_add_mod_noop(x % modulus(), y, modulus());
    lemma_add_mod_noop(x, y % modulus(), modulus());
    assert((x % modulus()) % modulus() == x % modulus()) by {
        lemma_small_mod((x % modulus()) as nat, modulus() as nat);
    }
}

/// A scalar is its own reduction.
pub proof fn lemma_reduce_scalar(x: u64)
    ensures
        reduce(x as int) == x,
{
    lemma_small_mod(x as nat, modulus() as nat);
}

} // verus!
