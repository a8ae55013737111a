//! Powers of ten.

use vstd::prelude::*;

verus! {

/// Ten to the power `n`.
pub open spec fn pow10(n: nat) -> int
    decreases n,
{
    if n == 0 {
        1
    } else {
        10 * pow10((n - 1) as nat)
    }
}

/// The largest exponent [`pow10_exec`] accepts.
pub const POW10_LIMIT: u32 = 22;

/// A power of ten is at least one.
pub proof fn lemma_pow10_positive(n: nat)
    ensures
        pow10(n) >= 1,
    decreases n,
{
    if n > 0 {
        lemma_pow10_positive((n - 1) as nat);
    }
}

/// Exponents add where powers multiply.
pub proof fn lemma_pow10_adds(a: nat, b: nat)
    ensures
        pow10(a + b) == pow10(a) * pow10(b),
    decreases a,
{
    if a == 0 {
        assert(pow10(0) * pow10(b) == pow10(b)) by (nonlinear_arith)
            requires
                pow10(0) == 1,
        ;
    } else {
        lemma_pow10_adds((a - 1) as nat, b);
        let x = pow10((a - 1) as nat);
        let y = pow10(b);
        assert(pow10(a + b) == 10 * pow10((a + b - 1) as nat));
        assert((10 * x) * y == 10 * (x * y)) by (nonlinear_arith);
    }
}

/// A larger exponent gives a power that is at least as large.
pub proof fn lemma_pow10_monotone(a: nat, b: nat)
    requires
        a <= b,
    ensures
        pow10(a) <= pow10(b),
    decreases b - a,
{
    if a < b {
        lemma_pow10_monotone(a, (b - 1) as nat);
        lemma_pow10_positive((b - 1) as nat);
    }
}

/// The powers of ten that bound this crate's arithmetic, written out.
pub proof fn lemma_pow10_values()
    ensures
        pow10(0) == 1,
        pow10(1) == 10,
        pow10(15) == 1_000_000_000_000_000,
        pow10(16) == 10_000_000_000_000_000,
        pow10(17) == 100_000_000_000_000_000,
        pow10(20) == 100_000_000_000_000_000_000,
        pow10(21) == 1_000_000_000_000_000_000_000,
        pow10(22) == 10_000_000_000_000_000_000_000,
{
    reveal_with_fuel(pow10, 23);
}

/// Ten to the power `n`, computed.
pub fn pow10_exec(n: u32) -> (power: i128)
    requires
        n <= POW10_LIMIT,
    ensures
        power == pow10(n as nat),
        1 <= power <= 10_000_000_000_000_000_000_000,
{
    let mut power: i128 = 1;
    let mut i: u32 = 0;
    while i < n
        invariant
            i <= n <= POW10_LIMIT,
            power == pow10(i as nat),
        decreases n - i,
    {
        proof {
            assert(pow10((i + 1) as nat) == 10 * pow10(i as nat));
            lemma_pow10_positive(i as nat);
            lemma_pow10_monotone((i + 1) as nat, 22);
            lemma_pow10_values();
        }
        power = power * 10;
        i += 1;
    }
    proof {
        lemma_pow10_monotone(n as nat, 22);
        lemma_pow10_positive(n as nat);
        lemma_pow10_values();
    }
    power
}

} // verus!
