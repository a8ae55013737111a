//! Nice numbers: the distances `1`, `2` or `5` times a power of ten at which
//! ticks are placed.

use vstd::prelude::*;
use vstd::arithmetic::div_mod::{lemma_fundamental_div_mod, lemma_mod_bound};
use crate::multiples::{
    lemma_multiple_form,
    lemma_multiple_mod,
    lemma_multiples_between_bounds,
    lemma_multiples_between_refines,
    lemma_multiples_between_scale,
    multiples_between,
    next_multiple,
    prev_multiple,
};
use crate::powers::{lemma_pow10_adds, lemma_pow10_positive, lemma_pow10_values, pow10, pow10_exec};
use crate::range::Interval;

verus! {

/// The finest spacing a [`Spacing`] can hold: `10^-21` grid units.
pub const MIN_EXPONENT: i32 = -21;

/// The coarsest power of ten a [`Spacing`] can hold: `10^17` grid units.
pub const MAX_EXPONENT: i32 = 17;

/// The number `mantissa * 10^exponent`, in grid units.
///
/// The exponent may be negative, so the number is kept as the fraction
/// `step() / refine()` of two positive integers: a spacing below one grid unit
/// is a whole number of steps on a grid `refine()` times finer.
pub ghost struct NiceNumber {
    pub mantissa: int,
    pub exponent: int,
}

impl NiceNumber {
    /// The mantissa is `1`, `2` or `5`.
    pub open spec fn is_nice(self) -> bool {
        self.mantissa == 1 || self.mantissa == 2 || self.mantissa == 5
    }

    /// The numerator of the number: `mantissa * 10^exponent` where the
    /// exponent is positive, the mantissa alone where it is not.
    pub open spec fn step(self) -> int {
        if self.exponent > 0 {
            self.mantissa * pow10(self.exponent as nat)
        } else {
            self.mantissa
        }
    }

    /// The denominator of the number: `10^-exponent` where the exponent is
    /// negative, one where it is not.
    pub open spec fn refine(self) -> int {
        if self.exponent < 0 {
            pow10((-self.exponent) as nat)
        } else {
            1
        }
    }

    /// The place of the number in the sequence
    /// `.., 0.5, 1, 2, 5, 10, 20, 50, 100, ..` of all nice numbers.
    pub open spec fn rank(self) -> int {
        3 * self.exponent + if self.mantissa == 1 {
            0int
        } else if self.mantissa == 2 {
            1int
        } else {
            2int
        }
    }

    /// The next smaller number in the sequence of nice numbers.
    pub open spec fn finer(self) -> NiceNumber {
        if self.mantissa == 1 {
            NiceNumber { mantissa: 5, exponent: self.exponent - 1 }
        } else if self.mantissa == 2 {
            NiceNumber { mantissa: 1, exponent: self.exponent }
        } else {
            NiceNumber { mantissa: 2, exponent: self.exponent }
        }
    }

    /// Ten times the number.
    pub open spec fn times_ten(self) -> NiceNumber {
        NiceNumber { mantissa: self.mantissa, exponent: self.exponent + 1 }
    }

    /// The first multiple of this number at or above the coordinate `v`,
    /// measured on the grid refined by `refine()`.
    pub open spec fn next_tick(self, v: int) -> int {
        next_multiple(v * self.refine(), self.step())
    }

    /// The last multiple of this number at or below the coordinate `v`,
    /// measured on the grid refined by `refine()`.
    pub open spec fn prev_tick(self, v: int) -> int {
        prev_multiple(v * self.refine(), self.step())
    }

    /// The number of multiples of this number in `range`, both ends counted.
    pub open spec fn tick_count(self, range: Interval) -> int {
        multiples_between(range.min * self.refine(), range.max * self.refine(), self.step())
    }

    /// Whether `intervals` distances of this length fit into `size`.
    pub open spec fn fits(self, size: int, intervals: int) -> bool {
        self.step() * intervals <= size * self.refine()
    }

    /// Numerator and denominator are positive.
    pub proof fn lemma_positive(self)
        requires
            self.mantissa >= 1,
        ensures
            self.step() >= 1,
            self.refine() >= 1,
    {
        if self.exponent > 0 {
            lemma_pow10_positive(self.exponent as nat);
            let m = self.mantissa;
            let p = pow10(self.exponent as nat);
            assert(m * p >= 1) by (nonlinear_arith)
                requires
                    m >= 1,
                    p >= 1,
            ;
        }
        if self.exponent < 0 {
            lemma_pow10_positive((-self.exponent) as nat);
        }
    }

    /// Ten times the number, as a relation between the two fractions.
    pub proof fn lemma_times_ten(self)
        requires
            self.mantissa >= 1,
        ensures
            self.times_ten().step() * self.refine() == 10 * (self.step()
                * self.times_ten().refine()),
    {
        let m = self.mantissa;
        if self.exponent >= 0 {
            let p = pow10(self.exponent as nat);
            assert(pow10((self.exponent + 1) as nat) == 10 * p);
            assert(m * (10 * p) * 1 == 10 * ((m * p) * 1)) by (nonlinear_arith);
            if self.exponent == 0 {
                assert(p == 1);
                assert(m * (10 * p) * 1 == 10 * (m * 1)) by (nonlinear_arith)
                    requires
                        p == 1,
                ;
            }
        } else {
            let r = pow10((-self.exponent - 1) as nat);
            assert(pow10((-self.exponent) as nat) == 10 * r);
            if self.exponent == -1 {
                assert(r == 1);
            }
            assert(m * (10 * r) == 10 * (m * r)) by (nonlinear_arith);
        }
    }

    /// Where `intervals` distances of this length do not fit into the range's
    /// size, the range holds at most `intervals` multiples.
    pub proof fn lemma_count_at_most(self, range: Interval, intervals: int)
        requires
            self.mantissa >= 1,
            intervals >= 0,
            !self.fits(range.max - range.min, intervals),
        ensures
            self.tick_count(range) <= intervals,
    {
        self.lemma_positive();
        let s = self.step();
        let r = self.refine();
        let lo = range.min * r;
        let hi = range.max * r;
        lemma_multiples_between_bounds(lo, hi, s);
        lemma_fundamental_div_mod(hi - lo, s);
        lemma_mod_bound(hi - lo, s);
        let q = (hi - lo) / s;
        let rem = (hi - lo) % s;
        assert(hi - lo == (range.max - range.min) * r) by (nonlinear_arith)
            requires
                lo == range.min * r,
                hi == range.max * r,
        ;
        assert(q < intervals) by (nonlinear_arith)
            requires
                s >= 1,
                hi - lo == s * q + rem,
                0 <= rem,
                s * intervals > hi - lo,
        ;
    }

    /// Where `intervals` distances of this length fit into the range's size,
    /// the range holds at least `intervals` multiples.
    pub proof fn lemma_count_at_least(self, range: Interval, intervals: int)
        requires
            self.mantissa >= 1,
            self.fits(range.max - range.min, intervals),
        ensures
            self.tick_count(range) >= intervals,
    {
        self.lemma_positive();
        let s = self.step();
        let r = self.refine();
        let lo = range.min * r;
        let hi = range.max * r;
        lemma_multiples_between_bounds(lo, hi, s);
        lemma_fundamental_div_mod(hi - lo, s);
        lemma_mod_bound(hi - lo, s);
        let q = (hi - lo) / s;
        let rem = (hi - lo) % s;
        assert(hi - lo == (range.max - range.min) * r) by (nonlinear_arith)
            requires
                lo == range.min * r,
                hi == range.max * r,
        ;
        assert(q >= intervals) by (nonlinear_arith)
            requires
                s >= 1,
                hi - lo == s * q + rem,
                rem < s,
                s * intervals <= hi - lo,
        ;
    }

    /// Where `intervals` distances of this length fit into a size, ten times
    /// as many distances of a tenth of the length fit as well.
    pub proof fn lemma_tenth_fits(self, size: int, intervals: int)
        requires
            self.mantissa >= 1,
            self.times_ten().fits(size, intervals),
        ensures
            self.fits(size, 10 * intervals),
    {
        self.lemma_positive();
        self.times_ten().lemma_positive();
        self.lemma_times_ten();
        let s = self.step();
        let r = self.refine();
        let s10 = self.times_ten().step();
        let r10 = self.times_ten().refine();
        assert(s * (10 * intervals) <= size * r) by (nonlinear_arith)
            requires
                s10 * r == 10 * (s * r10),
                s10 * intervals <= size * r10,
                r >= 1,
                r10 >= 1,
                s >= 1,
                s10 >= 1,
        ;
    }

    /// A power of ten is a whole multiple of every nice number that does not
    /// come after it in the sequence. The multiple is returned.
    pub proof fn lemma_divides_power_of_ten(self, power: NiceNumber) -> (q: int)
        requires
            self.is_nice(),
            power.mantissa == 1,
            self.rank() <= power.rank(),
        ensures
            q >= 1,
            power.step() * self.refine() == q * (self.step() * power.refine()),
    {
        let m = self.mantissa;
        let n = self.exponent;
        let p = power.exponent;
        self.lemma_positive();
        power.lemma_positive();
        if n == p {
            assert(power == self);
            let x = power.step() * self.refine();
            assert(x == 1 * x) by (nonlinear_arith);
            1
        } else {
            let d = (p - n - 1) as nat;
            let cofactor: int = if m == 1 {
                10
            } else if m == 2 {
                5
            } else {
                2
            };
            let q = cofactor * pow10(d);
            lemma_pow10_positive(d);
            assert(q >= 1) by (nonlinear_arith)
                requires
                    q == cofactor * pow10(d),
                    cofactor >= 2,
                    pow10(d) >= 1,
            ;
            // exponents of the four powers of ten involved
            let ps: nat = if p > 0 {
                p as nat
            } else {
                0
            };
            let pr: nat = if p < 0 {
                (-p) as nat
            } else {
                0
            };
            let ns: nat = if n > 0 {
                n as nat
            } else {
                0
            };
            let nr: nat = if n < 0 {
                (-n) as nat
            } else {
                0
            };
            assert(pow10(0) == 1);
            assert(power.step() == pow10(ps)) by (nonlinear_arith)
                requires
                    power.step() == if p > 0 {
                        1 * pow10(ps)
                    } else {
                        1
                    },
                    pow10(0) == 1,
                    p <= 0 ==> ps == 0,
            ;
            assert(power.refine() == pow10(pr));
            assert(self.step() == m * pow10(ns)) by (nonlinear_arith)
                requires
                    self.step() == if n > 0 {
                        m * pow10(ns)
                    } else {
                        m
                    },
                    pow10(0) == 1,
                    n <= 0 ==> ns == 0,
            ;
            assert(self.refine() == pow10(nr));
            assert(ps + nr == (d + 1) + ns + pr);
            lemma_pow10_adds(ps, nr);
            lemma_pow10_adds(d + 1, ns + pr);
            lemma_pow10_adds(ns, pr);
            assert(pow10(d + 1) == 10 * pow10(d));
            let a = pow10(d);
            let b = pow10(ns);
            let c = pow10(pr);
            assert((10 * a) * (b * c) == (cofactor * a) * ((m * b) * c)) by (nonlinear_arith)
                requires
                    cofactor * m == 10,
            ;
            q
        }
    }

    /// Where `coarse` is `q` times `self` and the range holds a multiple of
    /// `coarse`, it holds at least as many multiples of `self`.
    pub proof fn lemma_count_refines(self, coarse: NiceNumber, range: Interval, q: int)
        requires
            self.mantissa >= 1,
            coarse.mantissa >= 1,
            q >= 1,
            coarse.step() * self.refine() == q * (self.step() * coarse.refine()),
            coarse.tick_count(range) >= 1,
        ensures
            self.tick_count(range) >= coarse.tick_count(range),
    {
        self.lemma_positive();
        coarse.lemma_positive();
        let sf = self.step();
        let rf = self.refine();
        let sc = coarse.step();
        let rc = coarse.refine();
        let lo = range.min;
        let hi = range.max;
        // the coarse count, on the grid refined by both denominators
        lemma_multiples_between_scale(lo * rc, hi * rc, sc, rf);
        // the fine count with the step stretched by q, on the same grid
        assert(sf * q >= 1) by (nonlinear_arith)
            requires
                sf >= 1,
                q >= 1,
        ;
        lemma_multiples_between_scale(lo * rf, hi * rf, sf * q, rc);
        assert((lo * rc) * rf == (lo * rf) * rc) by (nonlinear_arith);
        assert((hi * rc) * rf == (hi * rf) * rc) by (nonlinear_arith);
        assert(sc * rf == (sf * q) * rc) by (nonlinear_arith)
            requires
                sc * rf == q * (sf * rc),
        ;
        assert(multiples_between(lo * rf, hi * rf, sf * q) == coarse.tick_count(range));
        lemma_multiples_between_refines(lo * rf, hi * rf, sf, q);
    }

    /// Below one grid unit every coordinate is a multiple of the number.
    pub proof fn lemma_coordinates_are_multiples(self, v: int)
        requires
            self.is_nice(),
            self.exponent < 0,
        ensures
            (v * self.refine()) % self.step() == 0,
            self.next_tick(v) == v * self.refine(),
            self.prev_tick(v) == v * self.refine(),
    {
        let m = self.mantissa;
        let cofactor: int = if m == 1 {
            10
        } else if m == 2 {
            5
        } else {
            2
        };
        let rest = pow10((-self.exponent - 1) as nat);
        assert(self.refine() == 10 * rest);
        assert(v * (10 * rest) == m * (v * (cofactor * rest))) by (nonlinear_arith)
            requires
                cofactor * m == 10,
        ;
        lemma_multiple_mod(v * (cofactor * rest), m);
        lemma_multiple_form(v * self.refine(), m);
    }

    /// The rank tells nice numbers apart.
    pub proof fn lemma_rank_injective(self, other: NiceNumber)
        requires
            self.is_nice(),
            other.is_nice(),
            self.rank() == other.rank(),
        ensures
            self == other,
    {
    }

    /// `finer` is the nice number one place earlier in the sequence.
    pub proof fn lemma_finer_rank(self)
        requires
            self.is_nice(),
        ensures
            self.finer().is_nice(),
            self.finer().rank() == self.rank() - 1,
    {
    }
}

/// A tick spacing: a nice number whose exponent lies between
/// [`MIN_EXPONENT`] and [`MAX_EXPONENT`].
#[derive(Copy, Clone, Debug, PartialEq, Eq, Structural)]
pub struct Spacing {
    mantissa: u8,
    exponent: i32,
}

impl View for Spacing {
    type V = NiceNumber;

    closed spec fn view(&self) -> NiceNumber {
        NiceNumber { mantissa: self.mantissa as int, exponent: self.exponent as int }
    }
}

impl Spacing {
    /// The mantissa is `1`, `2` or `5` and the exponent is within bounds.
    pub open spec fn wf(self) -> bool {
        &&& self@.is_nice()
        &&& MIN_EXPONENT <= self@.exponent <= MAX_EXPONENT
    }

    /// The spacing `mantissa * 10^exponent`.
    pub fn new(mantissa: u8, exponent: i32) -> (spacing: Spacing)
        requires
            mantissa == 1 || mantissa == 2 || mantissa == 5,
            MIN_EXPONENT <= exponent <= MAX_EXPONENT,
        ensures
            spacing.wf(),
            spacing@ == (NiceNumber { mantissa: mantissa as int, exponent: exponent as int }),
    {
        Spacing { mantissa, exponent }
    }

    /// The mantissa: `1`, `2` or `5` in a well-formed spacing.
    pub fn mantissa(&self) -> (mantissa: u8)
        ensures
            mantissa == self@.mantissa,
    {
        self.mantissa
    }

    /// The power of ten the mantissa is multiplied by.
    pub fn exponent(&self) -> (exponent: i32)
        ensures
            exponent == self@.exponent,
    {
        self.exponent
    }

    /// Ten times this spacing.
    pub fn times_ten(self) -> (spacing: Spacing)
        requires
            self.wf(),
            self@.exponent < MAX_EXPONENT,
        ensures
            spacing.wf(),
            spacing@ == self@.times_ten(),
    {
        Spacing { mantissa: self.mantissa, exponent: self.exponent + 1 }
    }

    /// The numerator of the spacing, see [`NiceNumber::step`].
    pub fn step(&self) -> (step: i128)
        requires
            self.wf(),
        ensures
            step == self@.step(),
            1 <= step <= 500_000_000_000_000_000,
    {
        proof {
            lemma_pow10_values();
        }
        if self.exponent > 0 {
            let power = pow10_exec(self.exponent as u32);
            proof {
                crate::powers::lemma_pow10_monotone(self.exponent as nat, 17);
                let m = self.mantissa as int;
                let p = power as int;
                assert(1 <= m * p <= 500_000_000_000_000_000) by (nonlinear_arith)
                    requires
                        1 <= m <= 5,
                        1 <= p <= 100_000_000_000_000_000,
                ;
            }
            self.mantissa as i128 * power
        } else {
            self.mantissa as i128
        }
    }

    /// The denominator of the spacing, see [`NiceNumber::refine`].
    pub fn refine(&self) -> (refine: i128)
        requires
            self.wf(),
        ensures
            refine == self@.refine(),
            1 <= refine <= 1_000_000_000_000_000_000_000,
    {
        proof {
            lemma_pow10_values();
        }
        if self.exponent < 0 {
            proof {
                crate::powers::lemma_pow10_monotone((-self.exponent) as nat, 21);
            }
            pow10_exec((-self.exponent) as u32)
        } else {
            1
        }
    }
}

} // verus!
