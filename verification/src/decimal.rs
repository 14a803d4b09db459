use vstd::prelude::*;

verus! {

/// Fractional digits kept to the right of the decimal point.
pub const DEC_SCALE: u32 = 9;

/// Exclusive upper bound (2^96) on the unit count of any well-formed price
/// or quantity; keeps every sum and difference the matching engine computes
/// inside `u128`.
pub const MAX_UNITS: u128 = 0x1000000000000000000000000;

/// 10^n.
pub open spec fn spec_pow10(n: nat) -> nat
    decreases n,
{
    if n == 0 {
        1
    } else {
        10 * spec_pow10((n - 1) as nat)
    }
}

/// An exact, non-negative decimal number: `units` counts multiples of
/// 10^-DEC_SCALE, so equality and ordering of prices are exact integer
/// equality and ordering, never floating point.
#[derive(Clone, Copy, PartialEq, Eq, Structural, Debug)]
pub struct Dec {
    pub units: u128,
}

impl Dec {
    /// Well-formed values leave headroom for the engine's arithmetic.
    pub open spec fn wf(self) -> bool {
        self.units < MAX_UNITS
    }

    /// The exact decimal `mantissa * 10^-scale`.
    pub fn new(mantissa: u64, scale: u32) -> (r: Dec)
        requires
            scale <= DEC_SCALE,
        ensures
            r.units == mantissa * spec_pow10((DEC_SCALE - scale) as nat),
            r.wf(),
    {
        let p = pow10(DEC_SCALE - scale);
        proof {
            lemma_pow10_le_9((DEC_SCALE - scale) as nat);
            assert((mantissa as u128) * p < MAX_UNITS) by (nonlinear_arith)
                requires
                    mantissa <= u64::MAX,
                    p <= 1000000000u128,
                    MAX_UNITS == 0x1000000000000000000000000,
            ;
        }
        Dec { units: (mantissa as u128) * p }
    }

    /// A decimal given directly as a count of 10^-DEC_SCALE units.
    pub fn from_units(units: u128) -> (r: Dec)
        requires
            units < MAX_UNITS,
        ensures
            r.units == units,
            r.wf(),
    {
        Dec { units }
    }

    pub fn is_zero(&self) -> (r: bool)
        ensures
            r == (self.units == 0),
    {
        self.units == 0
    }
}

proof fn lemma_pow10_le_9(n: nat)
    requires
        n <= 9,
    ensures
        spec_pow10(n) <= 1000000000,
        spec_pow10(n) >= 1,
    decreases n,
{
    if n > 0 {
        lemma_pow10_le_9((n - 1) as nat);
        assert(spec_pow10(n) == 10 * spec_pow10((n - 1) as nat));
        assert(spec_pow10((n - 1) as nat) <= 100000000) by {
            lemma_pow10_mono((n - 1) as nat, 8);
            assert(spec_pow10(8) == 100000000) by {
                reveal_with_fuel(spec_pow10, 10);
            }
        }
    }
}

proof fn lemma_pow10_mono(a: nat, b: nat)
    requires
        a <= b,
    ensures
        spec_pow10(a) <= spec_pow10(b),
        spec_pow10(a) >= 1,
    decreases b,
{
    if b > 0 {
        if a == b {
            lemma_pow10_mono((a - 1) as nat, (b - 1) as nat);
        } else {
            lemma_pow10_mono(a, (b - 1) as nat);
        }
    }
}

/// 10^n as an executable value.
fn pow10(n: u32) -> (r: u128)
    requires
        n <= DEC_SCALE,
    ensures
        r == spec_pow10(n as nat),
        1 <= r <= 1000000000,
{
    proof {
        reveal_with_fuel(spec_pow10, 11);
    }
    match n {
        0 => 1,
        1 => 10,
        2 => 100,
        3 => 1000,
        4 => 10000,
        5 => 100000,
        6 => 1000000,
        7 => 10000000,
        8 => 100000000,
        _ => 1000000000,
    }
}

} // verus!
