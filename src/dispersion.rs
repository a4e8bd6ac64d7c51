use vstd::prelude::*;

verus! {

/// The fixed-point value that stands for a weight of 1.
pub const WEIGHT_ONE: u64 = 4294967296;

/// The dispersion parameter, as the fraction `numerator / denominator`.
///
/// It is usable when it lies in the closed interval from 0 to 1: a positive
/// denominator and `0 <= numerator <= denominator`.
#[derive(Clone, Copy, Debug, PartialEq, Eq, Structural)]
pub struct Dispersion {
    pub numerator: i64,
    pub denominator: u64,
}

impl Dispersion {
    /// The fraction lies in [0, 1].
    pub open spec fn valid(self) -> bool {
        &&& self.denominator > 0
        &&& 0 <= self.numerator
        &&& self.numerator as int <= self.denominator as int
    }

    /// The value 0: every vote is the reference ranking.
    pub open spec fn is_zero(self) -> bool {
        self.numerator == 0
    }

    /// The value 1: every ranking is equally likely.
    pub open spec fn is_one(self) -> bool {
        self.numerator as int == self.denominator as int
    }

    pub fn new(numerator: i64, denominator: u64) -> (r: Dispersion)
        ensures
            r.numerator == numerator,
            r.denominator == denominator,
    {
        Dispersion { numerator, denominator }
    }

    pub fn is_valid(&self) -> (r: bool)
        ensures
            r == self.valid(),
    {
        self.denominator > 0 && self.numerator >= 0 && (self.numerator as u64) <= self.denominator
    }
}

/// The weight of exponent `m`: `WEIGHT_ONE * phi^m`, rounded down after each
/// multiplication by `phi`.
pub open spec fn weight(phi: Dispersion, m: nat) -> int
    decreases m,
{
    if m == 0 {
        WEIGHT_ONE as int
    } else {
        weight(phi, (m - 1) as nat) * phi.numerator / (phi.denominator as int)
    }
}

/// The sum of the weights of the exponents `0 .. n`.
pub open spec fn weight_total(phi: Dispersion, n: nat) -> int
    decreases n,
{
    if n == 0 {
        0
    } else {
        weight_total(phi, (n - 1) as nat) + weight(phi, (n - 1) as nat)
    }
}

/// Each weight lies between 0 and `WEIGHT_ONE`, and none exceeds the one before.
pub proof fn lemma_weight_bounds(phi: Dispersion, m: nat)
    requires
        phi.valid(),
    ensures
        0 <= weight(phi, m) <= WEIGHT_ONE,
        weight(phi, m + 1) <= weight(phi, m),
    decreases m,
{
    if m > 0 {
        lemma_weight_bounds(phi, (m - 1) as nat);
    }
    let w = weight(phi, m);
    let a = phi.numerator as int;
    let b = phi.denominator as int;
    assert(0 <= w * a <= w * b) by (nonlinear_arith)
        requires
            0 <= w,
            0 <= a <= b,
    ;
    assert(0 <= w * a / b <= w) by (nonlinear_arith)
        requires
            0 <= w * a <= w * b,
            0 < b,
    ;
}

/// Weights of zero dispersion: 1 for exponent 0, nothing after.
pub proof fn lemma_weight_zero(phi: Dispersion, m: nat)
    requires
        phi.valid(),
        phi.is_zero(),
    ensures
        weight(phi, m) == if m == 0 { WEIGHT_ONE as int } else { 0 },
    decreases m,
{
    if m > 0 {
        lemma_weight_zero(phi, (m - 1) as nat);
    }
}

/// Weights of dispersion 1: all equal to `WEIGHT_ONE`.
pub proof fn lemma_weight_one(phi: Dispersion, m: nat)
    requires
        phi.valid(),
        phi.is_one(),
    ensures
        weight(phi, m) == WEIGHT_ONE,
    decreases m,
{
    if m > 0 {
        lemma_weight_one(phi, (m - 1) as nat);
        let b = phi.denominator as int;
        assert(WEIGHT_ONE * b / b == WEIGHT_ONE) by (nonlinear_arith)
            requires
                b > 0,
        ;
    }
}

/// The total of the first `n` weights lies between `WEIGHT_ONE` (for `n >= 1`)
/// and `n * WEIGHT_ONE`, and grows with `n`.
pub proof fn lemma_weight_total_bounds(phi: Dispersion, n: nat)
    requires
        phi.valid(),
    ensures
        0 <= weight_total(phi, n) <= n * WEIGHT_ONE,
        n >= 1 ==> weight_total(phi, n) >= WEIGHT_ONE,
        forall|k: nat| k <= n ==> #[trigger] weight_total(phi, k) <= weight_total(phi, n),
    decreases n,
{
    if n > 0 {
        lemma_weight_total_bounds(phi, (n - 1) as nat);
        lemma_weight_bounds(phi, (n - 1) as nat);
        if n == 1 {
            assert(weight_total(phi, 0) == 0);
        }
    }
}

} // verus!
