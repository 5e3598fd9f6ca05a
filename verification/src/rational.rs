use vstd::arithmetic::div_mod::{
    lemma_div_by_self, lemma_div_of0, lemma_fundamental_div_mod, lemma_mod_multiples_basic,
    lemma_mod_self_0, lemma_small_mod,
};
use vstd::prelude::*;

verus! {

/// An exact rational number `num / den` with `den >= 1`.
///
/// This is the numeric cell type every arithmetic operation computes in:
/// textual cells are parsed into `Rational` values, the operation runs on
/// them exactly, and results are formatted back into decimal text. Exactness
/// keeps the determinant's zero-pivot test an exact-equality test.
#[derive(Clone, Copy, Debug, PartialEq, Eq, Structural)]
pub struct Rational {
    pub num: i64,
    pub den: i64,
}

/// The magnitude of an integer.
pub open spec fn abs_int(n: int) -> nat {
    if n >= 0 {
        n as nat
    } else {
        (-n) as nat
    }
}

/// The greatest common divisor, by Euclid's rule; `gcd_nat(a, 0) == a`.
pub open spec fn gcd_nat(a: nat, b: nat) -> nat
    decreases b,
{
    if b == 0 {
        a
    } else {
        gcd_nat(b, a % b)
    }
}

/// The divisor by which `n / d` is brought to lowest terms.
pub open spec fn red_gcd(n: int, d: int) -> nat {
    gcd_nat(abs_int(n), d as nat)
}

/// The numerator of `n / d` in lowest terms (`d >= 1`); `0` keeps sign `+`.
pub open spec fn red_num(n: int, d: int) -> int {
    if n >= 0 {
        (abs_int(n) / red_gcd(n, d)) as int
    } else {
        -((abs_int(n) / red_gcd(n, d)) as int)
    }
}

/// The denominator of `n / d` in lowest terms (`d >= 1`).
pub open spec fn red_den(n: int, d: int) -> int {
    ((d as nat) / red_gcd(n, d)) as int
}

/// Whether `n / d` in lowest terms fits the fixed-width cell type.
pub open spec fn norm_fits(n: int, d: int) -> bool {
    &&& i64::MIN <= red_num(n, d) <= i64::MAX
    &&& red_den(n, d) <= i64::MAX
}

/// The exact numerator of a sum over a common denominator.
pub open spec fn sum_num(a: Rational, b: Rational) -> int {
    (a.num as int) * (b.den as int) + (b.num as int) * (a.den as int)
}

/// The exact numerator of a difference over a common denominator.
pub open spec fn diff_num(a: Rational, b: Rational) -> int {
    (a.num as int) * (b.den as int) - (b.num as int) * (a.den as int)
}

/// The exact numerator of a product.
pub open spec fn prod_num(a: Rational, b: Rational) -> int {
    (a.num as int) * (b.num as int)
}

/// The common denominator of a pairwise sum, difference or product.
pub open spec fn pair_den(a: Rational, b: Rational) -> int {
    (a.den as int) * (b.den as int)
}

/// The numerator of the exact quotient `a / b`, sign-adjusted so that the
/// matching denominator `quot_den` stays positive.
pub open spec fn quot_num(a: Rational, b: Rational) -> int {
    if b.num >= 0 {
        (a.num as int) * (b.den as int)
    } else {
        -((a.num as int) * (b.den as int))
    }
}

/// The (positive) denominator of the exact quotient `a / b`.
pub open spec fn quot_den(a: Rational, b: Rational) -> int {
    if b.num >= 0 {
        (a.den as int) * (b.num as int)
    } else {
        -((a.den as int) * (b.num as int))
    }
}

/// Euclid's rule yields a positive common divisor of both arguments.
proof fn lemma_gcd_divides(a: nat, b: nat)
    requires
        a > 0 || b > 0,
    ensures
        gcd_nat(a, b) > 0,
        a % gcd_nat(a, b) == 0,
        b % gcd_nat(a, b) == 0,
    decreases b,
{
    if b == 0 {
        lemma_mod_self_0(a as int);
        lemma_small_mod(0, a);
    } else {
        let q = a % b;
        let g = gcd_nat(b, q);
        lemma_gcd_divides(b, q);
        lemma_fundamental_div_mod(a as int, b as int);
        lemma_fundamental_div_mod(b as int, g as int);
        lemma_fundamental_div_mod(q as int, g as int);
        let ai = a as int;
        let bi = b as int;
        let qi = q as int;
        let gi = g as int;
        assert(ai == ((bi / gi) * (ai / bi) + (qi / gi)) * gi) by (nonlinear_arith)
            requires
                ai == bi * (ai / bi) + qi,
                bi == gi * (bi / gi),
                qi == gi * (qi / gi),
        ;
        lemma_mod_multiples_basic((bi / gi) * (ai / bi) + (qi / gi), gi);
    }
}

/// Reduction to lowest terms keeps the denominator positive and the value
/// unchanged: `red_num(n, d) / red_den(n, d) == n / d` exactly.
pub proof fn lemma_red_value(n: int, d: int)
    requires
        d >= 1,
    ensures
        red_den(n, d) >= 1,
        red_num(n, d) * d == n * red_den(n, d),
        n >= 0 ==> red_num(n, d) >= 0,
        n < 0 ==> red_num(n, d) < 0,
        n == 0 ==> red_num(n, d) == 0 && red_den(n, d) == 1,
{
    let m = abs_int(n);
    let g = red_gcd(n, d);
    lemma_gcd_divides(m, d as nat);
    lemma_fundamental_div_mod(m as int, g as int);
    lemma_fundamental_div_mod(d, g as int);
    let mi = m as int;
    let gi = g as int;
    let nm = mi / gi;
    let dm = d / gi;
    assert(dm >= 1) by {
        if dm <= 0 {
            assert(gi * dm <= 0) by (nonlinear_arith)
                requires
                    gi > 0,
                    dm <= 0,
            ;
        }
    }
    assert(nm >= 0) by {
        if nm < 0 {
            assert(gi * nm < 0) by (nonlinear_arith)
                requires
                    gi > 0,
                    nm < 0,
            ;
        }
    }
    assert(red_den(n, d) == dm);
    assert(nm * d == mi * dm) by (nonlinear_arith)
        requires
            mi == gi * nm,
            d == gi * dm,
    ;
    if n >= 0 {
        assert(red_num(n, d) == nm);
        assert(mi == n);
    } else {
        assert(red_num(n, d) == -nm);
        assert(mi == -n);
        assert((-nm) * d == n * dm) by (nonlinear_arith)
            requires
                nm * d == (-n) * dm,
        ;
        assert(nm > 0) by {
            if nm == 0 {
                assert(mi == gi * 0 + mi % gi);
            }
        }
    }
    if n == 0 {
        lemma_small_mod(0, d as nat);
        assert(gcd_nat(0 as nat, d as nat) == gcd_nat(d as nat, 0 as nat));
        assert(gi == d);
        lemma_div_of0(gi);
        lemma_div_by_self(gi);
    }
}

/// Reduction to lowest terms never grows a fraction's parts: a pair already
/// within the cell type's range stays within it.
pub proof fn lemma_red_fits(n: int, d: int)
    requires
        d >= 1,
        -0x8000_0000_0000_0000 <= n <= 0x7fff_ffff_ffff_ffff,
        d <= 0x7fff_ffff_ffff_ffff,
    ensures
        norm_fits(n, d),
{
    let m = abs_int(n);
    let g = red_gcd(n, d);
    lemma_gcd_divides(m, d as nat);
    vstd::arithmetic::div_mod::lemma_div_nonincreasing(m as int, g as int);
    vstd::arithmetic::div_mod::lemma_div_nonincreasing(d, g as int);
    vstd::arithmetic::div_mod::lemma_div_pos_is_pos(m as int, g as int);
    vstd::arithmetic::div_mod::lemma_div_pos_is_pos(d, g as int);
}

/// `gcd_nat`, computed by the same rule it is specified by.
fn gcd_u128(a: u128, b: u128) -> (g: u128)
    ensures
        g as nat == gcd_nat(a as nat, b as nat),
    decreases b,
{
    if b == 0 {
        a
    } else {
        gcd_u128(b, a % b)
    }
}

/// Brings `n / d` to lowest terms and narrows it to the cell type.
/// Returns `None` exactly when the reduced numerator or denominator does not
/// fit; the reduced value itself is always well defined.
fn normalize(n: i128, d: i128) -> (r: Option<Rational>)
    requires
        1 <= d,
        i128::MIN < n,
    ensures
        match r {
            Some(q) => {
                &&& q.den >= 1
                &&& norm_fits(n as int, d as int)
                &&& q.num == red_num(n as int, d as int)
                &&& q.den == red_den(n as int, d as int)
            },
            None => !norm_fits(n as int, d as int),
        },
{
    let neg = n < 0;
    let mag: u128 = if neg {
        (-n) as u128
    } else {
        n as u128
    };
    let dmag: u128 = d as u128;
    assert(mag as nat == abs_int(n as int));
    let g = gcd_u128(mag, dmag);
    proof {
        lemma_gcd_divides(mag as nat, dmag as nat);
        lemma_fundamental_div_mod(dmag as int, g as int);
        lemma_fundamental_div_mod(mag as int, g as int);
    }
    let nm = mag / g;
    let dm = dmag / g;
    assert(dm >= 1) by {
        if dm == 0 {
            assert(dmag as int == g as int * 0 + 0);
        }
    }
    if dm > 0x7fff_ffff_ffff_ffffu128 {
        return None;
    }
    if neg {
        if nm > 0x8000_0000_0000_0000u128 {
            return None;
        }
        let num: i64 = (-(nm as i128)) as i64;
        Some(Rational { num, den: dm as i64 })
    } else {
        if nm > 0x7fff_ffff_ffff_ffffu128 {
            return None;
        }
        Some(Rational { num: nm as i64, den: dm as i64 })
    }
}

/// `|x * y| <= 2^126 - 2^63` for a numerator `x` and a denominator `y`.
proof fn lemma_num_den_bound(x: int, y: int)
    requires
        -0x8000_0000_0000_0000 <= x <= 0x7fff_ffff_ffff_ffff,
        1 <= y <= 0x7fff_ffff_ffff_ffff,
    ensures
        -0x3fff_ffff_ffff_ffff_8000_0000_0000_0000 <= x * y
            <= 0x3fff_ffff_ffff_ffff_8000_0000_0000_0000,
{
    assert(-0x3fff_ffff_ffff_ffff_8000_0000_0000_0000 <= x * y
        <= 0x3fff_ffff_ffff_ffff_8000_0000_0000_0000) by (nonlinear_arith)
        requires
            -0x8000_0000_0000_0000 <= x <= 0x7fff_ffff_ffff_ffff,
            1 <= y <= 0x7fff_ffff_ffff_ffff,
    ;
}

/// `|x * y| <= 2^126` for two numerators.
proof fn lemma_num_num_bound(x: int, y: int)
    requires
        -0x8000_0000_0000_0000 <= x <= 0x7fff_ffff_ffff_ffff,
        -0x8000_0000_0000_0000 <= y <= 0x7fff_ffff_ffff_ffff,
    ensures
        -0x4000_0000_0000_0000_0000_0000_0000_0000 <= x * y
            <= 0x4000_0000_0000_0000_0000_0000_0000_0000,
{
    assert(-0x4000_0000_0000_0000_0000_0000_0000_0000 <= x * y
        <= 0x4000_0000_0000_0000_0000_0000_0000_0000) by (nonlinear_arith)
        requires
            -0x8000_0000_0000_0000 <= x <= 0x7fff_ffff_ffff_ffff,
            -0x8000_0000_0000_0000 <= y <= 0x7fff_ffff_ffff_ffff,
    ;
}

/// `1 <= x * y < 2^126` for two denominators.
proof fn lemma_den_den_bound(x: int, y: int)
    requires
        1 <= x <= 0x7fff_ffff_ffff_ffff,
        1 <= y <= 0x7fff_ffff_ffff_ffff,
    ensures
        1 <= x * y <= 0x3fff_ffff_ffff_ffff_8000_0000_0000_0000,
{
    assert(1 <= x * y <= 0x3fff_ffff_ffff_ffff_8000_0000_0000_0000) by (nonlinear_arith)
        requires
            1 <= x <= 0x7fff_ffff_ffff_ffff,
            1 <= y <= 0x7fff_ffff_ffff_ffff,
    ;
}

impl Rational {
    /// Well-formed: the denominator is positive.
    pub open spec fn wf(self) -> bool {
        self.den >= 1
    }

    /// The same value in lowest terms. Always representable: reduction never
    /// grows either part.
    pub fn reduced(&self) -> (r: Rational)
        requires
            self.wf(),
        ensures
            r.wf(),
            r.num == red_num(self.num as int, self.den as int),
            r.den == red_den(self.num as int, self.den as int),
    {
        proof {
            lemma_red_fits(self.num as int, self.den as int);
        }
        match normalize(self.num as i128, self.den as i128) {
            Some(q) => q,
            None => Rational { num: 0, den: 1 },
        }
    }

    /// The whole number `n`.
    pub fn from_int(n: i64) -> (r: Rational)
        ensures
            r.wf(),
            r.num == n,
            r.den == 1,
    {
        Rational { num: n, den: 1 }
    }

    /// The zero value.
    pub fn zero() -> (r: Rational)
        ensures
            r.wf(),
            r.num == 0,
            r.den == 1,
    {
        Rational { num: 0, den: 1 }
    }

    /// The unit value.
    pub fn one() -> (r: Rational)
        ensures
            r.wf(),
            r.num == 1,
            r.den == 1,
    {
        Rational { num: 1, den: 1 }
    }

    /// Whether the value is exactly zero. Exact equality, no tolerance: a
    /// well-formed rational is zero exactly when its numerator is.
    pub fn is_zero(&self) -> (b: bool)
        ensures
            b <==> self.num == 0,
    {
        self.num == 0
    }

    /// Whether the two values are equal as numbers (cross multiplication).
    pub fn same_value(&self, other: &Rational) -> (b: bool)
        requires
            self.wf(),
            other.wf(),
        ensures
            b <==> (self.num as int) * (other.den as int) == (other.num as int) * (self.den
                as int),
    {
        proof {
            lemma_num_den_bound(self.num as int, other.den as int);
            lemma_num_den_bound(other.num as int, self.den as int);
        }
        (self.num as i128) * (other.den as i128) == (other.num as i128) * (self.den as i128)
    }

    /// The exact sum `self + other`, in lowest terms; `None` exactly when the
    /// reduced result does not fit the cell type.
    pub fn add(&self, other: &Rational) -> (r: Option<Rational>)
        requires
            self.wf(),
            other.wf(),
        ensures
            match r {
                Some(q) => {
                    &&& q.wf()
                    &&& norm_fits(sum_num(*self, *other), pair_den(*self, *other))
                    &&& q.num == red_num(sum_num(*self, *other), pair_den(*self, *other))
                    &&& q.den == red_den(sum_num(*self, *other), pair_den(*self, *other))
                },
                None => !norm_fits(sum_num(*self, *other), pair_den(*self, *other)),
            },
    {
        proof {
            lemma_num_den_bound(self.num as int, other.den as int);
            lemma_num_den_bound(other.num as int, self.den as int);
            lemma_den_den_bound(self.den as int, other.den as int);
        }
        let n = (self.num as i128) * (other.den as i128) + (other.num as i128) * (self.den
            as i128);
        let d = (self.den as i128) * (other.den as i128);
        normalize(n, d)
    }

    /// The exact difference `self - other`, in lowest terms; `None` exactly
    /// when the reduced result does not fit the cell type.
    pub fn sub(&self, other: &Rational) -> (r: Option<Rational>)
        requires
            self.wf(),
            other.wf(),
        ensures
            match r {
                Some(q) => {
                    &&& q.wf()
                    &&& norm_fits(diff_num(*self, *other), pair_den(*self, *other))
                    &&& q.num == red_num(diff_num(*self, *other), pair_den(*self, *other))
                    &&& q.den == red_den(diff_num(*self, *other), pair_den(*self, *other))
                },
                None => !norm_fits(diff_num(*self, *other), pair_den(*self, *other)),
            },
    {
        proof {
            lemma_num_den_bound(self.num as int, other.den as int);
            lemma_num_den_bound(other.num as int, self.den as int);
            lemma_den_den_bound(self.den as int, other.den as int);
        }
        let n = (self.num as i128) * (other.den as i128) - (other.num as i128) * (self.den
            as i128);
        let d = (self.den as i128) * (other.den as i128);
        normalize(n, d)
    }

    /// The exact product `self * other`, in lowest terms; `None` exactly when
    /// the reduced result does not fit the cell type.
    pub fn mul(&self, other: &Rational) -> (r: Option<Rational>)
        requires
            self.wf(),
            other.wf(),
        ensures
            match r {
                Some(q) => {
                    &&& q.wf()
                    &&& norm_fits(prod_num(*self, *other), pair_den(*self, *other))
                    &&& q.num == red_num(prod_num(*self, *other), pair_den(*self, *other))
                    &&& q.den == red_den(prod_num(*self, *other), pair_den(*self, *other))
                },
                None => !norm_fits(prod_num(*self, *other), pair_den(*self, *other)),
            },
    {
        proof {
            lemma_num_num_bound(self.num as int, other.num as int);
            lemma_den_den_bound(self.den as int, other.den as int);
        }
        let n = (self.num as i128) * (other.num as i128);
        let d = (self.den as i128) * (other.den as i128);
        normalize(n, d)
    }

    /// The exact quotient `self / other` for `other != 0`, in lowest terms;
    /// `None` exactly when the reduced result does not fit the cell type.
    pub fn div(&self, other: &Rational) -> (r: Option<Rational>)
        requires
            self.wf(),
            other.wf(),
            other.num != 0,
        ensures
            match r {
                Some(q) => {
                    &&& q.wf()
                    &&& norm_fits(quot_num(*self, *other), quot_den(*self, *other))
                    &&& q.num == red_num(quot_num(*self, *other), quot_den(*self, *other))
                    &&& q.den == red_den(quot_num(*self, *other), quot_den(*self, *other))
                },
                None => !norm_fits(quot_num(*self, *other), quot_den(*self, *other)),
            },
    {
        proof {
            lemma_num_den_bound(self.num as int, other.den as int);
            lemma_num_num_bound(self.den as int, other.num as int);
        }
        let n = (self.num as i128) * (other.den as i128);
        let d = (self.den as i128) * (other.num as i128);
        if other.num >= 0 {
            proof {
                assert((self.den as int) * (other.num as int) >= 1) by (nonlinear_arith)
                    requires
                        self.den as int >= 1,
                        other.num as int >= 1,
                ;
            }
            normalize(n, d)
        } else {
            proof {
                assert((self.den as int) * (other.num as int) <= -1) by (nonlinear_arith)
                    requires
                        self.den as int >= 1,
                        other.num as int <= -1,
                ;
            }
            normalize(-n, -d)
        }
    }

    /// The exact negation `-self`, in lowest terms; `None` exactly when the
    /// reduced result does not fit the cell type.
    pub fn neg(&self) -> (r: Option<Rational>)
        requires
            self.wf(),
        ensures
            match r {
                Some(q) => {
                    &&& q.wf()
                    &&& norm_fits(-(self.num as int), self.den as int)
                    &&& q.num == red_num(-(self.num as int), self.den as int)
                    &&& q.den == red_den(-(self.num as int), self.den as int)
                },
                None => !norm_fits(-(self.num as int), self.den as int),
            },
    {
        normalize(-(self.num as i128), self.den as i128)
    }

    /// Whether `|self| > |other|`, the partial-pivot comparison.
    pub fn abs_gt(&self, other: &Rational) -> (b: bool)
        requires
            self.wf(),
            other.wf(),
        ensures
            b <==> abs_int(self.num as int) * (other.den as int) > abs_int(other.num as int)
                * (self.den as int),
    {
        let sm = abs_mag(self.num);
        let om = abs_mag(other.num);
        proof {
            assert((sm as int) * (other.den as int) < 0x8000_0000_0000_0000_0000_0000_0000_0000)
                by (nonlinear_arith)
                requires
                    0 <= sm as int <= 0xffff_ffff_ffff_ffff,
                    0 <= other.den as int <= 0x7fff_ffff_ffff_ffff,
            ;
            assert((om as int) * (self.den as int) < 0x8000_0000_0000_0000_0000_0000_0000_0000)
                by (nonlinear_arith)
                requires
                    0 <= om as int <= 0xffff_ffff_ffff_ffff,
                    0 <= self.den as int <= 0x7fff_ffff_ffff_ffff,
            ;
        }
        (sm as u128) * (other.den as u128) > (om as u128) * (self.den as u128)
    }
}

/// The magnitude of a cell numerator, as an unsigned word.
fn abs_mag(n: i64) -> (m: u64)
    ensures
        m as nat == abs_int(n as int),
{
    if n < 0 {
        (-(n as i128)) as u64
    } else {
        n as u64
    }
}

} // verus!
