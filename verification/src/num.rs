//! Exact decimal numbers.
//!
//! A [`Num`] holds `mant / 10^scale` with `scale <= MAX_SCALE` and a canonical
//! mantissa (no trailing decimal zeros).  Its view is the value scaled to a
//! fixed `MAX_SCALE` decimal places, as a mathematical integer: the number
//! `x` is represented by the view `x * 10^MAX_SCALE`.  Addition,
//! multiplication, comparison, floor, ceiling and sign are exact; an operation
//! whose exact result has no representation (too many decimal places, or a
//! mantissa beyond 64 bits) reports [`Error::Limit`].

use vstd::prelude::*;
use vstd::arithmetic::div_mod::*;
use vstd::arithmetic::mul::*;
use crate::error::Error;

verus! {

/// The number of decimal fraction digits a `Num` can carry.
pub const MAX_SCALE: u32 = 18;

/// `10^k`.
pub open spec fn pow10(k: nat) -> nat
    decreases k,
{
    if k == 0 {
        1
    } else {
        10 * pow10((k - 1) as nat)
    }
}

pub proof fn lemma_pow10_pos(k: nat)
    ensures
        pow10(k) >= 1,
    decreases k,
{
    if k > 0 {
        lemma_pow10_pos((k - 1) as nat);
    }
}

pub proof fn lemma_pow10_adds(a: nat, b: nat)
    ensures
        pow10(a + b) == pow10(a) * pow10(b),
    decreases a,
{
    if a == 0 {
        assert(pow10(0 + b) == 1 * pow10(b));
    } else {
        lemma_pow10_adds((a - 1) as nat, b);
        assert(pow10(a + b) == 10 * pow10((a - 1) as nat + b));
        lemma_mul_is_associative(10, pow10((a - 1) as nat) as int, pow10(b) as int);
    }
}

pub proof fn lemma_pow10_increases(a: nat, b: nat)
    requires
        a <= b,
    ensures
        pow10(a) <= pow10(b),
{
    lemma_pow10_adds(a, (b - a) as nat);
    lemma_pow10_pos((b - a) as nat);
    lemma_pow10_pos(a);
    lemma_mul_inequality(1, pow10((b - a) as nat) as int, pow10(a) as int);
    lemma_mul_is_commutative(pow10(a) as int, pow10((b - a) as nat) as int);
}

/// The value of `10^18`, fixed once so that contracts can use it as a bound.
pub proof fn lemma_pow10_18()
    ensures
        pow10(18) == 1_000_000_000_000_000_000,
{
    assert(pow10(0) == 1);
    assert(pow10(1) == 10);
    assert(pow10(2) == 100);
    assert(pow10(3) == 1_000);
    assert(pow10(4) == 10_000);
    assert(pow10(5) == 100_000);
    assert(pow10(6) == 1_000_000);
    assert(pow10(7) == 10_000_000);
    assert(pow10(8) == 100_000_000);
    assert(pow10(9) == 1_000_000_000);
    assert(pow10(10) == 10_000_000_000);
    assert(pow10(11) == 100_000_000_000);
    assert(pow10(12) == 1_000_000_000_000);
    assert(pow10(13) == 10_000_000_000_000);
    assert(pow10(14) == 100_000_000_000_000);
    assert(pow10(15) == 1_000_000_000_000_000);
    assert(pow10(16) == 10_000_000_000_000_000);
    assert(pow10(17) == 100_000_000_000_000_000);
    assert(pow10(18) == 1_000_000_000_000_000_000);
}

pub proof fn lemma_pow10_36()
    ensures
        pow10(36) == 1_000_000_000_000_000_000_000_000_000_000_000_000,
{
    lemma_pow10_18();
    lemma_pow10_adds(18, 18);
}

/// The mantissa left after stripping up to `k` trailing decimal zeros from `v`.
pub open spec fn strip_mant(v: int, k: nat) -> int
    decreases k,
{
    if k == 0 || v % 10 != 0 {
        v
    } else {
        strip_mant(v / 10, (k - 1) as nat)
    }
}

/// How many trailing decimal zeros the stripping removed.
pub open spec fn strip_count(v: int, k: nat) -> nat
    decreases k,
{
    if k == 0 || v % 10 != 0 {
        0
    } else {
        strip_count(v / 10, (k - 1) as nat) + 1
    }
}

/// Whether the scaled value `v` (a number times `10^MAX_SCALE`) has a
/// representation as a `Num`: after stripping as many trailing zeros as the
/// scale allows, the mantissa must fit in 64 bits.
pub open spec fn fits(v: int) -> bool {
    i64::MIN <= strip_mant(v, MAX_SCALE as nat) <= i64::MAX
}

pub proof fn lemma_strip_props(v: int, k: nat)
    ensures
        v == strip_mant(v, k) * pow10(strip_count(v, k)),
        strip_count(v, k) <= k,
        strip_count(v, k) < k ==> strip_mant(v, k) % 10 != 0,
    decreases k,
{
    if k == 0 || v % 10 != 0 {
        assert(pow10(0) == 1);
        assert(v == v * pow10(0));
    } else {
        let w = v / 10;
        lemma_strip_props(w, (k - 1) as nat);
        lemma_fundamental_div_mod(v, 10);
        let m = strip_mant(w, (k - 1) as nat);
        let c = strip_count(w, (k - 1) as nat);
        assert(v == 10 * w);
        assert(w == m * pow10(c));
        assert(pow10(c + 1) == 10 * pow10(c));
        assert(10 * (m * pow10(c)) == m * (10 * pow10(c))) by {
            lemma_mul_is_associative(10, m, pow10(c) as int);
            lemma_mul_is_commutative(10, m);
            lemma_mul_is_associative(m, 10, pow10(c) as int);
        }
    }
}

/// Stripping never grows the magnitude of the mantissa.
pub proof fn lemma_strip_le(v: int, k: nat)
    ensures
        v >= 0 ==> 0 <= strip_mant(v, k) <= v,
        v < 0 ==> v <= strip_mant(v, k) <= 0,
    decreases k,
{
    if !(k == 0 || v % 10 != 0) {
        let w = v / 10;
        lemma_fundamental_div_mod(v, 10);
        lemma_strip_le(w, (k - 1) as nat);
        assert(v == 10 * w);
        if v >= 0 {
            assert(w <= 10 * w) by (nonlinear_arith)
                requires w >= 0;
        } else {
            assert(10 * w <= w) by (nonlinear_arith)
                requires w <= 0;
        }
    }
}

/// Stripping a value that is a mantissa times `10^c` first peels exactly the
/// `c` appended zeros.
pub proof fn lemma_strip_scaled(m: int, c: nat, k: nat)
    requires
        c <= k,
    ensures
        strip_mant(m * pow10(c), k) == strip_mant(m, (k - c) as nat),
        strip_count(m * pow10(c), k) == strip_count(m, (k - c) as nat) + c,
    decreases c,
{
    if c == 0 {
        assert(pow10(0) == 1);
        assert(m * pow10(0) == m);
    } else {
        let v = m * pow10(c);
        let w = m * pow10((c - 1) as nat);
        assert(v == 10 * w) by {
            assert(pow10(c) == 10 * pow10((c - 1) as nat));
            lemma_mul_is_associative(m, 10, pow10((c - 1) as nat) as int);
            lemma_mul_is_commutative(m, 10);
            lemma_mul_is_associative(10, m, pow10((c - 1) as nat) as int);
        }
        lemma_mod_multiples_basic(w, 10);
        assert(v % 10 == 0);
        lemma_fundamental_div_mod(v, 10);
        assert(v / 10 == w) by {
            lemma_fundamental_div_mod_converse(v, 10, w, 0);
        }
        lemma_strip_scaled(m, (c - 1) as nat, (k - 1) as nat);
    }
}

/// The scaling factor of views: a number `x` is represented by the view
/// `x * view_unit()`.
pub open spec fn view_unit() -> int {
    pow10(MAX_SCALE as nat) as int
}

/// The largest integer not above the number with view `v`.
pub open spec fn floor18(v: int) -> int {
    v / view_unit()
}

/// The smallest integer not below the number with view `v`.
pub open spec fn ceil18(v: int) -> int {
    -((-v) / view_unit())
}

/// Whether the exact product of the numbers with views `a` and `b` has a
/// representation: the product must still be a multiple of `10^-MAX_SCALE`,
/// and its view must fit.
pub open spec fn prod_fits(a: int, b: int) -> bool {
    (a * b) % view_unit() == 0 && fits((a * b) / view_unit())
}

/// Any value that fits stays below `2^63 * 10^18` in magnitude.
pub proof fn lemma_fits_bound(v: int)
    requires
        fits(v),
    ensures
        -9_223_372_036_854_775_808_000_000_000_000_000_000 <= v
            <= 9_223_372_036_854_775_808_000_000_000_000_000_000,
{
    lemma_strip_props(v, MAX_SCALE as nat);
    let m = strip_mant(v, MAX_SCALE as nat);
    let c = strip_count(v, MAX_SCALE as nat);
    lemma_pow10_increases(c, 18);
    lemma_pow10_18();
    lemma_pow10_pos(c);
    assert(v == m * pow10(c));
    assert(-9_223_372_036_854_775_808 <= m <= 9_223_372_036_854_775_807);
    assert(m * pow10(c) <= 9_223_372_036_854_775_808_000_000_000_000_000_000
        && -9_223_372_036_854_775_808_000_000_000_000_000_000 <= m * pow10(c)) by (nonlinear_arith)
        requires
            -9_223_372_036_854_775_808 <= m <= 9_223_372_036_854_775_807,
            1 <= pow10(c) <= 1_000_000_000_000_000_000;
}

/// An exact decimal number: `mant / 10^scale`.
#[derive(Debug, Clone, Copy, PartialEq, Eq, Structural)]
pub struct Num {
    mant: i64,
    scale: u32,
}

impl View for Num {
    type V = int;

    /// The number scaled to `MAX_SCALE` decimal places.
    closed spec fn view(&self) -> int {
        self.mant * pow10((MAX_SCALE - self.scale) as nat)
    }
}

impl Num {
    /// The representation is canonical: the scale never exceeds `MAX_SCALE`,
    /// and a nonzero scale means the mantissa carries no trailing zero.
    #[verifier::type_invariant]
    pub closed spec fn inv(self) -> bool {
        self.scale <= MAX_SCALE && (self.scale == 0 || self.mant % 10 != 0)
    }
}

/// `10^k` for `k <= 18`.
fn pow10_u64(k: u32) -> (r: u64)
    requires
        k <= 18,
    ensures
        r == pow10(k as nat),
{
    let mut r: u64 = 1;
    let mut i: u32 = 0;
    while i < k
        invariant
            i <= k <= 18,
            r == pow10(i as nat),
        decreases k - i,
    {
        proof {
            lemma_pow10_increases((i + 1) as nat, 18);
            lemma_pow10_18();
        }
        r = r * 10;
        i = i + 1;
    }
    r
}

/// `10^k` for `k <= 36`.
fn pow10_u128(k: u32) -> (r: u128)
    requires
        k <= 36,
    ensures
        r == pow10(k as nat),
{
    let mut r: u128 = 1;
    let mut i: u32 = 0;
    while i < k
        invariant
            i <= k <= 36,
            r == pow10(i as nat),
        decreases k - i,
    {
        proof {
            lemma_pow10_increases((i + 1) as nat, 36);
            lemma_pow10_36();
        }
        r = r * 10;
        i = i + 1;
    }
    r
}

/// For a nonnegative `m`, negation preserves divisibility by `d`, and the
/// quotient of an exact division negates.
proof fn lemma_neg_div(m: int, d: int)
    requires
        m >= 0,
        d > 0,
    ensures
        (m % d == 0) <==> ((-m) % d == 0),
        m % d == 0 ==> (-m) / d == -(m / d),
{
    if m % d == 0 {
        lemma_fundamental_div_mod(m, d);
        assert(m == d * (m / d));
        assert(-m == d * (-(m / d))) by {
            lemma_mul_unary_negation(d, m / d);
        }
        lemma_fundamental_div_mod_converse(-m, d, -(m / d), 0);
    }
    if (-m) % d == 0 {
        lemma_fundamental_div_mod(-m, d);
        assert(-m == d * ((-m) / d));
        assert(m == d * (-((-m) / d))) by {
            lemma_mul_unary_negation(d, (-m) / d);
        }
        lemma_fundamental_div_mod_converse(m, d, -((-m) / d), 0);
    }
}

impl Num {
    /// Builds the canonical `Num` for the scaled value `v`, or reports that
    /// none exists.
    fn from_scaled(v: i128) -> (r: Result<Num, Error>)
        requires
            v != i128::MIN,
        ensures
            fits(v as int) ==> (r matches Ok(n) && n@ == v as int),
            !fits(v as int) ==> r == Err::<Num, Error>(Error::Limit),
    {
        let neg = v < 0;
        let mut m: u128 = if neg {
            (-v) as u128
        } else {
            v as u128
        };
        let mut k: u32 = 0;
        proof {
            assert(pow10(0) == 1);
            assert(v as int == signed(neg, m as int) * pow10(0));
        }
        while k < MAX_SCALE && m % 10 == 0
            invariant
                k <= MAX_SCALE,
                m <= u128::MAX,
                neg ==> v < 0,
                !neg ==> v >= 0,
                v as int == signed(neg, m as int) * pow10(k as nat),
                strip_mant(v as int, MAX_SCALE as nat) == strip_mant(
                    signed(neg, m as int),
                    (MAX_SCALE - k) as nat,
                ),
                strip_count(v as int, MAX_SCALE as nat) == strip_count(
                    signed(neg, m as int),
                    (MAX_SCALE - k) as nat,
                ) + k,
            decreases MAX_SCALE - k,
        {
            proof {
                let sv = signed(neg, m as int);
                lemma_neg_div(m as int, 10);
                assert(sv % 10 == 0);
                lemma_fundamental_div_mod(m as int, 10);
                if neg {
                    assert(sv / 10 == -((m as int) / 10)) by {
                        lemma_neg_div(m as int, 10);
                    }
                }
                assert(strip_mant(sv, (MAX_SCALE - k) as nat) == strip_mant(
                    sv / 10,
                    (MAX_SCALE - k - 1) as nat,
                ));
                assert(strip_count(sv, (MAX_SCALE - k) as nat) == strip_count(
                    sv / 10,
                    (MAX_SCALE - k - 1) as nat,
                ) + 1);
                assert(sv == 10 * (sv / 10));
                let w = sv / 10;
                assert(v as int == (10 * w) * pow10(k as nat));
                assert((10 * w) * pow10(k as nat) == w * pow10((k + 1) as nat)) by {
                    assert(pow10((k + 1) as nat) == 10 * pow10(k as nat));
                    lemma_mul_is_associative(10, w, pow10(k as nat) as int);
                    lemma_mul_is_commutative(10, w);
                    lemma_mul_is_associative(w, 10, pow10(k as nat) as int);
                }
            }
            m = m / 10;
            k = k + 1;
        }
        proof {
            let sv = signed(neg, m as int);
            if k < MAX_SCALE {
                lemma_neg_div(m as int, 10);
                assert(sv % 10 != 0);
                assert(strip_mant(sv, (MAX_SCALE - k) as nat) == sv);
                assert(strip_count(sv, (MAX_SCALE - k) as nat) == 0);
            } else {
                assert(strip_mant(sv, 0) == sv);
                assert(strip_count(sv, 0) == 0);
            }
        }
        let mant: i64;
        if neg {
            if m == 9_223_372_036_854_775_808u128 {
                mant = i64::MIN;
            } else if m <= 9_223_372_036_854_775_807u128 {
                mant = -(m as i64);
            } else {
                return Err(Error::Limit);
            }
        } else {
            if m <= 9_223_372_036_854_775_807u128 {
                mant = m as i64;
            } else {
                return Err(Error::Limit);
            }
        }
        let n = Num { mant, scale: MAX_SCALE - k };
        proof {
            assert(n@ == v as int);
        }
        Ok(n)
    }

    /// The number `mant / 10^scale`.
    pub fn new(mant: i64, scale: u32) -> (n: Num)
        requires
            scale <= MAX_SCALE,
        ensures
            n@ == mant * pow10((MAX_SCALE - scale) as nat),
    {
        let f = pow10_u128(MAX_SCALE - scale);
        proof {
            lemma_pow10_increases((MAX_SCALE - scale) as nat, 18);
            lemma_pow10_pos((MAX_SCALE - scale) as nat);
            lemma_pow10_18();
            assert((mant as int) * (f as int) <= 9_223_372_036_854_775_808_000_000_000_000_000_000
                && -9_223_372_036_854_775_808_000_000_000_000_000_000 <= (mant as int) * (
            f as int)) by (nonlinear_arith)
                requires
                    -9_223_372_036_854_775_808 <= mant as int <= 9_223_372_036_854_775_807,
                    1 <= f as int <= 1_000_000_000_000_000_000;
        }
        let v: i128 = (mant as i128) * (f as i128);
        proof {
            lemma_strip_scaled(mant as int, (MAX_SCALE - scale) as nat, MAX_SCALE as nat);
            lemma_strip_le(mant as int, scale as nat);
        }
        let r = Self::from_scaled(v);
        match r {
            Ok(n) => n,
            Err(_) => {
                proof {
                    assert(false);
                }
                Num { mant: 0, scale: 0 }
            },
        }
    }

    /// The integer `x` as a `Num`.
    pub fn from_int(x: i64) -> (n: Num)
        ensures
            n@ == x * pow10(MAX_SCALE as nat),
    {
        Self::new(x, 0)
    }

    /// The canonical representation: a mantissa and the number of decimal
    /// places, with `value == mant / 10^scale`.
    pub fn parts(&self) -> (r: (i64, u32))
        ensures
            r.1 <= MAX_SCALE,
            self@ == r.0 * pow10((MAX_SCALE - r.1) as nat),
    {
        proof {
            use_type_invariant(self);
        }
        (self.mant, self.scale)
    }

    /// Whether the number is zero.
    pub fn is_zero(&self) -> (r: bool)
        ensures
            r == (self@ == 0),
    {
        proof {
            use_type_invariant(self);
            lemma_pow10_pos((MAX_SCALE - self.scale) as nat);
            assert(self.mant != 0 ==> self@ != 0) by {
                if self.mant != 0 {
                    assert(self.mant * pow10((MAX_SCALE - self.scale) as nat) != 0)
                        by (nonlinear_arith)
                        requires
                            self.mant != 0,
                            pow10((MAX_SCALE - self.scale) as nat) >= 1;
                }
            }
        }
        self.mant == 0
    }

    /// The value scaled to `MAX_SCALE` places, exactly.
    fn scaled(&self) -> (v: i128)
        ensures
            v as int == self@,
            -9_223_372_036_854_775_808_000_000_000_000_000_000 <= v as int
                <= 9_223_372_036_854_775_808_000_000_000_000_000_000,
    {
        proof {
            use_type_invariant(self);
        }
        let f = pow10_u128(MAX_SCALE - self.scale);
        proof {
            lemma_pow10_increases((MAX_SCALE - self.scale) as nat, 18);
            lemma_pow10_pos((MAX_SCALE - self.scale) as nat);
            lemma_pow10_18();
            assert((self.mant as int) * (f as int)
                <= 9_223_372_036_854_775_808_000_000_000_000_000_000
                && -9_223_372_036_854_775_808_000_000_000_000_000_000 <= (self.mant as int) * (
            f as int)) by (nonlinear_arith)
                requires
                    -9_223_372_036_854_775_808 <= self.mant as int <= 9_223_372_036_854_775_807,
                    1 <= f as int <= 1_000_000_000_000_000_000;
        }
        (self.mant as i128) * (f as i128)
    }

    /// Exact addition; `Limit` when the exact sum has no representation.
    pub fn add(&self, other: &Num) -> (r: Result<Num, Error>)
        ensures
            fits(self@ + other@) ==> (r matches Ok(n) && n@ == self@ + other@),
            !fits(self@ + other@) ==> r == Err::<Num, Error>(Error::Limit),
    {
        let va = self.scaled();
        let vb = other.scaled();
        Self::from_scaled(va + vb)
    }

    /// Exact comparison.
    pub fn le(&self, other: &Num) -> (r: bool)
        ensures
            r == (self@ <= other@),
    {
        let va = self.scaled();
        let vb = other.scaled();
        va <= vb
    }

    /// Exact multiplication; `Limit` when the exact product has no
    /// representation.
    pub fn mul(&self, other: &Num) -> (r: Result<Num, Error>)
        ensures
            prod_fits(self@, other@) ==> (r matches Ok(n) && n@ == (self@ * other@)
                / view_unit()),
            !prod_fits(self@, other@) ==> r == Err::<Num, Error>(Error::Limit),
    {
        proof {
            use_type_invariant(self);
            use_type_invariant(other);
        }
        let ghost ma = self.mant as int;
        let ghost mb = other.mant as int;
        let ghost ka = (MAX_SCALE - self.scale) as nat;
        let ghost kb = (MAX_SCALE - other.scale) as nat;
        proof {
            assert((ma * mb) <= 85_070_591_730_234_615_865_843_651_857_942_052_864
                && -85_070_591_730_234_615_865_843_651_857_942_052_864 <= (ma * mb))
                by (nonlinear_arith)
                requires
                    -9_223_372_036_854_775_808 <= ma <= 9_223_372_036_854_775_807,
                    -9_223_372_036_854_775_808 <= mb <= 9_223_372_036_854_775_807;
        }
        let p: i128 = (self.mant as i128) * (other.mant as i128);
        let s: u32 = self.scale + other.scale;
        proof {
            // The product of the views is the product of the mantissas times
            // 10^(36 - s).
            lemma_pow10_adds(ka, kb);
            assert(self@ * other@ == (ma * mb) * pow10((ka + kb) as nat)) by (nonlinear_arith)
                requires
                    self@ == ma * pow10(ka),
                    other@ == mb * pow10(kb),
                    pow10((ka + kb) as nat) == pow10(ka) * pow10(kb);
            assert(ka + kb == 36 - s);
        }
        let ghost bigw = self@ * other@;
        let pneg = p < 0;
        let mp: u128 = if pneg {
            (-p) as u128
        } else {
            p as u128
        };
        if s <= MAX_SCALE {
            let f = pow10_u128(MAX_SCALE - s);
            let ghost w = (p as int) * pow10((MAX_SCALE - s) as nat);
            proof {
                lemma_pow10_pos((MAX_SCALE - s) as nat);
                lemma_pow10_adds((MAX_SCALE - s) as nat, MAX_SCALE as nat);
                assert(bigw == w * view_unit()) by (nonlinear_arith)
                    requires
                        bigw == (p as int) * pow10((36 - s) as nat),
                        w == (p as int) * pow10((MAX_SCALE - s) as nat),
                        pow10((36 - s) as nat) == pow10((MAX_SCALE - s) as nat) * pow10(
                            MAX_SCALE as nat,
                        ),
                        view_unit() == pow10(MAX_SCALE as nat);
                lemma_pow10_pos(MAX_SCALE as nat);
                lemma_mod_multiples_basic(w, view_unit());
                lemma_div_multiples_vanish(w, view_unit());
                lemma_mul_is_commutative(w, view_unit());
                assert(bigw % view_unit() == 0);
                assert(bigw / view_unit() == w);
                // |w| is mp * f.
                assert(w == signed(pneg, ((mp as int) * (f as int)))) by (nonlinear_arith)
                    requires
                        w == (p as int) * (f as int),
                        p as int == signed(pneg, mp as int),
                        f >= 1;
            }
            let bound_q: u128 = 9_223_372_036_854_775_808_000_000_000_000_000_000u128 / f;
            if mp > bound_q {
                proof {
                    let bound = 9_223_372_036_854_775_808_000_000_000_000_000_000int;
                    lemma_fundamental_div_mod(bound, f as int);
                    assert((mp as int) * (f as int) > bound) by (nonlinear_arith)
                        requires
                            mp as int >= bound_q as int + 1,
                            bound_q as int == bound / (f as int),
                            bound == (f as int) * (bound / (f as int)) + bound % (f as int),
                            0 <= bound % (f as int) < f as int,
                            f >= 1;
                    if fits(w) {
                        lemma_fits_bound(w);
                        assert(false);
                    }
                }
                Err(Error::Limit)
            } else {
                proof {
                    let bound = 9_223_372_036_854_775_808_000_000_000_000_000_000int;
                    lemma_fundamental_div_mod(bound, f as int);
                    assert((mp as int) * (f as int) <= bound) by (nonlinear_arith)
                        requires
                            mp as int <= bound_q as int,
                            bound_q as int == bound / (f as int),
                            bound == (f as int) * (bound / (f as int)) + bound % (f as int),
                            0 <= bound % (f as int) < f as int,
                            f >= 1;
                }
                let w_mag = mp * f;
                let wv: i128 = if pneg {
                    -(w_mag as i128)
                } else {
                    w_mag as i128
                };
                Self::from_scaled(wv)
            }
        } else {
            let e = s - MAX_SCALE;
            let f = pow10_u128(e);
            proof {
                lemma_pow10_pos(e as nat);
                lemma_pow10_pos((36 - s) as nat);
                lemma_pow10_adds(e as nat, (36 - s) as nat);
                lemma_pow10_pos(MAX_SCALE as nat);
                lemma_neg_div(mp as int, f as int);
            }
            let r0 = mp % f;
            if r0 != 0 {
                proof {
                    // The exact product is not a multiple of 10^-MAX_SCALE.
                    let cc = pow10((36 - s) as nat) as int;
                    let ee = f as int;
                    assert((p as int) % ee != 0);
                    if bigw % view_unit() == 0 {
                        let t = bigw / view_unit();
                        lemma_fundamental_div_mod(bigw, view_unit());
                        assert(bigw == view_unit() * t);
                        assert(view_unit() == ee * cc);
                        assert((p as int) * cc == (t * ee) * cc) by (nonlinear_arith)
                            requires
                                bigw == (p as int) * cc,
                                bigw == (ee * cc) * t;
                        assert(p as int == t * ee) by (nonlinear_arith)
                            requires
                                (p as int) * cc == (t * ee) * cc,
                                cc >= 1;
                        lemma_mod_multiples_basic(t, ee);
                        assert(false);
                    }
                }
                Err(Error::Limit)
            } else {
                let w_mag = mp / f;
                let wv: i128 = if pneg {
                    -(w_mag as i128)
                } else {
                    w_mag as i128
                };
                proof {
                    lemma_div_nonincreasing(mp as int, f as int);
                    lemma_div_pos_is_pos(mp as int, f as int);
                    assert(wv as int == (p as int) / (f as int));
                    let w = (p as int) / (f as int);
                    lemma_fundamental_div_mod(p as int, f as int);
                    assert(p as int == (f as int) * w);
                    let cc = pow10((36 - s) as nat) as int;
                    assert(bigw == w * view_unit()) by (nonlinear_arith)
                        requires
                            bigw == (p as int) * cc,
                            p as int == (f as int) * w,
                            view_unit() == (f as int) * cc;
                    lemma_mod_multiples_basic(w, view_unit());
                    lemma_div_multiples_vanish(w, view_unit());
                    lemma_mul_is_commutative(w, view_unit());
                    assert(bigw % view_unit() == 0);
                    assert(bigw / view_unit() == w);
                }
                Self::from_scaled(wv)
            }
        }
    }

    /// The largest integer not above the number.
    pub fn floor(&self) -> (r: Num)
        ensures
            r@ == floor18(self@) * view_unit(),
    {
        proof {
            use_type_invariant(self);
            lemma_pow10_pos(MAX_SCALE as nat);
        }
        if self.scale == 0 {
            proof {
                lemma_div_multiples_vanish(self.mant as int, view_unit());
                lemma_mul_is_commutative(self.mant as int, view_unit());
            }
            return *self;
        }
        let p = pow10_u64(self.scale);
        proof {
            self.lemma_div_by_unit();
            assert(pow10(0) == 1);
            assert(pow10(1) == 10);
            lemma_pow10_increases(1, self.scale as nat);
        }
        if self.mant >= 0 {
            let q = (self.mant as u64) / p;
            Num { mant: q as i64, scale: 0 }
        } else {
            let m = (-(self.mant as i128)) as u128;
            let q0 = m / (p as u128);
            let r0 = m % (p as u128);
            proof {
                lemma_pow10_increases(1, self.scale as nat);
                lemma_fundamental_div_mod(m as int, p as int);
                lemma_mod_division_less_than_divisor(m as int, p as int);
                lemma_small_quotient(m as int, p as int);
                if r0 == 0 {
                    assert(self.mant as int == (p as int) * (-(q0 as int)) + 0) by (nonlinear_arith)
                        requires
                            m as int == (p as int) * (q0 as int),
                            self.mant as int == -(m as int);
                    lemma_fundamental_div_mod_converse(self.mant as int, p as int, -(q0 as int), 0);
                } else {
                    assert(self.mant as int == (p as int) * (-(q0 as int) - 1) + ((p as int) - (
                    r0 as int))) by (nonlinear_arith)
                        requires
                            m as int == (p as int) * (q0 as int) + r0 as int,
                            self.mant as int == -(m as int);
                    lemma_fundamental_div_mod_converse(
                        self.mant as int,
                        p as int,
                        -(q0 as int) - 1,
                        (p as int) - (r0 as int),
                    );
                }
            }
            let qi: i64 = if r0 == 0 {
                -(q0 as i64)
            } else {
                -(q0 as i64) - 1
            };
            Num { mant: qi, scale: 0 }
        }
    }

    /// The smallest integer not below the number.
    pub fn ceil(&self) -> (r: Num)
        ensures
            r@ == ceil18(self@) * view_unit(),
    {
        proof {
            use_type_invariant(self);
            lemma_pow10_pos(MAX_SCALE as nat);
        }
        if self.scale == 0 {
            proof {
                lemma_mul_unary_negation(self.mant as int, view_unit());
                lemma_div_multiples_vanish(-(self.mant as int), view_unit());
                lemma_mul_is_commutative(-(self.mant as int), view_unit());
            }
            return *self;
        }
        let p = pow10_u64(self.scale);
        proof {
            self.lemma_neg_div_by_unit();
            assert(pow10(0) == 1);
            assert(pow10(1) == 10);
            lemma_pow10_increases(1, self.scale as nat);
        }
        if self.mant >= 0 {
            let m = self.mant as u64;
            let q0 = m / p;
            let r0 = m % p;
            proof {
                lemma_fundamental_div_mod(m as int, p as int);
                lemma_mod_division_less_than_divisor(m as int, p as int);
                lemma_small_quotient(m as int, p as int);
                if r0 == 0 {
                    assert(-(self.mant as int) == (p as int) * (-(q0 as int)) + 0)
                        by (nonlinear_arith)
                        requires
                            m as int == (p as int) * (q0 as int),
                            self.mant as int == m as int;
                    lemma_fundamental_div_mod_converse(
                        -(self.mant as int),
                        p as int,
                        -(q0 as int),
                        0,
                    );
                } else {
                    assert(-(self.mant as int) == (p as int) * (-(q0 as int) - 1) + ((p as int) - (
                    r0 as int))) by (nonlinear_arith)
                        requires
                            m as int == (p as int) * (q0 as int) + r0 as int,
                            self.mant as int == m as int;
                    lemma_fundamental_div_mod_converse(
                        -(self.mant as int),
                        p as int,
                        -(q0 as int) - 1,
                        (p as int) - (r0 as int),
                    );
                }
            }
            let qi: i64 = if r0 == 0 {
                q0 as i64
            } else {
                (q0 as i64) + 1
            };
            Num { mant: qi, scale: 0 }
        } else {
            let m = (-(self.mant as i128)) as u128;
            let q0 = m / (p as u128);
            proof {
                lemma_small_quotient(m as int, p as int);
            }
            Num { mant: -(q0 as i64), scale: 0 }
        }
    }

    /// The sign of the number: one, zero or minus one.
    pub fn signum(&self) -> (r: Num)
        ensures
            self@ > 0 ==> r@ == view_unit(),
            self@ == 0 ==> r@ == 0,
            self@ < 0 ==> r@ == -view_unit(),
    {
        proof {
            use_type_invariant(self);
            lemma_pow10_pos((MAX_SCALE - self.scale) as nat);
            lemma_pow10_pos(MAX_SCALE as nat);
            assert((self.mant > 0 ==> self@ > 0) && (self.mant == 0 ==> self@ == 0) && (self.mant
                < 0 ==> self@ < 0)) by (nonlinear_arith)
                requires
                    self@ == (self.mant as int) * pow10((MAX_SCALE - self.scale) as nat),
                    pow10((MAX_SCALE - self.scale) as nat) >= 1;
        }
        if self.mant > 0 {
            let n = Num { mant: 1, scale: 0 };
            proof {
                assert(n@ == 1 * (pow10(MAX_SCALE as nat) as int));
            }
            n
        } else if self.mant < 0 {
            let n = Num { mant: -1, scale: 0 };
            proof {
                assert(n@ == (-1) * (pow10(MAX_SCALE as nat) as int));
                assert((-1) * (pow10(MAX_SCALE as nat) as int) == -(pow10(MAX_SCALE as nat) as int))
                    by (nonlinear_arith);
            }
            n
        } else {
            let n = Num { mant: 0, scale: 0 };
            proof {
                assert(n@ == 0 * (pow10(MAX_SCALE as nat) as int));
                assert(0 * (pow10(MAX_SCALE as nat) as int) == 0) by (nonlinear_arith);
            }
            n
        }
    }

    /// The Euclidean quotient of the view by the unit is the mantissa divided
    /// by `10^scale`.
    proof fn lemma_div_by_unit(self)
        requires
            self.inv(),
        ensures
            self@ / view_unit() == (self.mant as int) / (pow10(self.scale as nat) as int),
    {
        let c = pow10((MAX_SCALE - self.scale) as nat) as int;
        let d = pow10(self.scale as nat) as int;
        lemma_pow10_pos((MAX_SCALE - self.scale) as nat);
        lemma_pow10_pos(self.scale as nat);
        lemma_pow10_adds(self.scale as nat, (MAX_SCALE - self.scale) as nat);
        assert(view_unit() == d * c);
        let q = (self.mant as int) / d;
        let r = (self.mant as int) % d;
        lemma_fundamental_div_mod(self.mant as int, d);
        lemma_mod_division_less_than_divisor(self.mant as int, d);
        assert(self@ == q * (d * c) + r * c) by (nonlinear_arith)
            requires
                self@ == (self.mant as int) * c,
                self.mant as int == d * q + r;
        assert(0 <= r * c < d * c) by (nonlinear_arith)
            requires
                0 <= r < d,
                c >= 1;
        lemma_fundamental_div_mod_converse(self@, d * c, q, r * c);
    }

    /// The same for the negated view.
    proof fn lemma_neg_div_by_unit(self)
        requires
            self.inv(),
        ensures
            (-self@) / view_unit() == (-(self.mant as int)) / (pow10(self.scale as nat) as int),
    {
        let c = pow10((MAX_SCALE - self.scale) as nat) as int;
        let d = pow10(self.scale as nat) as int;
        lemma_pow10_pos((MAX_SCALE - self.scale) as nat);
        lemma_pow10_pos(self.scale as nat);
        lemma_pow10_adds(self.scale as nat, (MAX_SCALE - self.scale) as nat);
        assert(view_unit() == d * c);
        let nm = -(self.mant as int);
        let q = nm / d;
        let r = nm % d;
        lemma_fundamental_div_mod(nm, d);
        lemma_mod_division_less_than_divisor(nm, d);
        assert(-self@ == q * (d * c) + r * c) by (nonlinear_arith)
            requires
                self@ == (self.mant as int) * c,
                nm == -(self.mant as int),
                nm == d * q + r;
        assert(0 <= r * c < d * c) by (nonlinear_arith)
            requires
                0 <= r < d,
                c >= 1;
        lemma_fundamental_div_mod_converse(-self@, d * c, q, r * c);
    }
}

/// A magnitude of at most `2^63` divided by at least ten stays well inside
/// the 64-bit range.
proof fn lemma_small_quotient(m: int, p: int)
    requires
        0 <= m <= 9_223_372_036_854_775_808,
        p >= 10,
    ensures
        0 <= m / p <= 922_337_203_685_477_580,
{
    lemma_div_pos_is_pos(m, p);
    lemma_div_is_ordered_by_denominator(m, 10, p);
    lemma_div_is_ordered(m, 9_223_372_036_854_775_808, 10);
    lemma_fundamental_div_mod_converse(9_223_372_036_854_775_808, 10, 922_337_203_685_477_580, 8);
}

/// `m` with the sign `neg` applied.
pub open spec fn signed(neg: bool, m: int) -> int {
    if neg {
        -m
    } else {
        m
    }
}

} // verus!
