//! Scaling an image size down, with the rounding of IEEE 754 binary64 arithmetic.
use vstd::arithmetic::power2::*;
use vstd::prelude::*;

verus! {

/// 2 to the 52nd: the least 53-bit number.
pub const MIN_BITS: u128 = 0x10_0000_0000_0000;

/// A non-negative binary64 number `m / d`: `d` is a power of two, and `m` is zero or has 53 bits.
#[derive(Clone, Copy)]
pub struct Float {
    pub m: u128,
    pub d: u128,
}

impl Float {
    pub open spec fn normal(self) -> bool {
        &&& exists|k: nat| self.d == #[trigger] pow2(k)
        &&& self.m == 0 || MIN_BITS <= self.m < 2 * MIN_BITS
        &&& self.d < 0x40_0000_0000_0000_0000_0000
    }

    /// Whether the number is smaller than `other`.
    pub open spec fn less(self, other: Float) -> bool {
        self.m * other.d < other.m * self.d
    }
}

/// The integer nearest to `num / den`; of two equally near ones the even one.
pub open spec fn round_even(num: int, den: int) -> int {
    let q = num / den;
    let r = num % den;
    if 2 * r > den || (2 * r == den && q % 2 == 1) {
        q + 1
    } else {
        q
    }
}

/// The first of `d`, `2 d`, `4 d`, ... by which `a` has to be scaled to be at least `2^52 b`.
pub open spec fn scale_up(a: int, b: int, d: int) -> int
    decreases
            (if 0x10_0000_0000_0000 * b > a * d {
                0x10_0000_0000_0000 * b - a * d
            } else {
                0
            }),
{
    if a <= 0 || d <= 0 || a * d >= 0x10_0000_0000_0000 * b {
        d
    } else {
        proof {
            assert(a * (2 * d) >= a * d + 1) by (nonlinear_arith)
                requires
                    a > 0,
                    d > 0,
            ;
        }
        scale_up(a, b, 2 * d)
    }
}

/// The first of `k`, `2 k`, `4 k`, ... in units of which `x` has no more than 53 bits.
pub open spec fn unit_of(x: int, k: int) -> int
    decreases x - k,
{
    if k <= 0 || x < 0x20_0000_0000_0000 * k {
        k
    } else {
        unit_of(x, 2 * k)
    }
}

/// The binary64 quotient `a / b`, for `b > 0`.
pub open spec fn quotient_of(a: int, b: int) -> Float {
    if a == 0 {
        Float { m: 0, d: 1 }
    } else {
        let d = scale_up(a, b, 1);
        let m = round_even(a * d, b);
        if m == 2 * MIN_BITS {
            Float { m: MIN_BITS, d: (d / 2) as u128 }
        } else {
            Float { m: m as u128, d: d as u128 }
        }
    }
}

/// The binary64 number 1.
pub open spec fn one() -> Float {
    Float { m: MIN_BITS, d: MIN_BITS }
}

/// The smaller of two numbers.
pub open spec fn min_of(a: Float, b: Float) -> Float {
    if b.less(a) {
        b
    } else {
        a
    }
}

/// The scale at which `w` by `h` fits in `max_w` by `max_h`. An edge of length zero always fits.
pub open spec fn scale_of(w: int, h: int, max_w: int, max_h: int) -> Float {
    if w > 0 && h > 0 {
        min_of(min_of(quotient_of(max_w, w), quotient_of(max_h, h)), one())
    } else if w > 0 {
        min_of(quotient_of(max_w, w), one())
    } else if h > 0 {
        min_of(quotient_of(max_h, h), one())
    } else {
        one()
    }
}

/// The binary64 product of `w` and `s`, rounded to the nearest integer, half-way cases away from
/// zero.
pub open spec fn scaled_of(w: int, s: Float) -> int {
    let x = w * s.m;
    let k = unit_of(x, 1);
    let p = round_even(x, k) * k;
    (2 * p + s.d) / (2 * s.d)
}

pub open spec fn at_least_one(x: int) -> int {
    if x < 1 {
        1
    } else {
        x
    }
}

/// `w` by `h` scaled down to fit in `max_w` by `max_h`.
pub open spec fn fit_of(w: int, h: int, max_w: int, max_h: int) -> (int, int) {
    let s = scale_of(w, h, max_w, max_h);
    (at_least_one(scaled_of(w, s)), at_least_one(scaled_of(h, s)))
}

proof fn lemma_round_even(num: int, den: int)
    requires
        num >= 0,
        den > 0,
    ensures
        -den <= 2 * (round_even(num, den) * den - num) <= den,
        num / den <= round_even(num, den) <= num / den + 1,
        round_even(num, den) >= 0,
        den == 1 ==> round_even(num, den) == num,
{
    let q = num / den;
    let r = num % den;
    assert(num == q * den + r && 0 <= r < den && q >= 0) by (nonlinear_arith)
        requires
            num >= 0,
            den > 0,
            q == num / den,
            r == num % den,
    ;
    assert((q + 1) * den == q * den + den) by (nonlinear_arith);
}

proof fn lemma_unit(x: int, k: int)
    requires
        x >= 0,
        k >= 1,
        k == 1 || x >= 0x10_0000_0000_0000 * k,
    ensures
        unit_of(x, k) >= k,
        x < 0x20_0000_0000_0000 * unit_of(x, k),
        unit_of(x, k) == 1 || x >= 0x10_0000_0000_0000 * unit_of(x, k),
    decreases x - k,
{
    if x >= 0x20_0000_0000_0000 * k {
        lemma_unit(x, 2 * k);
    }
}

/// The rounded product is off by less than a millionth of a pixel before the final rounding, so it
/// is `a` wherever the product is that near to `a`.
proof fn lemma_scaled(w: int, s: Float, a: int)
    requires
        w >= 0,
        s.d >= 1,
        0 <= a <= 0x1_0000_0000,
    ensures
        0x10_0000 * (w * s.m) <= (0x10_0000 * a + 1) * s.d ==> scaled_of(w, s) <= a,
        0x10_0000 * (w * s.m) <= (0x10_0000 * a + 1) * s.d && 0x10_0000 * (w * s.m) >= (0x10_0000
            * a - 1) * s.d ==> scaled_of(w, s) == a,
        scaled_of(w, s) >= 0,
{
    let d = s.d as int;
    let x = w * s.m;
    assert(x >= 0) by (nonlinear_arith)
        requires
            w >= 0,
            x == w * s.m,
    ;
    let k = unit_of(x, 1);
    lemma_unit(x, 1);
    lemma_round_even(x, k);
    let p = round_even(x, k) * k;
    assert(p >= 0) by (nonlinear_arith)
        requires
            p == round_even(x, k) * k,
            round_even(x, k) >= 0,
            k >= 1,
    ;
    assert(-k <= 2 * (p - x) <= k);
    if k == 1 {
        assert(p == x) by (nonlinear_arith)
            requires
                p == round_even(x, k) * k,
                k == 1,
                round_even(x, k) == x,
        ;
    }
    assert(-x <= 0x20_0000_0000_0000 * (p - x) <= x);
    let r = (2 * p + d) / (2 * d);
    assert(r >= 0) by (nonlinear_arith)
        requires
            r == (2 * p + d) / (2 * d),
            p >= 0,
            d >= 1,
    ;
    if 0x10_0000 * x <= (0x10_0000 * a + 1) * d {
        let ad = a * d;
        assert((0x10_0000 * a + 1) * d == 0x10_0000 * ad + d) by (nonlinear_arith)
            requires
                ad == a * d,
        ;
        assert(ad <= 0x1_0000_0000 * d) by (nonlinear_arith)
            requires
                ad == a * d,
                a <= 0x1_0000_0000,
                d >= 1,
        ;
        assert(x <= 0x2_0000_0000 * d);
        assert(0x10_0000 * (p - x) <= d);
        assert(2 * p + d < 2 * ad + 2 * d);
        assert(r <= a) by (nonlinear_arith)
            requires
                r == (2 * p + d) / (2 * d),
                2 * p + d < 2 * ad + 2 * d,
                ad == a * d,
                d >= 1,
        ;
        if 0x10_0000 * x >= (0x10_0000 * a - 1) * d {
            assert((0x10_0000 * a - 1) * d == 0x10_0000 * ad - d) by (nonlinear_arith)
                requires
                    ad == a * d,
            ;
            assert(0x10_0000 * (p - x) >= -d);
            assert(2 * p + d >= 2 * ad);
            assert(r >= a) by (nonlinear_arith)
                requires
                    r == (2 * p + d) / (2 * d),
                    2 * p + d >= 2 * ad,
                    ad == a * d,
                    d >= 1,
            ;
        }
    }
}

proof fn lemma_pow2_double(k: nat)
    ensures
        2 * pow2(k) == pow2(k + 1),
        pow2(k) >= 1,
{
    lemma_pow2_unfold(k + 1);
    lemma_pow2_pos(k);
}

/// `scale_up` gives a power of two that is just large enough.
proof fn lemma_scale_up(a: int, b: int, k: nat)
    requires
        0 < a < 0x1_0000_0000,
        0 < b < 0x1_0000_0000,
        k == 0 || a * pow2(k) < 0x20_0000_0000_0000 * b,
    ensures
        ({
            let d = scale_up(a, b, pow2(k) as int);
            &&& exists|j: nat| d == pow2(j) && j >= 1
            &&& 0x10_0000_0000_0000 * b <= a * d < 0x20_0000_0000_0000 * b
            &&& d > 0x10_0000 * b
            &&& d < 0x20_0000_0000_0000_0000_0000
        }),
    decreases
            (if 0x10_0000_0000_0000 * b > a * pow2(k) {
                0x10_0000_0000_0000 * b - a * pow2(k)
            } else {
                0
            }),
{
    let d = pow2(k) as int;
    lemma_pow2_double(k);
    assert(pow2(0) == 1) by {
        lemma2_to64();
    }
    if a * d < 0x10_0000_0000_0000 * b {
        assert(a * (2 * d) == 2 * (a * d)) by (nonlinear_arith);
        assert(a * d >= 1) by (nonlinear_arith)
            requires
                a >= 1,
                d >= 1,
        ;
        lemma_scale_up(a, b, k + 1);
        assert(scale_up(a, b, d) == scale_up(a, b, 2 * d));
    } else {
        assert(k >= 1) by {
            if k == 0 {
                assert(a * d == a) by (nonlinear_arith)
                    requires
                        d == 1,
                ;
            }
        }
        assert(d > 0x10_0000 * b) by (nonlinear_arith)
            requires
                a * d >= 0x10_0000_0000_0000 * b,
                0 < a < 0x1_0000_0000,
                b > 0,
                d >= 1,
        ;
        assert(d < 0x20_0000_0000_0000_0000_0000) by (nonlinear_arith)
            requires
                a * d < 0x20_0000_0000_0000 * b,
                0 < a,
                0 < b < 0x1_0000_0000,
                d >= 1,
        ;
        assert(exists|j: nat| d == pow2(j) && j >= 1) by {
            assert(d == pow2(k));
        }
    }
}

/// A quotient is normal, and off from the exact one by less than a millionth of the divisor's unit.
proof fn lemma_quotient(a: int, b: int)
    requires
        0 <= a < 0x1_0000_0000,
        0 < b < 0x1_0000_0000,
    ensures
        ({
            let q = quotient_of(a, b);
            &&& q.normal()
            &&& q.d >= 1
            &&& 0x10_0000 * (b * q.m) <= (0x10_0000 * a + 1) * q.d
            &&& 0x10_0000 * (b * q.m) >= (0x10_0000 * a - 1) * q.d
            &&& a >= b ==> q.m >= q.d
            &&& a <= b ==> q.m <= q.d
            &&& a > 0 ==> q.m == round_even(a * scale_up(a, b, 1), b) || 2 * q.m == round_even(
                a * scale_up(a, b, 1),
                b,
            )
        }),
{
    let q = quotient_of(a, b);
    assert(pow2(0) == 1) by {
        lemma2_to64();
    }
    if a > 0 {
        lemma_scale_up(a, b, 0);
        let d = scale_up(a, b, 1);
        let ad = a * d;
        let m = round_even(ad, b);
        lemma_round_even(ad, b);
        assert(m >= 0x10_0000_0000_0000) by (nonlinear_arith)
            requires
                ad >= 0x10_0000_0000_0000 * b,
                m >= ad / b,
                b > 0,
        ;
        assert(m <= 0x20_0000_0000_0000) by (nonlinear_arith)
            requires
                ad < 0x20_0000_0000_0000 * b,
                m <= ad / b + 1,
                b > 0,
        ;
        let j = choose|j: nat| d == pow2(j) && j >= 1;
        lemma_pow2_double((j - 1) as nat);
        let bm = m * b;
        assert(-b <= 2 * (bm - ad) <= b);
        assert(a >= b ==> m >= d) by (nonlinear_arith)
            requires
                ad == a * d,
                m >= ad / b,
                d >= 1,
                b > 0,
        ;
        assert(a <= b ==> m <= d) by {
            if a <= b {
                assert(ad <= b * d) by (nonlinear_arith)
                    requires
                        ad == a * d,
                        a <= b,
                        d >= 1,
                ;
                if m > d {
                    // The nearest integer is not above a bound that the quotient keeps.
                    assert(ad / b <= d) by (nonlinear_arith)
                        requires
                            ad <= b * d,
                            b > 0,
                    ;
                    assert(m == ad / b + 1);
                    assert(ad / b == d);
                    assert(ad % b == 0) by (nonlinear_arith)
                        requires
                            ad <= b * d,
                            ad / b == d,
                            b > 0,
                    ;
                    assert(false);
                }
            }
        }
        let qm = q.m as int;
        let qd = q.d as int;
        if m == 0x20_0000_0000_0000 {
            assert(qd == d / 2 && qm == 0x10_0000_0000_0000);
            assert(2 * qd == d);
            assert(qd == pow2((j - 1) as nat));
            assert(2 * (b * qm) == bm) by (nonlinear_arith)
                requires
                    bm == m * b,
                    m == 2 * qm,
            ;
            assert(2 * (a * qd) == ad) by (nonlinear_arith)
                requires
                    ad == a * d,
                    d == 2 * qd,
            ;
        } else {
            assert(qd == d && qm == m);
            assert(b * qm == bm) by (nonlinear_arith)
                requires
                    bm == m * b,
                    m == qm,
            ;
            assert(a * qd == ad);
            assert(qd == pow2(j));
        }
        assert(2 * qd > 0x10_0000 * b);
        assert((0x10_0000 * a + 1) * qd == 0x10_0000 * (a * qd) + qd) by (nonlinear_arith);
        assert((0x10_0000 * a - 1) * qd == 0x10_0000 * (a * qd) - qd) by (nonlinear_arith);
    } else {
        assert(q.d == pow2(0));
        assert((0x10_0000 * a + 1) * q.d == 1) by (nonlinear_arith)
            requires
                a == 0,
                q.d == 1,
        ;
        assert((0x10_0000 * a - 1) * q.d == -1) by (nonlinear_arith)
            requires
                a == 0,
                q.d == 1,
        ;
        assert(b * q.m == 0) by (nonlinear_arith)
            requires
                q.m == 0,
        ;
    }
}

proof fn lemma_one()
    ensures
        one().normal(),
{
    assert(pow2(52) == 0x10_0000_0000_0000) by {
        lemma2_to64_rest();
    }
}

/// The order of normal numbers shows in their parts.
proof fn lemma_less(a: Float, b: Float)
    requires
        a.normal(),
        b.normal(),
    ensures
        a.less(b) == (if a.m == 0 {
            b.m > 0
        } else if b.m == 0 {
            false
        } else if a.d == b.d {
            a.m < b.m
        } else {
            a.d > b.d
        }),
        a.d >= 1,
        b.d >= 1,
{
    let j = choose|j: nat| a.d == #[trigger] pow2(j);
    let k = choose|k: nat| b.d == #[trigger] pow2(k);
    lemma_pow2_pos(j);
    lemma_pow2_pos(k);
    let am = a.m as int;
    let bm = b.m as int;
    let ad = a.d as int;
    let bd = b.d as int;
    if am == 0 || bm == 0 {
        assert(am == 0 ==> am * bd == 0) by (nonlinear_arith);
        assert(bm == 0 ==> bm * ad == 0) by (nonlinear_arith);
        assert(bm > 0 ==> bm * ad > 0) by (nonlinear_arith)
            requires
                ad >= 1,
        ;
        assert(am > 0 ==> am * bd > 0) by (nonlinear_arith)
            requires
                bd >= 1,
        ;
    } else if ad == bd {
        assert(am < bm <==> am * bd < bm * ad) by (nonlinear_arith)
            requires
                ad == bd,
                ad >= 1,
        ;
    } else {
        if j < k {
            lemma_pow2_strictly_increases(j, k);
            lemma_pow2_double(j);
            if j + 1 < k {
                lemma_pow2_strictly_increases(j + 1, k);
            }
            assert(bd >= 2 * ad);
            assert(am * bd > bm * ad) by (nonlinear_arith)
                requires
                    bd >= 2 * ad,
                    ad >= 1,
                    am >= 0x10_0000_0000_0000,
                    bm < 0x20_0000_0000_0000,
            ;
        } else if k < j {
            lemma_pow2_strictly_increases(k, j);
            lemma_pow2_double(k);
            if k + 1 < j {
                lemma_pow2_strictly_increases(k + 1, j);
            }
            assert(ad >= 2 * bd);
            assert(am * bd < bm * ad) by (nonlinear_arith)
                requires
                    ad >= 2 * bd,
                    bd >= 1,
                    bm >= 0x10_0000_0000_0000,
                    am < 0x20_0000_0000_0000,
            ;
        }
    }
}

fn less(a: Float, b: Float) -> (r: bool)
    requires
        a.normal(),
        b.normal(),
    ensures
        r == a.less(b),
{
    proof {
        lemma_less(a, b);
    }
    if a.m == 0 {
        b.m > 0
    } else if b.m == 0 {
        false
    } else if a.d == b.d {
        a.m < b.m
    } else {
        a.d > b.d
    }
}

fn min(a: Float, b: Float) -> (r: Float)
    requires
        a.normal(),
        b.normal(),
    ensures
        r == min_of(a, b),
        r.normal(),
{
    if less(b, a) {
        b
    } else {
        a
    }
}

/// The nearest integer to `num / den`, half-way cases to even.
fn div_round_even(num: u128, den: u128) -> (r: u128)
    requires
        den > 0,
        num < 0x100_0000_0000_0000_0000_0000_0000,
        den < 0x100_0000_0000_0000_0000_0000_0000,
    ensures
        r == round_even(num as int, den as int),
{
    let q: u128 = num / den;
    let rem: u128 = num % den;
    assert(q <= num) by (nonlinear_arith)
        requires
            q == num / den,
            den > 0,
    ;
    assert(rem < den);
    if 2 * rem > den || (2 * rem == den && q % 2 == 1) {
        q + 1
    } else {
        q
    }
}

/// The binary64 quotient `a / b`.
fn quotient(a: u32, b: u32) -> (r: Float)
    requires
        b > 0,
    ensures
        r == quotient_of(a as int, b as int),
        r.normal(),
{
    proof {
        lemma_quotient(a as int, b as int);
    }
    if a == 0 {
        return Float { m: 0, d: 1 };
    }
    let ghost ai = a as int;
    let ghost bi = b as int;
    let target: u128 = MIN_BITS * (b as u128);
    let mut n: u128 = a as u128;
    let mut d: u128 = 1;
    assert(ai * 1 == ai);
    while n < target
        invariant
            0 < ai < 0x1_0000_0000,
            0 < bi < 0x1_0000_0000,
            target == 0x10_0000_0000_0000 * bi,
            n == ai * d,
            d >= 1,
            d <= n,
            n < 2 * target,
            scale_up(ai, bi, d as int) == scale_up(ai, bi, 1),
        decreases 2 * target - n,
    {
        assert(ai * (2 * d) == 2 * n) by (nonlinear_arith)
            requires
                n == ai * d,
        ;
        n = 2 * n;
        d = 2 * d;
    }
    assert(d == scale_up(ai, bi, 1));
    let m: u128 = div_round_even(n, b as u128);
    if m == 2 * MIN_BITS {
        Float { m: MIN_BITS, d: d / 2 }
    } else {
        proof {
            lemma_round_even(n as int, bi);
        }
        Float { m, d }
    }
}

/// The binary64 product of `w` and `s`, rounded to the nearest integer.
fn scaled(w: u32, s: Float) -> (r: u32)
    requires
        s.normal(),
        s.m <= s.d,
    ensures
        r == scaled_of(w as int, s),
        r <= w,
{
    let ghost wi = w as int;
    let d: u128 = s.d;
    proof {
        lemma_less(s, s);
        assert(wi * s.m < 0x20_0000_0000_0000_0000_0000) by (nonlinear_arith)
            requires
                0 <= wi < 0x1_0000_0000,
                s.m < 0x20_0000_0000_0000,
        ;
        assert(0x10_0000 * (wi * s.m) <= (0x10_0000 * wi + 1) * s.d) by (nonlinear_arith)
            requires
                wi >= 0,
                s.m <= s.d,
        ;
        lemma_scaled(wi, s, wi);
    }
    let x: u128 = (w as u128) * s.m;
    let mut k: u128 = 1;
    while x >= 0x20_0000_0000_0000 * k
        invariant
            k >= 1,
            x < 0x20_0000_0000_0000_0000_0000,
            k < 0x2_0000_0000,
            unit_of(x as int, k as int) == unit_of(x as int, 1),
        decreases x - k,
    {
        k = 2 * k;
    }
    proof {
        lemma_round_even(x as int, k as int);
        assert(round_even(x as int, k as int) * k <= x + k) by (nonlinear_arith)
            requires
                2 * (round_even(x as int, k as int) * k - x) <= k,
                k >= 1,
        ;
    }
    let p: u128 = div_round_even(x, k) * k;
    ((2 * p + d) / (2 * d)) as u32
}

/// The scale at which `w` by `h` fits.
fn scale(w: u32, h: u32, max_w: u32, max_h: u32) -> (r: Float)
    ensures
        r == scale_of(w as int, h as int, max_w as int, max_h as int),
        r.normal(),
        r.m <= r.d,
{
    proof {
        lemma_one();
    }
    let one = Float { m: MIN_BITS, d: MIN_BITS };
    let r = if w > 0 && h > 0 {
        min(min(quotient(max_w, w), quotient(max_h, h)), one)
    } else if w > 0 {
        min(quotient(max_w, w), one)
    } else if h > 0 {
        min(quotient(max_h, h), one)
    } else {
        one
    };
    proof {
        if one.less(r) {
        } else {
            assert(r.m <= r.d) by (nonlinear_arith)
                requires
                    !(one.m * r.d < r.m * one.d),
                    one.m == one.d,
                    one.m > 0,
            ;
        }
        lemma_less(one, r);
        lemma_less(r, one);
    }
    r
}

/// Largest size with the same aspect ratio that fits in `max_w`x`max_h`, never upscaling.
pub fn fit_within(w: u32, h: u32, max_w: u32, max_h: u32) -> (r: (u32, u32))
    ensures
        (r.0 as int, r.1 as int) == fit_of(w as int, h as int, max_w as int, max_h as int),
        r.0 <= w || r.0 == 1,
        r.1 <= h || r.1 == 1,
{
    let s = scale(w, h, max_w, max_h);
    let a: u32 = scaled(w, s);
    let b: u32 = scaled(h, s);
    (if a < 1 {
        1
    } else {
        a
    }, if b < 1 {
        1
    } else {
        b
    })
}

/// The scale is at most 1, at most either quotient, and one of the three.
proof fn lemma_scale(w: int, h: int, max_w: int, max_h: int)
    requires
        0 <= w < 0x1_0000_0000,
        0 <= h < 0x1_0000_0000,
        0 <= max_w < 0x1_0000_0000,
        0 <= max_h < 0x1_0000_0000,
    ensures
        ({
            let s = scale_of(w, h, max_w, max_h);
            &&& s.normal()
            &&& s.d >= 1
            &&& s.m <= s.d
            &&& w > 0 ==> s.m * quotient_of(max_w, w).d <= quotient_of(max_w, w).m * s.d
            &&& h > 0 ==> s.m * quotient_of(max_h, h).d <= quotient_of(max_h, h).m * s.d
            &&& s == one() || (w > 0 && s == quotient_of(max_w, w)) || (h > 0 && s == quotient_of(
                max_h,
                h,
            ))
        }),
{
    let s = scale_of(w, h, max_w, max_h);
    let o = one();
    lemma_one();
    if w > 0 {
        lemma_quotient(max_w, w);
    }
    if h > 0 {
        lemma_quotient(max_h, h);
    }
    let q = if w > 0 {
        quotient_of(max_w, w)
    } else {
        o
    };
    let r = if h > 0 {
        quotient_of(max_h, h)
    } else {
        o
    };
    lemma_less(q, r);
    lemma_less(r, q);
    lemma_less(o, q);
    lemma_less(o, r);
    lemma_less(q, o);
    lemma_less(r, o);
    assert(!(o.less(s)) ==> s.m <= s.d) by (nonlinear_arith)
        requires
            o.less(s) == (o.m * s.d < s.m * o.d),
            o.m == o.d,
            o.m > 0,
    ;
}

/// The result is no larger than asked for. A side is never less than one pixel.
pub proof fn law_fits(w: int, h: int, max_w: int, max_h: int)
    requires
        0 <= w <= u32::MAX,
        0 <= h <= u32::MAX,
        0 <= max_w <= u32::MAX,
        0 <= max_h <= u32::MAX,
    ensures
        1 <= fit_of(w, h, max_w, max_h).0 <= at_least_one(max_w),
        1 <= fit_of(w, h, max_w, max_h).1 <= at_least_one(max_h),
{
    let s = scale_of(w, h, max_w, max_h);
    lemma_scale(w, h, max_w, max_h);
    lemma_side_fits(w, max_w, s);
    lemma_side_fits(h, max_h, s);
}

proof fn lemma_side_fits(w: int, max: int, s: Float)
    requires
        0 <= w < 0x1_0000_0000,
        0 <= max < 0x1_0000_0000,
        s.d >= 1,
        w > 0 ==> s.m * quotient_of(max, w).d <= quotient_of(max, w).m * s.d,
    ensures
        scaled_of(w, s) <= max,
{
    lemma_scaled(w, s, max);
    let sm = s.m as int;
    let sd = s.d as int;
    if w == 0 {
        assert(w * sm == 0) by (nonlinear_arith)
            requires
                w == 0,
        ;
        assert(0 <= (0x10_0000 * max + 1) * sd) by (nonlinear_arith)
            requires
                max >= 0,
                sd >= 1,
        ;
    } else {
        lemma_quotient(max, w);
        let q = quotient_of(max, w);
        let qm = q.m as int;
        let qd = q.d as int;
        let b = 0x10_0000 * max + 1;
        assert(0x10_0000 * (w * sm) <= b * sd) by (nonlinear_arith)
            requires
                sm * qd <= qm * sd,
                0x10_0000 * (w * qm) <= b * qd,
                qd >= 1,
                sd >= 1,
                w > 0,
        {
            assert((0x10_0000 * w) * (sm * qd) <= (0x10_0000 * w) * (qm * sd));
            assert((0x10_0000 * (w * qm)) * sd <= (b * qd) * sd);
            assert((0x10_0000 * (w * sm)) * qd <= (b * sd) * qd);
        }
    }
}

/// The result is never larger than the image, but for the one pixel that a side has at least.
pub proof fn law_never_upscales(w: int, h: int, max_w: int, max_h: int)
    requires
        0 <= w <= u32::MAX,
        0 <= h <= u32::MAX,
        0 <= max_w <= u32::MAX,
        0 <= max_h <= u32::MAX,
    ensures
        fit_of(w, h, max_w, max_h).0 <= at_least_one(w),
        fit_of(w, h, max_w, max_h).1 <= at_least_one(h),
{
    let s = scale_of(w, h, max_w, max_h);
    lemma_scale(w, h, max_w, max_h);
    lemma_scaled(w, s, w);
    lemma_scaled(h, s, h);
    assert(0x10_0000 * (w * s.m) <= (0x10_0000 * w + 1) * s.d) by (nonlinear_arith)
        requires
            w >= 0,
            s.m <= s.d,
    ;
    assert(0x10_0000 * (h * s.m) <= (0x10_0000 * h + 1) * s.d) by (nonlinear_arith)
        requires
            h >= 0,
            s.m <= s.d,
    ;
}

/// An image that fits keeps its size.
pub proof fn law_fitting_image_keeps_size(w: int, h: int, max_w: int, max_h: int)
    requires
        1 <= w <= max_w <= u32::MAX,
        1 <= h <= max_h <= u32::MAX,
    ensures
        fit_of(w, h, max_w, max_h) == (w, h),
{
    let s = scale_of(w, h, max_w, max_h);
    let o = one();
    lemma_one();
    lemma_scale(w, h, max_w, max_h);
    lemma_quotient(max_w, w);
    lemma_quotient(max_h, h);
    assert(s.m >= s.d);
    assert(s.m == s.d);
    lemma_scaled(w, s, w);
    lemma_scaled(h, s, h);
    assert(0x10_0000 * (w * s.m) <= (0x10_0000 * w + 1) * s.d && 0x10_0000 * (w * s.m) >= (
    0x10_0000 * w - 1) * s.d) by (nonlinear_arith)
        requires
            s.m == s.d,
            s.d >= 1,
    ;
    assert(0x10_0000 * (h * s.m) <= (0x10_0000 * h + 1) * s.d && 0x10_0000 * (h * s.m) >= (
    0x10_0000 * h - 1) * s.d) by (nonlinear_arith)
        requires
            s.m == s.d,
            s.d >= 1,
    ;
}

/// An image that does not fit is made as large as the bounds let it: one side reaches its bound.
pub proof fn law_one_side_reaches_its_bound(w: int, h: int, max_w: int, max_h: int)
    requires
        1 <= w <= u32::MAX,
        1 <= h <= u32::MAX,
        1 <= max_w <= u32::MAX,
        1 <= max_h <= u32::MAX,
        w > max_w || h > max_h,
    ensures
        fit_of(w, h, max_w, max_h).0 == max_w || fit_of(w, h, max_w, max_h).1 == max_h,
{
    let s = scale_of(w, h, max_w, max_h);
    let q = quotient_of(max_w, w);
    let r = quotient_of(max_h, h);
    let o = one();
    lemma_one();
    lemma_scale(w, h, max_w, max_h);
    lemma_quotient(max_w, w);
    lemma_quotient(max_h, h);
    lemma_scaled(w, s, max_w);
    lemma_scaled(h, s, max_h);
    lemma_less(q, r);
    lemma_less(r, q);
    lemma_less(o, q);
    lemma_less(o, r);
    if s == o && s != q && s != r {
        assert(o.less(q) && o.less(r));
        assert(q.m > q.d) by (nonlinear_arith)
            requires
                o.m * q.d < q.m * o.d,
                o.m == o.d,
                o.m > 0,
        ;
        assert(r.m > r.d) by (nonlinear_arith)
            requires
                o.m * r.d < r.m * o.d,
                o.m == o.d,
                o.m > 0,
        ;
        assert(false);
    }
}

/// A scaled length is within half a pixel of the exact one, but for what binary64 rounds off.
proof fn lemma_scaled_near(w: int, s: Float)
    requires
        0 <= w < 0x1_0000_0000,
        s.d >= 1,
        s.m <= s.d,
    ensures
        0x10_0000 * (2 * (s.d * scaled_of(w, s)) - 2 * (w * s.m)) <= 0x10_0001 * s.d,
        0x10_0000 * (2 * (s.d * scaled_of(w, s)) - 2 * (w * s.m)) >= -0x10_0001 * s.d,
{
    let d = s.d as int;
    let x = w * s.m;
    assert(0 <= x <= 0x1_0000_0000 * d) by (nonlinear_arith)
        requires
            0 <= w < 0x1_0000_0000,
            x == w * s.m,
            s.m <= d,
    ;
    let k = unit_of(x, 1);
    lemma_unit(x, 1);
    lemma_round_even(x, k);
    let p = round_even(x, k) * k;
    assert(-k <= 2 * (p - x) <= k);
    if k == 1 {
        assert(p == x) by (nonlinear_arith)
            requires
                p == round_even(x, k) * k,
                k == 1,
                round_even(x, k) == x,
        ;
    }
    assert(-x <= 0x20_0000_0000_0000 * (p - x) <= x);
    assert(-d <= 0x20_0000 * (p - x) <= d);
    let r = (2 * p + d) / (2 * d);
    assert(2 * p - d <= 2 * (d * r) <= 2 * p + d) by (nonlinear_arith)
        requires
            r == (2 * p + d) / (2 * d),
            d >= 1,
    ;
}

/// The other side of an image whose side `w` is scaled to `max` follows it.
proof fn lemma_other_side(w: int, h: int, max: int, s: Float)
    requires
        1 <= w < 0x1_0000_0000,
        1 <= h < 0x1_0000_0000,
        1 <= max < 0x1_0000_0000,
        s.d >= 1,
        s.m <= s.d,
        0x10_0000 * (w * (h * s.m)) <= (0x10_0000 * (h * max) + h) * s.d,
        0x10_0000 * (w * (h * s.m)) >= (0x10_0000 * (h * max) - h - w) * s.d,
    ensures
        ({
            let sc = scaled_of(h, s);
            &&& 0x10_0000 * (2 * (w * sc) - 2 * (h * max)) <= 0x10_0003 * w + 2 * h
            &&& 0x10_0000 * (2 * (h * max) - 2 * (w * sc)) <= 0x10_0003 * w + 2 * h
        }),
{
    lemma_scaled_near(h, s);
    let sc = scaled_of(h, s);
    let d = s.d as int;
    let x = h * s.m;
    let dsc = d * sc;
    let wx = w * x;
    let hm = h * max;
    let wsc = w * sc;
    assert(0x10_0000 * (2 * (w * dsc) - 2 * wx) <= 0x10_0001 * (w * d) && 0x10_0000 * (2 * (w * dsc) - 2
        * wx) >= -0x10_0001 * (w * d)) by (nonlinear_arith)
        requires
            0x10_0000 * (2 * dsc - 2 * x) <= 0x10_0001 * d,
            0x10_0000 * (2 * dsc - 2 * x) >= -0x10_0001 * d,
            wx == w * x,
            w >= 1,
    ;
    assert(w * dsc == d * wsc) by (nonlinear_arith)
        requires
            dsc == d * sc,
            wsc == w * sc,
    ;
    assert((0x10_0000 * hm + h) * d == d * (0x10_0000 * hm + h) && (0x10_0000 * hm - h - w) * d == d * (
    0x10_0000 * hm - h - w)) by (nonlinear_arith);
    assert(w * d == d * w) by (nonlinear_arith);
    let t = 2 * (0x10_0000 * wsc);
    let top = 2 * (0x10_0000 * hm + h) + 0x10_0001 * w;
    let low = 2 * (0x10_0000 * hm - h - w) - 0x10_0001 * w;
    assert(d * t <= d * top && d * t >= d * low) by (nonlinear_arith)
        requires
            0x10_0000 * (2 * (d * wsc) - 2 * wx) <= 0x10_0001 * (d * w),
            0x10_0000 * (2 * (d * wsc) - 2 * wx) >= -0x10_0001 * (d * w),
            0x10_0000 * wx <= d * (0x10_0000 * hm + h),
            0x10_0000 * wx >= d * (0x10_0000 * hm - h - w),
            t == 2 * (0x10_0000 * wsc),
            top == 2 * (0x10_0000 * hm + h) + 0x10_0001 * w,
            low == 2 * (0x10_0000 * hm - h - w) - 0x10_0001 * w,
    ;
    assert(t <= top && t >= low) by (nonlinear_arith)
        requires
            d * t <= d * top,
            d * t >= d * low,
            d >= 1,
    ;
}

/// What a scale that is the smaller of two, and fits `w` in `max`, makes of the other side.
proof fn lemma_scale_of_sides(w: int, h: int, max: int, other: int, s: Float)
    requires
        1 <= w < 0x1_0000_0000,
        1 <= h < 0x1_0000_0000,
        1 <= max < w,
        1 <= other < 0x1_0000_0000,
        max * h <= other * w,
        s.d >= 1,
        s.m <= s.d,
        s.m * quotient_of(max, w).d <= quotient_of(max, w).m * s.d,
        s == one() || s == quotient_of(max, w) || s == quotient_of(other, h),
    ensures
        0x10_0000 * (w * (h * s.m)) <= (0x10_0000 * (h * max) + h) * s.d,
        0x10_0000 * (w * (h * s.m)) >= (0x10_0000 * (h * max) - h - w) * s.d,
{
    lemma_quotient(max, w);
    lemma_quotient(other, h);
    let q = quotient_of(max, w);
    let sm = s.m as int;
    let sd = s.d as int;
    let qm = q.m as int;
    let qd = q.d as int;
    let wq = w * qm;
    let b = 0x10_0000 * max + 1;
    assert(0x10_0000 * (w * sm) <= b * sd) by (nonlinear_arith)
        requires
            sm * qd <= qm * sd,
            0x10_0000 * (w * qm) <= b * qd,
            qd >= 1,
            sd >= 1,
            w >= 1,
    {
        assert((0x10_0000 * w) * (sm * qd) <= (0x10_0000 * w) * (qm * sd));
        assert((0x10_0000 * (w * qm)) * sd <= (b * qd) * sd);
        assert((0x10_0000 * (w * sm)) * qd <= (b * sd) * qd);
    }
    let ws = w * sm;
    let x = w * (h * sm);
    assert(x == h * ws) by (nonlinear_arith)
        requires
            x == w * (h * sm),
            ws == w * sm,
    ;
    assert(0x10_0000 * x <= (0x10_0000 * (h * max) + h) * sd) by (nonlinear_arith)
        requires
            0x10_0000 * ws <= (0x10_0000 * max + 1) * sd,
            x == h * ws,
            h >= 1,
    ;
    if s == quotient_of(other, h) && s != q && s != one() {
        let hs = h * sm;
        assert(x == w * hs);
        assert(0x10_0000 * x >= (0x10_0000 * (h * max) - w) * sd) by (nonlinear_arith)
            requires
                0x10_0000 * hs >= (0x10_0000 * other - 1) * sd,
                x == w * hs,
                max * h <= other * w,
                w >= 1,
                sd >= 1,
        {
            assert(0x10_0000 * (w * hs) >= w * ((0x10_0000 * other - 1) * sd));
            assert(w * ((0x10_0000 * other - 1) * sd) == (0x10_0000 * (other * w) - w) * sd);
            assert((0x10_0000 * (other * w) - w) * sd >= (0x10_0000 * (max * h) - w) * sd);
            assert(max * h == h * max);
        }
    } else {
        assert(0x10_0000 * ws >= (0x10_0000 * max - 1) * sd) by {
            if s == one() {
                assert(ws >= max * sd) by (nonlinear_arith)
                    requires
                        ws == w * sm,
                        sm == sd,
                        max < w,
                        sd >= 1,
                ;
                assert((0x10_0000 * max - 1) * sd == 0x10_0000 * (max * sd) - sd) by (nonlinear_arith);
            }
        }
        assert(0x10_0000 * x >= (0x10_0000 * (h * max) - h) * sd) by (nonlinear_arith)
            requires
                0x10_0000 * ws >= (0x10_0000 * max - 1) * sd,
                x == h * ws,
                h >= 1,
        ;
    }
    assert((0x10_0000 * (h * max) - h) * sd >= (0x10_0000 * (h * max) - h - w) * sd && (0x10_0000 * (h
        * max) - w) * sd >= (0x10_0000 * (h * max) - h - w) * sd) by (nonlinear_arith)
        requires
            w >= 1,
            h >= 1,
            sd >= 1,
    ;
}

/// The aspect ratio is kept: where the width is what has to be cut down most, the height is the one
/// that belongs to the new width, to half a pixel and a millionth part, and likewise the other way
/// round. A side is never less than one pixel.
pub proof fn law_aspect_ratio_is_kept(w: int, h: int, max_w: int, max_h: int)
    requires
        1 <= w <= u32::MAX,
        1 <= h <= u32::MAX,
        1 <= max_w <= u32::MAX,
        1 <= max_h <= u32::MAX,
        w > max_w || h > max_h,
    ensures
        ({
            let (fw, fh) = fit_of(w, h, max_w, max_h);
            &&& max_w * h <= max_h * w && fh > 1 ==> 0x10_0000 * (2 * (w * fh) - 2 * (h * max_w))
                <= 0x10_0003 * w + 2 * h && 0x10_0000 * (2 * (h * max_w) - 2 * (w * fh)) <= 0x10_0003
                * w + 2 * h
            &&& max_h * w <= max_w * h && fw > 1 ==> 0x10_0000 * (2 * (h * fw) - 2 * (w * max_h))
                <= 0x10_0003 * h + 2 * w && 0x10_0000 * (2 * (w * max_h) - 2 * (h * fw)) <= 0x10_0003
                * h + 2 * w
        }),
{
    let s = scale_of(w, h, max_w, max_h);
    lemma_scale(w, h, max_w, max_h);
    if max_w * h <= max_h * w {
        assert(max_w < w) by (nonlinear_arith)
            requires
                max_w * h <= max_h * w,
                w > max_w || h > max_h,
                1 <= w,
                1 <= h,
                1 <= max_w,
                1 <= max_h,
        ;
        lemma_scale_of_sides(w, h, max_w, max_h, s);
        lemma_other_side(w, h, max_w, s);
    }
    if max_h * w <= max_w * h {
        assert(max_h < h) by (nonlinear_arith)
            requires
                max_h * w <= max_w * h,
                w > max_w || h > max_h,
                1 <= w,
                1 <= h,
                1 <= max_w,
                1 <= max_h,
        ;
        lemma_scale_of_sides(h, w, max_h, max_w, s);
        lemma_other_side(h, w, max_h, s);
    }
}

} // verus!
